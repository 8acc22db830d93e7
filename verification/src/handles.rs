//! Handles: a readable byte stream bound to a name, and a writable byte
//! sink bound to a name.
//!
//! At this layer a handle carries its bytes as plain values; translating
//! them to or from a host resource is a backend responsibility.

use vstd::prelude::*;

verus! {

/// Provenance of an opened input, attached once at open time. Downstream
/// logic may trust filesystem modification times, for instance, only for
/// handles of filesystem origin.
#[derive(Clone, Copy, PartialEq, Eq, Structural, Debug)]
pub enum InputOrigin {
    Filesystem,
    Other,
}

/// A readable byte stream bound to a name, exclusively owned by its
/// caller and read-only.
pub struct InputHandle {
    name: String,
    origin: InputOrigin,
    content: Vec<u8>,
}

/// Ghost image of an input handle.
#[verifier::ext_equal]
pub ghost struct InputHandleV {
    pub name: Seq<char>,
    pub origin: InputOrigin,
    pub content: Seq<u8>,
}

impl View for InputHandle {
    type V = InputHandleV;

    closed spec fn view(&self) -> InputHandleV {
        InputHandleV { name: self.name@, origin: self.origin, content: self.content@ }
    }
}

/// The leading `limit` bytes of a stream, or all of it if shorter.
pub open spec fn stream_prefix(content: Seq<u8>, limit: nat) -> Seq<u8> {
    if content.len() <= limit {
        content
    } else {
        content.take(limit as int)
    }
}

impl InputHandle {
    pub fn new(name: String, origin: InputOrigin, content: Vec<u8>) -> (h: InputHandle)
        ensures
            h@ == (InputHandleV { name: name@, origin, content: content@ }),
    {
        InputHandle { name, origin, content }
    }

    pub fn name(&self) -> (r: &String)
        ensures
            r@ == self@.name,
    {
        &self.name
    }

    pub fn origin(&self) -> (r: InputOrigin)
        ensures
            r == self@.origin,
    {
        self.origin
    }

    /// Read at most `limit` bytes from the front of the stream; bytes
    /// beyond the limit are never touched.
    pub fn read_prefix(&self, limit: usize) -> (r: Vec<u8>)
        ensures
            r@ == stream_prefix(self@.content, limit as nat),
    {
        let mut out: Vec<u8> = Vec::new();
        let mut i: usize = 0;
        while i < limit && i < self.content.len()
            invariant
                i <= self.content@.len(),
                i <= limit,
                out@ == self@.content.take(i as int),
            decreases self.content@.len() - i,
        {
            out.push(self.content[i]);
            proof {
                assert(out@ =~= self@.content.take(i + 1));
            }
            i += 1;
        }
        proof {
            if i == self.content@.len() {
                assert(self@.content.take(i as int) =~= self@.content);
            }
        }
        out
    }

    /// The whole remaining stream, consuming the handle.
    pub fn into_contents(self) -> (r: Vec<u8>)
        ensures
            r@ == self@.content,
    {
        self.content
    }
}

/// A writable byte sink bound to a name, exclusively owned by its
/// caller; the backend that produced it decides durability.
pub struct OutputHandle {
    name: String,
    content: Vec<u8>,
}

/// Ghost image of an output handle.
#[verifier::ext_equal]
pub ghost struct OutputHandleV {
    pub name: Seq<char>,
    pub content: Seq<u8>,
}

impl View for OutputHandle {
    type V = OutputHandleV;

    closed spec fn view(&self) -> OutputHandleV {
        OutputHandleV { name: self.name@, content: self.content@ }
    }
}

impl OutputHandle {
    pub fn new(name: String) -> (h: OutputHandle)
        ensures
            h@ == (OutputHandleV { name: name@, content: Seq::<u8>::empty() }),
    {
        OutputHandle { name, content: Vec::new() }
    }

    pub fn name(&self) -> (r: &String)
        ensures
            r@ == self@.name,
    {
        &self.name
    }

    /// Append bytes to the sink.
    pub fn write(&mut self, data: &[u8])
        ensures
            final(self)@.name == old(self)@.name,
            final(self)@.content == old(self)@.content + data@,
    {
        let mut i: usize = 0;
        while i < data.len()
            invariant
                i <= data@.len(),
                self@.name == old(self)@.name,
                self@.content == old(self)@.content + data@.take(i as int),
            decreases data@.len() - i,
        {
            let ghost prev = self@.content;
            self.content.push(data[i]);
            proof {
                assert(prev.push(data@[i as int]) =~= old(self)@.content + data@.take(i + 1));
            }
            i += 1;
        }
        proof {
            assert(data@.take(data@.len() as int) =~= data@);
        }
    }

    /// The bytes written so far, consuming the handle.
    pub fn into_contents(self) -> (r: Vec<u8>)
        ensures
            r@ == self@.content,
    {
        self.content
    }
}

} // verus!
