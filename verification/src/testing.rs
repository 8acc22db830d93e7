//! Scripted in-memory backends for exercising the stack and bundle
//! logic without any real storage behind them.

use vstd::prelude::*;
use crate::bundle::Bundle;
use crate::handles::{InputHandle, InputHandleV, InputOrigin, OutputHandle, OutputHandleV};
use crate::open_result::{IoError, OpenAnswer, OpenResult};
use crate::provider::IoProvider;

verus! {

/// The answer a scripted backend gives to every input open.
pub enum InputScript {
    NotAvailable,
    Fatal(IoError),
    Success { name: String, origin: InputOrigin, content: Vec<u8> },
}

/// The answer a scripted backend gives to every output open.
pub enum OutputScript {
    NotAvailable,
    Fatal(IoError),
    Accept { name: String },
}

/// The open answer an input script stands for.
pub open spec fn input_script_answer(s: InputScript) -> OpenAnswer<InputHandleV> {
    match s {
        InputScript::NotAvailable => OpenAnswer::NotAvailable,
        InputScript::Fatal(e) => OpenAnswer::Fatal(e@),
        InputScript::Success { name, origin, content } => OpenAnswer::Success(
            InputHandleV { name: name@, origin, content: content@ },
        ),
    }
}

/// The open answer an output script stands for.
pub open spec fn output_script_answer(s: OutputScript) -> OpenAnswer<OutputHandleV> {
    match s {
        OutputScript::NotAvailable => OpenAnswer::NotAvailable,
        OutputScript::Fatal(e) => OpenAnswer::Fatal(e@),
        OutputScript::Accept { name } => OpenAnswer::Success(
            OutputHandleV { name: name@, content: Seq::<u8>::empty() },
        ),
    }
}

/// An identical copy of a byte vector.
fn clone_bytes(v: &Vec<u8>) -> (r: Vec<u8>)
    ensures
        r@ == v@,
{
    let mut out: Vec<u8> = Vec::new();
    let mut i: usize = 0;
    while i < v.len()
        invariant
            i <= v@.len(),
            out@ == v@.take(i as int),
        decreases v@.len() - i,
    {
        out.push(v[i]);
        proof {
            assert(out@ =~= v@.take(i + 1));
        }
        i += 1;
    }
    proof {
        assert(v@.take(v@.len() as int) =~= v@);
    }
    out
}

/// A backend with fixed scripted answers that counts how often it was
/// asked to open anything.
pub struct ScriptedIo {
    pub input_script: InputScript,
    pub output_script: OutputScript,
    pub queries: u64,
}

impl ScriptedIo {
    /// A scripted backend that has not been queried yet.
    pub fn new(input_script: InputScript, output_script: OutputScript) -> (s: ScriptedIo)
        ensures
            s.input_script == input_script,
            s.output_script == output_script,
            s.queries == 0,
    {
        ScriptedIo { input_script, output_script, queries: 0 }
    }

    /// How often this backend was asked to open anything.
    pub fn queries(&self) -> (n: u64)
        ensures
            n == self.queries,
    {
        self.queries
    }

    fn note_query(&mut self)
        ensures
            final(self).input_script == old(self).input_script,
            final(self).output_script == old(self).output_script,
            old(self).queries < u64::MAX ==> final(self).queries == old(self).queries + 1,
    {
        if self.queries < u64::MAX {
            self.queries = self.queries + 1;
        }
    }
}

impl IoProvider for ScriptedIo {
    open spec fn input_answer(&self, name: Seq<char>) -> OpenAnswer<InputHandleV> {
        input_script_answer(self.input_script)
    }

    open spec fn output_answer(&self, name: Seq<char>) -> OpenAnswer<OutputHandleV> {
        output_script_answer(self.output_script)
    }

    open spec fn stdout_answer(&self) -> OpenAnswer<OutputHandleV> {
        output_script_answer(self.output_script)
    }

    fn input_open_name(&mut self, name: &str) -> (r: OpenResult<InputHandle>) {
        self.note_query();
        match &self.input_script {
            InputScript::NotAvailable => OpenResult::NotAvailable,
            InputScript::Fatal(e) => OpenResult::Fatal(e.duplicate()),
            InputScript::Success { name: scripted, origin, content } => {
                let h = InputHandle::new(scripted.clone(), *origin, clone_bytes(content));
                proof {
                    assert(h@ =~= input_script_answer(old(self).input_script)->Success_0);
                }
                OpenResult::Success(h)
            },
        }
    }

    fn output_open_name(&mut self, name: &str) -> (r: OpenResult<OutputHandle>) {
        self.note_query();
        match &self.output_script {
            OutputScript::NotAvailable => OpenResult::NotAvailable,
            OutputScript::Fatal(e) => OpenResult::Fatal(e.duplicate()),
            OutputScript::Accept { name: scripted } => {
                let h = OutputHandle::new(scripted.clone());
                proof {
                    assert(h@ =~= output_script_answer(old(self).output_script)->Success_0);
                }
                OpenResult::Success(h)
            },
        }
    }

    fn output_open_stdout(&mut self) -> (r: OpenResult<OutputHandle>) {
        self.note_query();
        match &self.output_script {
            OutputScript::NotAvailable => OpenResult::NotAvailable,
            OutputScript::Fatal(e) => OpenResult::Fatal(e.duplicate()),
            OutputScript::Accept { name: scripted } => {
                let h = OutputHandle::new(scripted.clone());
                proof {
                    assert(h@ =~= output_script_answer(old(self).output_script)->Success_0);
                }
                OpenResult::Success(h)
            },
        }
    }
}

/// A scripted backend is also a bundle, answering digest retrieval the
/// default way, out of its scripted manifest file.
impl Bundle for ScriptedIo {
}

} // verus!
