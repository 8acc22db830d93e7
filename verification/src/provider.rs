//! The capability contract every storage backend satisfies: open a named
//! input, open a named output, open the standard output sink.
//!
//! Each backend decides independently whether a name exists for it;
//! absence is signaled as `NotAvailable`, never as a fatal error, unless
//! the backend itself is unusable.

use vstd::prelude::*;
use crate::handles::{InputHandle, InputHandleV, OutputHandle, OutputHandleV};
use crate::open_result::{OpenAnswer, OpenResult};

verus! {

/// A storage backend. The three spec functions model what the backend,
/// in its current state, would answer; each open call returns exactly
/// that answer for the state it was called in.
pub trait IoProvider: Sized {
    /// The answer this backend gives when asked to open `name` for
    /// reading.
    spec fn input_answer(&self, name: Seq<char>) -> OpenAnswer<InputHandleV>;

    /// The answer this backend gives when asked to open `name` for
    /// writing.
    spec fn output_answer(&self, name: Seq<char>) -> OpenAnswer<OutputHandleV>;

    /// The answer this backend gives when asked for the standard output
    /// sink.
    spec fn stdout_answer(&self) -> OpenAnswer<OutputHandleV>;

    /// Open the input named `name`.
    fn input_open_name(&mut self, name: &str) -> (r: OpenResult<InputHandle>)
        ensures
            r@ == old(self).input_answer(name@),
    ;

    /// Open the output named `name`.
    fn output_open_name(&mut self, name: &str) -> (r: OpenResult<OutputHandle>)
        ensures
            r@ == old(self).output_answer(name@),
    ;

    /// Open the standard output sink.
    fn output_open_stdout(&mut self) -> (r: OpenResult<OutputHandle>)
        ensures
            r@ == old(self).stdout_answer(),
    ;
}

/// A boxed backend answers as the backend it holds.
impl<B: IoProvider> IoProvider for Box<B> {
    open spec fn input_answer(&self, name: Seq<char>) -> OpenAnswer<InputHandleV> {
        (**self).input_answer(name)
    }

    open spec fn output_answer(&self, name: Seq<char>) -> OpenAnswer<OutputHandleV> {
        (**self).output_answer(name)
    }

    open spec fn stdout_answer(&self) -> OpenAnswer<OutputHandleV> {
        (**self).stdout_answer()
    }

    fn input_open_name(&mut self, name: &str) -> (r: OpenResult<InputHandle>) {
        (**self).input_open_name(name)
    }

    fn output_open_name(&mut self, name: &str) -> (r: OpenResult<OutputHandle>) {
        (**self).output_open_name(name)
    }

    fn output_open_stdout(&mut self) -> (r: OpenResult<OutputHandle>) {
        (**self).output_open_stdout()
    }
}

} // verus!
