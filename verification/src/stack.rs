//! The fallback resolver: an ordered, fixed list of providers composed
//! into a single provider.
//!
//! For every open call the providers are queried strictly in
//! registration order; the first answer other than `NotAvailable` —
//! a handle or a fatal error alike — is returned immediately and no
//! later provider is queried. Only if every provider answers
//! `NotAvailable` does the stack answer `NotAvailable`.

use vstd::prelude::*;
use crate::handles::{InputHandle, InputHandleV, OutputHandle, OutputHandleV};
use crate::open_result::{OpenAnswer, OpenResult};
use crate::provider::IoProvider;

verus! {

/// Index of the first provider whose answer to an input open would not
/// be `NotAvailable`, or the list's length if every answer would be.
pub open spec fn input_hit<P: IoProvider>(providers: Seq<P>, name: Seq<char>) -> int
    decreases providers.len(),
{
    if providers.len() == 0 {
        0
    } else if !(providers[0].input_answer(name) is NotAvailable) {
        0
    } else {
        1 + input_hit(providers.skip(1), name)
    }
}

/// The answer an ordered fallback search over `providers` gives to an
/// input open.
pub open spec fn resolve_input<P: IoProvider>(providers: Seq<P>, name: Seq<char>) -> OpenAnswer<
    InputHandleV,
> {
    if input_hit(providers, name) < providers.len() {
        providers[input_hit(providers, name)].input_answer(name)
    } else {
        OpenAnswer::NotAvailable
    }
}

/// As `input_hit`, for named output opens.
pub open spec fn output_hit<P: IoProvider>(providers: Seq<P>, name: Seq<char>) -> int
    decreases providers.len(),
{
    if providers.len() == 0 {
        0
    } else if !(providers[0].output_answer(name) is NotAvailable) {
        0
    } else {
        1 + output_hit(providers.skip(1), name)
    }
}

/// The answer an ordered fallback search gives to a named output open.
pub open spec fn resolve_output<P: IoProvider>(providers: Seq<P>, name: Seq<char>) -> OpenAnswer<
    OutputHandleV,
> {
    if output_hit(providers, name) < providers.len() {
        providers[output_hit(providers, name)].output_answer(name)
    } else {
        OpenAnswer::NotAvailable
    }
}

/// As `input_hit`, for the standard output sink.
pub open spec fn stdout_hit<P: IoProvider>(providers: Seq<P>) -> int
    decreases providers.len(),
{
    if providers.len() == 0 {
        0
    } else if !(providers[0].stdout_answer() is NotAvailable) {
        0
    } else {
        1 + stdout_hit(providers.skip(1))
    }
}

/// The answer an ordered fallback search gives for the standard output
/// sink.
pub open spec fn resolve_stdout<P: IoProvider>(providers: Seq<P>) -> OpenAnswer<OutputHandleV> {
    if stdout_hit(providers) < providers.len() {
        providers[stdout_hit(providers)].stdout_answer()
    } else {
        OpenAnswer::NotAvailable
    }
}

/// A prefix of `NotAvailable` answers followed by a decisive answer (or
/// by the end of the list) pins the hit index down.
proof fn lemma_input_hit_at<P: IoProvider>(providers: Seq<P>, name: Seq<char>, k: int)
    requires
        0 <= k <= providers.len(),
        forall|j: int| 0 <= j < k ==> (#[trigger] providers[j].input_answer(name)) is NotAvailable,
        k < providers.len() ==> !(providers[k].input_answer(name) is NotAvailable),
    ensures
        input_hit(providers, name) == k,
    decreases k,
{
    if k == 0 {
    } else {
        assert(providers[0].input_answer(name) is NotAvailable);
        let rest = providers.skip(1);
        assert(forall|j: int|
            0 <= j < k - 1 ==> (#[trigger] rest[j].input_answer(name)) is NotAvailable);
        assert(k - 1 < rest.len() ==> !(rest[k - 1].input_answer(name) is NotAvailable));
        lemma_input_hit_at(rest, name, k - 1);
    }
}

/// As `lemma_input_hit_at`, for named output opens.
proof fn lemma_output_hit_at<P: IoProvider>(providers: Seq<P>, name: Seq<char>, k: int)
    requires
        0 <= k <= providers.len(),
        forall|j: int| 0 <= j < k ==> (#[trigger] providers[j].output_answer(name)) is NotAvailable,
        k < providers.len() ==> !(providers[k].output_answer(name) is NotAvailable),
    ensures
        output_hit(providers, name) == k,
    decreases k,
{
    if k == 0 {
    } else {
        assert(providers[0].output_answer(name) is NotAvailable);
        let rest = providers.skip(1);
        assert(forall|j: int|
            0 <= j < k - 1 ==> (#[trigger] rest[j].output_answer(name)) is NotAvailable);
        assert(k - 1 < rest.len() ==> !(rest[k - 1].output_answer(name) is NotAvailable));
        lemma_output_hit_at(rest, name, k - 1);
    }
}

/// As `lemma_input_hit_at`, for the standard output sink.
proof fn lemma_stdout_hit_at<P: IoProvider>(providers: Seq<P>, k: int)
    requires
        0 <= k <= providers.len(),
        forall|j: int| 0 <= j < k ==> (#[trigger] providers[j].stdout_answer()) is NotAvailable,
        k < providers.len() ==> !(providers[k].stdout_answer() is NotAvailable),
    ensures
        stdout_hit(providers) == k,
    decreases k,
{
    if k == 0 {
    } else {
        assert(providers[0].stdout_answer() is NotAvailable);
        let rest = providers.skip(1);
        assert(forall|j: int|
            0 <= j < k - 1 ==> (#[trigger] rest[j].stdout_answer()) is NotAvailable);
        assert(k - 1 < rest.len() ==> !(rest[k - 1].stdout_answer() is NotAvailable));
        lemma_stdout_hit_at(rest, k - 1);
    }
}

/// An ordered list of providers acting as one. The order is significant
/// and fixed for the stack's lifetime; the providers are handed over at
/// construction and can be taken back when the stack is done.
pub struct IoStack<P: IoProvider> {
    providers: Vec<P>,
}

impl<P: IoProvider> IoStack<P> {
    /// The providers, in registration order.
    pub closed spec fn providers(&self) -> Seq<P> {
        self.providers@
    }

    /// Build a stack over `providers`, queried in the given order.
    pub fn new(providers: Vec<P>) -> (s: IoStack<P>)
        ensures
            s.providers() == providers@,
    {
        IoStack { providers }
    }

    /// Hand the providers back, in the order they were registered.
    pub fn into_providers(self) -> (r: Vec<P>)
        ensures
            r@ == self.providers(),
    {
        self.providers
    }

    /// Open a named input through the first provider that gives a
    /// decisive answer. Providers past that one are never queried.
    pub fn input_open_name(&mut self, name: &str) -> (r: OpenResult<InputHandle>)
        ensures
            r@ == resolve_input(old(self).providers(), name@),
            final(self).providers().len() == old(self).providers().len(),
            forall|j: int|
                input_hit(old(self).providers(), name@) < j < old(self).providers().len()
                    ==> final(self).providers()[j] == old(self).providers()[j],
    {
        let ghost orig = self.providers@;
        let mut i: usize = 0;
        while i < self.providers.len()
            invariant
                orig == old(self).providers(),
                i <= orig.len(),
                self.providers@.len() == orig.len(),
                forall|j: int| i <= j < orig.len() ==> self.providers@[j] == orig[j],
                forall|j: int|
                    0 <= j < i ==> (#[trigger] orig[j].input_answer(name@)) is NotAvailable,
            decreases orig.len() - i,
        {
            let p = &mut self.providers[i];
            let r = p.input_open_name(name);
            match r {
                OpenResult::NotAvailable => {
                    i += 1;
                },
                decisive => {
                    proof {
                        lemma_input_hit_at(orig, name@, i as int);
                    }
                    return decisive;
                },
            }
        }
        proof {
            lemma_input_hit_at(orig, name@, orig.len() as int);
        }
        OpenResult::NotAvailable
    }

    /// Open a named output through the first provider that gives a
    /// decisive answer. Providers past that one are never queried.
    pub fn output_open_name(&mut self, name: &str) -> (r: OpenResult<OutputHandle>)
        ensures
            r@ == resolve_output(old(self).providers(), name@),
            final(self).providers().len() == old(self).providers().len(),
            forall|j: int|
                output_hit(old(self).providers(), name@) < j < old(self).providers().len()
                    ==> final(self).providers()[j] == old(self).providers()[j],
    {
        let ghost orig = self.providers@;
        let mut i: usize = 0;
        while i < self.providers.len()
            invariant
                orig == old(self).providers(),
                i <= orig.len(),
                self.providers@.len() == orig.len(),
                forall|j: int| i <= j < orig.len() ==> self.providers@[j] == orig[j],
                forall|j: int|
                    0 <= j < i ==> (#[trigger] orig[j].output_answer(name@)) is NotAvailable,
            decreases orig.len() - i,
        {
            let p = &mut self.providers[i];
            let r = p.output_open_name(name);
            match r {
                OpenResult::NotAvailable => {
                    i += 1;
                },
                decisive => {
                    proof {
                        lemma_output_hit_at(orig, name@, i as int);
                    }
                    return decisive;
                },
            }
        }
        proof {
            lemma_output_hit_at(orig, name@, orig.len() as int);
        }
        OpenResult::NotAvailable
    }

    /// Open the standard output sink through the first provider that
    /// gives a decisive answer. Providers past that one are never
    /// queried.
    pub fn output_open_stdout(&mut self) -> (r: OpenResult<OutputHandle>)
        ensures
            r@ == resolve_stdout(old(self).providers()),
            final(self).providers().len() == old(self).providers().len(),
            forall|j: int|
                stdout_hit(old(self).providers()) < j < old(self).providers().len()
                    ==> final(self).providers()[j] == old(self).providers()[j],
    {
        let ghost orig = self.providers@;
        let mut i: usize = 0;
        while i < self.providers.len()
            invariant
                orig == old(self).providers(),
                i <= orig.len(),
                self.providers@.len() == orig.len(),
                forall|j: int| i <= j < orig.len() ==> self.providers@[j] == orig[j],
                forall|j: int| 0 <= j < i ==> (#[trigger] orig[j].stdout_answer()) is NotAvailable,
            decreases orig.len() - i,
        {
            let p = &mut self.providers[i];
            let r = p.output_open_stdout();
            match r {
                OpenResult::NotAvailable => {
                    i += 1;
                },
                decisive => {
                    proof {
                        lemma_stdout_hit_at(orig, i as int);
                    }
                    return decisive;
                },
            }
        }
        proof {
            lemma_stdout_hit_at(orig, orig.len() as int);
        }
        OpenResult::NotAvailable
    }
}

/// The stack is itself a provider: its answer to any open is the answer
/// of the ordered fallback search over its providers.
impl<P: IoProvider> IoProvider for IoStack<P> {
    open spec fn input_answer(&self, name: Seq<char>) -> OpenAnswer<InputHandleV> {
        resolve_input(self.providers(), name)
    }

    open spec fn output_answer(&self, name: Seq<char>) -> OpenAnswer<OutputHandleV> {
        resolve_output(self.providers(), name)
    }

    open spec fn stdout_answer(&self) -> OpenAnswer<OutputHandleV> {
        resolve_stdout(self.providers())
    }

    fn input_open_name(&mut self, name: &str) -> (r: OpenResult<InputHandle>) {
        IoStack::input_open_name(self, name)
    }

    fn output_open_name(&mut self, name: &str) -> (r: OpenResult<OutputHandle>) {
        IoStack::output_open_name(self, name)
    }

    fn output_open_stdout(&mut self) -> (r: OpenResult<OutputHandle>) {
        IoStack::output_open_stdout(self)
    }
}

} // verus!
