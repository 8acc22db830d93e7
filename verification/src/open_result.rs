//! The tri-state outcome of one open attempt, and the hard-error value it
//! can carry.
//!
//! A backend that merely lacks a resource answers `NotAvailable`; only an
//! unusable backend answers with a fatal error. The fallback stack relies
//! on that distinction.

use vstd::prelude::*;

verus! {

/// Classification of a hard failure, so a caller can tell a missing
/// digest manifest from a corrupted one and from other backend trouble.
#[derive(Clone, Copy, PartialEq, Eq, Structural, Debug)]
pub enum IoErrorKind {
    MissingDigest,
    CorruptedDigest,
    Backend,
}

/// The error a fatal open outcome carries. Its message originates in the
/// backend that produced it and propagates verbatim.
#[derive(Debug)]
pub struct IoError {
    pub kind: IoErrorKind,
    pub message: String,
}

/// Ghost image of an error: its classification and message text.
#[verifier::ext_equal]
pub ghost struct IoErrorV {
    pub kind: IoErrorKind,
    pub message: Seq<char>,
}

impl View for IoError {
    type V = IoErrorV;

    open spec fn view(&self) -> IoErrorV {
        IoErrorV { kind: self.kind, message: self.message@ }
    }
}

impl IoError {
    /// An identical copy of the error.
    pub fn duplicate(&self) -> (r: IoError)
        ensures
            r == *self,
    {
        IoError { kind: self.kind, message: self.message.clone() }
    }
}

/// Outcome of one open attempt: a handle, a soft miss, or a hard error.
/// `NotAvailable` never carries a handle or an error, `Err` always
/// carries an error, and exactly one variant is active.
pub enum OpenResult<T> {
    Success(T),
    NotAvailable,
    Fatal(IoError),
}

/// Ghost image of an open outcome, over the ghost image of the handle.
#[verifier::ext_equal]
pub ghost enum OpenAnswer<TV> {
    Success(TV),
    NotAvailable,
    Fatal(IoErrorV),
}

impl<T: View> View for OpenResult<T> {
    type V = OpenAnswer<T::V>;

    open spec fn view(&self) -> OpenAnswer<T::V> {
        match self {
            OpenResult::Success(h) => OpenAnswer::Success(h@),
            OpenResult::NotAvailable => OpenAnswer::NotAvailable,
            OpenResult::Fatal(e) => OpenAnswer::Fatal(e@),
        }
    }
}

} // verus!
