//! The interface of a DEFLATE-style coder. It fixes the signatures and the
//! error type; of the coding nothing is here, and both directions answer
//! every input with a single zero byte.

use vstd::prelude::*;

verus! {

/// The ways in which this coder can fail.
#[derive(Clone, Copy, Debug)]
pub enum ErrorKind {
    Other,
}

impl ErrorKind {
    /// A short description of the kind.
    pub fn as_str(&self) -> (s: &'static str)
        ensures
            s@ == self.description(),
    {
        match *self {
            ErrorKind::Other => "other deflate error",
        }
    }

    /// The text that [`ErrorKind::as_str`] returns.
    pub open spec fn description(&self) -> Seq<char> {
        match *self {
            ErrorKind::Other => "other deflate error"@,
        }
    }
}

/// A failure of this coder.
#[derive(Debug)]
pub struct Error {
    kind: ErrorKind,
}

impl Error {
    /// What went wrong.
    pub closed spec fn kind_of(&self) -> ErrorKind {
        self.kind
    }

    /// What went wrong.
    pub fn kind(&self) -> (k: ErrorKind)
        ensures
            k == self.kind_of(),
    {
        self.kind
    }

    /// The description of the error's kind.
    pub fn message(&self) -> (s: &'static str)
        ensures
            s@ == self.kind_of().description(),
    {
        self.kind.as_str()
    }
}

/// Answers every `buf` with a single zero byte.
pub fn deflate(buf: &[u8]) -> (r: Result<Vec<u8>, Error>)
    ensures
        r is Ok,
        r->Ok_0@ == seq![0u8],
{
    let mut out: Vec<u8> = Vec::new();
    out.push(0u8);
    Ok(out)
}

/// Answers every `buf` with a single zero byte.
pub fn inflate(buf: &[u8]) -> (r: Result<Vec<u8>, Error>)
    ensures
        r is Ok,
        r->Ok_0@ == seq![0u8],
{
    let mut out: Vec<u8> = Vec::new();
    out.push(0u8);
    Ok(out)
}

} // verus!
