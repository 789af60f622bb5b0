//! The error type shared by every layer.
use vstd::prelude::*;

verus! {

/// What went wrong.
#[derive(Debug, Clone, PartialEq, Eq)]
pub enum Error {
    /// The input breaks a rule of its format; the text says which.
    Invalid(String),
    /// The underlying storage could not be read.
    Io,
}

/// The mathematical counterpart of [`Error`].
#[verifier::ext_equal]
pub enum Fault {
    Invalid(Seq<char>),
    Io,
}

impl View for Error {
    type V = Fault;

    open spec fn view(&self) -> Fault {
        match self {
            Error::Invalid(text) => Fault::Invalid(text@),
            Error::Io => Fault::Io,
        }
    }
}

/// A result with its value and its error replaced by their views.
pub open spec fn seen<T: View>(r: Result<T, Error>) -> Result<T::V, Fault> {
    match r {
        Ok(v) => Ok(v@),
        Err(e) => Err(e@),
    }
}

/// `r` is what `expected` says, unless the storage is unreliable and `r`
/// reports that it failed.
pub open spec fn told<T: View>(
    unreliable: bool,
    r: Result<T, Error>,
    expected: Result<T::V, Fault>,
) -> bool {
    seen(r) == expected || (unreliable && r is Err && r->Err_0 is Io)
}

/// The failure of a check, with its message.
pub open spec fn fail<T>(message: Seq<char>) -> Result<T, Fault> {
    Err(Fault::Invalid(message))
}

impl Error {
    /// An [`Error::Invalid`] with the given text.
    pub fn invalid(message: &str) -> (e: Error)
        ensures
            e@ == Fault::Invalid(message@),
    {
        Error::Invalid(message.to_owned())
    }

    /// The text to show a user.
    pub fn message(&self) -> (text: String)
        ensures
            text@ == (match self@ {
                Fault::Invalid(m) => m,
                Fault::Io => "input/output error"@,
            }),
    {
        match self {
            Error::Invalid(text) => text.clone(),
            Error::Io => "input/output error".to_owned(),
        }
    }
}

} // verus!
