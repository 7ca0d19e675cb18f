use vstd::prelude::*;
use crate::frequency::Frequency;

verus! {

/// Why a text could not be read as a frequency. Each variant carries the
/// offending text.
#[derive(Debug, Clone, PartialEq, Eq, PartialOrd, Ord, Hash)]
pub enum Error {
    /// No unit suffix was recognised; holds the trimmed, lower-cased input.
    UnknownUnit(String),
    /// A unit was recognised but the text before it is not a non-negative
    /// number; holds that text.
    InvalidValue(String),
}

impl Error {
    /// The message for users: "Unknown unit: " or "Invalid value: " and the
    /// offending text.
    pub fn message(&self) -> (r: String)
        ensures
            r@ == match self {
                Error::UnknownUnit(u) => "Unknown unit: "@ + u@,
                Error::InvalidValue(v) => "Invalid value: "@ + v@,
            },
    {
        match self {
            Error::UnknownUnit(u) => {
                let mut r = String::from_str("Unknown unit: ");
                r.append(u.as_str());
                r
            },
            Error::InvalidValue(v) => {
                let mut r = String::from_str("Invalid value: ");
                r.append(v.as_str());
                r
            },
        }
    }
}

/// What an `Error` says, as a value for contracts.
pub enum ErrorView {
    UnknownUnit(Seq<char>),
    InvalidValue(Seq<char>),
}

impl View for Error {
    type V = ErrorView;

    open spec fn view(&self) -> ErrorView {
        match self {
            Error::UnknownUnit(u) => ErrorView::UnknownUnit(u@),
            Error::InvalidValue(v) => ErrorView::InvalidValue(v@),
        }
    }
}

/// A parse result as a hertz count or the view of its error.
pub open spec fn result_view(r: Result<Frequency, Error>) -> Result<u64, ErrorView> {
    match r {
        Ok(f) => Ok(f.0),
        Err(e) => Err(e@),
    }
}

} // verus!
