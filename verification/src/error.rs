//! The ways in which a signature can fail to be read.

use vstd::prelude::*;

verus! {

/// Why a signature was refused.
#[derive(Debug, Clone, PartialEq, Eq)]
pub enum Error {
    /// The text holds no `::`.
    MissingSig,
    /// The text holds a `::`, but not the form `NAME :: TYPE`: nothing but
    /// whitespace follows the `::`, or a second `::` does; or every type was
    /// recognised, and the name is empty or holds `->`. Carries the text.
    MalformedSig(String),
    /// A type was not recognised. Carries the message of the failure.
    HsType(String),
}

/// An [`Error`] over sequences of characters.
pub enum ErrorView {
    MissingSig,
    MalformedSig(Seq<char>),
    HsType(Seq<char>),
}

impl View for Error {
    type V = ErrorView;

    open spec fn view(&self) -> ErrorView {
        match self {
            Error::MissingSig => ErrorView::MissingSig,
            Error::MalformedSig(text) => ErrorView::MalformedSig(text@),
            Error::HsType(message) => ErrorView::HsType(message@),
        }
    }
}

} // verus!
