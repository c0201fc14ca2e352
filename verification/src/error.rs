//! The errors of the store.

use vstd::prelude::*;
use vstd::string::*;

verus! {

/// What can go wrong in the store.
///
/// `NotFound` and `AlreadyExists` are business-rule violations: ordinary,
/// recoverable results that leave the table as it was. `InvalidFormat` and
/// `InvalidKey` are protocol errors of the line format. `Json` carries the
/// message of the JSON codec when it fails to print a value. The store does
/// no I/O, so it has no error for it.
#[derive(Debug)]
pub enum Error {
    /// The JSON codec reported an error; the text is its message.
    Json(String),
    /// No record is stored under the key.
    NotFound(String),
    /// A record is already stored under the key.
    AlreadyExists(String),
    /// A line could not be decoded; the text says why.
    InvalidFormat(String),
    /// A key breaks the key format; the text says how.
    InvalidKey(String),
}

/// An [`Error`] as contracts see it: the variant and its text.
pub enum ErrorView {
    Json(Seq<char>),
    NotFound(Seq<char>),
    AlreadyExists(Seq<char>),
    InvalidFormat(Seq<char>),
    InvalidKey(Seq<char>),
}

impl ErrorView {
    /// The words an error's message starts with.
    pub open spec fn label(self) -> Seq<char> {
        match self {
            ErrorView::Json(_) => "JSON error: "@,
            ErrorView::NotFound(_) => "record not found: "@,
            ErrorView::AlreadyExists(_) => "record already exists: "@,
            ErrorView::InvalidFormat(_) => "invalid format: "@,
            ErrorView::InvalidKey(_) => "invalid key: "@,
        }
    }

    /// The text an error carries: a key, or what was wrong.
    pub open spec fn detail(self) -> Seq<char> {
        match self {
            ErrorView::Json(text) => text,
            ErrorView::NotFound(key) => key,
            ErrorView::AlreadyExists(key) => key,
            ErrorView::InvalidFormat(text) => text,
            ErrorView::InvalidKey(text) => text,
        }
    }

    /// The message of an error: its label, then its text.
    pub open spec fn message(self) -> Seq<char> {
        self.label() + self.detail()
    }
}

impl View for Error {
    type V = ErrorView;

    open spec fn view(&self) -> ErrorView {
        match self {
            Error::Json(text) => ErrorView::Json(text@),
            Error::NotFound(key) => ErrorView::NotFound(key@),
            Error::AlreadyExists(key) => ErrorView::AlreadyExists(key@),
            Error::InvalidFormat(text) => ErrorView::InvalidFormat(text@),
            Error::InvalidKey(text) => ErrorView::InvalidKey(text@),
        }
    }
}

impl Error {
    /// The message of the error: a label for the variant, then the text it
    /// carries.
    pub fn to_string(&self) -> (r: String)
        ensures
            r@ == self@.message(),
    {
        match self {
            Error::Json(text) => "JSON error: ".to_owned().concat(text.as_str()),
            Error::NotFound(key) => "record not found: ".to_owned().concat(key.as_str()),
            Error::AlreadyExists(key) => "record already exists: ".to_owned().concat(key.as_str()),
            Error::InvalidFormat(text) => "invalid format: ".to_owned().concat(text.as_str()),
            Error::InvalidKey(text) => "invalid key: ".to_owned().concat(text.as_str()),
        }
    }
}

} // verus!
