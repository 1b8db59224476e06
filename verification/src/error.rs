//! The failure type shared by the scanner and the parser.

use vstd::prelude::*;
use vstd::string::*;
use crate::text::push_char;

verus! {

/// Why a text or a token sequence was rejected.
#[derive(Debug, PartialEq, Eq)]
pub enum Error {
    /// The input ended while a construct was incomplete.
    UnexpectedEnd,
    /// The scanner met a character that cannot stand where it stands.
    UnexpectedChar(char),
    /// The parser met a token that cannot stand where it stands; the payload
    /// is the token's text.
    UnexpectedToken(String),
}

/// The mathematical content of an [`Error`].
pub enum ErrorModel {
    UnexpectedEnd,
    UnexpectedChar(char),
    UnexpectedToken(Seq<char>),
}

impl View for Error {
    type V = ErrorModel;

    open spec fn view(&self) -> ErrorModel {
        match self {
            Error::UnexpectedEnd => ErrorModel::UnexpectedEnd,
            Error::UnexpectedChar(c) => ErrorModel::UnexpectedChar(*c),
            Error::UnexpectedToken(t) => ErrorModel::UnexpectedToken(t@),
        }
    }
}

/// The human-readable rendering of an error.
pub open spec fn message_of(e: ErrorModel) -> Seq<char> {
    match e {
        ErrorModel::UnexpectedEnd => "unexpected end"@,
        ErrorModel::UnexpectedChar(c) => "unexpected token '"@.push(c).push('\''),
        ErrorModel::UnexpectedToken(t) => ("unexpected token '"@ + t).push('\''),
    }
}

impl Error {
    /// Renders the error as a message for a human reader.
    pub fn message(&self) -> (out: String)
        ensures
            out@ == message_of(self@),
    {
        match self {
            Error::UnexpectedEnd => String::from_str("unexpected end"),
            Error::UnexpectedChar(c) => {
                let mut s = String::from_str("unexpected token '");
                push_char(&mut s, *c);
                push_char(&mut s, '\'');
                s
            },
            Error::UnexpectedToken(t) => {
                let mut s = String::from_str("unexpected token '");
                s.append(t.as_str());
                push_char(&mut s, '\'');
                s
            },
        }
    }
}

} // verus!
