//! Error types shared by the parsers and the object readers.

use vstd::prelude::*;
use vstd::string::StringExecFns;

verus! {

/// Why a 16-character hexadecimal hash could not be parsed.
#[derive(Debug, Clone, PartialEq, Eq)]
pub enum ParseHashError {
    /// The text is not exactly 16 bytes long.
    InvalidFormat,
    /// The text was rejected as a whole; the token is kept for the message.
    InvalidToken(String),
    /// The text has the right length but holds a byte that is no hex digit.
    IntError,
}

impl ParseHashError {
    /// The message of this error.
    pub fn to_string(&self) -> (s: String)
        ensures
            self is InvalidFormat ==> s@ == "invalid hash format"@,
            self is IntError ==> s@ == "invalid digit found in string"@,
            self matches ParseHashError::InvalidToken(t) ==> s@ == "invalid hash token: \""@ + t@
                + "\""@,
    {
        match self {
            ParseHashError::InvalidFormat => String::from_str("invalid hash format"),
            ParseHashError::IntError => String::from_str("invalid digit found in string"),
            ParseHashError::InvalidToken(t) => {
                let mut s = String::from_str("invalid hash token: \"");
                s.append(t.as_str());
                s.append("\"");
                s
            },
        }
    }
}

/// Why a token of a tree object or of an object expression could not be parsed.
#[derive(Debug, Clone, PartialEq, Eq)]
pub enum ParseError {
    /// A required token is missing or empty.
    EmptyToken,
    /// The token is none of the accepted words.
    InvalidToken(String),
    /// The token should have been an object id.
    Hash(ParseHashError),
}

impl ParseError {
    /// The message of this error.
    pub fn to_string(&self) -> (s: String)
        ensures
            parse_message(*self, s@),
    {
        match self {
            ParseError::EmptyToken => String::from_str("empty token"),
            ParseError::InvalidToken(t) => {
                let mut s = String::from_str("invalid token: \"");
                s.append(t.as_str());
                s.append("\"");
                s
            },
            ParseError::Hash(e) => {
                let m = e.to_string();
                let mut s = String::from_str("invalid hash: ");
                s.append(m.as_str());
                assert(hash_message(*e, m@));
                s
            },
        }
    }
}

/// `m` is the message of the hash error `e`.
pub open spec fn hash_message(e: ParseHashError, m: Seq<char>) -> bool {
    match e {
        ParseHashError::InvalidFormat => m == "invalid hash format"@,
        ParseHashError::IntError => m == "invalid digit found in string"@,
        ParseHashError::InvalidToken(t) => m == "invalid hash token: \""@ + t@ + "\""@,
    }
}

/// Why an object, a reference or a target could not be read.
#[derive(Debug, Clone, PartialEq, Eq)]
pub enum ReadContentError {
    /// The object id is in neither store, the reference has no file, or a path
    /// component names no entry of a tree.
    ObjectNotFound,
    /// A stored payload or a reference file does not parse.
    ParseError(ParseError),
    /// The enumeration of the target produced nothing to hash.
    TargetEmpty,
    /// A listed path is absolute.
    AbsolutePathNotSupported,
}

impl ReadContentError {
    /// The message of this error; a parse error speaks for itself.
    pub fn to_string(&self) -> (s: String)
        ensures
            self is ObjectNotFound ==> s@ == "object not found"@,
            self is TargetEmpty ==> s@ == "target is empty"@,
            self is AbsolutePathNotSupported ==> s@ == "absolute path is not supported"@,
            self matches ReadContentError::ParseError(e) ==> parse_message(*e, s@),
    {
        match self {
            ReadContentError::ObjectNotFound => String::from_str("object not found"),
            ReadContentError::TargetEmpty => String::from_str("target is empty"),
            ReadContentError::AbsolutePathNotSupported => String::from_str(
                "absolute path is not supported",
            ),
            ReadContentError::ParseError(e) => e.to_string(),
        }
    }
}

/// `m` is the message of the parse error `e`.
pub open spec fn parse_message(e: ParseError, m: Seq<char>) -> bool {
    match e {
        ParseError::EmptyToken => m == "empty token"@,
        ParseError::InvalidToken(t) => m == "invalid token: \""@ + t@ + "\""@,
        ParseError::Hash(h) => exists|inner: Seq<char>| #[trigger]
            hash_message(h, inner) && m == "invalid hash: "@ + inner,
    }
}

} // verus!
