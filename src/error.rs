use vstd::prelude::*;

use crate::text::{decimal, push_char, push_decimal, push_str_chars};

verus! {

/// The format a fault was found in.
#[derive(Debug, Clone, Copy, PartialEq, Eq, Structural)]
pub enum FileType {
    JSON,
}

impl FileType {
    /// The format's name.
    pub fn name(&self) -> (r: String)
        ensures
            r@ == seq!['J', 'S', 'O', 'N'],
    {
        let mut r = String::new();
        push_char(&mut r, 'J');
        push_char(&mut r, 'S');
        push_char(&mut r, 'O');
        push_char(&mut r, 'N');
        assert(r@ =~= seq!['J', 'S', 'O', 'N']);
        r
    }
}

/// What went wrong while reading JSON text.
#[derive(Debug, Clone, Copy, PartialEq, Eq, Structural)]
pub enum ErrorKind {
    /// An escape character that no escape rule knows.
    InvalidEscape,
    /// The text ended inside a token or a structure.
    UnexpectedEof,
    /// A run of number characters that is not a number.
    InvalidNumber,
    /// A character or token where the grammar allows none of its kind.
    UnexpectedToken,
    /// An object key that is not followed by `:`.
    ExpectedColon,
    /// An object member that is followed by neither `,` nor `}`.
    ExpectedCommaOrBrace,
    /// An array element that is followed by neither `,` nor `]`.
    ExpectedCommaOrBracket,
    /// A `,` or `:` where an array element should start.
    ExpectedValue,
    /// A key seen twice in one object.
    DuplicateKey,
}

/// A fault with its kind, a message and the character offset where it was found.
#[derive(Debug, Clone)]
pub struct Error {
    pub filetype: FileType,
    pub kind: ErrorKind,
    pub message: String,
    pub index: usize,
}

impl Error {
    pub fn new(filetype: FileType, kind: ErrorKind, message: String, index: usize) -> (r: Self)
        ensures
            r.filetype == filetype,
            r.kind == kind,
            r.message@ == message@,
            r.index == index,
    {
        Error { filetype, kind, message, index }
    }

    pub fn json(kind: ErrorKind, message: String, index: usize) -> (r: Self)
        ensures
            r.filetype == FileType::JSON,
            r.kind == kind,
            r.message@ == message@,
            r.index == index,
    {
        Self::new(FileType::JSON, kind, message, index)
    }

    /// The fault as one line of text: `ERROR: <message> in <format> at index <index>`.
    pub fn describe(&self) -> (r: String)
        ensures
            r@ == "ERROR: "@ + self.message@ + " in "@ + seq!['J', 'S', 'O', 'N'] + " at index "@
                + decimal(self.index as nat),
    {
        let mut r = String::new();
        push_str_chars(&mut r, "ERROR: ");
        push_str_chars(&mut r, self.message.as_str());
        push_str_chars(&mut r, " in ");
        let name = self.filetype.name();
        push_str_chars(&mut r, name.as_str());
        push_str_chars(&mut r, " at index ");
        push_decimal(&mut r, self.index);
        r
    }
}

} // verus!
