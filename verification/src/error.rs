//! Errors of serialization and deserialization.
use vstd::prelude::*;
use vstd::string::StringSliceAdditionalSpecFns;
use vstd::utf8::{decode_utf8, valid_utf8};
use crate::strs::push_all;
use crate::text::{decimal, push_decimal};

verus! {

/// What went wrong.
#[derive(Debug, PartialEq, Eq)]
#[allow(inconsistent_fields)]
pub enum ErrorKind {
    /// A general message.
    Msg(&'static str),
    /// A field that must be present is missing.
    MissingField(&'static str),
    /// A field that writing an element needs is missing.
    MissingToWrite(&'static str),
    /// An item of another type than the expected ones.
    InvalidType { found: Vec<u8>, expected: &'static str },
    /// An entry of an unknown type.
    InvalidEntry(Vec<u8>),
    /// A value of the wrong form, told by a message.
    InvalidValue { found: &'static str, expected: &'static str },
    /// Bytes that are not UTF-8.
    Utf8,
    /// An escape sequence that cannot be unescaped.
    Unescape,
    /// A file version other than the supported one.
    Version { major: u16, minor: u16 },
    /// An element type that the serializer does not support.
    Unsupported(&'static str),
}

/// What went wrong, in the abstract.
#[allow(inconsistent_fields)]
pub ghost enum SpecErrorKind {
    Msg(&'static str),
    MissingField(&'static str),
    MissingToWrite(&'static str),
    InvalidType { found: Seq<u8>, expected: &'static str },
    InvalidEntry(Seq<u8>),
    InvalidValue { found: &'static str, expected: &'static str },
    Utf8,
    Unescape,
    Version { major: u16, minor: u16 },
    Unsupported(&'static str),
}

impl ErrorKind {
    pub open spec fn view(&self) -> SpecErrorKind {
        match self {
            ErrorKind::Msg(m) => SpecErrorKind::Msg(*m),
            ErrorKind::MissingField(m) => SpecErrorKind::MissingField(*m),
            ErrorKind::MissingToWrite(m) => SpecErrorKind::MissingToWrite(*m),
            ErrorKind::InvalidType { found, expected } => SpecErrorKind::InvalidType {
                found: found@,
                expected: *expected,
            },
            ErrorKind::InvalidEntry(t) => SpecErrorKind::InvalidEntry(t@),
            ErrorKind::InvalidValue { found, expected } => SpecErrorKind::InvalidValue {
                found: *found,
                expected: *expected,
            },
            ErrorKind::Utf8 => SpecErrorKind::Utf8,
            ErrorKind::Unescape => SpecErrorKind::Unescape,
            ErrorKind::Version { major, minor } => SpecErrorKind::Version {
                major: *major,
                minor: *minor,
            },
            ErrorKind::Unsupported(m) => SpecErrorKind::Unsupported(*m),
        }
    }
}

/// The text that tells what went wrong, as the error message words it.
pub open spec fn kind_text(k: SpecErrorKind) -> Seq<u8> {
    match k {
        SpecErrorKind::Msg(m) => m.spec_bytes(),
        SpecErrorKind::MissingField(f) => "missing field for deserializer: ".spec_bytes() + f.spec_bytes(),
        SpecErrorKind::MissingToWrite(f) => "missing field for serializer: ".spec_bytes() + f.spec_bytes(),
        SpecErrorKind::InvalidType { found, expected } => "invalid type: ".spec_bytes() + found
            + ", expected ".spec_bytes() + expected.spec_bytes(),
        SpecErrorKind::InvalidEntry(t) => "invalid entry type: ".spec_bytes() + t,
        SpecErrorKind::InvalidValue { found, expected } => "invalid type: ".spec_bytes()
            + found.spec_bytes() + ", expected ".spec_bytes() + expected.spec_bytes(),
        SpecErrorKind::Utf8 => "utf8 conversion error".spec_bytes(),
        SpecErrorKind::Unescape => "string unescape error".spec_bytes(),
        SpecErrorKind::Version { major, minor } => "unexpected tiny v2 version: ".spec_bytes()
            + decimal(major as nat) + ".".spec_bytes() + decimal(minor as nat)
            + ", expected 2.x".spec_bytes(),
        SpecErrorKind::Unsupported(t) => "unsupported type for serializer: ".spec_bytes() + t.spec_bytes(),
    }
}

/// The whole message of an error: where it occurred, then what went wrong.
pub open spec fn error_text(line: usize, col: usize, k: SpecErrorKind) -> Seq<u8> {
    "an error occured at line ".spec_bytes() + decimal(line as nat) + ", logical column ".spec_bytes()
        + decimal(col as nat) + ": ".spec_bytes() + kind_text(k)
}

impl ErrorKind {
    /// Appends the text that tells what went wrong.
    pub fn push_text(&self, out: &mut Vec<u8>)
        ensures
            final(out)@ == old(out)@ + kind_text(self@),
    {
        match self {
            ErrorKind::Msg(m) => push_all(out, m.as_bytes()),
            ErrorKind::MissingField(f) => {
                push_all(out, "missing field for deserializer: ".as_bytes());
                push_all(out, f.as_bytes());
            },
            ErrorKind::MissingToWrite(f) => {
                push_all(out, "missing field for serializer: ".as_bytes());
                push_all(out, f.as_bytes());
            },
            ErrorKind::InvalidType { found, expected } => {
                push_all(out, "invalid type: ".as_bytes());
                push_all(out, found.as_slice());
                push_all(out, ", expected ".as_bytes());
                push_all(out, expected.as_bytes());
            },
            ErrorKind::InvalidEntry(t) => {
                push_all(out, "invalid entry type: ".as_bytes());
                push_all(out, t.as_slice());
            },
            ErrorKind::InvalidValue { found, expected } => {
                push_all(out, "invalid type: ".as_bytes());
                push_all(out, found.as_bytes());
                push_all(out, ", expected ".as_bytes());
                push_all(out, expected.as_bytes());
            },
            ErrorKind::Utf8 => push_all(out, "utf8 conversion error".as_bytes()),
            ErrorKind::Unescape => push_all(out, "string unescape error".as_bytes()),
            ErrorKind::Version { major, minor } => {
                push_all(out, "unexpected tiny v2 version: ".as_bytes());
                push_decimal(out, *major as u64);
                push_all(out, ".".as_bytes());
                push_decimal(out, *minor as u64);
                push_all(out, ", expected 2.x".as_bytes());
            },
            ErrorKind::Unsupported(t) => {
                push_all(out, "unsupported type for serializer: ".as_bytes());
                push_all(out, t.as_bytes());
            },
        }
    }
}

/// An error occurred in serialization or deserialization, with the line and logical column
/// of the reader when it occurred.
#[derive(Debug)]
pub struct Error {
    pub kind: ErrorKind,
    pub line: usize,
    pub col: usize,
}

impl Error {
    /// An error of the given kind, at no location.
    pub fn new(kind: ErrorKind) -> (r: Self)
        ensures
            r.kind == kind,
            r.line == 0,
            r.col == 0,
    {
        Error { kind, line: 0, col: 0 }
    }

    /// This error placed at the given location.
    pub fn with_loc(self, line: usize, col: usize) -> (r: Self)
        ensures
            r.kind == self.kind,
            r.line == line,
            r.col == col,
    {
        Error { kind: self.kind, line, col }
    }
    /// The message of this error as bytes: `an error occured at line L, logical column C: `
    /// and what went wrong.
    pub fn message(&self) -> (r: Vec<u8>)
        ensures
            r@ == error_text(self.line, self.col, self.kind@),
    {
        let mut out: Vec<u8> = Vec::new();
        push_all(&mut out, "an error occured at line ".as_bytes());
        push_decimal(&mut out, self.line as u64);
        push_all(&mut out, ", logical column ".as_bytes());
        push_decimal(&mut out, self.col as u64);
        push_all(&mut out, ": ".as_bytes());
        self.kind.push_text(&mut out);
        out
    }

    /// The message of this error as text; bytes that are not UTF-8 (from the input) are shown as
    /// replacement characters.
    pub fn to_string(&self) -> (r: String)
        ensures
            valid_utf8(error_text(self.line, self.col, self.kind@)) ==> r@ == decode_utf8(
                error_text(self.line, self.col, self.kind@),
            ),
    {
        let m = self.message();
        crate::text::lossy_text(m.as_slice())
    }
}

} // verus!
