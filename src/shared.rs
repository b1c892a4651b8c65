//! Terminal colours and the splitting of a tool's raw output into lines.

use vstd::prelude::*;
use vstd::utf8::{decode_utf8, valid_utf8};

use crate::text::{split_on, split_spec, views};

verus! {

/// The terminal escape sequences that the report uses.
#[allow(clippy::upper_case_acronyms)]
#[derive(Clone, Copy, PartialEq, Eq, Structural, Debug)]
pub enum Colors {
    GRAY,
    RED,
    ORANGE,
    BLUE,
    BOLD,
    RESET,
}

/// The escape sequence of each colour.
pub open spec fn color_code(c: Colors) -> Seq<char> {
    match c {
        Colors::GRAY => "\x1b[0;90m"@,
        Colors::RED => "\x1b[0;31m"@,
        Colors::ORANGE => "\x1b[0;93m"@,
        Colors::BLUE => "\x1b[0;36m"@,
        Colors::BOLD => "\x1b[0;01m"@,
        Colors::RESET => "\x1b[0;0m"@,
    }
}

impl Colors {
    pub fn as_str(&self) -> (r: &'static str)
        ensures
            r@ == color_code(*self),
    {
        match *self {
            Self::GRAY => "\x1b[0;90m",
            Self::RED => "\x1b[0;31m",
            Self::ORANGE => "\x1b[0;93m",
            Self::BLUE => "\x1b[0;36m",
            Self::BOLD => "\x1b[0;01m",
            Self::RESET => "\x1b[0;0m",
        }
    }
}

/// Why a tool's output could not be taken as text.
#[derive(Clone, Copy, PartialEq, Eq, Structural, Debug)]
pub enum OutputError {
    NotUtf8,
}

/// Relies on `String::from_utf8`: it accepts exactly the valid UTF-8 byte
/// sequences and decodes them.
#[verifier::external_body]
fn decode_text(bytes: Vec<u8>) -> (r: Option<String>)
    ensures
        r is Some <==> valid_utf8(bytes@),
        r matches Some(s) ==> s@ == decode_utf8(bytes@),
{
    String::from_utf8(bytes).ok()
}

/// Decodes a tool's output and splits it into lines at every `'\n'`.
pub fn split_output(output: Vec<u8>) -> (r: Result<Vec<String>, OutputError>)
    ensures
        r is Ok <==> valid_utf8(output@),
        r matches Ok(lines) ==> views(lines@) == split_spec(decode_utf8(output@), '\n'),
{
    match decode_text(output) {
        Some(text) => Ok(split_on(text.as_str(), '\n')),
        None => Err(OutputError::NotUtf8),
    }
}

} // verus!
