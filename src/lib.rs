//! A JSON parser that turns a text into a tree of values, each annotated with
//! the byte span it was read from.

use vstd::prelude::*;
use vstd::string::StringSliceAdditionalSpecFns;
use crate::grammar::parse_document;
use crate::value::{nodes_of, JsonValue, Node};

pub mod ascii;
pub mod grammar;
pub mod laws;
pub mod number;
pub mod parser;
pub mod text;
pub mod value;

verus! {

/// What went wrong while parsing.
#[derive(Debug, Clone, Copy, PartialEq, Eq, Structural)]
pub enum ParseErrorKind {
    /// A structural violation: a missing delimiter, an unexpected byte, an
    /// unterminated string or container, a malformed literal keyword.
    Syntax,
    /// A run of number characters that is neither an integer nor a decimal
    /// floating-point literal.
    Number,
}

/// A parse failure: the byte offset at which it was detected, and its kind.
#[derive(Debug, Clone, Copy, PartialEq, Eq, Structural)]
pub struct ParseError {
    pub pos: usize,
    pub kind: ParseErrorKind,
}

impl ParseError {
    pub fn syntax(pos: usize) -> (r: Self)
        ensures
            r.pos == pos,
            r.kind == ParseErrorKind::Syntax,
    {
        Self { pos, kind: ParseErrorKind::Syntax }
    }

    pub fn number(pos: usize) -> (r: Self)
        ensures
            r.pos == pos,
            r.kind == ParseErrorKind::Number,
    {
        Self { pos, kind: ParseErrorKind::Number }
    }
}

/// A parsed document: its top-level values, in the order of the input.
#[derive(Debug)]
pub struct Json(pub Vec<JsonValue>);

impl View for Json {
    type V = Seq<Node>;

    open spec fn view(&self) -> Seq<Node> {
        nodes_of(self.0@)
    }
}

impl Json {
    /// The top-level values, in the order of the input.
    pub fn values(&self) -> (r: &Vec<JsonValue>)
        ensures
            r == &self.0,
    {
        &self.0
    }
}

/// Parses a text: zero or more JSON values, each after optional whitespace,
/// with only whitespace after the last.
pub fn from_json_str(json_str: &str) -> (r: Result<Json, ParseError>)
    ensures
        match parse_document(json_str.spec_bytes()) {
            Ok(ns) => r is Ok && r->Ok_0@ == ns,
            Err(e) => r == Err::<Json, ParseError>(e),
        },
{
    parser::parse_str(json_str)
}

} // verus!
