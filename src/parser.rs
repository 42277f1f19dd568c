//! The parser: one pass over the bytes of the input, by recursive descent.

use vstd::prelude::*;
use vstd::string::StringSliceAdditionalSpecFns;
use vstd::utf8::{encode_utf8, encode_utf8_valid_utf8};
use crate::ascii::{
    CARRIAGE_RETURN, COLON, COMMA, DIGIT_NINE, DIGIT_ZERO, LEFT_BRACE, LEFT_BRACKET, LINE_FEED,
    LOWER_A, LOWER_E, LOWER_F, LOWER_L, LOWER_N, LOWER_R, LOWER_S, LOWER_T, LOWER_U, MINUS,
    POINT, QUOTE, RIGHT_BRACE, RIGHT_BRACKET, SPACE, TAB,
};
use crate::grammar::{
    array_at, bool_at, close_array, close_object, content_run, document_at, elements_at,
    false_text, is_number_char, is_ws, lemma_content_run, lemma_number_run,
    lemma_value_after_ws, lemma_value_span, lemma_ws_run, literal_at, members_at, null_at,
    null_text, number_at, number_run, object_at, parse_document, string_at, string_content_at,
    syntax_error, true_text, value_at, ws_run,
};
use crate::number::{is_float_literal, parse_integer};
use crate::text::{lemma_ascii_boundaries, substring};
use crate::value::{node_of, nodes_of, JsonNumber, JsonObject, JsonString, JsonValue, Location, Node};
use crate::{Json, ParseError};

verus! {

/// The node type under the name the parser gives it.
pub type Value = JsonValue;

/// The number type under the name the parser gives it.
pub type Number = JsonNumber;

/// Whether `r` is what the grammar gives, `s`, for a production read from
/// `from`, with the parser left at `to`.
pub open spec fn reads_as(
    r: Result<JsonValue, ParseError>,
    s: Result<(Node, nat), ParseError>,
    from: nat,
    to: nat,
) -> bool {
    match s {
        Ok((n, k)) => r is Ok && node_of(r->Ok_0) == n && to == from + k,
        Err(e) => r == Err::<JsonValue, ParseError>(e),
    }
}

/// The state of one parse: the input, the position reached, and the values
/// read at the top level so far.
pub struct Parser<'a> {
    pos: usize,
    text: &'a str,
    bytes: &'a [u8],
    values: Vec<JsonValue>,
}

impl<'a> Parser<'a> {
    /// The bytes of the input.
    pub closed spec fn input(&self) -> Seq<u8> {
        self.bytes@
    }

    /// The position reached.
    pub closed spec fn position(&self) -> nat {
        self.pos as nat
    }

    /// The top-level values read so far.
    pub closed spec fn read(&self) -> Seq<Node> {
        nodes_of(self.values@)
    }

    pub closed spec fn wf(&self) -> bool {
        &&& self.bytes@ == self.text.spec_bytes()
        &&& self.bytes@.len() <= usize::MAX
        &&& self.pos <= self.bytes@.len()
    }

    /// Whether `other` works on the same input and has read the same
    /// top-level values.
    spec fn same_input(&self, other: &Self) -> bool {
        &&& other.text == self.text
        &&& other.bytes == self.bytes
        &&& other.values == self.values
    }

    pub fn new(text: &'a str) -> (r: Self)
        ensures
            r.wf(),
            r.input() == text.spec_bytes(),
            r.position() == 0,
            r.read() == Seq::<Node>::empty(),
    {
        let bytes = text.as_bytes();
        let _n = bytes.len();
        Self { pos: 0, text, bytes, values: Vec::new() }
    }

    /// Reads the values of the input from the position reached on, and
    /// gives them after those already read.
    pub fn parse(self) -> (r: Result<Json, ParseError>)
        requires
            self.wf(),
        ensures
            match document_at(self.input(), self.position(), self.read()) {
                Ok(ns) => r is Ok && r->Ok_0@ == ns,
                Err(e) => r == Err::<Json, ParseError>(e),
            },
    {
        let mut this = self;
        match this.run() {
            Ok(()) => Ok(Json(this.values)),
            Err(e) => Err(e),
        }
    }

    /// Reads values until only whitespace is left, keeping each one.
    fn run(&mut self) -> (r: Result<(), ParseError>)
        requires
            old(self).wf(),
        ensures
            match document_at(old(self).input(), old(self).position(), old(self).read()) {
                Ok(ns) => r is Ok && final(self).read() == ns,
                Err(e) => r == Err::<(), ParseError>(e),
            },
    {
        let ghost b = self.bytes@;
        let ghost goal = document_at(b, self.pos as nat, nodes_of(self.values@));
        while self.pos < self.bytes.len()
            invariant
                self.wf(),
                self.bytes@ == b,
                b == old(self).bytes@,
                goal == document_at(old(self).input(), old(self).position(), old(self).read()),
                goal == document_at(b, self.pos as nat, nodes_of(self.values@)),
            decreases b.len() - self.pos,
        {
            let ghost p = self.pos as nat;
            if self.skip_whitespace().is_err() {
                assert(document_at(b, p, nodes_of(self.values@)) == Ok::<Seq<Node>, ParseError>(nodes_of(self.values@)));
                return Ok(());
            }
            proof {
                lemma_value_after_ws(b, p);
                lemma_value_span(b, self.pos as nat);
            }
            let val = match self.parse_bytes() {
                Ok(v) => v,
                Err(e) => return Err(e),
            };
            let ghost acc = self.values@;
            self.values.push(val);
            assert(self.values@.drop_last() =~= acc);
        }
        assert(document_at(b, self.pos as nat, nodes_of(self.values@)) == Ok::<Seq<Node>, ParseError>(nodes_of(self.values@)));
        Ok(())
    }

    /// Moves past whitespace; fails where that reaches the end.
    fn skip_whitespace(&mut self) -> (r: Result<(), ParseError>)
        requires
            old(self).wf(),
        ensures
            final(self).wf(),
            old(self).same_input(final(self)),
            final(self).pos == old(self).pos + ws_run(old(self).bytes@, old(self).pos as nat),
            r is Ok <==> final(self).pos < final(self).bytes@.len(),
            r is Err ==> r == Err::<(), ParseError>(syntax_error(final(self).pos as nat)),
    {
        let ghost b = self.bytes@;
        let ghost from = self.pos as nat;
        proof {
            lemma_ws_run(b, from);
        }
        while self.pos < self.bytes.len()
            invariant
                self.wf(),
                old(self).same_input(self),
                self.bytes@ == b,
                b == old(self).bytes@,
                from == old(self).pos,
                from <= self.pos,
                ws_run(b, from) == (self.pos - from) + ws_run(b, self.pos as nat),
            decreases b.len() - self.pos,
        {
            if is_whitespace(self.bytes[self.pos]) {
                self.pos = self.pos + 1;
            } else {
                assert(ws_run(b, self.pos as nat) == 0);
                return Ok(());
            }
        }
        Err(ParseError::syntax(self.pos))
    }

    /// One value, after optional whitespace.
    fn parse_bytes(&mut self) -> (r: Result<JsonValue, ParseError>)
        requires
            old(self).wf(),
        ensures
            final(self).wf(),
            old(self).same_input(final(self)),
            reads_as(r, value_at(old(self).bytes@, old(self).pos as nat), old(self).pos as nat, final(self).pos as nat),
        decreases old(self).bytes@.len() - old(self).pos, 2int,
    {
        match self.skip_whitespace() {
            Ok(()) => {},
            Err(e) => return Err(e),
        }
        let c = self.bytes[self.pos];
        if c == LEFT_BRACE {
            self.parse_object()
        } else if c == LEFT_BRACKET {
            self.parse_array()
        } else if c == QUOTE {
            self.parse_string()
        } else if c == MINUS || (DIGIT_ZERO <= c && c <= DIGIT_NINE) {
            self.parse_number()
        } else if c == LOWER_T || c == LOWER_F {
            self.parse_bool()
        } else if c == LOWER_N {
            self.parse_null()
        } else {
            Err(ParseError::syntax(self.pos))
        }
    }

    /// Whether the bytes at the position reached begin with `lit`.
    fn matches_literal(&self, lit: &[u8]) -> (r: bool)
        requires
            self.wf(),
        ensures
            r == literal_at(self.bytes@, self.pos as nat, lit@),
    {
        if self.pos > self.bytes.len() || lit.len() > self.bytes.len() - self.pos {
            return false;
        }
        let mut j: usize = 0;
        while j < lit.len()
            invariant
                self.bytes@.len() <= usize::MAX,
                self.pos + lit@.len() <= self.bytes@.len(),
                j <= lit@.len(),
                forall|i: int| 0 <= i < j ==> self.bytes@[self.pos + i] == #[trigger] lit@[i],
            decreases lit@.len() - j,
        {
            if self.bytes[self.pos + j] != lit[j] {
                assert(self.bytes@.subrange(self.pos as int, self.pos + lit@.len())[j as int] == self.bytes@[self.pos + j]);
                return false;
            }
            j = j + 1;
        }
        assert(self.bytes@.subrange(self.pos as int, self.pos + lit@.len()) =~= lit@);
        true
    }

    fn parse_null(&mut self) -> (r: Result<JsonValue, ParseError>)
        requires
            old(self).wf(),
        ensures
            final(self).wf(),
            old(self).same_input(final(self)),
            reads_as(r, null_at(old(self).bytes@, old(self).pos as nat), old(self).pos as nat, final(self).pos as nat),
    {
        let i = self.pos;
        let lit: [u8; 4] = [LOWER_N, LOWER_U, LOWER_L, LOWER_L];
        assert(lit@ == null_text());
        if self.matches_literal(&lit) {
            self.pos = i + 4;
            return Ok(JsonValue::null(Location(i, i + 4)));
        }
        Err(ParseError::syntax(self.pos))
    }

    fn parse_bool(&mut self) -> (r: Result<JsonValue, ParseError>)
        requires
            old(self).wf(),
        ensures
            final(self).wf(),
            old(self).same_input(final(self)),
            reads_as(r, bool_at(old(self).bytes@, old(self).pos as nat), old(self).pos as nat, final(self).pos as nat),
    {
        let i = self.pos;
        let lit_true: [u8; 4] = [LOWER_T, LOWER_R, LOWER_U, LOWER_E];
        let lit_false: [u8; 5] = [LOWER_F, LOWER_A, LOWER_L, LOWER_S, LOWER_E];
        assert(lit_true@ == true_text());
        assert(lit_false@ == false_text());
        if self.matches_literal(&lit_true) {
            self.pos = i + 4;
            return Ok(JsonValue::bool(true, Location(i, i + 4)));
        } else if self.matches_literal(&lit_false) {
            self.pos = i + 5;
            return Ok(JsonValue::bool(false, Location(i, i + 5)));
        }
        Err(ParseError::syntax(self.pos))
    }

    /// A number, whose first byte, at the position reached, is a minus sign
    /// or a digit.
    fn parse_number(&mut self) -> (r: Result<JsonValue, ParseError>)
        requires
            old(self).wf(),
            old(self).pos < old(self).bytes@.len(),
            is_number_char(old(self).bytes@[old(self).pos as int]),
        ensures
            final(self).wf(),
            old(self).same_input(final(self)),
            reads_as(r, number_at(old(self).bytes@, old(self).pos as nat), old(self).pos as nat, final(self).pos as nat),
    {
        let ghost b = self.bytes@;
        let start = self.pos;
        proof {
            lemma_number_run(b, start as nat);
        }
        let mut cursor: usize = 0;
        while start + cursor < self.bytes.len() && self.match_number_token(self.bytes[start + cursor])
            invariant
                self.wf(),
                self.bytes@ == b,
                start == self.pos,
                start + cursor <= b.len(),
                number_run(b, start as nat) == cursor + number_run(b, (start + cursor) as nat),
            decreases b.len() - start - cursor,
        {
            cursor = cursor + 1;
        }
        let ghost n = number_run(b, start as nat);
        assert(cursor == n);
        let num_slice = &self.bytes[start..start + cursor];
        assert(num_slice@ == b.subrange(start as int, start + n));
        let loc = Location(start, start + cursor);
        match parse_integer(num_slice) {
            Some(i) => {
                self.pos = start + cursor;
                Ok(JsonValue::number_int(i, loc))
            },
            None => {
                if is_float_literal(num_slice) {
                    proof {
                        encode_utf8_valid_utf8(self.text@);
                        reveal_with_fuel(number_run, 2);
                        lemma_ascii_boundaries(b, start as int);
                        lemma_ascii_boundaries(b, start + cursor - 1);
                    }
                    let t = substring(self.text, start, start + cursor);
                    self.pos = start + cursor;
                    Ok(JsonValue::number_float(t, loc))
                } else {
                    Err(ParseError::number(start))
                }
            },
        }
    }

    /// The bytes between the quote at the position reached and the next
    /// quote, as a string; the parser is left after the closing quote.
    fn parse_string_content(&mut self) -> (r: Result<String, ParseError>)
        requires
            old(self).wf(),
        ensures
            final(self).wf(),
            old(self).same_input(final(self)),
            match string_content_at(old(self).bytes@, old(self).pos as nat) {
                Ok((s, k)) => r is Ok && encode_utf8(r->Ok_0@) == s
                    && final(self).pos == old(self).pos + k,
                Err(e) => r == Err::<String, ParseError>(e),
            },
    {
        let ghost b = self.bytes@;
        let start = self.pos;
        if start >= self.bytes.len() || self.bytes[start] != QUOTE {
            return Err(ParseError::syntax(start));
        }
        self.pos = start + 1;
        proof {
            lemma_content_run(b, self.pos as nat);
        }
        let mut cursor: usize = 0;
        while self.pos + cursor < self.bytes.len() && self.bytes[self.pos + cursor] != QUOTE
            invariant
                self.wf(),
                self.bytes@ == b,
                self.pos == start + 1,
                self.pos + cursor <= b.len(),
                content_run(b, self.pos as nat) == cursor + content_run(b, (self.pos + cursor) as nat),
            decreases b.len() - self.pos - cursor,
        {
            cursor = cursor + 1;
        }
        if self.pos + cursor >= self.bytes.len() {
            return Err(ParseError::syntax(self.pos));
        }
        proof {
            encode_utf8_valid_utf8(self.text@);
            lemma_ascii_boundaries(b, start as int);
            lemma_ascii_boundaries(b, (self.pos + cursor) as int);
        }
        let s = substring(self.text, self.pos, self.pos + cursor);
        self.pos = self.pos + cursor + 1;
        Ok(s)
    }

    fn parse_string(&mut self) -> (r: Result<JsonValue, ParseError>)
        requires
            old(self).wf(),
        ensures
            final(self).wf(),
            old(self).same_input(final(self)),
            reads_as(r, string_at(old(self).bytes@, old(self).pos as nat), old(self).pos as nat, final(self).pos as nat),
    {
        let start_pos = self.pos;
        match self.parse_string_content() {
            Ok(s) => Ok(JsonValue::string(s, Location(start_pos, self.pos))),
            Err(e) => Err(e),
        }
    }

    /// An array, whose opening bracket is at the position reached.
    fn parse_array(&mut self) -> (r: Result<JsonValue, ParseError>)
        requires
            old(self).wf(),
            old(self).pos < old(self).bytes@.len(),
            old(self).bytes@[old(self).pos as int] == LEFT_BRACKET,
        ensures
            final(self).wf(),
            old(self).same_input(final(self)),
            reads_as(r, array_at(old(self).bytes@, old(self).pos as nat), old(self).pos as nat, final(self).pos as nat),
        decreases old(self).bytes@.len() - old(self).pos, 1int,
    {
        let ghost b = self.bytes@;
        let start_pos = self.pos;
        self.pos = self.pos + 1;
        let mut array: Vec<JsonValue> = Vec::new();
        match self.skip_whitespace() {
            Ok(()) => {},
            Err(e) => return Err(e),
        }
        if self.bytes[self.pos] == RIGHT_BRACKET {
            self.pos = self.pos + 1;
            assert(nodes_of(array@) =~= Seq::<Node>::empty());
            return Ok(JsonValue::array(array, Location(start_pos, self.pos)));
        }
        let ghost goal = array_at(b, start_pos as nat);
        assert(nodes_of(array@) =~= Seq::<Node>::empty());
        loop
            invariant
                self.wf(),
                old(self).same_input(self),
                self.bytes@ == b,
                start_pos == old(self).pos,
                b == old(self).bytes@,
                goal == array_at(b, start_pos as nat),
                start_pos < self.pos < b.len(),
                goal == close_array(start_pos as nat, self.pos as nat, elements_at(b, self.pos as nat, nodes_of(array@))),
            decreases b.len() - self.pos,
        {
            let ghost p = self.pos as nat;
            let val = match self.parse_bytes() {
                Ok(v) => v,
                Err(e) => return Err(e),
            };
            proof {
                lemma_value_span(b, p);
            }
            let ghost arr0 = array@;
            array.push(val);
            assert(array@.drop_last() =~= arr0);
            match self.skip_whitespace() {
                Ok(()) => {},
                Err(e) => return Err(e),
            }
            let c = self.bytes[self.pos];
            if c == RIGHT_BRACKET {
                self.pos = self.pos + 1;
                return Ok(JsonValue::array(array, Location(start_pos, self.pos)));
            } else if c == COMMA {
                self.pos = self.pos + 1;
                match self.skip_whitespace() {
                    Ok(()) => {},
                    Err(e) => return Err(e),
                }
            } else {
                return Err(ParseError::syntax(self.pos));
            }
        }
    }

    /// An object, whose opening brace is at the position reached.
    #[verifier::rlimit(50)]
    fn parse_object(&mut self) -> (r: Result<JsonValue, ParseError>)
        requires
            old(self).wf(),
            old(self).pos < old(self).bytes@.len(),
            old(self).bytes@[old(self).pos as int] == LEFT_BRACE,
        ensures
            final(self).wf(),
            old(self).same_input(final(self)),
            reads_as(r, object_at(old(self).bytes@, old(self).pos as nat), old(self).pos as nat, final(self).pos as nat),
        decreases old(self).bytes@.len() - old(self).pos, 1int,
    {
        let ghost b = self.bytes@;
        let start_pos = self.pos;
        self.pos = self.pos + 1;
        let mut hm = JsonObject::new();
        match self.skip_whitespace() {
            Ok(()) => {},
            Err(e) => return Err(e),
        }
        if self.bytes[self.pos] == RIGHT_BRACE {
            self.pos = self.pos + 1;
            return Ok(JsonValue::object(hm, Location(start_pos, self.pos)));
        }
        let ghost goal = object_at(b, start_pos as nat);
        loop
            invariant
                self.wf(),
                old(self).same_input(self),
                self.bytes@ == b,
                start_pos == old(self).pos,
                b == old(self).bytes@,
                goal == object_at(b, start_pos as nat),
                start_pos < self.pos < b.len(),
                hm.wf(),
                goal == close_object(start_pos as nat, self.pos as nat, members_at(b, self.pos as nat, hm.entries())),
            decreases b.len() - self.pos,
        {
            let key = match self.parse_string_content() {
                Ok(s) => s,
                Err(e) => return Err(e),
            };
            match self.skip_whitespace() {
                Ok(()) => {},
                Err(e) => return Err(e),
            }
            if self.bytes[self.pos] != COLON {
                return Err(ParseError::syntax(self.pos));
            }
            self.pos = self.pos + 1;
            match self.skip_whitespace() {
                Ok(()) => {},
                Err(e) => return Err(e),
            }
            let ghost s = self.pos as nat;
            let val = match self.parse_bytes() {
                Ok(v) => v,
                Err(e) => return Err(e),
            };
            proof {
                lemma_value_span(b, s);
            }
            hm.insert(JsonString::new(key), val);
            match self.skip_whitespace() {
                Ok(()) => {},
                Err(e) => return Err(e),
            }
            let c = self.bytes[self.pos];
            if c == RIGHT_BRACE {
                self.pos = self.pos + 1;
                return Ok(JsonValue::object(hm, Location(start_pos, self.pos)));
            } else if c == COMMA {
                self.pos = self.pos + 1;
                match self.skip_whitespace() {
                    Ok(()) => {},
                    Err(e) => return Err(e),
                }
            } else {
                return Err(ParseError::syntax(self.pos));
            }
        }
    }

    fn match_number_token(&self, c: u8) -> (r: bool)
        ensures
            r == is_number_char(c),
    {
        (DIGIT_ZERO <= c && c <= DIGIT_NINE) || c == MINUS || c == LOWER_E || c == POINT
    }
}

fn is_whitespace(c: u8) -> (r: bool)
    ensures
        r == is_ws(c),
{
    c == SPACE || c == TAB || c == LINE_FEED || c == CARRIAGE_RETURN
}

/// Parses a text into the sequence of its top-level values.
pub fn parse_str(s: &str) -> (r: Result<Json, ParseError>)
    ensures
        match parse_document(s.spec_bytes()) {
            Ok(ns) => r is Ok && r->Ok_0@ == ns,
            Err(e) => r == Err::<Json, ParseError>(e),
        },
{
    let parser = Parser::new(s);
    parser.parse()
}

} // verus!
