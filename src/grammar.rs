//! The grammar that the parser accepts, written as spec functions over the
//! input bytes. Each production takes the position at which it starts and
//! gives the node it reads and the number of bytes that it consumed, or the
//! error that stops the parse.

use vstd::prelude::*;
use crate::ascii::{
    CARRIAGE_RETURN, COLON, COMMA, LEFT_BRACE, LEFT_BRACKET, LINE_FEED, LOWER_A, LOWER_E,
    LOWER_F, LOWER_L, LOWER_N, LOWER_R, LOWER_S, LOWER_T, LOWER_U, MINUS, POINT, QUOTE,
    RIGHT_BRACE, RIGHT_BRACKET, SPACE, TAB,
};
use crate::number::{float_literal, int_literal, is_digit};
use crate::value::{Node, Tree};
use crate::{ParseError, ParseErrorKind};

verus! {

pub open spec fn is_ws(c: u8) -> bool {
    c == SPACE || c == TAB || c == LINE_FEED || c == CARRIAGE_RETURN
}

pub open spec fn is_number_char(c: u8) -> bool {
    is_digit(c) || c == MINUS || c == LOWER_E || c == POINT
}

/// The number of whitespace bytes from `p` on.
pub open spec fn ws_run(b: Seq<u8>, p: nat) -> nat
    decreases b.len() - p,
{
    if p < b.len() && is_ws(b[p as int]) {
        1 + ws_run(b, p + 1)
    } else {
        0
    }
}

/// The number of number characters from `p` on.
pub open spec fn number_run(b: Seq<u8>, p: nat) -> nat
    decreases b.len() - p,
{
    if p < b.len() && is_number_char(b[p as int]) {
        1 + number_run(b, p + 1)
    } else {
        0
    }
}

/// The number of bytes from `p` on before the next quote or the end.
pub open spec fn content_run(b: Seq<u8>, p: nat) -> nat
    decreases b.len() - p,
{
    if p < b.len() && b[p as int] != QUOTE {
        1 + content_run(b, p + 1)
    } else {
        0
    }
}

pub open spec fn syntax_error(p: nat) -> ParseError {
    ParseError { pos: p as usize, kind: ParseErrorKind::Syntax }
}

pub open spec fn number_error(p: nat) -> ParseError {
    ParseError { pos: p as usize, kind: ParseErrorKind::Number }
}

pub open spec fn null_text() -> Seq<u8> {
    seq![LOWER_N, LOWER_U, LOWER_L, LOWER_L]
}

pub open spec fn true_text() -> Seq<u8> {
    seq![LOWER_T, LOWER_R, LOWER_U, LOWER_E]
}

pub open spec fn false_text() -> Seq<u8> {
    seq![LOWER_F, LOWER_A, LOWER_L, LOWER_S, LOWER_E]
}

/// Whether the bytes from `p` on begin with `lit`.
pub open spec fn literal_at(b: Seq<u8>, p: nat, lit: Seq<u8>) -> bool {
    p + lit.len() <= b.len() && b.subrange(p as int, (p + lit.len()) as int) == lit
}

pub open spec fn null_at(b: Seq<u8>, p: nat) -> Result<(Node, nat), ParseError> {
    if literal_at(b, p, null_text()) {
        Ok((Node { tree: Tree::Null, start: p, end: p + 4 }, 4))
    } else {
        Err(syntax_error(p))
    }
}

pub open spec fn bool_at(b: Seq<u8>, p: nat) -> Result<(Node, nat), ParseError> {
    if literal_at(b, p, true_text()) {
        Ok((Node { tree: Tree::Bool(true), start: p, end: p + 4 }, 4))
    } else if literal_at(b, p, false_text()) {
        Ok((Node { tree: Tree::Bool(false), start: p, end: p + 5 }, 5))
    } else {
        Err(syntax_error(p))
    }
}

/// The longest run of number characters at `p`, read as an integer if it is
/// one, else as a floating-point literal if it is one.
pub open spec fn number_at(b: Seq<u8>, p: nat) -> Result<(Node, nat), ParseError> {
    let n = number_run(b, p);
    let t = b.subrange(p as int, (p + n) as int);
    match int_literal(t) {
        Some(v) => Ok((Node { tree: Tree::Int(v), start: p, end: p + n }, n)),
        None => if float_literal(t) {
            Ok((Node { tree: Tree::Float(t), start: p, end: p + n }, n))
        } else {
            Err(number_error(p))
        },
    }
}

/// The bytes between the quote at `p` and the next quote. No escape is
/// interpreted.
pub open spec fn string_content_at(b: Seq<u8>, p: nat) -> Result<(Seq<u8>, nat), ParseError> {
    if p < b.len() && b[p as int] == QUOTE {
        let k = content_run(b, p + 1);
        if p + 1 + k < b.len() {
            Ok((b.subrange((p + 1) as int, (p + 1 + k) as int), k + 2))
        } else {
            Err(syntax_error(p + 1))
        }
    } else {
        Err(syntax_error(p))
    }
}

pub open spec fn string_at(b: Seq<u8>, p: nat) -> Result<(Node, nat), ParseError> {
    match string_content_at(b, p) {
        Ok((s, k)) => Ok((Node { tree: Tree::Str(s), start: p, end: p + k }, k)),
        Err(e) => Err(e),
    }
}

/// A value after optional whitespace; the count includes the whitespace.
pub open spec fn value_at(b: Seq<u8>, p: nat) -> Result<(Node, nat), ParseError>
    decreases b.len() - p, 2int,
{
    let w = ws_run(b, p);
    let q = p + w;
    if q >= b.len() {
        Err(syntax_error(q))
    } else {
        let c = b[q as int];
        let r = if c == LEFT_BRACE {
            object_at(b, q)
        } else if c == LEFT_BRACKET {
            array_at(b, q)
        } else if c == QUOTE {
            string_at(b, q)
        } else if c == MINUS || is_digit(c) {
            number_at(b, q)
        } else if c == LOWER_T || c == LOWER_F {
            bool_at(b, q)
        } else if c == LOWER_N {
            null_at(b, q)
        } else {
            Err(syntax_error(q))
        };
        match r {
            Ok((v, k)) => Ok((v, w + k)),
            Err(e) => Err(e),
        }
    }
}

/// An array whose opening bracket is at `p`.
pub open spec fn array_at(b: Seq<u8>, p: nat) -> Result<(Node, nat), ParseError>
    decreases b.len() - p, 1int,
{
    let q = p + 1 + ws_run(b, p + 1);
    if q >= b.len() {
        Err(syntax_error(q))
    } else if b[q as int] == RIGHT_BRACKET {
        Ok((Node { tree: Tree::Array(Seq::empty()), start: p, end: q + 1 }, (q + 1 - p) as nat))
    } else {
        close_array(p, q, elements_at(b, q, Seq::empty()))
    }
}

/// The array that starts at `p` and whose elements, read from `q` on, are
/// `r`.
pub open spec fn close_array(p: nat, q: nat, r: Result<(Seq<Node>, nat), ParseError>) -> Result<(Node, nat), ParseError> {
    match r {
        Ok((items, k)) => Ok((Node { tree: Tree::Array(items), start: p, end: q + k }, (q + k - p) as nat)),
        Err(e) => Err(e),
    }
}

/// The elements of an array from `p` on, through its closing bracket,
/// appended to `acc`.
pub open spec fn elements_at(b: Seq<u8>, p: nat, acc: Seq<Node>) -> Result<(Seq<Node>, nat), ParseError>
    decreases b.len() - p, 3int,
{
    match value_at(b, p) {
        Err(e) => Err(e),
        Ok((v, k)) => {
            let e = p + k;
            let q = e + ws_run(b, e);
            if q >= b.len() {
                Err(syntax_error(q))
            } else if b[q as int] == RIGHT_BRACKET {
                Ok((acc.push(v), (q + 1 - p) as nat))
            } else if b[q as int] == COMMA {
                let r = q + 1 + ws_run(b, q + 1);
                if r >= b.len() {
                    Err(syntax_error(r))
                } else {
                    match elements_at(b, r, acc.push(v)) {
                        Ok((items, k2)) => Ok((items, (r + k2 - p) as nat)),
                        Err(e) => Err(e),
                    }
                }
            } else {
                Err(syntax_error(q))
            }
        },
    }
}

/// Whether no key occurs twice among the members.
pub open spec fn keys_unique(es: Seq<(Seq<u8>, Node)>) -> bool {
    forall|i: int, j: int| 0 <= i < es.len() && 0 <= j < es.len() && i != j ==> es[i].0 != es[j].0
}

/// Puts a member: a key already present keeps its place and takes the new
/// value; a new key goes last.
pub open spec fn insert_entry(es: Seq<(Seq<u8>, Node)>, k: Seq<u8>, v: Node) -> Seq<(Seq<u8>, Node)> {
    if exists|i: int| 0 <= i < es.len() && es[i].0 == k {
        let i = choose|i: int| 0 <= i < es.len() && es[i].0 == k;
        es.update(i, (k, v))
    } else {
        es.push((k, v))
    }
}

/// An object whose opening brace is at `p`.
pub open spec fn object_at(b: Seq<u8>, p: nat) -> Result<(Node, nat), ParseError>
    decreases b.len() - p, 1int,
{
    let q = p + 1 + ws_run(b, p + 1);
    if q >= b.len() {
        Err(syntax_error(q))
    } else if b[q as int] == RIGHT_BRACE {
        Ok((Node { tree: Tree::Object(Seq::empty()), start: p, end: q + 1 }, (q + 1 - p) as nat))
    } else {
        close_object(p, q, members_at(b, q, Seq::empty()))
    }
}

/// The object that starts at `p` and whose members, read from `q` on, are
/// `r`.
pub open spec fn close_object(
    p: nat,
    q: nat,
    r: Result<(Seq<(Seq<u8>, Node)>, nat), ParseError>,
) -> Result<(Node, nat), ParseError> {
    match r {
        Ok((es, k)) => Ok((Node { tree: Tree::Object(es), start: p, end: q + k }, (q + k - p) as nat)),
        Err(e) => Err(e),
    }
}

/// The members of an object from `p` on, through its closing brace, put
/// into `acc`.
pub open spec fn members_at(
    b: Seq<u8>,
    p: nat,
    acc: Seq<(Seq<u8>, Node)>,
) -> Result<(Seq<(Seq<u8>, Node)>, nat), ParseError>
    decreases b.len() - p, 3int,
{
    match string_content_at(b, p) {
        Err(e) => Err(e),
        Ok((key, k1)) => {
            let c = p + k1 + ws_run(b, p + k1);
            if c >= b.len() {
                Err(syntax_error(c))
            } else if b[c as int] != COLON {
                Err(syntax_error(c))
            } else {
                let s = c + 1 + ws_run(b, c + 1);
                if s >= b.len() {
                    Err(syntax_error(s))
                } else {
                    match value_at(b, s) {
                        Err(e) => Err(e),
                        Ok((v, k2)) => {
                            let e = s + k2;
                            let q = e + ws_run(b, e);
                            let acc2 = insert_entry(acc, key, v);
                            if q >= b.len() {
                                Err(syntax_error(q))
                            } else if b[q as int] == RIGHT_BRACE {
                                Ok((acc2, (q + 1 - p) as nat))
                            } else if b[q as int] == COMMA {
                                let r = q + 1 + ws_run(b, q + 1);
                                if r >= b.len() {
                                    Err(syntax_error(r))
                                } else {
                                    match members_at(b, r, acc2) {
                                        Ok((es, k3)) => Ok((es, (r + k3 - p) as nat)),
                                        Err(e) => Err(e),
                                    }
                                }
                            } else {
                                Err(syntax_error(q))
                            }
                        },
                    }
                }
            }
        },
    }
}

/// The values of a whole input: each one after optional whitespace, until
/// only whitespace is left; appended to `acc`.
pub open spec fn document_at(b: Seq<u8>, p: nat, acc: Seq<Node>) -> Result<Seq<Node>, ParseError>
    decreases b.len() - p,
    via document_at_decreases
{
    if p + ws_run(b, p) >= b.len() {
        Ok(acc)
    } else {
        match value_at(b, p) {
            Ok((v, k)) => document_at(b, p + k, acc.push(v)),
            Err(e) => Err(e),
        }
    }
}

/// Reading a value from `p` is reading it from the first byte after the
/// whitespace at `p`, with that whitespace counted in.
pub proof fn lemma_value_after_ws(b: Seq<u8>, p: nat)
    requires
        p <= b.len(),
        p + ws_run(b, p) < b.len(),
    ensures
        ws_run(b, p + ws_run(b, p)) == 0,
        value_at(b, p) == match value_at(b, p + ws_run(b, p)) {
            Ok((v, k)) => Ok((v, ws_run(b, p) + k)),
            Err(e) => Err(e),
        },
{
    lemma_ws_run(b, p);
}

#[via_fn]
proof fn document_at_decreases(b: Seq<u8>, p: nat, acc: Seq<Node>) {
    lemma_value_span(b, p);
}

/// The document that a text parses to.
pub open spec fn parse_document(b: Seq<u8>) -> Result<Seq<Node>, ParseError> {
    document_at(b, 0, Seq::empty())
}

pub proof fn lemma_ws_run(b: Seq<u8>, p: nat)
    requires
        p <= b.len(),
    ensures
        p + ws_run(b, p) <= b.len(),
        forall|i: int| p <= i < p + ws_run(b, p) ==> is_ws(#[trigger] b[i]),
        p + ws_run(b, p) < b.len() ==> !is_ws(b[(p + ws_run(b, p)) as int]),
    decreases b.len() - p,
{
    if p < b.len() && is_ws(b[p as int]) {
        lemma_ws_run(b, p + 1);
    }
}

pub proof fn lemma_number_run(b: Seq<u8>, p: nat)
    requires
        p <= b.len(),
    ensures
        p + number_run(b, p) <= b.len(),
        forall|i: int| p <= i < p + number_run(b, p) ==> is_number_char(#[trigger] b[i]),
        p + number_run(b, p) < b.len() ==> !is_number_char(b[(p + number_run(b, p)) as int]),
    decreases b.len() - p,
{
    if p < b.len() && is_number_char(b[p as int]) {
        lemma_number_run(b, p + 1);
    }
}

pub proof fn lemma_content_run(b: Seq<u8>, p: nat)
    requires
        p <= b.len(),
    ensures
        p + content_run(b, p) <= b.len(),
        forall|i: int| p <= i < p + content_run(b, p) ==> #[trigger] b[i] != QUOTE,
        p + content_run(b, p) < b.len() ==> b[(p + content_run(b, p)) as int] == QUOTE,
    decreases b.len() - p,
{
    if p < b.len() && b[p as int] != QUOTE {
        lemma_content_run(b, p + 1);
    }
}

/// What a leaf production that succeeds consumes: at least one byte, within
/// the input, its node spanning exactly those bytes.
pub proof fn lemma_leaf_span(b: Seq<u8>, p: nat)
    requires
        p < b.len(),
    ensures
        ({
            let c = b[p as int];
            let r = if c == QUOTE {
                string_at(b, p)
            } else if c == MINUS || is_digit(c) {
                number_at(b, p)
            } else if c == LOWER_T || c == LOWER_F {
                bool_at(b, p)
            } else {
                null_at(b, p)
            };
            r is Ok ==> 1 <= r->Ok_0.1 && p + r->Ok_0.1 <= b.len() && r->Ok_0.0.start == p
                && r->Ok_0.0.end == p + r->Ok_0.1
        }),
{
    lemma_content_run(b, p + 1);
    lemma_number_run(b, p);
    reveal_with_fuel(number_run, 2);
}

/// What a value, an array, an object, or a run of elements or members
/// consumes when it is read: at least one byte, within the input; a node
/// spans the bytes of the value, without the whitespace before it.
pub proof fn lemma_value_span(b: Seq<u8>, p: nat)
    ensures
        value_at(b, p) is Ok ==> {
            let (v, k) = value_at(b, p)->Ok_0;
            &&& 1 <= k
            &&& p + k <= b.len()
            &&& v.start == p + ws_run(b, p)
            &&& v.end == p + k
        },
    decreases b.len() - p, 2int,
{
    if p <= b.len() {
        lemma_ws_run(b, p);
        let q = p + ws_run(b, p);
        if q < b.len() {
            let c = b[q as int];
            if c == LEFT_BRACE {
                lemma_container_span(b, q);
            } else if c == LEFT_BRACKET {
                lemma_container_span(b, q);
            } else {
                lemma_leaf_span(b, q);
            }
        }
    }
}

pub proof fn lemma_container_span(b: Seq<u8>, p: nat)
    requires
        p < b.len(),
    ensures
        array_at(b, p) is Ok ==> {
            let (v, k) = array_at(b, p)->Ok_0;
            &&& 1 <= k
            &&& p + k <= b.len()
            &&& v.start == p
            &&& v.end == p + k
        },
        object_at(b, p) is Ok ==> {
            let (v, k) = object_at(b, p)->Ok_0;
            &&& 1 <= k
            &&& p + k <= b.len()
            &&& v.start == p
            &&& v.end == p + k
        },
    decreases b.len() - p, 1int,
{
    lemma_ws_run(b, p + 1);
    let q = p + 1 + ws_run(b, p + 1);
    if q < b.len() {
        lemma_elements_span(b, q, Seq::empty());
        lemma_members_span(b, q, Seq::empty());
    }
}

pub proof fn lemma_elements_span(b: Seq<u8>, p: nat, acc: Seq<Node>)
    requires
        p < b.len(),
    ensures
        elements_at(b, p, acc) is Ok ==> {
            let k = elements_at(b, p, acc)->Ok_0.1;
            1 <= k && p + k <= b.len()
        },
    decreases b.len() - p, 3int,
{
    lemma_value_span(b, p);
    if let Ok((v, k)) = value_at(b, p) {
        let e = p + k;
        lemma_ws_run(b, e);
        let q = e + ws_run(b, e);
        if q < b.len() && b[q as int] == COMMA {
            lemma_ws_run(b, q + 1);
            let r = q + 1 + ws_run(b, q + 1);
            if r < b.len() {
                lemma_elements_span(b, r, acc.push(v));
            }
        }
    }
}

pub proof fn lemma_members_span(b: Seq<u8>, p: nat, acc: Seq<(Seq<u8>, Node)>)
    requires
        p < b.len(),
    ensures
        members_at(b, p, acc) is Ok ==> {
            let k = members_at(b, p, acc)->Ok_0.1;
            1 <= k && p + k <= b.len()
        },
    decreases b.len() - p, 3int,
{
    lemma_content_run(b, p + 1);
    if let Ok((key, k1)) = string_content_at(b, p) {
        lemma_ws_run(b, p + k1);
        let c = p + k1 + ws_run(b, p + k1);
        if c < b.len() && b[c as int] == COLON {
            lemma_ws_run(b, c + 1);
            let s = c + 1 + ws_run(b, c + 1);
            if s < b.len() {
                lemma_value_span(b, s);
                if let Ok((v, k2)) = value_at(b, s) {
                    let e = s + k2;
                    lemma_ws_run(b, e);
                    let q = e + ws_run(b, e);
                    if q < b.len() && b[q as int] == COMMA {
                        lemma_ws_run(b, q + 1);
                        let r = q + 1 + ws_run(b, q + 1);
                        if r < b.len() {
                            lemma_members_span(b, r, insert_entry(acc, key, v));
                        }
                    }
                }
            }
        }
    }
}

} // verus!
