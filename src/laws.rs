//! A compact printed form of a tree, and what parsing it gives back.

use vstd::prelude::*;
use crate::ascii::{
    COLON, COMMA, DIGIT_ZERO, LEFT_BRACE, LEFT_BRACKET, LOWER_N, MINUS, QUOTE, RIGHT_BRACE,
    RIGHT_BRACKET,
};
use crate::grammar::{
    array_at, content_run, document_at, elements_at, false_text, insert_entry, is_number_char,
    is_ws, keys_unique, lemma_content_run, lemma_number_run, lemma_value_after_ws,
    lemma_value_span, lemma_ws_run,
    literal_at, members_at, null_text, number_run, object_at, parse_document, string_content_at,
    true_text, value_at, ws_run,
};
use crate::number::{
    all_digits, dec_text, digits_value, fits_i64, float_literal, int_literal, int_text, is_digit,
};
use crate::value::{Node, Tree};

verus! {

pub open spec fn string_text(s: Seq<u8>) -> Seq<u8> {
    seq![QUOTE] + s + seq![QUOTE]
}

/// The compact printed form of a node: no whitespace, members in order.
pub open spec fn text_of(n: Node) -> Seq<u8>
    decreases n,
{
    match n.tree {
        Tree::Null => null_text(),
        Tree::Bool(x) => if x {
            true_text()
        } else {
            false_text()
        },
        Tree::Int(v) => int_text(v),
        Tree::Float(t) => t,
        Tree::Str(s) => string_text(s),
        Tree::Array(items) => seq![LEFT_BRACKET] + items_text(items) + seq![RIGHT_BRACKET],
        Tree::Object(es) => seq![LEFT_BRACE] + members_text(es) + seq![RIGHT_BRACE],
    }
}

/// The printed elements of an array, separated by commas.
pub open spec fn items_text(items: Seq<Node>) -> Seq<u8>
    decreases items,
{
    if items.len() == 0 {
        Seq::empty()
    } else if items.len() == 1 {
        text_of(items[0])
    } else {
        text_of(items[0]) + seq![COMMA] + items_text(items.drop_first())
    }
}

/// The printed members of an object, separated by commas.
pub open spec fn members_text(es: Seq<(Seq<u8>, Node)>) -> Seq<u8>
    decreases es,
{
    if es.len() == 0 {
        Seq::empty()
    } else {
        let head = string_text(es[0].0) + seq![COLON] + text_of(es[0].1);
        if es.len() == 1 {
            head
        } else {
            head + seq![COMMA] + members_text(es.drop_first())
        }
    }
}

pub open spec fn no_quote(s: Seq<u8>) -> bool {
    forall|i: int| 0 <= i < s.len() ==> #[trigger] s[i] != QUOTE
}

/// A float text that reads back as the same float: a decimal literal that
/// is not an integer, made of number characters, starting as a number does.
pub open spec fn printable_float(t: Seq<u8>) -> bool {
    &&& float_literal(t)
    &&& int_literal(t) is None
    &&& t.len() > 0
    &&& (t[0] == MINUS || is_digit(t[0]))
    &&& forall|i: int| 0 <= i < t.len() ==> is_number_char(#[trigger] t[i])
}

/// Whether a tree prints to a text that reads back as itself: integers in
/// range, strings and keys without a quote, keys of each object unique.
pub open spec fn printable(n: Node) -> bool
    decreases n,
{
    match n.tree {
        Tree::Int(v) => fits_i64(v),
        Tree::Float(t) => printable_float(t),
        Tree::Str(s) => no_quote(s),
        Tree::Array(items) => all_printable(items),
        Tree::Object(es) => keys_unique(es) && printable_members(es),
        _ => true,
    }
}

pub open spec fn all_printable(items: Seq<Node>) -> bool
    decreases items,
{
    items.len() == 0 || (printable(items[0]) && all_printable(items.drop_first()))
}

pub open spec fn printable_members(es: Seq<(Seq<u8>, Node)>) -> bool
    decreases es,
{
    es.len() == 0 || (no_quote(es[0].0) && printable(es[0].1) && printable_members(
        es.drop_first(),
    ))
}

/// The same tree, with the spans that its printed form, put at `off`, gives.
pub open spec fn placed(n: Node, off: nat) -> Node
    decreases n,
{
    let end = off + text_of(n).len();
    match n.tree {
        Tree::Array(items) => Node { tree: Tree::Array(placed_items(items, off + 1)), start: off, end },
        Tree::Object(es) => Node { tree: Tree::Object(placed_members(es, off + 1)), start: off, end },
        _ => Node { tree: n.tree, start: off, end },
    }
}

pub open spec fn placed_items(items: Seq<Node>, off: nat) -> Seq<Node>
    decreases items,
{
    if items.len() == 0 {
        Seq::empty()
    } else {
        let first = placed(items[0], off);
        if items.len() == 1 {
            seq![first]
        } else {
            seq![first] + placed_items(items.drop_first(), off + text_of(items[0]).len() + 1)
        }
    }
}

pub open spec fn placed_members(es: Seq<(Seq<u8>, Node)>, off: nat) -> Seq<(Seq<u8>, Node)>
    decreases es,
{
    if es.len() == 0 {
        Seq::empty()
    } else {
        let value_off = off + es[0].0.len() + 3;
        let first = (es[0].0, placed(es[0].1, value_off));
        if es.len() == 1 {
            seq![first]
        } else {
            seq![first] + placed_members(es.drop_first(), value_off + text_of(es[0].1).len() + 1)
        }
    }
}

/// Whether `x` stands in `b` from `p` on.
pub open spec fn occurs_at(b: Seq<u8>, p: int, x: Seq<u8>) -> bool {
    0 <= p && p + x.len() <= b.len() && b.subrange(p, p + x.len()) == x
}

proof fn lemma_occurs_index(b: Seq<u8>, p: int, x: Seq<u8>)
    requires
        occurs_at(b, p, x),
    ensures
        forall|i: int| 0 <= i < x.len() ==> b[p + i] == #[trigger] x[i],
{
    assert forall|i: int| 0 <= i < x.len() implies b[p + i] == #[trigger] x[i] by {
        assert(b.subrange(p, p + x.len())[i] == b[p + i]);
    }
}

proof fn lemma_occurs_byte(b: Seq<u8>, p: int, c: u8)
    requires
        occurs_at(b, p, seq![c]),
    ensures
        0 <= p < b.len(),
        b[p] == c,
{
    lemma_occurs_index(b, p, seq![c]);
    assert(seq![c][0] == c);
}

/// A printable node's text starts, where it stands, with a byte that is not
/// whitespace.
proof fn lemma_starts_at(b: Seq<u8>, p: int, n: Node)
    requires
        printable(n),
        occurs_at(b, p, text_of(n)),
    ensures
        0 <= p < b.len(),
        b[p] == text_of(n)[0],
        !is_ws(b[p]),
{
    lemma_text_start(n);
    lemma_occurs_index(b, p, text_of(n));
    assert(b[p + 0] == text_of(n)[0]);
}

proof fn lemma_occurs_split(b: Seq<u8>, p: int, x: Seq<u8>, y: Seq<u8>)
    requires
        occurs_at(b, p, x + y),
    ensures
        occurs_at(b, p, x),
        occurs_at(b, p + x.len(), y),
{
    lemma_occurs_index(b, p, x + y);
    assert forall|i: int| 0 <= i < x.len() implies b.subrange(p, p + x.len())[i] == x[i] by {
        assert((x + y)[i] == x[i]);
    }
    assert(b.subrange(p, p + x.len()) =~= x);
    assert forall|i: int| 0 <= i < y.len() implies b.subrange(p + x.len(), p + x.len() + y.len())[i] == y[i] by {
        assert((x + y)[x.len() + i] == y[i]);
        assert(b[p + (x.len() + i)] == (x + y)[x.len() + i]);
    }
    assert(b.subrange(p + x.len(), p + x.len() + y.len()) =~= y);
}

proof fn lemma_dec_text(n: nat)
    ensures
        dec_text(n).len() > 0,
        all_digits(dec_text(n)),
        digits_value(dec_text(n)) == n,
    decreases n,
{
    let t = dec_text(n);
    if n < 10 {
        assert(t.drop_last() =~= Seq::<u8>::empty());
        assert(digits_value(t.drop_last()) == 0);
    } else {
        lemma_dec_text(n / 10);
        assert(t.drop_last() =~= dec_text(n / 10));
        assert((n / 10) * 10 + n % 10 == n) by (nonlinear_arith);
        assert((t.last() - DIGIT_ZERO) as nat == n % 10);
        assert(digits_value(t) == digits_value(dec_text(n / 10)) * 10 + n % 10);
        assert forall|i: int| 0 <= i < t.len() implies is_digit(#[trigger] t[i]) by {
            if i < t.len() - 1 {
                assert(t[i] == dec_text(n / 10)[i]);
            }
        }
    }
}

proof fn lemma_int_text(v: int)
    requires
        fits_i64(v),
    ensures
        int_text(v).len() > 0,
        int_text(v)[0] == MINUS || is_digit(int_text(v)[0]),
        forall|i: int| 0 <= i < int_text(v).len() ==> is_number_char(#[trigger] int_text(v)[i]),
        int_literal(int_text(v)) == Some(v),
{
    let t = int_text(v);
    if v < 0 {
        lemma_dec_text((-v) as nat);
        let d = dec_text((-v) as nat);
        assert(t.skip(1) =~= d);
        assert forall|i: int| 0 <= i < t.len() implies is_number_char(#[trigger] t[i]) by {
            if i > 0 {
                assert(t[i] == d[i - 1]);
            }
        }
    } else {
        lemma_dec_text(v as nat);
        assert(is_digit(t[0]));
    }
}

/// Each printed node is nonempty, and starts with the byte that the parser
/// reads its kind from.
proof fn lemma_text_start(n: Node)
    requires
        printable(n),
    ensures
        text_of(n).len() > 0,
        !is_ws(text_of(n)[0]),
{
    match n.tree {
        Tree::Int(v) => {
            lemma_int_text(v);
        },
        _ => {},
    }
}

proof fn lemma_runs_stop(b: Seq<u8>, p: nat, x: Seq<u8>)
    requires
        occurs_at(b, p as int, x),
    ensures
        (forall|i: int| 0 <= i < x.len() ==> is_number_char(#[trigger] x[i]))
            && (p + x.len() == b.len() || !is_number_char(b[(p + x.len()) as int]))
            ==> number_run(b, p) == x.len(),
        (no_quote(x) && p + x.len() < b.len() && b[(p + x.len()) as int] == QUOTE)
            ==> content_run(b, p) == x.len(),
    decreases x.len(),
{
    lemma_occurs_index(b, p as int, x);
    if x.len() > 0 {
        let y = x.drop_first();
        assert(seq![x[0]] + y =~= x);
        lemma_occurs_split(b, p as int, seq![x[0]], y);
        lemma_runs_stop(b, p + 1, y);
    }
}

/// A printable node whose text stands at `p`, followed by the end or by a
/// byte that cannot continue a number, is read from `p` as that node, placed
/// at `p`.
pub proof fn lemma_read_value(b: Seq<u8>, p: nat, n: Node)
    requires
        printable(n),
        occurs_at(b, p as int, text_of(n)),
        p + text_of(n).len() == b.len() || !is_number_char(b[(p + text_of(n).len()) as int]),
    ensures
        value_at(b, p) == Ok::<(Node, nat), crate::ParseError>((placed(n, p), text_of(n).len())),
    decreases n, 1int,
{
    match n.tree {
        Tree::Array(_) => lemma_read_array(b, p, n),
        Tree::Object(_) => lemma_read_object(b, p, n),
        _ => lemma_read_leaf(b, p, n),
    }
}

proof fn lemma_read_leaf(b: Seq<u8>, p: nat, n: Node)
    requires
        printable(n),
        !(n.tree is Array),
        !(n.tree is Object),
        occurs_at(b, p as int, text_of(n)),
        p + text_of(n).len() == b.len() || !is_number_char(b[(p + text_of(n).len()) as int]),
    ensures
        value_at(b, p) == Ok::<(Node, nat), crate::ParseError>((placed(n, p), text_of(n).len())),
{
    let t = text_of(n);
    lemma_starts_at(b, p as int, n);
    lemma_occurs_index(b, p as int, t);
    assert(ws_run(b, p) == 0);
    match n.tree {
        Tree::Null => {
            assert(literal_at(b, p, null_text()));
            assert(b[p as int] == LOWER_N);
        },
        Tree::Bool(x) => {
            if !x {
                assert(!literal_at(b, p, true_text())) by {
                    if literal_at(b, p, true_text()) {
                        lemma_occurs_index(b, p as int, true_text());
                    }
                }
            }
        },
        Tree::Int(v) => {
            lemma_int_text(v);
            lemma_runs_stop(b, p, t);
        },
        Tree::Float(f) => {
            lemma_runs_stop(b, p, t);
        },
        Tree::Str(s) => {
            assert(t =~= seq![QUOTE] + (s + seq![QUOTE]));
            lemma_occurs_split(b, p as int, seq![QUOTE], s + seq![QUOTE]);
            lemma_occurs_split(b, (p + 1) as int, s, seq![QUOTE]);
            lemma_occurs_byte(b, p as int, QUOTE);
            lemma_occurs_byte(b, (p + 1 + s.len()) as int, QUOTE);
            lemma_runs_stop(b, p + 1, s);
        },
        _ => {},
    }
}

proof fn lemma_read_array(b: Seq<u8>, p: nat, n: Node)
    requires
        printable(n),
        n.tree is Array,
        occurs_at(b, p as int, text_of(n)),
    ensures
        value_at(b, p) == Ok::<(Node, nat), crate::ParseError>((placed(n, p), text_of(n).len())),
    decreases n, 0int,
{
    let t = text_of(n);
    let items = n.tree->Array_0;
    let it = items_text(items);
    assert(t =~= seq![LEFT_BRACKET] + (it + seq![RIGHT_BRACKET]));
    lemma_occurs_split(b, p as int, seq![LEFT_BRACKET], it + seq![RIGHT_BRACKET]);
    lemma_occurs_byte(b, p as int, LEFT_BRACKET);
    assert(ws_run(b, p) == 0);
    if items.len() == 0 {
        assert(it.len() == 0);
        assert(it + seq![RIGHT_BRACKET] =~= seq![RIGHT_BRACKET]);
        lemma_occurs_byte(b, (p + 1) as int, RIGHT_BRACKET);
        assert(ws_run(b, p + 1) == 0);
        assert(placed_items(items, p + 1) =~= Seq::<Node>::empty());
        assert(array_at(b, p) == Ok::<(Node, nat), crate::ParseError>((placed(n, p), t.len())));
    } else {
        lemma_read_elements(b, p + 1, items, Seq::empty());
        assert(Seq::<Node>::empty() + placed_items(items, p + 1) =~= placed_items(items, p + 1));
        assert(t.len() == it.len() + 2);
        assert(array_at(b, p) == Ok::<(Node, nat), crate::ParseError>((placed(n, p), t.len())));
    }
}

proof fn lemma_read_object(b: Seq<u8>, p: nat, n: Node)
    requires
        printable(n),
        n.tree is Object,
        occurs_at(b, p as int, text_of(n)),
    ensures
        value_at(b, p) == Ok::<(Node, nat), crate::ParseError>((placed(n, p), text_of(n).len())),
    decreases n, 0int,
{
    let t = text_of(n);
    let es = n.tree->Object_0;
    let mt = members_text(es);
    assert(t =~= seq![LEFT_BRACE] + (mt + seq![RIGHT_BRACE]));
    lemma_occurs_split(b, p as int, seq![LEFT_BRACE], mt + seq![RIGHT_BRACE]);
    lemma_occurs_byte(b, p as int, LEFT_BRACE);
    assert(ws_run(b, p) == 0);
    if es.len() == 0 {
        assert(mt.len() == 0);
        assert(mt + seq![RIGHT_BRACE] =~= seq![RIGHT_BRACE]);
        lemma_occurs_byte(b, (p + 1) as int, RIGHT_BRACE);
        assert(ws_run(b, p + 1) == 0);
        assert(placed_members(es, p + 1) =~= Seq::<(Seq<u8>, Node)>::empty());
    } else {
        lemma_read_members(b, p + 1, es, Seq::empty());
        assert(Seq::<(Seq<u8>, Node)>::empty() + placed_members(es, p + 1) =~= placed_members(es, p + 1));
    }
}

/// The printed elements of an array and its closing bracket, standing at
/// `p`, are read as those elements, placed.
pub proof fn lemma_read_elements(b: Seq<u8>, p: nat, items: Seq<Node>, acc: Seq<Node>)
    requires
        items.len() > 0,
        all_printable(items),
        occurs_at(b, p as int, items_text(items) + seq![RIGHT_BRACKET]),
    ensures
        p < b.len(),
        ws_run(b, p) == 0,
        elements_at(b, p, acc) == Ok::<(Seq<Node>, nat), crate::ParseError>(
            (acc + placed_items(items, p), items_text(items).len() + 1),
        ),
    decreases items, 2int,
{
    let n0 = items[0];
    let t0 = text_of(n0);
    let e = p + t0.len();
    if items.len() == 1 {
        lemma_occurs_split(b, p as int, t0, seq![RIGHT_BRACKET]);
        lemma_occurs_byte(b, e as int, RIGHT_BRACKET);
        lemma_starts_at(b, p as int, n0);
        lemma_read_value(b, p, n0);
        assert(ws_run(b, e) == 0);
        assert(acc + placed_items(items, p) =~= acc.push(placed(n0, p)));
    } else {
        let rest = items.drop_first();
        let rt = items_text(rest);
        assert(items_text(items) + seq![RIGHT_BRACKET] =~= t0 + (seq![COMMA] + (rt + seq![RIGHT_BRACKET])));
        lemma_occurs_split(b, p as int, t0, seq![COMMA] + (rt + seq![RIGHT_BRACKET]));
        lemma_occurs_split(b, e as int, seq![COMMA], rt + seq![RIGHT_BRACKET]);
        lemma_occurs_byte(b, e as int, COMMA);
        lemma_starts_at(b, p as int, n0);
        lemma_read_value(b, p, n0);
        assert(ws_run(b, e) == 0);
        let v = placed(n0, p);
        lemma_read_elements(b, e + 1, rest, acc.push(v));
        assert(acc.push(v) + placed_items(rest, e + 1) =~= acc + placed_items(items, p));
    }
}

/// The printed members of an object and its closing brace, standing at
/// `p`, are read as those members, placed, after the members in `acc`,
/// whose keys differ from theirs.
#[verifier::rlimit(50)]
pub proof fn lemma_read_members(b: Seq<u8>, p: nat, es: Seq<(Seq<u8>, Node)>, acc: Seq<(Seq<u8>, Node)>)
    requires
        es.len() > 0,
        printable_members(es),
        keys_unique(es),
        forall|i: int, j: int| 0 <= i < acc.len() && 0 <= j < es.len() ==> acc[i].0 != es[j].0,
        occurs_at(b, p as int, members_text(es) + seq![RIGHT_BRACE]),
    ensures
        p < b.len(),
        ws_run(b, p) == 0,
        members_at(b, p, acc) == Ok::<(Seq<(Seq<u8>, Node)>, nat), crate::ParseError>(
            (acc + placed_members(es, p), members_text(es).len() + 1),
        ),
    decreases es, 2int,
{
    let key = es[0].0;
    let n0 = es[0].1;
    let t0 = text_of(n0);
    let tail = if es.len() == 1 {
        seq![RIGHT_BRACE]
    } else {
        seq![COMMA] + (members_text(es.drop_first()) + seq![RIGHT_BRACE])
    };
    assert(members_text(es) + seq![RIGHT_BRACE] =~= seq![QUOTE] + (key + (seq![QUOTE] + (seq![COLON] + (t0 + tail)))));
    lemma_occurs_split(b, p as int, seq![QUOTE], key + (seq![QUOTE] + (seq![COLON] + (t0 + tail))));
    lemma_occurs_split(b, (p + 1) as int, key, seq![QUOTE] + (seq![COLON] + (t0 + tail)));
    let c = p + 1 + key.len() + 1;
    lemma_occurs_split(b, c - 1, seq![QUOTE], seq![COLON] + (t0 + tail));
    lemma_occurs_split(b, c as int, seq![COLON], t0 + tail);
    let s = c + 1;
    lemma_occurs_split(b, s as int, t0, tail);
    lemma_occurs_byte(b, p as int, QUOTE);
    lemma_occurs_byte(b, c - 1, QUOTE);
    lemma_occurs_byte(b, c as int, COLON);
    lemma_starts_at(b, s as int, n0);
    let e = s + t0.len();
    if es.len() == 1 {
        lemma_occurs_byte(b, e as int, RIGHT_BRACE);
    } else {
        lemma_occurs_split(b, e as int, seq![COMMA], members_text(es.drop_first()) + seq![RIGHT_BRACE]);
        lemma_occurs_byte(b, e as int, COMMA);
    }
    lemma_runs_stop(b, p + 1, key);
    assert(string_content_at(b, p) == Ok::<(Seq<u8>, nat), crate::ParseError>((key, key.len() + 2)));
    assert(ws_run(b, c) == 0);
    assert(ws_run(b, s) == 0);
    lemma_read_value(b, s, n0);
    let v = placed(n0, s);
    assert(ws_run(b, e) == 0);
    assert(!(exists|i: int| 0 <= i < acc.len() && acc[i].0 == key));
    assert(insert_entry(acc, key, v) == acc.push((key, v)));
    if es.len() == 1 {
        assert(acc + placed_members(es, p) =~= acc.push((key, v)));
    } else {
        let rest = es.drop_first();
        let acc2 = acc.push((key, v));
        assert forall|i: int, j: int| 0 <= i < acc2.len() && 0 <= j < rest.len() implies acc2[i].0 != rest[j].0 by {
            assert(rest[j] == es[j + 1]);
            if i < acc.len() {
                assert(acc2[i] == acc[i]);
            }
        }
        assert(keys_unique(rest)) by {
            assert forall|i: int, j: int| 0 <= i < rest.len() && 0 <= j < rest.len() && i != j implies rest[i].0 != rest[j].0 by {
                assert(rest[i] == es[i + 1]);
                assert(rest[j] == es[j + 1]);
            }
        }
        lemma_read_members(b, e + 1, rest, acc2);
        assert(acc2 + placed_members(rest, e + 1) =~= acc + placed_members(es, p));
    }
}

pub open spec fn all_ws(w: Seq<u8>) -> bool {
    forall|i: int| 0 <= i < w.len() ==> is_ws(#[trigger] w[i])
}

proof fn lemma_ws_prefix(b: Seq<u8>, p: nat, w: Seq<u8>)
    requires
        occurs_at(b, p as int, w),
        all_ws(w),
    ensures
        ws_run(b, p) == w.len() + ws_run(b, p + w.len()),
    decreases w.len(),
{
    if w.len() > 0 {
        let rest = w.drop_first();
        assert(seq![w[0]] + rest =~= w);
        lemma_occurs_split(b, p as int, seq![w[0]], rest);
        lemma_occurs_byte(b, p as int, w[0]);
        assert(all_ws(rest)) by {
            assert forall|i: int| 0 <= i < rest.len() implies is_ws(#[trigger] rest[i]) by {
                assert(rest[i] == w[i + 1]);
            }
        }
        lemma_ws_prefix(b, p + 1, rest);
    }
}

/// The printed form of a printable tree, with any whitespace before and
/// after it, parses to a document of one value: that tree, spanning the
/// printed form.
pub proof fn law_printed_tree_parses_back(n: Node, before: Seq<u8>, after: Seq<u8>)
    requires
        printable(n),
        all_ws(before),
        all_ws(after),
    ensures
        parse_document(before + text_of(n) + after) == Ok::<Seq<Node>, crate::ParseError>(
            seq![placed(n, before.len())],
        ),
{
    let t = text_of(n);
    let b = before + t + after;
    let p = before.len();
    assert(b.subrange(0, b.len() as int) =~= b);
    assert(b =~= before + (t + after));
    lemma_occurs_split(b, 0, before, t + after);
    lemma_occurs_split(b, p as int, t, after);
    lemma_starts_at(b, p as int, n);
    lemma_ws_prefix(b, 0, before);
    assert(ws_run(b, p) == 0);
    let e = p + t.len();
    if after.len() > 0 {
        lemma_occurs_index(b, e as int, after);
        assert(b[e as int + 0] == after[0]);
    }
    lemma_read_value(b, p, n);
    lemma_value_after_ws(b, 0);
    lemma_ws_prefix(b, e, after);
    let v = placed(n, p);
    assert(Seq::<Node>::empty().push(v) =~= seq![v]);
    assert(value_at(b, 0) == Ok::<(Node, nat), crate::ParseError>((v, e)));
    assert(document_at(b, e, seq![v]) == Ok::<Seq<Node>, crate::ParseError>(seq![v]));
}

/// Parsing is idempotent: each value of a parsed document is printable, and
/// its printed form parses back to the same tree, with the spans of that
/// printed form.
pub proof fn law_reparse_is_idempotent(b: Seq<u8>)
    requires
        parse_document(b) is Ok,
    ensures
        forall|i: int|
            0 <= i < parse_document(b)->Ok_0.len() ==> printable(#[trigger] parse_document(b)->Ok_0[i])
                && parse_document(text_of(parse_document(b)->Ok_0[i])) == Ok::<Seq<Node>, crate::ParseError>(
                seq![placed(parse_document(b)->Ok_0[i], 0)],
            ),
{
    lemma_document_printable(b, 0, Seq::empty());
    let ns = parse_document(b)->Ok_0;
    assert forall|i: int| 0 <= i < ns.len() implies printable(#[trigger] ns[i])
        && parse_document(text_of(ns[i])) == Ok::<Seq<Node>, crate::ParseError>(seq![placed(ns[i], 0)]) by {
        let e = Seq::<u8>::empty();
        assert(e + text_of(ns[i]) + e =~= text_of(ns[i]));
        law_printed_tree_parses_back(ns[i], e, e);
    }
}

proof fn lemma_all_printable(items: Seq<Node>)
    ensures
        all_printable(items) <==> forall|i: int| 0 <= i < items.len() ==> printable(#[trigger] items[i]),
    decreases items.len(),
{
    if items.len() > 0 {
        let rest = items.drop_first();
        lemma_all_printable(rest);
        assert forall|i: int| 0 <= i < rest.len() implies rest[i] == items[i + 1] by {}
        if forall|i: int| 0 <= i < items.len() ==> printable(#[trigger] items[i]) {
            assert forall|i: int| 0 <= i < rest.len() implies printable(#[trigger] rest[i]) by {
                assert(rest[i] == items[i + 1]);
            }
        }
        if all_printable(items) {
            assert forall|i: int| 0 <= i < items.len() implies printable(#[trigger] items[i]) by {
                if i > 0 {
                    assert(items[i] == rest[i - 1]);
                }
            }
        }
    }
}

/// Every member has a key without a quote and a printable value.
pub open spec fn members_printable(es: Seq<(Seq<u8>, Node)>) -> bool {
    forall|i: int| 0 <= i < es.len() ==> no_quote(#[trigger] es[i].0) && printable(es[i].1)
}

proof fn lemma_printable_members(es: Seq<(Seq<u8>, Node)>)
    ensures
        printable_members(es) <==> members_printable(es),
    decreases es.len(),
{
    if es.len() > 0 {
        let rest = es.drop_first();
        lemma_printable_members(rest);
        if members_printable(es) {
            assert forall|i: int| 0 <= i < rest.len() implies no_quote(#[trigger] rest[i].0) && printable(rest[i].1) by {
                assert(rest[i] == es[i + 1]);
                assert(no_quote(es[i + 1].0) && printable(es[i + 1].1));
            }
            assert(no_quote(es[0].0) && printable(es[0].1));
        }
        if printable_members(es) {
            assert forall|i: int| 0 <= i < es.len() implies no_quote(#[trigger] es[i].0) && printable(es[i].1) by {
                if i > 0 {
                    assert(es[i] == rest[i - 1]);
                    assert(no_quote(rest[i - 1].0) && printable(rest[i - 1].1));
                }
            }
        }
    }
}

proof fn lemma_insert_printable(es: Seq<(Seq<u8>, Node)>, k: Seq<u8>, v: Node)
    requires
        keys_unique(es),
        members_printable(es),
        no_quote(k),
        printable(v),
    ensures
        keys_unique(insert_entry(es, k, v)),
        members_printable(insert_entry(es, k, v)),
{
    let r = insert_entry(es, k, v);
    if exists|i: int| 0 <= i < es.len() && es[i].0 == k {
        let i = choose|i: int| 0 <= i < es.len() && es[i].0 == k;
        assert forall|j: int| 0 <= j < r.len() implies (#[trigger] r[j]).0 == es[j].0 by {}
        assert(members_printable(r)) by {
            assert forall|j: int| 0 <= j < r.len() implies no_quote(#[trigger] r[j].0) && printable(r[j].1) by {
                if j != i {
                    assert(r[j] == es[j]);
                }
            }
        }
    } else {
        assert forall|j: int| 0 <= j < es.len() implies (#[trigger] r[j]) == es[j] by {}
    }
}

/// Every value that is read is printable.
proof fn lemma_value_printable(b: Seq<u8>, p: nat)
    ensures
        value_at(b, p) is Ok ==> printable(value_at(b, p)->Ok_0.0),
    decreases b.len() - p, 2int,
{
    if p <= b.len() {
        lemma_ws_run(b, p);
        let q = p + ws_run(b, p);
        if q < b.len() {
            let c = b[q as int];
            if c == LEFT_BRACE || c == LEFT_BRACKET {
                lemma_container_printable(b, q);
            } else if c == QUOTE {
                lemma_content_run(b, q + 1);
                if let Ok((s, k)) = string_content_at(b, q) {
                    assert forall|i: int| 0 <= i < s.len() implies #[trigger] s[i] != QUOTE by {
                        assert(s[i] == b[q + 1 + i]);
                    }
                }
            } else if c == MINUS || is_digit(c) {
                lemma_number_run(b, q);
                reveal_with_fuel(number_run, 2);
                let n = number_run(b, q);
                let t = b.subrange(q as int, (q + n) as int);
                assert(t[0] == c);
                assert forall|i: int| 0 <= i < t.len() implies is_number_char(#[trigger] t[i]) by {
                    assert(t[i] == b[q + i]);
                }
            }
        }
    }
}

proof fn lemma_container_printable(b: Seq<u8>, p: nat)
    requires
        p < b.len(),
    ensures
        array_at(b, p) is Ok ==> printable(array_at(b, p)->Ok_0.0),
        object_at(b, p) is Ok ==> printable(object_at(b, p)->Ok_0.0),
    decreases b.len() - p, 1int,
{
    lemma_ws_run(b, p + 1);
    let q = p + 1 + ws_run(b, p + 1);
    if q < b.len() {
        lemma_elements_printable(b, q, Seq::empty());
        lemma_members_printable(b, q, Seq::empty());
        if let Ok((items, k)) = elements_at(b, q, Seq::empty()) {
            lemma_all_printable(items);
        }
        if let Ok((es, k)) = members_at(b, q, Seq::empty()) {
            lemma_printable_members(es);
        }
    } else {
        lemma_all_printable(Seq::<Node>::empty());
        lemma_printable_members(Seq::empty());
    }
    lemma_all_printable(Seq::<Node>::empty());
    lemma_printable_members(Seq::empty());
}

proof fn lemma_elements_printable(b: Seq<u8>, p: nat, acc: Seq<Node>)
    requires
        p < b.len(),
        forall|i: int| 0 <= i < acc.len() ==> printable(#[trigger] acc[i]),
    ensures
        elements_at(b, p, acc) is Ok ==> forall|i: int|
            0 <= i < elements_at(b, p, acc)->Ok_0.0.len() ==> printable(
                #[trigger] elements_at(b, p, acc)->Ok_0.0[i],
            ),
    decreases b.len() - p, 3int,
{
    lemma_value_printable(b, p);
    lemma_value_span(b, p);
    if let Ok((v, k)) = value_at(b, p) {
        let acc2 = acc.push(v);
        assert forall|i: int| 0 <= i < acc2.len() implies printable(#[trigger] acc2[i]) by {
            if i < acc.len() {
                assert(acc2[i] == acc[i]);
            }
        }
        let e = p + k;
        lemma_ws_run(b, e);
        let q = e + ws_run(b, e);
        if q < b.len() && b[q as int] == COMMA {
            lemma_ws_run(b, q + 1);
            let r = q + 1 + ws_run(b, q + 1);
            if r < b.len() {
                lemma_elements_printable(b, r, acc2);
            }
        }
    }
}

proof fn lemma_members_printable(b: Seq<u8>, p: nat, acc: Seq<(Seq<u8>, Node)>)
    requires
        p < b.len(),
        keys_unique(acc),
        members_printable(acc),
    ensures
        members_at(b, p, acc) is Ok ==> keys_unique(members_at(b, p, acc)->Ok_0.0)
            && members_printable(members_at(b, p, acc)->Ok_0.0),
    decreases b.len() - p, 3int,
{
    lemma_content_run(b, p + 1);
    if let Ok((key, k1)) = string_content_at(b, p) {
        assert forall|i: int| 0 <= i < key.len() implies #[trigger] key[i] != QUOTE by {
            assert(key[i] == b[p + 1 + i]);
        }
        lemma_ws_run(b, p + k1);
        let c = p + k1 + ws_run(b, p + k1);
        if c < b.len() && b[c as int] == COLON {
            lemma_ws_run(b, c + 1);
            let s = c + 1 + ws_run(b, c + 1);
            if s < b.len() {
                lemma_value_span(b, s);
                lemma_value_printable(b, s);
                if let Ok((v, k2)) = value_at(b, s) {
                    lemma_insert_printable(acc, key, v);
                    let e = s + k2;
                    lemma_ws_run(b, e);
                    let q = e + ws_run(b, e);
                    if q < b.len() && b[q as int] == COMMA {
                        lemma_ws_run(b, q + 1);
                        let r = q + 1 + ws_run(b, q + 1);
                        if r < b.len() {
                            lemma_members_printable(b, r, insert_entry(acc, key, v));
                        }
                    }
                }
            }
        }
    }
}

proof fn lemma_document_printable(b: Seq<u8>, p: nat, acc: Seq<Node>)
    requires
        forall|i: int| 0 <= i < acc.len() ==> printable(#[trigger] acc[i]),
    ensures
        document_at(b, p, acc) is Ok ==> forall|i: int|
            0 <= i < document_at(b, p, acc)->Ok_0.len() ==> printable(
                #[trigger] document_at(b, p, acc)->Ok_0[i],
            ),
    decreases b.len() - p,
{
    if p + ws_run(b, p) < b.len() {
        lemma_value_span(b, p);
        lemma_value_printable(b, p);
        if let Ok((v, k)) = value_at(b, p) {
            let acc2 = acc.push(v);
            assert forall|i: int| 0 <= i < acc2.len() implies printable(#[trigger] acc2[i]) by {
                if i < acc.len() {
                    assert(acc2[i] == acc[i]);
                }
            }
            lemma_document_printable(b, p + k, acc2);
        }
    }
}

} // verus!
