//! The annotated document tree, and its mathematical model.

use vstd::prelude::*;
use vstd::utf8::{encode_utf8, encode_utf8_decode_utf8};
use crate::grammar::{insert_entry, keys_unique};
use crate::number::{i64_text, int_chars};

verus! {

/// A half-open byte span `[start, end)` of the input.
#[derive(Debug, Clone, Copy, PartialEq, Eq, Structural)]
pub struct Location(pub usize, pub usize);

impl Location {
    pub fn start(&self) -> (r: usize)
        ensures
            r == self.0,
    {
        self.0
    }

    pub fn end(&self) -> (r: usize)
        ensures
            r == self.1,
    {
        self.1
    }
}

/// A payload paired with the span it was read from.
#[derive(Debug)]
pub struct Annotation<T> {
    pub value: T,
    pub loc: Location,
}

impl<T> Annotation<T> {
    pub fn new(value: T, loc: Location) -> (r: Self)
        ensures
            r.value == value,
            r.loc == loc,
    {
        Self { value, loc }
    }

    pub fn loc(&self) -> (r: &Location)
        ensures
            *r == self.loc,
    {
        &self.loc
    }
}

/// A node of the document tree.
pub type JsonValue = Annotation<ValueKind>;

/// The ordered elements of an array.
#[derive(Debug)]
pub struct JsonArray(pub Vec<JsonValue>);

/// The members of an object, keys unique, in the order in which each key
/// first appeared.
#[derive(Debug)]
pub struct JsonObject(pub Vec<(JsonString, JsonValue)>);

/// The text between the quotes of a string, as written.
#[derive(Debug, Clone, PartialEq, Eq, Hash)]
pub struct JsonString(pub String);

#[derive(Debug, Clone, Copy, PartialEq, Eq, Structural)]
pub struct JsonBool(pub bool);

/// A number: a 64-bit integer, or the text of a decimal floating-point
/// literal that is not an integer.
#[derive(Debug, Clone, PartialEq, Eq)]
pub enum JsonNumber {
    Integer(i64),
    Float(String),
}

#[derive(Debug)]
pub enum ValueKind {
    Object(JsonObject),
    Array(JsonArray),
    String(JsonString),
    Number(JsonNumber),
    Bool(JsonBool),
    Null,
}

/// The model of a node's payload. Texts are held as the bytes of their UTF-8
/// encoding.
pub enum Tree {
    Object(Seq<(Seq<u8>, Node)>),
    Array(Seq<Node>),
    Str(Seq<u8>),
    Int(int),
    Float(Seq<u8>),
    Bool(bool),
    Null,
}

/// The model of a node: its payload and its span.
pub struct Node {
    pub tree: Tree,
    pub start: nat,
    pub end: nat,
}

pub open spec fn number_tree(n: JsonNumber) -> Tree {
    match n {
        JsonNumber::Integer(i) => Tree::Int(i as int),
        JsonNumber::Float(t) => Tree::Float(encode_utf8(t@)),
    }
}

/// The model of a value.
pub open spec fn node_of(v: JsonValue) -> Node
    decreases v,
{
    Node {
        tree: match v.value {
            ValueKind::Object(o) => Tree::Object(entries_of(o.0@)),
            ValueKind::Array(a) => Tree::Array(nodes_of(a.0@)),
            ValueKind::String(s) => Tree::Str(encode_utf8(s.0@)),
            ValueKind::Number(n) => number_tree(n),
            ValueKind::Bool(b) => Tree::Bool(b.0),
            ValueKind::Null => Tree::Null,
        },
        start: v.loc.0 as nat,
        end: v.loc.1 as nat,
    }
}

/// The models of a sequence of values.
pub open spec fn nodes_of(s: Seq<JsonValue>) -> Seq<Node>
    decreases s,
{
    if s.len() == 0 {
        Seq::empty()
    } else {
        nodes_of(s.drop_last()).push(node_of(s.last()))
    }
}

/// The models of a sequence of object members.
pub open spec fn entries_of(s: Seq<(JsonString, JsonValue)>) -> Seq<(Seq<u8>, Node)>
    decreases s,
{
    if s.len() == 0 {
        Seq::empty()
    } else {
        entries_of(s.drop_last()).push((encode_utf8(s.last().0.0@), node_of(s.last().1)))
    }
}

/// The length and the elements of `entries_of(s)`.
pub proof fn lemma_entries_of(s: Seq<(JsonString, JsonValue)>)
    ensures
        entries_of(s).len() == s.len(),
        forall|i: int|
            0 <= i < s.len() ==> #[trigger] entries_of(s)[i] == (
                encode_utf8(s[i].0.0@),
                node_of(s[i].1),
            ),
    decreases s.len(),
{
    if s.len() > 0 {
        lemma_entries_of(s.drop_last());
    }
}

/// Two texts are equal exactly when their encodings are.
pub proof fn lemma_encode_injective(a: Seq<char>, b: Seq<char>)
    ensures
        (encode_utf8(a) == encode_utf8(b)) == (a == b),
{
    encode_utf8_decode_utf8(a);
    encode_utf8_decode_utf8(b);
}

impl JsonValue {
    pub fn kind(&self) -> (r: &ValueKind)
        ensures
            *r == self.value,
    {
        &self.value
    }

    pub fn into_kind(self) -> (r: ValueKind)
        ensures
            r == self.value,
    {
        self.value
    }

    pub fn null(loc: Location) -> (r: JsonValue)
        ensures
            r.value == ValueKind::Null,
            r.loc == loc,
    {
        Self::new(ValueKind::Null, loc)
    }

    pub fn bool(value: bool, loc: Location) -> (r: JsonValue)
        ensures
            r.value == ValueKind::Bool(JsonBool(value)),
            r.loc == loc,
    {
        Self::new(ValueKind::Bool(JsonBool::new(value)), loc)
    }

    pub fn number_int(value: i64, loc: Location) -> (r: JsonValue)
        ensures
            r.value == ValueKind::Number(JsonNumber::Integer(value)),
            r.loc == loc,
    {
        Self::new(ValueKind::Number(JsonNumber::Integer(value)), loc)
    }

    /// A floating-point number, given as the text of its literal.
    pub fn number_float(value: String, loc: Location) -> (r: JsonValue)
        ensures
            r.value == ValueKind::Number(JsonNumber::Float(value)),
            r.loc == loc,
    {
        Self::new(ValueKind::Number(JsonNumber::Float(value)), loc)
    }

    pub fn string(value: String, loc: Location) -> (r: JsonValue)
        ensures
            r.value == ValueKind::String(JsonString(value)),
            r.loc == loc,
    {
        Self::new(ValueKind::String(JsonString::new(value)), loc)
    }

    pub fn array(value: Vec<JsonValue>, loc: Location) -> (r: JsonValue)
        ensures
            r.value == ValueKind::Array(JsonArray(value)),
            r.loc == loc,
    {
        Self::new(ValueKind::Array(JsonArray::new(value)), loc)
    }

    pub fn object(value: JsonObject, loc: Location) -> (r: JsonValue)
        ensures
            r.value == ValueKind::Object(value),
            r.loc == loc,
    {
        Self::new(ValueKind::Object(value), loc)
    }
}

impl JsonArray {
    pub fn new(array: Vec<JsonValue>) -> (r: Self)
        ensures
            r.0 == array,
    {
        Self(array)
    }

    /// The elements, in order.
    pub fn as_vec(&self) -> (r: &Vec<JsonValue>)
        ensures
            *r == self.0,
    {
        &self.0
    }
}

impl JsonBool {
    pub fn new(b: bool) -> (r: Self)
        ensures
            r.0 == b,
    {
        Self(b)
    }

    /// `true` or `false`.
    pub fn to_string(&self) -> (r: String)
        ensures
            r@ == (if self.0 {
                "true"@
            } else {
                "false"@
            }),
    {
        if self.0 {
            "true".to_owned()
        } else {
            "false".to_owned()
        }
    }
}

impl JsonString {
    pub fn new(s: String) -> (r: Self)
        ensures
            r.0 == s,
    {
        Self(s)
    }

    /// The text as written between the quotes.
    pub fn to_string(&self) -> (r: String)
        ensures
            r@ == self.0@,
    {
        self.0.clone()
    }

    pub fn as_str(&self) -> (r: &str)
        ensures
            r@ == self.0@,
    {
        self.0.as_str()
    }
}

impl JsonNumber {
    /// An integer in decimal; a floating-point number as its literal was
    /// written.
    pub fn to_string(&self) -> (r: String)
        ensures
            r@ == match self {
                JsonNumber::Integer(i) => int_chars(*i as int),
                JsonNumber::Float(t) => t@,
            },
    {
        match self {
            JsonNumber::Integer(i) => i64_text(*i),
            JsonNumber::Float(t) => t.clone(),
        }
    }
}

impl JsonObject {
    /// The model of the members.
    pub open spec fn entries(&self) -> Seq<(Seq<u8>, Node)> {
        entries_of(self.0@)
    }

    /// No key occurs twice.
    pub open spec fn wf(&self) -> bool {
        keys_unique(self.entries())
    }

    /// The members, each key once.
    pub fn members(&self) -> (r: &Vec<(JsonString, JsonValue)>)
        ensures
            *r == self.0,
    {
        &self.0
    }

    /// An object with no members.
    pub fn new() -> (r: Self)
        ensures
            r.entries() == Seq::<(Seq<u8>, Node)>::empty(),
            r.wf(),
    {
        Self(Vec::new())
    }

    /// Puts a member. A key already present keeps its place and takes the
    /// new value, the old one being dropped; a new key goes last.
    pub fn insert(&mut self, key: JsonString, value: JsonValue)
        requires
            old(self).wf(),
        ensures
            final(self).wf(),
            final(self).entries() == insert_entry(
                old(self).entries(),
                encode_utf8(key.0@),
                node_of(value),
            ),
    {
        let ghost es = self.entries();
        let ghost k = encode_utf8(key.0@);
        proof {
            lemma_entries_of(self.0@);
        }
        let mut i: usize = 0;
        while i < self.0.len()
            invariant
                self.0@ == old(self).0@,
                es == entries_of(self.0@),
                es.len() == self.0@.len(),
                keys_unique(es),
                k == encode_utf8(key.0@),
                i <= self.0@.len(),
                forall|j: int| 0 <= j < i ==> (#[trigger] es[j]).0 != k,
                forall|j: int|
                    0 <= j < self.0@.len() ==> #[trigger] es[j] == (
                        encode_utf8(self.0@[j].0.0@),
                        node_of(self.0@[j].1),
                    ),
            decreases self.0@.len() - i,
        {
            let same = self.0[i].0.0 == key.0;
            proof {
                lemma_encode_injective(self.0@[i as int].0.0@, key.0@);
            }
            if same {
                let ghost n = node_of(value);
                self.0.set(i, (key, value));
                proof {
                    lemma_entries_of(self.0@);
                    assert(0 <= i < es.len() && es[i as int].0 == k);
                    let c = choose|c: int| 0 <= c < es.len() && es[c].0 == k;
                    assert(c == i);
                    assert(entries_of(self.0@) =~= es.update(i as int, (k, n)));
                }
                return;
            }
            i = i + 1;
        }
        let ghost n = node_of(value);
        self.0.push((key, value));
        proof {
            lemma_entries_of(self.0@);
            assert(entries_of(self.0@) =~= es.push((k, n)));
        }
    }
}

} // verus!
