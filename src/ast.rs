//! The parsed document: values with their byte ranges, tokens, and comments
//! keyed by the offset they are anchored to.
use std::collections::HashMap;
use vstd::prelude::*;

verus! {

/// A span of the source text, as byte offsets: `start` inclusive, `end`
/// exclusive.
#[derive(Clone, Copy, Debug, PartialEq, Eq, Structural)]
pub struct Range {
    pub start: usize,
    pub end: usize,
}

impl Range {
    pub open spec fn wf(self) -> bool {
        self.start <= self.end
    }

    /// The number of bytes that the range spans.
    pub fn width(&self) -> (r: usize)
        requires
            self.wf(),
        ensures
            r == self.end - self.start,
    {
        self.end - self.start
    }
}

#[derive(Clone, Copy, Debug, PartialEq, Eq, Structural)]
pub enum CommentKind {
    Line,
    Block,
}

/// A comment of the source. `text` is what stands between the delimiters
/// (after `//`, or between `/*` and `*/`).
#[derive(Clone, Debug)]
pub struct Comment {
    pub kind: CommentKind,
    pub text: String,
    pub range: Range,
}

#[derive(Clone, Copy, Debug, PartialEq, Eq, Structural)]
pub enum TokenKind {
    OpenBrace,
    CloseBrace,
    OpenBracket,
    CloseBracket,
    Comma,
    Colon,
    String,
    Word,
    Boolean,
    Number,
    Null,
}

/// A token of the source, comments excluded.
#[derive(Clone, Copy, Debug, PartialEq, Eq, Structural)]
pub struct Token {
    pub kind: TokenKind,
    pub range: Range,
}

/// A value of the document.
#[derive(Debug)]
pub enum Value {
    Array(Array),
    Object(Object),
    /// A string literal, single or double quoted; its range covers the quotes.
    StringLit(Range),
    /// A number literal; it is rendered as its source text.
    NumberLit(Range),
    BooleanLit(bool, Range),
    NullKeyword(Range),
}

#[derive(Debug)]
pub struct Array {
    pub range: Range,
    pub elements: Vec<Value>,
}

#[derive(Debug)]
pub struct Object {
    pub range: Range,
    pub properties: Vec<ObjectProp>,
}

#[derive(Debug)]
pub struct ObjectProp {
    pub range: Range,
    pub name: PropName,
    pub value: Value,
}

/// The name of a property: a string literal, or a bare word.
#[derive(Clone, Copy, Debug, PartialEq, Eq, Structural)]
pub enum PropName {
    String(Range),
    Word(Range),
}

impl Value {
    pub open spec fn spec_range(self) -> Range {
        match self {
            Value::Array(a) => a.range,
            Value::Object(o) => o.range,
            Value::StringLit(r) => r,
            Value::NumberLit(r) => r,
            Value::BooleanLit(_, r) => r,
            Value::NullKeyword(r) => r,
        }
    }

    pub fn range(&self) -> (r: Range)
        ensures
            r == self.spec_range(),
    {
        match self {
            Value::Array(a) => a.range,
            Value::Object(o) => o.range,
            Value::StringLit(r) => *r,
            Value::NumberLit(r) => *r,
            Value::BooleanLit(_, r) => *r,
            Value::NullKeyword(r) => *r,
        }
    }
}

impl PropName {
    pub open spec fn spec_range(self) -> Range {
        match self {
            PropName::String(r) => r,
            PropName::Word(r) => r,
        }
    }

    pub fn range(&self) -> (r: Range)
        ensures
            r == self.spec_range(),
    {
        match self {
            PropName::String(r) => *r,
            PropName::Word(r) => *r,
        }
    }
}

/// Every range in the value lies within a text of `len` bytes and is
/// ordered, and every container spans at least its two delimiters.
pub open spec fn value_within(v: Value, len: int) -> bool
    decreases v,
{
    &&& v.spec_range().wf()
    &&& v.spec_range().end <= len
    &&& match v {
        Value::Array(a) => {
            &&& a.range.end >= a.range.start + 2
            &&& forall|i: int|
                0 <= i < a.elements@.len() ==> value_within(#[trigger] a.elements@[i], len)
        },
        Value::Object(o) => {
            &&& o.range.end >= o.range.start + 2
            &&& forall|i: int|
                0 <= i < o.properties@.len() ==> prop_within(#[trigger] o.properties@[i], len)
        },
        Value::StringLit(r) => r.end >= r.start + 2,
        _ => true,
    }
}

pub open spec fn prop_within(p: ObjectProp, len: int) -> bool
    decreases p,
{
    &&& p.range.wf()
    &&& p.range.end <= len
    &&& p.name.spec_range().wf()
    &&& p.name.spec_range().end <= len
    &&& (p.name matches PropName::String(r) ==> r.end >= r.start + 2)
    &&& value_within(p.value, len)
}

pub proof fn lemma_array_within(a: &Array, len: int, i: int)
    requires
        value_within(Value::Array(*a), len),
        0 <= i < a.elements@.len(),
    ensures
        value_within(a.elements@[i], len),
{

}

pub proof fn lemma_object_within(o: &Object, len: int, i: int)
    requires
        value_within(Value::Object(*o), len),
        0 <= i < o.properties@.len(),
    ensures
        prop_within(o.properties@[i], len),
{
}

/// The comments of a document, keyed by the offset that they are anchored
/// to: a node's start for those that lead it, a node's or a token's end for
/// those that trail it. Every comment lies within the text it was made for.
pub struct CommentMap {
    map: HashMap<usize, Vec<Comment>>,
    text_len: usize,
}

/// Every comment of `comments` lies within a text of `len` bytes.
pub open spec fn comments_within(comments: Seq<Comment>, len: int) -> bool {
    forall|i: int|
        0 <= i < comments.len() ==> (#[trigger] comments[i]).range.wf() && comments[i].range.end <= len
}

impl CommentMap {
    pub closed spec fn view(&self) -> Map<usize, Vec<Comment>> {
        self.map@
    }

    /// The length of the text that the comments belong to.
    pub closed spec fn text_len(&self) -> usize {
        self.text_len
    }

    /// Every comment lies within the text.
    pub closed spec fn wf(&self) -> bool {
        forall|k: usize| #[trigger] self.map@.contains_key(k) ==> comments_within(self.map@[k]@, self.text_len as int)
    }

    /// An empty map for a text of `text_len` bytes.
    pub fn new(text_len: usize) -> (r: CommentMap)
        ensures
            r.wf(),
            r@ == Map::<usize, Vec<Comment>>::empty(),
            r.text_len() == text_len,
    {
        CommentMap { map: HashMap::new(), text_len }
    }

    /// Anchors `comments` at `offset`, in place of what stood there, where
    /// they all lie within the text; else leaves the map as it is.
    pub fn insert(&mut self, offset: usize, comments: Vec<Comment>) -> (r: bool)
        requires
            old(self).wf(),
        ensures
            final(self).wf(),
            r == comments_within(comments@, old(self).text_len() as int),
            final(self).text_len() == old(self).text_len(),
            final(self)@ == if r {
                old(self)@.insert(offset, comments)
            } else {
                old(self)@
            },
    {
        broadcast use vstd::std_specs::hash::group_hash_axioms;

        let mut i: usize = 0;
        while i < comments.len()
            invariant
                i <= comments@.len(),
                self.wf(),
                self.text_len == old(self).text_len,
                self.map@ == old(self).map@,
                comments_within(comments@.take(i as int), self.text_len as int),
            decreases comments@.len() - i,
        {
            let range = comments[i].range;
            if range.start > range.end || range.end > self.text_len {
                assert(!((comments@[i as int]).range.wf() && comments@[i as int].range.end <= self.text_len));
                return false;
            }
            assert(comments@.take(i + 1) =~= comments@.take(i as int).push(comments@[i as int]));
            i = i + 1;
        }
        assert(comments@.take(i as int) =~= comments@);
        self.map.insert(offset, comments);
        true
    }

    /// The comments anchored at `offset`.
    pub fn get(&self, offset: usize) -> (r: Option<&Vec<Comment>>)
        requires
            self.wf(),
        ensures
            match r {
                Some(c) => self@.contains_key(offset) && *c == self@[offset] && comments_within(
                    c@,
                    self.text_len() as int,
                ),
                None => !self@.contains_key(offset),
            },
    {
        broadcast use vstd::std_specs::hash::group_hash_axioms;


        self.map.get(&offset)
    }
}

/// Tokens stand in source order and within a text of `len` bytes.
pub open spec fn tokens_valid(tokens: Seq<Token>, len: int) -> bool {
    &&& forall|i: int, j: int|
        0 <= i < j < tokens.len() ==> #[trigger] tokens[i].range.start <= #[trigger] tokens[j].range.start
    &&& forall|i: int|
        0 <= i < tokens.len() ==> #[trigger] tokens[i].range.wf() && tokens[i].range.end <= len
}

/// The byte length of a text.
pub open spec fn byte_len(text: Seq<char>) -> int {
    vstd::utf8::encode_utf8(text).len() as int
}

/// A parsed document: the text, its value (absent where the text holds only
/// comments), its tokens and its comments, all within the text.
pub struct Document {
    text: String,
    value: Option<Value>,
    tokens: Vec<Token>,
    comments: CommentMap,
}

/// What a document needs of its parts.
pub open spec fn document_valid(
    text: Seq<char>,
    value: Option<Value>,
    tokens: Seq<Token>,
    comments: &CommentMap,
) -> bool {
    &&& (value matches Some(v) ==> value_within(v, byte_len(text)))
    &&& tokens_valid(tokens, byte_len(text))
    &&& comments.text_len() == byte_len(text)
    &&& comments.wf()
}

fn value_is_within(v: &Value, len: usize) -> (r: bool)
    ensures
        r == value_within(*v, len as int),
    decreases v, 2int,
{
    let range = v.range();
    if range.start > range.end || range.end > len {
        return false;
    }
    match v {
        Value::Array(a) => a.range.end - a.range.start >= 2 && elements_are_within(a, len),
        Value::Object(o) => o.range.end - o.range.start >= 2 && properties_are_within(o, len),
        Value::StringLit(r) => r.end - r.start >= 2,
        _ => true,
    }
}

fn elements_are_within(a: &Array, len: usize) -> (r: bool)
    ensures
        r == forall|k: int| 0 <= k < a.elements@.len() ==> value_within(#[trigger] a.elements@[k], len as int),
    decreases a, 1int,
{
    let mut i: usize = 0;
    while i < a.elements.len()
        invariant
            i <= a.elements@.len(),
            forall|k: int| 0 <= k < i ==> value_within(#[trigger] a.elements@[k], len as int),
        decreases a.elements@.len() - i,
    {
        if !value_is_within(&a.elements[i], len) {
            return false;
        }
        i = i + 1;
    }
    true
}

fn properties_are_within(o: &Object, len: usize) -> (r: bool)
    ensures
        r == forall|k: int| 0 <= k < o.properties@.len() ==> prop_within(#[trigger] o.properties@[k], len as int),
    decreases o, 1int,
{
    let mut i: usize = 0;
    while i < o.properties.len()
        invariant
            i <= o.properties@.len(),
            forall|k: int| 0 <= k < i ==> prop_within(#[trigger] o.properties@[k], len as int),
        decreases o.properties@.len() - i,
    {
        if !prop_is_within(&o.properties[i], len) {
            return false;
        }
        i = i + 1;
    }
    true
}

fn prop_is_within(p: &ObjectProp, len: usize) -> (r: bool)
    ensures
        r == prop_within(*p, len as int),
    decreases p, 2int,
{
    let name = p.name.range();
    let name_ok = name.start <= name.end && name.end <= len && match p.name {
        PropName::String(r) => r.end - r.start >= 2,
        PropName::Word(_) => true,
    };
    p.range.start <= p.range.end && p.range.end <= len && name_ok && value_is_within(&p.value, len)
}

fn tokens_are_valid(tokens: &Vec<Token>, len: usize) -> (r: bool)
    ensures
        r == tokens_valid(tokens@, len as int),
{
    let mut i: usize = 0;
    while i < tokens.len()
        invariant
            i <= tokens@.len(),
            tokens_valid(tokens@.take(i as int), len as int),
        decreases tokens@.len() - i,
    {
        let t = tokens[i];
        if t.range.start > t.range.end || t.range.end > len || (i > 0 && tokens[i - 1].range.start
            > t.range.start) {
            assert(!tokens_valid(tokens@, len as int)) by {
                if !(tokens@[i as int].range.wf() && tokens@[i as int].range.end <= len) {
                } else {
                    assert(tokens@[i - 1].range.start > tokens@[i as int].range.start);
                }
            }
            return false;
        }
        assert(tokens_valid(tokens@.take(i + 1), len as int)) by {
            let next = tokens@.take(i + 1);
            assert forall|a: int, b: int| 0 <= a < b < next.len() implies #[trigger] next[a].range.start
                <= #[trigger] next[b].range.start by {
                if b == i {
                    if a < i - 1 {
                        assert(tokens@.take(i as int)[a].range.start <= tokens@.take(i as int)[i - 1].range.start);
                    }
                } else {
                    assert(tokens@.take(i as int)[a].range.start <= tokens@.take(i as int)[b].range.start);
                }
            }
            assert forall|a: int| 0 <= a < next.len() implies #[trigger] next[a].range.wf()
                && next[a].range.end <= len by {
                if a < i {
                    assert(tokens@.take(i as int)[a] == next[a]);
                }
            }
        }
        i = i + 1;
    }
    assert(tokens@.take(i as int) =~= tokens@);
    true
}

impl Document {
    #[verifier::type_invariant]
    closed spec fn inv(&self) -> bool {
        document_valid(self.text@, self.value, self.tokens@, &self.comments)
    }

    pub closed spec fn spec_text(&self) -> Seq<char> {
        self.text@
    }

    /// The UTF-8 bytes of the text, which the ranges index.
    pub open spec fn spec_text_bytes(&self) -> Seq<u8> {
        vstd::utf8::encode_utf8(self.spec_text())
    }

    pub closed spec fn spec_value(&self) -> Option<Value> {
        self.value
    }

    pub closed spec fn spec_tokens(&self) -> Seq<Token> {
        self.tokens@
    }

    pub closed spec fn spec_comments(&self) -> Map<usize, Vec<Comment>> {
        self.comments@
    }

    /// A document of these parts, where every range lies within the text,
    /// tokens stand in order and the comments were made for a text of this
    /// length; `None` otherwise.
    pub fn new(text: String, value: Option<Value>, tokens: Vec<Token>, comments: CommentMap) -> (r:
        Option<Document>)
        requires
            comments.wf(),
        ensures
            r is Some <==> document_valid(text@, value, tokens@, &comments),
            r matches Some(d) ==> d.spec_text() == text@ && d.spec_value() == value && d.spec_tokens()
                == tokens@ && d.spec_comments() == comments@,
    {
        let len = text.as_str().as_bytes().len();
        let value_ok = match &value {
            Some(v) => value_is_within(v, len),
            None => true,
        };
        if value_ok && tokens_are_valid(&tokens, len) && comments.text_len == len {
            Some(Document { text, value, tokens, comments })
        } else {
            None
        }
    }

    pub fn text(&self) -> (r: &str)
        ensures
            r@ == self.spec_text(),
    {
        self.text.as_str()
    }

    pub fn value(&self) -> (r: &Option<Value>)
        ensures
            *r == self.spec_value(),
            r matches Some(v) ==> value_within(*v, byte_len(self.spec_text())),
    {
        proof {
            use_type_invariant(self);
        }
        &self.value
    }

    pub fn tokens(&self) -> (r: &Vec<Token>)
        ensures
            r@ == self.spec_tokens(),
            tokens_valid(r@, byte_len(self.spec_text())),
    {
        proof {
            use_type_invariant(self);
        }
        &self.tokens
    }

    pub fn comments(&self) -> (r: &CommentMap)
        ensures
            r@ == self.spec_comments(),
            r.text_len() == byte_len(self.spec_text()),
            r.wf(),
    {
        proof {
            use_type_invariant(self);
        }
        &self.comments
    }
}

} // verus!
