//! The generator: walks a document and its comments and tokens and builds
//! the layout instruction tree, writing each comment once.
use crate::ast::{
    comments_within, lemma_array_within, lemma_object_within, prop_within, value_within, Array, Comment,
    CommentKind, CommentMap, Document, Object, ObjectProp, PropName, Range, Token, Value,
};
use crate::config::{Configuration, TrailingCommaKind};
use crate::ir::{ir_comments, item_comments, values_comments, Ir, LinesSpan, SeparatedValue, Signal};
use crate::lines::{line_count_before, LineIndex};
use crate::token_finder::{comma_after, token_before, TokenFinder};
use std::collections::HashSet;
use vstd::string::StringSliceAdditionalSpecFns;
use vstd::prelude::*;

verus! {

broadcast use vstd::std_specs::hash::group_hash_axioms;

/// Every token lies within a text of `len` bytes.
pub open spec fn tokens_within(tokens: Seq<Token>, len: int) -> bool {
    forall|i: int|
        0 <= i < tokens.len() ==> #[trigger] tokens[i].range.wf() && tokens[i].range.end <= len
}

/// The state of one generation: the inputs, which stay as they are, the
/// comments written so far, which only grow, and the token search position.
pub(crate) struct Context<'a> {
    pub(crate) config: &'a Configuration,
    pub(crate) text: &'a [u8],
    pub(crate) lines: LineIndex,
    pub(crate) is_jsonc: bool,
    /// Start offsets of the comments already written.
    pub(crate) handled: HashSet<usize>,
    pub(crate) comments: &'a CommentMap,
    pub(crate) token_finder: TokenFinder<'a>,
}

/// The start offsets of the comments of the map, each a comment's identity.
pub open spec fn is_comment_start(m: Map<usize, Vec<Comment>>, s: usize) -> bool {
    exists|k: usize, i: int| m.contains_key(k) && 0 <= i < m[k]@.len() && #[trigger] m[k]@[i].range.start == s
}

/// `comments` is one of the lists of the map, and lies within the text.
pub(crate) open spec fn listed(ctx: &Context, comments: &Vec<Comment>) -> bool {
    &&& comments_within(comments@, ctx.text@.len() as int)
    &&& exists|k: usize| ctx.comments@.contains_key(k) && ctx.comments@[k] == *comments
}

proof fn lemma_listed_start(ctx: &Context, comments: &Vec<Comment>, i: int)
    requires
        listed(ctx, comments),
        0 <= i < comments@.len(),
    ensures
        is_comment_start(ctx.comments@, comments@[i].range.start),
{
    let k = choose|k: usize| ctx.comments@.contains_key(k) && ctx.comments@[k] == *comments;
    assert(ctx.comments@[k]@[i] == comments@[i]);
}

impl<'a> Context<'a> {
    pub(crate) open spec fn wf(&self) -> bool {
        &&& self.lines.text() == self.text@
        &&& self.token_finder.wf()
        &&& tokens_within(self.token_finder.tokens(), self.text@.len() as int)
        &&& self.comments.text_len() == self.text@.len()
        &&& self.comments.wf()
        &&& forall|s: usize| #[trigger] self.handled@.contains(s) ==> is_comment_start(self.comments@, s)
    }

    /// `next` is this context after some generation: same inputs, and no
    /// comment forgotten.
    pub(crate) open spec fn evolves_to(&self, next: &Self) -> bool {
        &&& next.wf()
        &&& next.config == self.config
        &&& next.text == self.text
        &&& next.is_jsonc == self.is_jsonc
        &&& next.comments == self.comments
        &&& next.token_finder.tokens() == self.token_finder.tokens()
        &&& self.handled@.subset_of(next.handled@)
    }

    /// The inputs that the output depends on: the text, the configuration,
    /// the comments, the tokens and whether the file is JSONC.
    pub(crate) open spec fn inputs(&self) -> (Seq<u8>, Configuration, Map<usize, Vec<Comment>>, Seq<Token>, bool) {
        (self.text@, *self.config, self.comments@, self.token_finder.tokens(), self.is_jsonc)
    }

    pub(crate) open spec fn line_of(&self, pos: int) -> int {
        line_count_before(self.text@, pos)
    }

    /// The zero-based source line of byte offset `pos`.
    fn line(&self, pos: usize) -> (r: usize)
        requires
            self.wf(),
            pos <= self.text@.len(),
        ensures
            r == self.line_of(pos as int),
    {
        self.lines.line_index(pos)
    }
}

// Comments written once

/// The comments of `cs` were not written before, none stands twice, and the
/// written set grows by exactly them.
pub open spec fn fresh_seq(cs: Seq<usize>, before: Set<usize>, after: Set<usize>) -> bool {
    &&& cs.no_duplicates()
    &&& forall|i: int| 0 <= i < cs.len() ==> !before.contains(#[trigger] cs[i])
    &&& after == before.union(cs.to_set())
}

/// The comments that `items` write were not written before, each once, and
/// the written set grows by exactly them.
pub open spec fn fresh_comments(items: Seq<Ir>, before: Set<usize>, after: Set<usize>) -> bool {
    &&& fresh_seq(ir_comments(items), before, after)
    &&& no_comma(items)
}

/// No item of `items` is a list comma.
pub open spec fn no_comma(items: Seq<Ir>) -> bool {
    forall|k: int| 0 <= k < items.len() ==> !(#[trigger] items[k] is Comma)
}

proof fn lemma_to_set_concat(x: Seq<usize>, y: Seq<usize>)
    ensures
        (x + y).to_set() == x.to_set().union(y.to_set()),
{
    let z = x + y;
    assert forall|e: usize| z.contains(e) <==> x.contains(e) || y.contains(e) by {
        if z.contains(e) {
            let i = choose|i: int| 0 <= i < z.len() && z[i] == e;
            if i < x.len() {
                assert(x[i] == e);
            } else {
                assert(y[i - x.len()] == e);
            }
        }
        if x.contains(e) {
            let i = choose|i: int| 0 <= i < x.len() && x[i] == e;
            assert(z[i] == e);
        }
        if y.contains(e) {
            let i = choose|i: int| 0 <= i < y.len() && y[i] == e;
            assert(z[i + x.len()] == e);
        }
    }
    assert((x + y).to_set() =~= x.to_set().union(y.to_set()));
}

proof fn lemma_fresh_concat(x: Seq<usize>, y: Seq<usize>, h0: Set<usize>, h1: Set<usize>, h2: Set<usize>)
    requires
        fresh_seq(x, h0, h1),
        fresh_seq(y, h1, h2),
    ensures
        fresh_seq(x + y, h0, h2),
{
    let z = x + y;
    lemma_to_set_concat(x, y);
    assert forall|i: int| 0 <= i < z.len() implies !h0.contains(#[trigger] z[i]) by {
        if i < x.len() {
            assert(z[i] == x[i]);
        } else {
            assert(z[i] == y[i - x.len()]);
        }
    }
    assert forall|i: int, j: int| 0 <= i < z.len() && 0 <= j < z.len() && i != j implies z[i] != z[j] by {
        if i < x.len() && j < x.len() {
            assert(z[i] == x[i] && z[j] == x[j]);
        } else if i >= x.len() && j >= x.len() {
            assert(z[i] == y[i - x.len()] && z[j] == y[j - x.len()]);
        } else if i < x.len() {
            assert(z[i] == x[i] && z[j] == y[j - x.len()]);
            assert(x.contains(x[i]));
        } else {
            assert(z[j] == x[j] && z[i] == y[i - x.len()]);
            assert(x.contains(x[j]));
        }
    }
    assert(h2 =~= h0.union(z.to_set()));
}

proof fn lemma_ir_comments_append(a: Seq<Ir>, b: Seq<Ir>)
    ensures
        ir_comments(a + b) == ir_comments(a) + ir_comments(b),
    decreases b.len(),
{
    if b.len() == 0 {
        assert(a + b =~= a);
        assert(ir_comments(a) + ir_comments(b) =~= ir_comments(a));
    } else {
        assert((a + b).drop_last() =~= a + b.drop_last());
        assert((a + b).last() == b.last());
        lemma_ir_comments_append(a, b.drop_last());
        assert(ir_comments(a + b) =~= ir_comments(a) + ir_comments(b));
    }
}

proof fn lemma_ir_comments_push(a: Seq<Ir>, x: Ir)
    ensures
        ir_comments(a.push(x)) == ir_comments(a) + item_comments(x),
{
    assert(a.push(x).drop_last() =~= a);
}

proof fn lemma_ir_comments_single(x: Ir)
    ensures
        ir_comments(seq![x]) == item_comments(x),
{
    lemma_ir_comments_push(Seq::empty(), x);
    assert(Seq::<Ir>::empty().push(x) =~= seq![x]);
    assert(ir_comments(Seq::<Ir>::empty()) + item_comments(x) =~= item_comments(x));
}

proof fn lemma_values_comments_push(a: Seq<SeparatedValue>, v: SeparatedValue)
    ensures
        values_comments(a.push(v)) == values_comments(a) + ir_comments(v.items@),
{
    assert(a.push(v).drop_last() =~= a);
}

/// Appending items that write fresh comments keeps the whole fresh.
proof fn lemma_append_fresh(a: Seq<Ir>, b: Seq<Ir>, h0: Set<usize>, h1: Set<usize>, h2: Set<usize>)
    requires
        fresh_comments(a, h0, h1),
        fresh_comments(b, h1, h2),
    ensures
        fresh_comments(a + b, h0, h2),
        ir_comments(a + b) == ir_comments(a) + ir_comments(b),
{
    lemma_ir_comments_append(a, b);
    lemma_fresh_concat(ir_comments(a), ir_comments(b), h0, h1, h2);
    assert forall|k: int| 0 <= k < (a + b).len() implies !(#[trigger] (a + b)[k] is Comma) by {
        if k < a.len() {
            assert((a + b)[k] == a[k]);
        } else {
            assert((a + b)[k] == b[k - a.len()]);
        }
    }
}

/// Items with fresh comments and no list comma, followed by items whose
/// comments are fresh.
proof fn lemma_append_fresh_seq(a: Seq<Ir>, b: Seq<Ir>, h0: Set<usize>, h1: Set<usize>, h2: Set<usize>)
    requires
        fresh_comments(a, h0, h1),
        fresh_seq(ir_comments(b), h1, h2),
    ensures
        fresh_seq(ir_comments(a + b), h0, h2),
        ir_comments(a + b) == ir_comments(a) + ir_comments(b),
{
    lemma_ir_comments_append(a, b);
    lemma_fresh_concat(ir_comments(a), ir_comments(b), h0, h1, h2);
}

/// Pushing an item whose comments are fresh keeps the whole fresh.
proof fn lemma_push_fresh(a: Seq<Ir>, x: Ir, h0: Set<usize>, h1: Set<usize>, h2: Set<usize>)
    requires
        fresh_comments(a, h0, h1),
        fresh_seq(item_comments(x), h1, h2),
        !(x is Comma),
    ensures
        fresh_comments(a.push(x), h0, h2),
{
    lemma_ir_comments_push(a, x);
    lemma_fresh_concat(ir_comments(a), item_comments(x), h0, h1, h2);
    assert forall|k: int| 0 <= k < a.push(x).len() implies !(#[trigger] a.push(x)[k] is Comma) by {
        if k < a.len() {
            assert(a.push(x)[k] == a[k]);
        }
    }
}

proof fn lemma_fresh_empty(h: Set<usize>)
    ensures
        fresh_seq(Seq::empty(), h, h),
        fresh_comments(Seq::empty(), h, h),
        ir_comments(Seq::<Ir>::empty()) == Seq::<usize>::empty(),
{
    assert(ir_comments(Seq::<Ir>::empty()) =~= Seq::<usize>::empty());
    assert(h.union(Seq::<usize>::empty().to_set()) =~= h);
}

/// Items that write no comment.
proof fn lemma_plain_items(items: Seq<Ir>)
    requires
        forall|i: int| 0 <= i < items.len() ==> item_comments(#[trigger] items[i]) == Seq::<usize>::empty(),
    ensures
        ir_comments(items) == Seq::<usize>::empty(),
    decreases items.len(),
{
    if items.len() > 0 {
        lemma_plain_items(items.drop_last());
        assert(ir_comments(items) =~= Seq::<usize>::empty());
    }
}

/// Whether a comma follows element `i` of a list of `n` elements: between
/// elements always; after the last one as the policy says.
pub open spec fn comma_after_element(
    i: int,
    n: int,
    policy: TrailingCommaKind,
    is_jsonc: bool,
    comma_in_source: bool,
) -> bool {
    let is_last = i == n - 1;
    match policy {
        TrailingCommaKind::Always => true,
        TrailingCommaKind::Never => !is_last,
        TrailingCommaKind::Jsonc => !is_last || is_jsonc,
        TrailingCommaKind::Maintain => !is_last || comma_in_source,
    }
}

/// Decides whether element `i` of `n` is followed by a comma.
/// `comma_in_source` says whether a comma token follows it in the source.
pub fn should_have_comma(
    i: usize,
    n: usize,
    policy: TrailingCommaKind,
    is_jsonc: bool,
    comma_in_source: bool,
) -> (r: bool)
    requires
        i < n,
    ensures
        r == comma_after_element(i as int, n as int, policy, is_jsonc, comma_in_source),
        policy == TrailingCommaKind::Always ==> r,
        policy == TrailingCommaKind::Never ==> (r <==> i + 1 < n),
        policy == TrailingCommaKind::Jsonc ==> (r <==> i + 1 < n || is_jsonc),
        policy == TrailingCommaKind::Maintain ==> (r <==> i + 1 < n || comma_in_source),
{
    let is_last = i == n - 1;
    match policy {
        TrailingCommaKind::Always => true,
        TrailingCommaKind::Never => !is_last,
        TrailingCommaKind::Jsonc => !is_last || is_jsonc,
        TrailingCommaKind::Maintain => !is_last || comma_in_source,
    }
}

/// One text item.
fn text_items(b: Vec<u8>) -> (r: Vec<Ir>)
    ensures
        r@ == seq![Ir::Text(b)],
        ir_comments(r@) == Seq::<usize>::empty(),
{
    let r = vec![Ir::Text(b)];
    proof {
        lemma_plain_items(r@);
    }
    r
}

fn text_ir(s: &str) -> (r: Ir)
    ensures
        r matches Ir::Text(b) && b@ == s.spec_bytes(),
{
    Ir::Text(vstd::slice::slice_to_vec(s.as_bytes()))
}

fn copy_comment(c: &Comment) -> (r: Comment)
    ensures
        r.kind == c.kind,
        r.text@ == c.text@,
        r.range == c.range,
{
    Comment { kind: c.kind, text: c.text.clone(), range: c.range }
}

/// The bytes `start..end` of `text`.
fn slice_bytes(text: &[u8], start: usize, end: usize) -> (r: Vec<u8>)
    requires
        start <= end <= text@.len(),
    ensures
        r@ == text@.subrange(start as int, end as int),
{
    let mut out: Vec<u8> = Vec::new();
    let mut i = start;
    while i < end
        invariant
            start <= i <= end <= text@.len(),
            out@ == text@.subrange(start as int, i as int),
        decreases end - i,
    {
        out.push(text[i]);
        proof {
            assert(out@ =~= text@.subrange(start as int, i + 1));
        }
        i = i + 1;
    }
    out
}

// Comments

/// Pushes an item that writes no comment and is no list comma.
fn push_plain(items: &mut Vec<Ir>, x: Ir)
    requires
        item_comments(x) == Seq::<usize>::empty(),
        !(x is Comma),
    ensures
        final(items)@ == old(items)@.push(x),
        ir_comments(final(items)@) == ir_comments(old(items)@),
        no_comma(old(items)@) ==> no_comma(final(items)@),
{
    proof {
        lemma_ir_comments_push(old(items)@, x);
        assert(ir_comments(old(items)@) + Seq::<usize>::empty() =~= ir_comments(old(items)@));
        if no_comma(old(items)@) {
            assert forall|k: int| 0 <= k < old(items)@.push(x).len() implies !(#[trigger] old(items)@.push(x)[k] is Comma) by {
                if k < old(items)@.len() {
                    assert(old(items)@.push(x)[k] == old(items)@[k]);
                }
            }
        }
    }
    items.push(x);
}

/// Appends items that write fresh comments to items that do.
fn append_fresh(items: &mut Vec<Ir>, other: Vec<Ir>, Ghost(h0): Ghost<Set<usize>>, Ghost(h1): Ghost<Set<usize>>, Ghost(h2): Ghost<Set<usize>>)
    requires
        fresh_comments(old(items)@, h0, h1),
        fresh_comments(other@, h1, h2),
        h0.subset_of(h1),
        h1.subset_of(h2),
    ensures
        final(items)@ == old(items)@ + other@,
        fresh_comments(final(items)@, h0, h2),
        ir_comments(final(items)@) == ir_comments(old(items)@) + ir_comments(other@),
{
    proof {
        lemma_append_fresh(old(items)@, other@, h0, h1, h2);
    }
    let mut other = other;
    items.append(&mut other);
}

/// `item` writes comment `c`; a line comment gets a space after its
/// slashes where `force_space`.
pub open spec fn writes_comment(item: Ir, c: Comment, force_space: bool) -> bool {
    match item {
        Ir::LineComment(d, f) => c.kind == CommentKind::Line && f == force_space && d.kind == c.kind && d.text@
            == c.text@ && d.range == c.range,
        Ir::BlockComment(d) => c.kind == CommentKind::Block && d.kind == c.kind && d.text@ == c.text@ && d.range
            == c.range,
        _ => false,
    }
}

/// `b` writes comment `c` where `written`, and nothing otherwise.
pub open spec fn comment_body(b: Seq<Ir>, c: Comment, force_space: bool, written: bool) -> bool {
    if written {
        b.len() == 1 && writes_comment(b[0], c, force_space)
    } else {
        b.len() == 0
    }
}

/// `x` is a single space.
pub open spec fn is_space(x: Ir) -> bool {
    x matches Ir::Text(t) && t@ == " ".spec_bytes()
}

/// What stands before a comment that follows `last` (where there is one):
/// one line break, two where a blank line separated them in the source, or
/// where `separate` asks for it; else a space, with a line comment kept on
/// that line; else a space after a block comment; else nothing.
pub open spec fn comment_laid_out(
    r: Seq<Ir>,
    c: Comment,
    last: Option<Last>,
    separate: bool,
    text: Seq<u8>,
    force_space: bool,
    written: bool,
) -> bool {
    match last {
        None => comment_body(r, c, force_space, written),
        Some(l) => {
            let cs = line_count_before(text, c.range.start as int);
            let le = line_count_before(text, l.end as int);
            if separate || cs > le {
                if cs > le + 1 {
                    r.len() >= 2 && r[0] == Ir::Signal(Signal::NewLine) && r[1] == Ir::Signal(Signal::NewLine)
                        && comment_body(r.skip(2), c, force_space, written)
                } else {
                    r.len() >= 1 && r[0] == Ir::Signal(Signal::NewLine) && comment_body(r.skip(1), c, force_space, written)
                }
            } else if c.kind == CommentKind::Line {
                r.len() == 1 && (r[0] matches Ir::NoNewLines(inner) && inner@.len() >= 1 && is_space(inner@[0])
                    && comment_body(inner@.skip(1), c, force_space, written))
            } else if l.is_block_comment {
                r.len() >= 1 && is_space(r[0]) && comment_body(r.skip(1), c, force_space, written)
            } else {
                comment_body(r, c, force_space, written)
            }
        },
    }
}

/// Every comment that `written` lists is one of `cs`.
pub open spec fn from_list(written: Seq<usize>, cs: Seq<Comment>) -> bool {
    forall|k: int|
        #![trigger written[k]]
        0 <= k < written.len() ==> exists|j: int| #![trigger cs[j]] 0 <= j < cs.len() && cs[j].range.start == written[k]
}

/// Every comment of `cs` that `keep` selects is written in `h`.
pub open spec fn all_written(h: Set<usize>, cs: Seq<Comment>, keep: spec_fn(Comment) -> bool) -> bool {
    forall|i: int| 0 <= i < cs.len() && keep(cs[i]) ==> h.contains(#[trigger] cs[i].range.start)
}

pub open spec fn keep_all() -> spec_fn(Comment) -> bool {
    |c: Comment| true
}

/// Comments that end on a later line than `line`, or all where there is none.
pub open spec fn ends_after(text: Seq<u8>, line: Option<usize>) -> spec_fn(Comment) -> bool {
    |c: Comment| match line {
        Some(l) => l < line_count_before(text, c.range.end as int),
        None => true,
    }
}

/// Comments that start on `line` or before, or all where there is none.
pub open spec fn starts_by(text: Seq<u8>, line: Option<usize>) -> spec_fn(Comment) -> bool {
    |c: Comment| match line {
        Some(l) => line_count_before(text, c.range.start as int) <= l,
        None => true,
    }
}

/// The starts of the comments of `cs` that `keep` selects and that are not
/// written in `h`, in order, each once: what writing them one after another
/// writes.
pub open spec fn pending(cs: Seq<Comment>, h: Set<usize>, keep: spec_fn(Comment) -> bool) -> Seq<usize>
    decreases cs.len(),
{
    if cs.len() == 0 {
        Seq::empty()
    } else if keep(cs[0]) && !h.contains(cs[0].range.start) {
        seq![cs[0].range.start] + pending(cs.drop_first(), h.insert(cs[0].range.start), keep)
    } else {
        pending(cs.drop_first(), h, keep)
    }
}

/// The first comment of `cs` that `keep` selects and that is not written
/// in `h`.
pub open spec fn first_unwritten(cs: Seq<Comment>, h: Set<usize>, keep: spec_fn(Comment) -> bool) -> Option<Comment>
    decreases cs.len(),
{
    if cs.len() == 0 {
        None
    } else if keep(cs[0]) && !h.contains(cs[0].range.start) {
        Some(cs[0])
    } else {
        first_unwritten(cs.drop_first(), h, keep)
    }
}

proof fn lemma_from_list_push(a: Seq<usize>, cs: Seq<Comment>, j: int)
    requires
        from_list(a, cs),
        0 <= j < cs.len(),
    ensures
        from_list(a + seq![cs[j].range.start], cs),
{
    let z = a + seq![cs[j].range.start];
    assert forall|k: int| #![trigger z[k]] 0 <= k < z.len() implies exists|m: int| #![trigger cs[m]] 0 <= m < cs.len() && cs[m].range.start == z[k] by {
        if k < a.len() {
            assert(z[k] == a[k]);
        } else {
            assert(z[k] == cs[j].range.start);
        }
    }
}

/// Writes a comment once: nothing where it was written before.
fn gen_comment(c: &Comment, ctx: &mut Context) -> (r: Option<Vec<Ir>>)
    requires
        old(ctx).wf(),
        is_comment_start(old(ctx).comments@, c.range.start),
    ensures
        old(ctx).evolves_to(final(ctx)),
        r is Some <==> !old(ctx).handled@.contains(c.range.start),
        final(ctx).handled@ == old(ctx).handled@.insert(c.range.start),
        r matches Some(v) ==> fresh_comments(v@, old(ctx).handled@, final(ctx).handled@) && comment_body(
            v@,
            *c,
            old(ctx).config.comment_line_force_space_after_slashes,
            true,
        ),
{
    if ctx.handled.contains(&c.range.start) {
        return None;
    }
    let ghost before = ctx.handled@;
    ctx.handled.insert(c.range.start);
    let item = match c.kind {
        CommentKind::Block => Ir::BlockComment(copy_comment(c)),
        CommentKind::Line => Ir::LineComment(copy_comment(c), ctx.config.comment_line_force_space_after_slashes),
    };
    let v = vec![item];
    proof {
        lemma_ir_comments_single(item);
        assert(item_comments(item) =~= seq![c.range.start]);
        let single = seq![c.range.start];
        assert forall|e: usize| single.to_set().contains(e) <==> e == c.range.start by {
            if e == c.range.start {
                assert(single[0] == e);
            }
        }
        assert(ctx.handled@ =~= before.union(single.to_set()));
        assert(v@ =~= seq![item]);
    }
    Some(v)
}

/// What a comment follows: where it ends and whether it is a block comment.
#[derive(Clone, Copy)]
pub struct Last {
    pub end: usize,
    pub is_block_comment: bool,
}

fn gen_comment_based_on_last_node(
    comment: &Comment,
    last: Option<Last>,
    separate_with_newlines: bool,
    ctx: &mut Context,
) -> (r: Vec<Ir>)
    requires
        old(ctx).wf(),
        is_comment_start(old(ctx).comments@, comment.range.start),
        comment.range.wf(),
        comment.range.end <= old(ctx).text@.len(),
        last matches Some(l) ==> l.end <= old(ctx).text@.len(),
    ensures
        old(ctx).evolves_to(final(ctx)),
        final(ctx).handled@ == old(ctx).handled@.insert(comment.range.start),
        fresh_comments(r@, old(ctx).handled@, final(ctx).handled@),
        ir_comments(r@) == if old(ctx).handled@.contains(comment.range.start) {
            Seq::<usize>::empty()
        } else {
            seq![comment.range.start]
        },
        comment_laid_out(
            r@,
            *comment,
            last,
            separate_with_newlines,
            old(ctx).text@,
            old(ctx).config.comment_line_force_space_after_slashes,
            !old(ctx).handled@.contains(comment.range.start),
        ),
{
    let ghost h0 = ctx.handled@;
    let ghost written = !h0.contains(comment.range.start);
    let mut items: Vec<Ir> = Vec::new();
    let mut same_line = false;
    proof {
        lemma_fresh_empty(h0);
    }
    if let Some(last) = last {
        let comment_start_line = ctx.line(comment.range.start);
        let last_node_end_line = ctx.line(last.end);
        if separate_with_newlines || comment_start_line > last_node_end_line {
            push_plain(&mut items, Ir::Signal(Signal::NewLine));
            if comment_start_line > last_node_end_line && comment_start_line - 1 > last_node_end_line {
                push_plain(&mut items, Ir::Signal(Signal::NewLine));
            }
        } else if comment.kind == CommentKind::Line {
            same_line = true;
        } else if last.is_block_comment {
            push_plain(&mut items, text_ir(" "));
        }
    }
    let ghost prefix = items@;
    let generated = gen_comment(comment, ctx);
    let mut body: Vec<Ir> = match generated {
        Some(g) => g,
        None => {
            proof {
                assert(ctx.handled@ =~= h0);
                lemma_fresh_empty(h0);
            }
            Vec::new()
        },
    };
    let ghost body_items = body@;
    if same_line {
        let mut inner: Vec<Ir> = Vec::new();
        push_plain(&mut inner, text_ir(" "));
        let ghost space = inner@;
        inner.append(&mut body);
        proof {
            lemma_fresh_empty(h0);
            lemma_ir_comments_single(space[0]);
            assert(space =~= seq![space[0]]);
            assert(fresh_comments(space, h0, h0));
            lemma_append_fresh(space, body_items, h0, h0, ctx.handled@);
            assert(inner@.skip(1) =~= body_items);
        }
        let x = Ir::NoNewLines(inner);
        proof {
            assert(item_comments(x) == ir_comments(inner@));
        }
        push_fresh(&mut items, x, Ghost(h0), Ghost(h0), Ghost(ctx.handled@));
    } else {
        append_fresh(&mut items, body, Ghost(h0), Ghost(h0), Ghost(ctx.handled@));
        proof {
            assert(items@.skip(prefix.len() as int) =~= body_items);
            assert(items@.skip(0) =~= items@);
        }
    }
    proof {
        if written {
            lemma_ir_comments_single(body_items[0]);
            assert(body_items =~= seq![body_items[0]]);
        } else {
            assert(body_items =~= Seq::<Ir>::empty());
        }
        assert(ir_comments(prefix) == Seq::<usize>::empty());
        if same_line {
            lemma_ir_comments_push(prefix, items@.last());
            assert(items@ =~= prefix.push(items@.last()));
        } else {
            lemma_ir_comments_append(prefix, body_items);
        }
        assert(ir_comments(items@) =~= (if written {
            seq![comment.range.start]
        } else {
            Seq::<usize>::empty()
        }));
    }
    items
}

/// Whether one of the comments is not written yet.
fn has_unhandled_comment(comments: &Vec<Comment>, ctx: &Context) -> (r: bool)
    ensures
        r <==> exists|i: int|
            0 <= i < comments@.len() && !ctx.handled@.contains(#[trigger] comments@[i].range.start),
{
    let mut i: usize = 0;
    while i < comments.len()
        invariant
            i <= comments@.len(),
            forall|k: int| 0 <= k < i ==> ctx.handled@.contains(#[trigger] comments@[k].range.start),
        decreases comments@.len() - i,
    {
        if !ctx.handled.contains(&comments[i].range.start) {
            return true;
        }
        i = i + 1;
    }
    false
}

/// Writes the comments not yet written, each on its own line, keeping one
/// blank line where the source had at least one. `min_end_line` keeps only
/// those that end on a later line.
fn gen_comments_as_statements(
    comments: &Vec<Comment>,
    last: Option<Last>,
    min_end_line: Option<usize>,
    ctx: &mut Context,
) -> (r: Vec<Ir>)
    requires
        old(ctx).wf(),
        listed(old(ctx), comments),
        last matches Some(l) ==> l.end <= old(ctx).text@.len(),
    ensures
        old(ctx).evolves_to(final(ctx)),
        fresh_comments(r@, old(ctx).handled@, final(ctx).handled@),
        from_list(ir_comments(r@), comments@),
        ir_comments(r@) == pending(comments@, old(ctx).handled@, ends_after(old(ctx).text@, min_end_line)),
        r@.len() > 0 <==> ir_comments(r@).len() > 0,
        all_written(final(ctx).handled@, comments@, ends_after(old(ctx).text@, min_end_line)),
{
    let ghost h0 = ctx.handled@;
    let mut last = last;
    let mut items: Vec<Ir> = Vec::new();
    proof {
        lemma_fresh_empty(h0);
    }
    let mut i: usize = 0;
    assert(comments@.skip(0) =~= comments@);
    assert(ir_comments(items@) + pending(comments@, h0, ends_after(old(ctx).text@, min_end_line)) =~= pending(comments@, h0, ends_after(old(ctx).text@, min_end_line)));
    while i < comments.len()
        invariant
            old(ctx).evolves_to(ctx),
            h0 == old(ctx).handled@,
            fresh_comments(items@, h0, ctx.handled@),
            from_list(ir_comments(items@), comments@),
            ir_comments(items@) + pending(comments@.skip(i as int), ctx.handled@, ends_after(ctx.text@, min_end_line)) == pending(
                comments@,
                h0,
                ends_after(ctx.text@, min_end_line),
            ),
            items@.len() > 0 <==> ir_comments(items@).len() > 0,
            forall|k: int| 0 <= k < i && (ends_after(ctx.text@, min_end_line))(comments@[k]) ==> ctx.handled@.contains(#[trigger] comments@[k].range.start),
            listed(ctx, comments),
            i <= comments@.len(),
            last matches Some(l) ==> l.end <= ctx.text@.len(),
        decreases comments@.len() - i,
    {
        let comment = &comments[i];
        let ghost hs = ctx.handled@;
        let ghost before_all = items@;
        proof {
            assert(comments@.skip(i as int)[0] == comments@[i as int]);
            assert(comments@.skip(i as int).drop_first() =~= comments@.skip(i + 1));
        }
        let wanted = match min_end_line {
            Some(line) => line < ctx.line(comment.range.end),
            None => true,
        };
        if wanted && !ctx.handled.contains(&comment.range.start) {
            let ghost h1 = ctx.handled@;
            proof {
                lemma_listed_start(ctx, comments, i as int);
            }
            let ghost before = items@;
            let generated = gen_comment_based_on_last_node(comment, last, true, ctx);
            let ghost g = generated@;
            append_fresh(&mut items, generated, Ghost(h0), Ghost(h1), Ghost(ctx.handled@));
            proof {
                lemma_ir_comments_append(before, g);
                lemma_from_list_push(ir_comments(before), comments@, i as int);
            }
            last = Some(Last { end: comment.range.end, is_block_comment: comment.kind == CommentKind::Block });
        }
        proof {
            let keep = ends_after(ctx.text@, min_end_line);
            if keep(comments@[i as int]) && !hs.contains(comments@[i as int].range.start) {
                assert(ctx.handled@ == hs.insert(comments@[i as int].range.start));
                assert(ir_comments(items@) == ir_comments(before_all) + seq![comments@[i as int].range.start]);
                assert(ir_comments(items@) + pending(comments@.skip(i + 1), ctx.handled@, keep) =~= ir_comments(
                    before_all,
                ) + pending(comments@.skip(i as int), hs, keep));
            } else {
                assert(items@ == before_all);
                assert(ctx.handled@ == hs);
            }
        }
        i = i + 1;
    }
    assert(comments@.skip(i as int) =~= Seq::<Comment>::empty());
    assert(ir_comments(items@) + pending(comments@.skip(i as int), ctx.handled@, ends_after(ctx.text@, min_end_line)) =~= ir_comments(items@));
    items
}

/// Writes the comments not yet written. `max_start_line` keeps only those
/// that start on that line or before; `next_start_line` is the line of the
/// node that follows them.
fn gen_comment_collection(
    comments: &Vec<Comment>,
    max_start_line: Option<usize>,
    last: Option<Last>,
    next_start_line: Option<usize>,
    ctx: &mut Context,
) -> (r: Vec<Ir>)
    requires
        old(ctx).wf(),
        listed(old(ctx), comments),
        last matches Some(l) ==> l.end <= old(ctx).text@.len(),
    ensures
        old(ctx).evolves_to(final(ctx)),
        fresh_comments(r@, old(ctx).handled@, final(ctx).handled@),
        from_list(ir_comments(r@), comments@),
        ir_comments(r@) == pending(comments@, old(ctx).handled@, starts_by(old(ctx).text@, max_start_line)),
        all_written(final(ctx).handled@, comments@, starts_by(old(ctx).text@, max_start_line)),
{
    let ghost h0 = ctx.handled@;
    let mut last = last;
    let mut items: Vec<Ir> = Vec::new();
    proof {
        lemma_fresh_empty(h0);
    }
    let mut i: usize = 0;
    assert(comments@.skip(0) =~= comments@);
    assert(ir_comments(items@) + pending(comments@, h0, starts_by(old(ctx).text@, max_start_line)) =~= pending(comments@, h0, starts_by(old(ctx).text@, max_start_line)));
    while i < comments.len()
        invariant
            old(ctx).evolves_to(ctx),
            h0 == old(ctx).handled@,
            fresh_comments(items@, h0, ctx.handled@),
            from_list(ir_comments(items@), comments@),
            ir_comments(items@) + pending(comments@.skip(i as int), ctx.handled@, starts_by(ctx.text@, max_start_line)) == pending(
                comments@,
                h0,
                starts_by(ctx.text@, max_start_line),
            ),
            forall|k: int| 0 <= k < i && (starts_by(ctx.text@, max_start_line))(comments@[k]) ==> ctx.handled@.contains(#[trigger] comments@[k].range.start),
            listed(ctx, comments),
            i <= comments@.len(),
            last matches Some(l) ==> l.end <= ctx.text@.len(),
        decreases comments@.len() - i,
    {
        let comment = &comments[i];
        let ghost hs = ctx.handled@;
        let ghost before_all = items@;
        proof {
            assert(comments@.skip(i as int)[0] == comments@[i as int]);
            assert(comments@.skip(i as int).drop_first() =~= comments@.skip(i + 1));
        }
        let start_line = ctx.line(comment.range.start);
        let wanted = match max_start_line {
            Some(line) => start_line <= line,
            None => true,
        };
        if wanted && !ctx.handled.contains(&comment.range.start) {
            let separate = match next_start_line {
                Some(line) => start_line != line,
                None => false,
            };
            let ghost h1 = ctx.handled@;
            proof {
                lemma_listed_start(ctx, comments, i as int);
            }
            let ghost before = items@;
            let generated = gen_comment_based_on_last_node(comment, last, separate, ctx);
            let ghost g = generated@;
            append_fresh(&mut items, generated, Ghost(h0), Ghost(h1), Ghost(ctx.handled@));
            proof {
                lemma_ir_comments_append(before, g);
                lemma_from_list_push(ir_comments(before), comments@, i as int);
            }
            last = Some(Last { end: comment.range.end, is_block_comment: comment.kind == CommentKind::Block });
        }
        proof {
            let keep = starts_by(ctx.text@, max_start_line);
            if keep(comments@[i as int]) && !hs.contains(comments@[i as int].range.start) {
                assert(ctx.handled@ == hs.insert(comments@[i as int].range.start));
                assert(ir_comments(items@) == ir_comments(before_all) + seq![comments@[i as int].range.start]);
                assert(ir_comments(items@) + pending(comments@.skip(i + 1), ctx.handled@, keep) =~= ir_comments(
                    before_all,
                ) + pending(comments@.skip(i as int), hs, keep));
            } else {
                assert(items@ == before_all);
                assert(ctx.handled@ == hs);
            }
        }
        i = i + 1;
    }
    assert(comments@.skip(i as int) =~= Seq::<Comment>::empty());
    assert(ir_comments(items@) + pending(comments@.skip(i as int), ctx.handled@, starts_by(ctx.text@, max_start_line)) =~= ir_comments(items@));
    items
}

/// The index of the last comment of `cs` not written in `h`.
pub open spec fn last_unwritten(cs: Seq<Comment>, h: Set<usize>) -> Option<int>
    decreases cs.len(),
{
    if cs.len() == 0 {
        None
    } else if !h.contains(cs.last().range.start) {
        Some(cs.len() - 1)
    } else {
        last_unwritten(cs.drop_last(), h)
    }
}

proof fn lemma_last_unwritten_bounds(cs: Seq<Comment>, h: Set<usize>)
    ensures
        last_unwritten(cs, h) matches Some(k) ==> 0 <= k < cs.len(),
    decreases cs.len(),
{
    if cs.len() > 0 {
        lemma_last_unwritten_bounds(cs.drop_last(), h);
    }
}

proof fn lemma_pending_all_written(cs: Seq<Comment>, h: Set<usize>, keep: spec_fn(Comment) -> bool)
    requires
        forall|k: int| 0 <= k < cs.len() ==> h.contains(#[trigger] cs[k].range.start),
    ensures
        pending(cs, h, keep) == Seq::<usize>::empty(),
    decreases cs.len(),
{
    if cs.len() > 0 {
        assert forall|k: int| 0 <= k < cs.drop_first().len() implies h.contains(#[trigger] cs.drop_first()[k].range.start) by {
            assert(cs.drop_first()[k] == cs[k + 1]);
        }
        lemma_pending_all_written(cs.drop_first(), h, keep);
    }
}

/// Writes the comments that lead the node of `range`: those not written
/// yet, in order; then, after the last of them, one line break, two where
/// the source had a blank line, or a space that does not trail a line after
/// a block comment on the node's line.
fn gen_comments_as_leading(range: Range, comments: &Vec<Comment>, ctx: &mut Context) -> (r: Vec<Ir>)
    requires
        old(ctx).wf(),
        listed(old(ctx), comments),
        range.wf(),
        range.end <= old(ctx).text@.len(),
    ensures
        old(ctx).evolves_to(final(ctx)),
        fresh_comments(r@, old(ctx).handled@, final(ctx).handled@),
        from_list(ir_comments(r@), comments@),
        all_written(final(ctx).handled@, comments@, starts_by(old(ctx).text@, None)),
        ir_comments(r@) == pending(comments@, old(ctx).handled@, starts_by(old(ctx).text@, None)),
        match last_unwritten(comments@, old(ctx).handled@) {
            None => r@.len() == 0,
            Some(k) => {
                let le = old(ctx).line_of(comments@[k].range.end as int);
                let nl = old(ctx).line_of(range.start as int);
                if nl > le {
                    r@.len() >= 1 && r@.last() == Ir::Signal(Signal::NewLine) && (nl - 1 > le ==> r@.len() >= 2
                        && r@[r@.len() - 2] == Ir::Signal(Signal::NewLine))
                } else if comments@[k].kind == CommentKind::Block && nl == le {
                    r@.len() >= 1 && r@.last() == Ir::Signal(Signal::SpaceIfNotTrailing)
                } else {
                    true
                }
            },
        },
{
    let ghost h0 = ctx.handled@;
    let mut items: Vec<Ir> = Vec::new();
    proof {
        lemma_fresh_empty(h0);
    }
    // the last comment that is not written yet
    let mut last_unhandled: Option<usize> = None;
    let mut i: usize = 0;
    assert(comments@.take(0) =~= Seq::<Comment>::empty());
    while i < comments.len()
        invariant
            i <= comments@.len(),
            ctx.handled@ == h0,
            last_unhandled matches Some(k) ==> k < comments@.len(),
            last_unhandled == (match last_unwritten(comments@.take(i as int), h0) {
                Some(k) => Some(k as usize),
                None => None::<usize>,
            }),
            last_unhandled is None ==> forall|k: int| 0 <= k < i ==> ctx.handled@.contains(#[trigger] comments@[k].range.start),
        decreases comments@.len() - i,
    {
        assert(comments@.take(i + 1).drop_last() =~= comments@.take(i as int));
        assert(comments@.take(i + 1).last() == comments@[i as int]);
        proof {
            lemma_last_unwritten_bounds(comments@.take(i as int), h0);
        }
        if !ctx.handled.contains(&comments[i].range.start) {
            last_unhandled = Some(i);
        }
        i = i + 1;
    }
    assert(comments@.take(i as int) =~= comments@);
    proof {
        lemma_last_unwritten_bounds(comments@, h0);
    }
    if let Some(k) = last_unhandled {
        assert(last_unwritten(comments@, h0) == Some(k as int));
        let last_comment_end_line = ctx.line(comments[k].range.end);
        let last_comment_kind = comments[k].kind;
        let node_start_line = ctx.line(range.start);
        let generated = gen_comment_collection(comments, None, None, Some(node_start_line), ctx);
        let ghost g = generated@;
        append_fresh(&mut items, generated, Ghost(h0), Ghost(h0), Ghost(ctx.handled@));
        assert(ir_comments(items@) == ir_comments(g));
        if node_start_line > last_comment_end_line {
            push_plain(&mut items, Ir::Signal(Signal::NewLine));
            if node_start_line - 1 > last_comment_end_line {
                push_plain(&mut items, Ir::Signal(Signal::NewLine));
            }
        } else if last_comment_kind == CommentKind::Block && node_start_line == last_comment_end_line {
            push_plain(&mut items, Ir::Signal(Signal::SpaceIfNotTrailing));
        }
    } else {
        proof {
            lemma_pending_all_written(comments@, h0, starts_by(old(ctx).text@, None));
        }
    }
    items
}

/// Writes the comments that trail the node of `range`: those that start on
/// its last line. A block comment gets a space before it.
fn gen_comments_as_trailing(range: Range, comments: &Vec<Comment>, ctx: &mut Context) -> (r: Vec<Ir>)
    requires
        old(ctx).wf(),
        listed(old(ctx), comments),
        range.wf(),
        range.end <= old(ctx).text@.len(),
    ensures
        old(ctx).evolves_to(final(ctx)),
        fresh_comments(r@, old(ctx).handled@, final(ctx).handled@),
        from_list(ir_comments(r@), comments@),
        all_written(
            final(ctx).handled@,
            comments@,
            starts_by(old(ctx).text@, Some(old(ctx).line_of(range.end as int) as usize)),
        ),
        ir_comments(r@) == pending(
            comments@,
            old(ctx).handled@,
            starts_by(old(ctx).text@, Some(old(ctx).line_of(range.end as int) as usize)),
        ),
        first_unwritten(
            comments@,
            old(ctx).handled@,
            starts_by(old(ctx).text@, Some(old(ctx).line_of(range.end as int) as usize)),
        ) matches Some(c) && c.kind == CommentKind::Block ==> r@.len() > 0 && is_space(r@[0]),
{
    let ghost h0 = ctx.handled@;
    let node_end_line = ctx.line(range.end);
    let mut items: Vec<Ir> = Vec::new();
    proof {
        lemma_fresh_empty(h0);
    }
    let ghost keep = starts_by(ctx.text@, Some(node_end_line));
    let mut i: usize = 0;
    assert(comments@.skip(0) =~= comments@);
    while i < comments.len()
        invariant
            ctx.wf(),
            keep == starts_by(ctx.text@, Some(node_end_line)),
            node_end_line == ctx.line_of(range.end as int),
            old(ctx).evolves_to(ctx),
            ctx.text@ == old(ctx).text@,
            h0 == old(ctx).handled@,
            range.end <= ctx.text@.len(),
            first_unwritten(comments@.skip(i as int), h0, keep) == first_unwritten(comments@, h0, keep),
            items@.len() == 0,
            ctx.handled@ == h0,
            fresh_comments(items@, h0, h0),
            ir_comments(items@) == Seq::<usize>::empty(),
            listed(ctx, comments),
            i <= comments@.len(),
        decreases comments@.len() - i,
    {
        let comment = &comments[i];
        assert(comments@.skip(i as int)[0] == comments@[i as int]);
        assert(comments@.skip(i as int).drop_first() =~= comments@.skip(i + 1));
        if ctx.line(comment.range.start) <= node_end_line && !ctx.handled.contains(&comment.range.start) {
            assert(first_unwritten(comments@, h0, keep) == Some(comments@[i as int]));
            if comment.kind == CommentKind::Block {
                push_plain(&mut items, text_ir(" "));
            }
            let ghost with_space = items@;
            let generated = gen_comment_collection(
                comments,
                Some(node_end_line),
                Some(Last { end: range.end, is_block_comment: false }),
                None,
                ctx,
            );
            let ghost g = generated@;
            append_fresh(&mut items, generated, Ghost(h0), Ghost(h0), Ghost(ctx.handled@));
            assert(ir_comments(items@) =~= ir_comments(g));
            assert(comment.kind == CommentKind::Block ==> items@[0] == with_space[0]);
            return items;
        }
        i = i + 1;
    }
    let generated = gen_comment_collection(
        comments,
        Some(node_end_line),
        Some(Last { end: range.end, is_block_comment: false }),
        None,
        ctx,
    );
    let ghost before = items@;
    let ghost g = generated@;
    append_fresh(&mut items, generated, Ghost(h0), Ghost(h0), Ghost(ctx.handled@));
    assert(ir_comments(items@) =~= ir_comments(g));
    items
}

/// The trailing comments anchored at `end`, the end of a node or token.
fn gen_trailing_comments(range: Range, ctx: &mut Context) -> (r: Vec<Ir>)
    requires
        old(ctx).wf(),
        range.wf(),
        range.end <= old(ctx).text@.len(),
    ensures
        old(ctx).evolves_to(final(ctx)),
        fresh_comments(r@, old(ctx).handled@, final(ctx).handled@),
        old(ctx).comments@.contains_key(range.end) ==> from_list(ir_comments(r@), old(ctx).comments@[range.end]@)
            && all_written(
            final(ctx).handled@,
            old(ctx).comments@[range.end]@,
            starts_by(old(ctx).text@, Some(old(ctx).line_of(range.end as int) as usize)),
        ),
        !old(ctx).comments@.contains_key(range.end) ==> r@.len() == 0,
{
    proof {
        lemma_fresh_empty(ctx.handled@);
    }
    match ctx.comments.get(range.end) {
        Some(comments) => gen_comments_as_trailing(range, comments, ctx),
        None => Vec::new(),
    }
}

/// The comments anchored at `end` that end on a later line than `end`,
/// written as statements after the node that ends there.
fn gen_trailing_comments_as_statements(end: usize, ctx: &mut Context) -> (r: Vec<Ir>)
    requires
        old(ctx).wf(),
        end <= old(ctx).text@.len(),
    ensures
        old(ctx).evolves_to(final(ctx)),
        fresh_comments(r@, old(ctx).handled@, final(ctx).handled@),
        r@.len() > 0 <==> ir_comments(r@).len() > 0,
        old(ctx).comments@.contains_key(end) ==> all_written(
            final(ctx).handled@,
            old(ctx).comments@[end]@,
            ends_after(old(ctx).text@, Some(old(ctx).line_of(end as int) as usize)),
        ),
{
    proof {
        lemma_fresh_empty(ctx.handled@);
    }
    match ctx.comments.get(end) {
        Some(comments) => {
            let end_line = ctx.line(end);
            gen_comments_as_statements(
                comments,
                Some(Last { end, is_block_comment: false }),
                Some(end_line),
                ctx,
            )
        },
        None => Vec::new(),
    }
}

// Literals

/// `s` with each `\\` followed by the quote `q` replaced by the quote alone,
/// read from left to right.
pub open spec fn unescape_quote(s: Seq<u8>, q: u8) -> Seq<u8>
    decreases s.len(),
{
    if s.len() == 0 {
        s
    } else if s.len() >= 2 && s[0] == 92u8 && s[1] == q {
        seq![q] + unescape_quote(s.skip(2), q)
    } else {
        seq![s[0]] + unescape_quote(s.skip(1), q)
    }
}

/// `s` with a backslash before each double quote.
pub open spec fn escape_double_quotes(s: Seq<u8>) -> Seq<u8>
    decreases s.len(),
{
    if s.len() == 0 {
        s
    } else {
        (if s[0] == 34u8 {
            seq![92u8, 34u8]
        } else {
            seq![s[0]]
        }) + escape_double_quotes(s.skip(1))
    }
}

/// A string literal, single or double quoted, in double quotes: its own
/// quote unescaped, then every double quote escaped.
pub open spec fn normalized_string_lit(raw: Seq<u8>) -> Seq<u8> {
    let q = if raw[0] == 34u8 {
        34u8
    } else {
        39u8
    };
    seq![34u8] + escape_double_quotes(unescape_quote(raw.subrange(1, raw.len() - 1), q)) + seq![34u8]
}

fn unescape_quote_exec(s: &Vec<u8>, q: u8) -> (r: Vec<u8>)
    ensures
        r@ == unescape_quote(s@, q),
{
    let mut out: Vec<u8> = Vec::new();
    let mut i: usize = 0;
    assert(s@.subrange(0, s@.len() as int) =~= s@);
    assert(out@ + unescape_quote(s@, q) =~= unescape_quote(s@, q));
    while i < s.len()
        invariant
            i <= s@.len(),
            out@ + unescape_quote(s@.subrange(i as int, s@.len() as int), q) == unescape_quote(s@, q),
        decreases s@.len() - i,
    {
        let rest = Ghost(s@.subrange(i as int, s@.len() as int));
        if i + 1 < s.len() && s[i] == 92u8 && s[i + 1] == q {
            assert(rest@.skip(2) =~= s@.subrange(i + 2, s@.len() as int));
            out.push(q);
            i = i + 2;
        } else {
            assert(rest@.skip(1) =~= s@.subrange(i + 1, s@.len() as int));
            out.push(s[i]);
            i = i + 1;
        }
        assert(out@ + unescape_quote(s@.subrange(i as int, s@.len() as int), q) =~= unescape_quote(s@, q));
    }
    assert(s@.subrange(i as int, s@.len() as int) =~= Seq::<u8>::empty());
    assert(out@ =~= unescape_quote(s@, q));
    out
}

fn escape_double_quotes_exec(s: &Vec<u8>) -> (r: Vec<u8>)
    ensures
        r@ == escape_double_quotes(s@),
{
    let mut out: Vec<u8> = Vec::new();
    let mut i: usize = 0;
    assert(s@.subrange(0, s@.len() as int) =~= s@);
    assert(out@ + escape_double_quotes(s@) =~= escape_double_quotes(s@));
    while i < s.len()
        invariant
            i <= s@.len(),
            out@ + escape_double_quotes(s@.subrange(i as int, s@.len() as int)) == escape_double_quotes(s@),
        decreases s@.len() - i,
    {
        let rest = Ghost(s@.subrange(i as int, s@.len() as int));
        assert(rest@.skip(1) =~= s@.subrange(i + 1, s@.len() as int));
        if s[i] == 34u8 {
            out.push(92u8);
            out.push(34u8);
        } else {
            out.push(s[i]);
        }
        i = i + 1;
        assert(out@ + escape_double_quotes(s@.subrange(i as int, s@.len() as int)) =~= escape_double_quotes(s@));
    }
    assert(s@.subrange(i as int, s@.len() as int) =~= Seq::<u8>::empty());
    assert(out@ =~= escape_double_quotes(s@));
    out
}

/// The string literal of `range` as a strict JSON string.
fn gen_string_lit(range: Range, ctx: &Context) -> (r: Vec<Ir>)
    requires
        ctx.wf(),
        range.start + 2 <= range.end <= ctx.text@.len(),
    ensures
        ir_comments(r@) == Seq::<usize>::empty(),
        r@.len() == 1,
        r@[0] matches Ir::Text(b) && b@ == normalized_string_lit(
            ctx.text@.subrange(range.start as int, range.end as int),
        ),
{
    let ghost raw = ctx.text@.subrange(range.start as int, range.end as int);
    let is_double_quotes = ctx.text[range.start] == 34u8;
    let inner = slice_bytes(ctx.text, range.start + 1, range.end - 1);
    assert(inner@ =~= raw.subrange(1, raw.len() - 1));
    let unescaped = if is_double_quotes {
        unescape_quote_exec(&inner, 34u8)
    } else {
        unescape_quote_exec(&inner, 39u8)
    };
    let mut out: Vec<u8> = vec![34u8];
    let mut escaped = escape_double_quotes_exec(&unescaped);
    out.append(&mut escaped);
    out.push(34u8);
    assert(out@ =~= normalized_string_lit(raw));
    text_items(out)
}

/// A bare word property name, in double quotes.
fn gen_word_lit(range: Range, ctx: &Context) -> (r: Vec<Ir>)
    requires
        ctx.wf(),
        range.wf(),
        range.end <= ctx.text@.len(),
    ensures
        ir_comments(r@) == Seq::<usize>::empty(),
        r@.len() == 1,
        r@[0] matches Ir::Text(b) && b@ == seq![34u8] + ctx.text@.subrange(
            range.start as int,
            range.end as int,
        ) + seq![34u8],
{
    let mut out: Vec<u8> = vec![34u8];
    let mut word = slice_bytes(ctx.text, range.start, range.end);
    out.append(&mut word);
    out.push(34u8);
    text_items(out)
}

// Ignore directive

/// Whether a comment's text holds the ignore marker as a word of its own.
pub uninterp spec fn holds_ignore_marker(text: Seq<char>, marker: Seq<char>) -> bool;

/// Relies on dprint_core's `ir_helpers::text_has_dprint_ignore`: whether the
/// first occurrence of the marker in the text stands apart from letters and
/// digits; the answer depends on the two texts alone.
#[verifier::external_body]
fn text_has_ignore_marker(text: &str, marker: &str) -> (r: bool)
    ensures
        r == holds_ignore_marker(text@, marker@),
{
    dprint_core::formatting::ir_helpers::text_has_dprint_ignore(text, marker)
}

/// The node that starts at `start` is preceded by the ignore comment: the
/// last comment anchored there holds the marker.
pub open spec fn ignored_at(comments: Map<usize, Vec<Comment>>, start: usize, marker: Seq<char>) -> bool {
    &&& comments.contains_key(start)
    &&& comments[start]@.len() > 0
    &&& holds_ignore_marker(comments[start]@.last().text@, marker)
}

fn comments_at<'a>(ctx: &Context<'a>, pos: usize) -> (r: Option<&'a Vec<Comment>>)
    requires
        ctx.wf(),
    ensures
        r matches Some(c) ==> listed(ctx, c) && ctx.comments@.contains_key(pos) && ctx.comments@[pos]
            == *c,
        r is None ==> !ctx.comments@.contains_key(pos),
{
    let map: &'a CommentMap = ctx.comments;
    map.get(pos)
}

fn has_ignore_comment(start: usize, ctx: &Context) -> (r: bool)
    requires
        ctx.wf(),
    ensures
        r == ignored_at(ctx.comments@, start, ctx.config.ignore_node_comment_text@),
{
    match comments_at(ctx, start) {
        Some(comments) => {
            if comments.len() == 0 {
                false
            } else {
                let last = &comments[comments.len() - 1];
                text_has_ignore_marker(last.text.as_str(), ctx.config.ignore_node_comment_text.as_str())
            }
        },
        None => false,
    }
}

/// The source of `range` as it stands, at the current indentation.
fn gen_raw(range: Range, ctx: &Context) -> (r: Vec<Ir>)
    requires
        ctx.wf(),
        range.wf(),
        range.end <= ctx.text@.len(),
    ensures
        ir_comments(r@) == Seq::<usize>::empty(),
        r@.len() == 2,
        r@[0] matches Ir::Text(b) && b@.len() == 0,
        r@[1] matches Ir::Raw(b) && b@ == ctx.text@.subrange(range.start as int, range.end as int),
{
    let r = vec![Ir::Text(Vec::new()), Ir::Raw(slice_bytes(ctx.text, range.start, range.end))];
    proof {
        lemma_plain_items(r@);
    }
    r
}

// Lines spans and layout decisions

/// The line of the first comment of `cs` that starts on a later line than
/// `previous` (any, where there is no previous line).
pub open spec fn first_line_after(cs: Seq<Comment>, text: Seq<u8>, previous: Option<int>) -> Option<int>
    decreases cs.len(),
{
    if cs.len() == 0 {
        None
    } else {
        let l = line_count_before(text, cs[0].range.start as int);
        if match previous {
            Some(p) => l > p,
            None => true,
        } {
            Some(l)
        } else {
            first_line_after(cs.drop_first(), text, previous)
        }
    }
}

/// The first line of a node with its leading comments: the line of the first
/// comment anchored at its start that stands below the token before it,
/// where that is above the node's own line.
pub open spec fn start_line_spec(inp: (Seq<u8>, Configuration, Map<usize, Vec<Comment>>, Seq<Token>, bool), tokens: Seq<Token>, range: Range) -> int {
    let base = line_count_before(inp.0, range.start as int);
    if inp.2.contains_key(range.start) {
        let previous = match token_before(tokens, range.start as int) {
            Some(t) => Some(line_count_before(inp.0, t.range.end as int)),
            None => None,
        };
        match first_line_after(inp.2[range.start]@, inp.0, previous) {
            Some(l) => if l < base {
                l
            } else {
                base
            },
            None => base,
        }
    } else {
        base
    }
}

/// The end line of the first block comment of `cs` that starts on line
/// `previous` or above and ends below it, before any line comment or any
/// comment that starts below.
pub open spec fn block_end_line(cs: Seq<Comment>, text: Seq<u8>, previous: int) -> Option<int>
    decreases cs.len(),
{
    if cs.len() == 0 || cs[0].kind == CommentKind::Line {
        None
    } else if line_count_before(text, cs[0].range.start as int) <= previous {
        let e = line_count_before(text, cs[0].range.end as int);
        if e > previous {
            Some(e)
        } else {
            block_end_line(cs.drop_first(), text, previous)
        }
    } else {
        None
    }
}

/// The last line of a node with its comma and the block comment after them
/// that starts on their line and ends below it.
pub open spec fn end_line_spec(inp: (Seq<u8>, Configuration, Map<usize, Vec<Comment>>, Seq<Token>, bool), tokens: Seq<Token>, range: Range) -> int {
    let search_end = match comma_after(tokens, range.end as int) {
        Some(t) => t.range.end,
        None => range.end,
    };
    let previous = line_count_before(inp.0, search_end as int);
    if inp.2.contains_key(search_end) {
        match block_end_line(inp.2[search_end]@, inp.0, previous) {
            Some(e) => e,
            None => previous,
        }
    } else {
        previous
    }
}

/// The first line of the node of `range` with its leading comments: those
/// that stand on a later line than the token before it.
fn start_line_with_comments(range: Range, ctx: &mut Context) -> (r: usize)
    requires
        old(ctx).wf(),
        range.wf(),
        range.end <= old(ctx).text@.len(),
    ensures
        old(ctx).evolves_to(final(ctx)),
        final(ctx).handled@ == old(ctx).handled@,
        r == start_line_spec(old(ctx).inputs(), old(ctx).token_finder.tokens(), range),
{
    let mut start_line = ctx.line(range.start);
    if let Some(leading) = comments_at(ctx, range.start) {
        let previous = ctx.token_finder.get_previous_token(range.start);
        let previous_end_line = match previous {
            Some(t) => {
                proof {
                    let k = choose|k: int| 0 <= k < ctx.token_finder.tokens().len() && ctx.token_finder.tokens()[k] == t;
                    assert(tokens_within(ctx.token_finder.tokens(), ctx.text@.len() as int));
                    assert(ctx.token_finder.tokens()[k].range.wf());
                }
                Some(ctx.line(t.range.end))
            },
            None => None,
        };
        let ghost prev: Option<int> = match previous_end_line {
            Some(l) => Some(l as int),
            None => None,
        };
        let ghost base = start_line as int;
        assert(prev == match token_before(old(ctx).token_finder.tokens(), range.start as int) {
            Some(t) => Some(line_count_before(old(ctx).text@, t.range.end as int)),
            None => None::<int>,
        });
        let mut i: usize = 0;
        assert(leading@.skip(0) =~= leading@);
        while i < leading.len()
            invariant
                old(ctx).evolves_to(ctx),
                ctx.handled@ == old(ctx).handled@,
                ctx.inputs() == old(ctx).inputs(),
                comments_within(leading@, ctx.text@.len() as int),
                i <= leading@.len(),
                start_line == base,
                base == line_count_before(old(ctx).text@, range.start as int),
                leading@ == old(ctx).comments@[range.start]@,
                old(ctx).comments@.contains_key(range.start),
                prev == match previous_end_line {
                    Some(l) => Some(l as int),
                    None => None::<int>,
                },
                prev == match token_before(old(ctx).token_finder.tokens(), range.start as int) {
                    Some(t) => Some(line_count_before(old(ctx).text@, t.range.end as int)),
                    None => None::<int>,
                },
                first_line_after(leading@.skip(i as int), ctx.text@, prev) == first_line_after(leading@, ctx.text@, prev),
            decreases leading@.len() - i,
        {
            let comment_line = ctx.line(leading[i].range.start);
            let after_previous = match previous_end_line {
                Some(line) => comment_line > line,
                None => true,
            };
            assert(leading@.skip(i as int)[0] == leading@[i as int]);
            assert(leading@.skip(i as int).drop_first() =~= leading@.skip(i + 1));
            if after_previous {
                if comment_line < start_line {
                    start_line = comment_line;
                }
                return start_line;
            }
            i = i + 1;
        }
    }
    start_line
}

/// The last line of the node of `range` with its trailing comma and the
/// block comment that starts on that line and ends below it.
fn end_line_with_comments(range: Range, ctx: &mut Context) -> (r: usize)
    requires
        old(ctx).wf(),
        range.wf(),
        range.end <= old(ctx).text@.len(),
    ensures
        old(ctx).evolves_to(final(ctx)),
        final(ctx).handled@ == old(ctx).handled@,
        r == end_line_spec(old(ctx).inputs(), old(ctx).token_finder.tokens(), range),
{
    let comma = ctx.token_finder.get_next_token_if_comma(range.end);
    let search_end = match comma {
        Some(t) => {
            proof {
                let k = choose|k: int| 0 <= k < ctx.token_finder.tokens().len() && ctx.token_finder.tokens()[k] == t;
                assert(tokens_within(ctx.token_finder.tokens(), ctx.text@.len() as int));
                assert(ctx.token_finder.tokens()[k].range.wf());
            }
            t.range.end
        },
        None => range.end,
    };
    let previous_end_line = ctx.line(search_end);
    if let Some(trailing) = comments_at(ctx, search_end) {
        let mut i: usize = 0;
        assert(trailing@.skip(0) =~= trailing@);
        while i < trailing.len()
            invariant
                old(ctx).evolves_to(ctx),
                ctx.handled@ == old(ctx).handled@,
                ctx.inputs() == old(ctx).inputs(),
                comments_within(trailing@, ctx.text@.len() as int),
                i <= trailing@.len(),
                trailing@ == old(ctx).comments@[search_end]@,
                old(ctx).comments@.contains_key(search_end),
                previous_end_line == line_count_before(old(ctx).text@, search_end as int),
                search_end == match comma_after(old(ctx).token_finder.tokens(), range.end as int) {
                    Some(t) => t.range.end,
                    None => range.end,
                },
                block_end_line(trailing@.skip(i as int), ctx.text@, previous_end_line as int) == block_end_line(
                    trailing@,
                    ctx.text@,
                    previous_end_line as int,
                ),
            decreases trailing@.len() - i,
        {
            let comment = &trailing[i];
            assert(trailing@.skip(i as int)[0] == trailing@[i as int]);
            assert(trailing@.skip(i as int).drop_first() =~= trailing@.skip(i + 1));
            if comment.kind == CommentKind::Line {
                return previous_end_line;
            }
            if ctx.line(comment.range.start) <= previous_end_line {
                let comment_end_line = ctx.line(comment.range.end);
                if comment_end_line > previous_end_line {
                    return comment_end_line;
                }
            } else {
                return previous_end_line;
            }
            i = i + 1;
        }
        assert(trailing@.skip(i as int) =~= Seq::<Comment>::empty());
    }
    previous_end_line
}

/// The node stands on one source line and is wider than twice the line
/// width, so it will not fit: a shortcut before any fitting is computed.
fn should_break_up_single_line(range: Range, ctx: &Context) -> (r: bool)
    requires
        ctx.wf(),
        range.wf(),
        range.end <= ctx.text@.len(),
    ensures
        r == (ctx.line_of(range.start as int) == ctx.line_of(range.end as int) && range.end - range.start
            > 2 * ctx.config.line_width),
{
    ctx.line(range.start) == ctx.line(range.end) && (range.width() as u64) > (ctx.config.line_width as u64)
        * 2
}

/// Pushes an item whose comments are fresh.
fn push_fresh(items: &mut Vec<Ir>, x: Ir, Ghost(h0): Ghost<Set<usize>>, Ghost(h1): Ghost<Set<usize>>, Ghost(h2): Ghost<Set<usize>>)
    requires
        !(x is Comma),
        fresh_comments(old(items)@, h0, h1),
        fresh_seq(item_comments(x), h1, h2),
        h0.subset_of(h1),
        h1.subset_of(h2),
    ensures
        final(items)@ == old(items)@.push(x),
        fresh_comments(final(items)@, h0, h2),
{
    proof {
        lemma_push_fresh(old(items)@, x, h0, h1, h2);
    }
    items.push(x);
}

/// Pushes a value whose comments are fresh onto values whose comments are.
fn push_value(
    values: &mut Vec<SeparatedValue>,
    v: SeparatedValue,
    Ghost(h0): Ghost<Set<usize>>,
    Ghost(h1): Ghost<Set<usize>>,
    Ghost(h2): Ghost<Set<usize>>,
)
    requires
        fresh_seq(values_comments(old(values)@), h0, h1),
        fresh_comments(v.items@, h1, h2),
        h0.subset_of(h1),
        h1.subset_of(h2),
    ensures
        final(values)@ == old(values)@.push(v),
        fresh_seq(values_comments(final(values)@), h0, h2),
{
    proof {
        lemma_values_comments_push(old(values)@, v);
        lemma_fresh_concat(values_comments(old(values)@), ir_comments(v.items@), h0, h1, h2);
    }
    values.push(v);
}

/// The first comment of `cs` is a line comment on the opening token's line
/// that is not written yet.
pub open spec fn first_line_comment(cs: Seq<Comment>, h: Set<usize>, open_line: int, text: Seq<u8>) -> bool {
    &&& cs.len() > 0
    &&& cs[0].kind == CommentKind::Line
    &&& line_count_before(text, cs[0].range.start as int) == open_line
    &&& !h.contains(cs[0].range.start)
}

/// `r` keeps that comment on the opening token's line, after a space.
pub open spec fn keeps_on_line(r: Seq<Ir>, c: Comment, force_space: bool) -> bool {
    r.len() == 1 && (r[0] matches Ir::NoNewLines(inner) && inner@.len() == 2 && is_space(inner@[0])
        && writes_comment(inner@[1], c, force_space))
}

/// A line comment right after the opening token, on its line, stays there.
fn gen_first_line_trailing_comment(
    open_token_start_line: usize,
    comments: &Vec<Comment>,
    ctx: &mut Context,
) -> (r: Vec<Ir>)
    requires
        old(ctx).wf(),
        listed(old(ctx), comments),
    ensures
        old(ctx).evolves_to(final(ctx)),
        fresh_comments(r@, old(ctx).handled@, final(ctx).handled@),
        if first_line_comment(comments@, old(ctx).handled@, open_token_start_line as int, old(ctx).text@) {
            ir_comments(r@) == seq![comments@[0].range.start] && keeps_on_line(
                r@,
                comments@[0],
                old(ctx).config.comment_line_force_space_after_slashes,
            )
        } else {
            r@.len() == 0 && final(ctx).handled@ == old(ctx).handled@
        },
{
    let ghost h0 = ctx.handled@;
    let mut items: Vec<Ir> = Vec::new();
    proof {
        lemma_fresh_empty(h0);
    }
    if comments.len() > 0 {
        let first = &comments[0];
        if first.kind == CommentKind::Line && ctx.line(first.range.start) == open_token_start_line {
            proof {
                lemma_listed_start(ctx, comments, 0);
            }
            match gen_comment(first, ctx) {
                Some(mut generated) => {
                    let ghost g = generated@;
                    let mut inner: Vec<Ir> = Vec::new();
                    push_plain(&mut inner, text_ir(" "));
                    let ghost space = inner@;
                    inner.append(&mut generated);
                    proof {
                        lemma_fresh_empty(h0);
                        lemma_append_fresh(space, g, h0, h0, ctx.handled@);
                        lemma_ir_comments_single(g[0]);
                        assert(g =~= seq![g[0]]);
                        lemma_ir_comments_append(space, g);
                    }
                    let x = Ir::NoNewLines(inner);
                    push_fresh(&mut items, x, Ghost(h0), Ghost(h0), Ghost(ctx.handled@));
                    proof {
                        lemma_ir_comments_single(x);
                        assert(items@ =~= seq![x]);
                    }
                },
                None => {
                    assert(ctx.handled@ =~= h0);
                },
            }
        }
    }
    items
}

/// Before the members of a container whose first member stands on a later
/// line than its opening token: the line comment right after the opening
/// token, kept on its line; nothing otherwise.
fn gen_after_open_token(range: Range, first_member_start: usize, ctx: &mut Context) -> (r: Vec<Ir>)
    requires
        old(ctx).wf(),
        range.start + 2 <= range.end <= old(ctx).text@.len(),
        first_member_start <= old(ctx).text@.len(),
    ensures
        old(ctx).evolves_to(final(ctx)),
        fresh_comments(r@, old(ctx).handled@, final(ctx).handled@),
        ({
            let open_line = old(ctx).line_of(range.start as int);
            let cs = old(ctx).comments@[(range.start + 1) as usize]@;
            if open_line < old(ctx).line_of(first_member_start as int) && old(ctx).comments@.contains_key(
                (range.start + 1) as usize,
            ) && first_line_comment(cs, old(ctx).handled@, open_line, old(ctx).text@) {
                ir_comments(r@) == seq![cs[0].range.start] && keeps_on_line(
                    r@,
                    cs[0],
                    old(ctx).config.comment_line_force_space_after_slashes,
                )
            } else {
                r@.len() == 0 && final(ctx).handled@ == old(ctx).handled@
            }
        }),
{
    proof {
        lemma_fresh_empty(ctx.handled@);
    }
    let open_token_start_line = ctx.line(range.start);
    if open_token_start_line < ctx.line(first_member_start) {
        if let Some(comments) = comments_at(ctx, range.start + 1) {
            return gen_first_line_trailing_comment(open_token_start_line, comments, ctx);
        }
    }
    Vec::new()
}

/// After the members of a container: the comments left after the opening
/// token that end below its line, and those before the closing token, each
/// indented on its own line; then a line break unless at the start of a
/// line. Nothing where no comment is left.
fn gen_before_close_token(range: Range, ctx: &mut Context) -> (r: Vec<Ir>)
    requires
        old(ctx).wf(),
        range.start + 2 <= range.end <= old(ctx).text@.len(),
    ensures
        old(ctx).evolves_to(final(ctx)),
        fresh_comments(r@, old(ctx).handled@, final(ctx).handled@),
        r@.len() > 0 <==> ir_comments(r@).len() > 0,
        r@.len() > 0 ==> r@.last() == Ir::NewLineIfNotStartOfLine,
        old(ctx).comments@.contains_key((range.start + 1) as usize) ==> all_written(
            final(ctx).handled@,
            old(ctx).comments@[(range.start + 1) as usize]@,
            ends_after(old(ctx).text@, Some(old(ctx).line_of(range.start + 1) as usize)),
        ),
        old(ctx).comments@.contains_key((range.end - 1) as usize) ==> all_written(
            final(ctx).handled@,
            old(ctx).comments@[(range.end - 1) as usize]@,
            keep_all(),
        ),
{
    let ghost h0 = ctx.handled@;
    let mut items: Vec<Ir> = Vec::new();
    proof {
        lemma_fresh_empty(h0);
    }
    let trailing = gen_trailing_comments_as_statements(range.start + 1, ctx);
    let ghost h1 = ctx.handled@;
    let leading = match comments_at(ctx, range.end - 1) {
        Some(comments) => gen_comments_as_statements(comments, None, None, ctx),
        None => {
            proof {
                lemma_fresh_empty(h1);
            }
            Vec::new()
        },
    };
    let ghost h2 = ctx.handled@;
    let ghost t = trailing@;
    let ghost l = leading@;
    let had_comments = trailing.len() > 0 || leading.len() > 0;
    proof {
        if old(ctx).comments@.contains_key((range.start + 1) as usize) {
            let cs = old(ctx).comments@[(range.start + 1) as usize]@;
            let keep = ends_after(old(ctx).text@, Some(old(ctx).line_of(range.start + 1) as usize));
            assert forall|i: int| 0 <= i < cs.len() && keep(cs[i]) implies h2.contains(#[trigger] cs[i].range.start) by {
                assert(h1.contains(cs[i].range.start));
            }
        }
        assert(ir_comments(items@) =~= Seq::<usize>::empty());
    }
    let ghost e = items@;
    if trailing.len() > 0 {
        push_fresh(&mut items, Ir::Indented(trailing), Ghost(h0), Ghost(h0), Ghost(h1));
        proof {
            lemma_ir_comments_push(e, items@.last());
        }
    } else {
        assert(t =~= Seq::<Ir>::empty());
        proof {
            lemma_fresh_empty(h0);
        }
        assert(h1 == h0);
    }
    let ghost after_t = items@;
    assert(ir_comments(after_t).len() == ir_comments(t).len());
    if leading.len() > 0 {
        push_fresh(&mut items, Ir::Indented(leading), Ghost(h0), Ghost(h1), Ghost(h2));
        proof {
            lemma_ir_comments_push(after_t, items@.last());
        }
    } else {
        assert(l =~= Seq::<Ir>::empty());
        proof {
            lemma_fresh_empty(h1);
        }
        assert(h2 == h1);
    }
    let ghost after_l = items@;
    assert(ir_comments(after_l).len() == ir_comments(t).len() + ir_comments(l).len());
    if had_comments {
        push_plain(&mut items, Ir::NewLineIfNotStartOfLine);
    } else {
        assert(items@ =~= Seq::<Ir>::empty());
    }
    items
}

/// The inside of a container without members. Without comments after the
/// opening token: nothing where both tokens share a line or where empty
/// containers stay on one line, else one line break. With comments there:
/// every one of them is written by the end.
fn gen_empty_inside(range: Range, prefer_single_line_when_empty: bool, ctx: &mut Context) -> (r: Vec<Ir>)
    requires
        old(ctx).wf(),
        range.start + 2 <= range.end <= old(ctx).text@.len(),
    ensures
        old(ctx).evolves_to(final(ctx)),
        fresh_comments(r@, old(ctx).handled@, final(ctx).handled@),
        !old(ctx).comments@.contains_key((range.start + 1) as usize) ==> if old(ctx).line_of(range.start as int)
            == old(ctx).line_of(range.end as int) || prefer_single_line_when_empty {
            r@.len() == 0
        } else {
            r@ == seq![Ir::Signal(Signal::NewLine)]
        },
        old(ctx).comments@.contains_key((range.start + 1) as usize) ==> all_written(
            final(ctx).handled@,
            old(ctx).comments@[(range.start + 1) as usize]@,
            keep_all(),
        ) && from_list(ir_comments(r@), old(ctx).comments@[(range.start + 1) as usize]@),
{
    let ghost h0 = ctx.handled@;
    let mut items: Vec<Ir> = Vec::new();
    proof {
        lemma_fresh_empty(h0);
    }
    let open_token_start_line = ctx.line(range.start);
    let is_single_line = open_token_start_line == ctx.line(range.end);
    match comments_at(ctx, range.start + 1) {
        Some(comments) => {
            if !is_single_line {
                let first = gen_first_line_trailing_comment(open_token_start_line, comments, ctx);
                append_fresh(&mut items, first, Ghost(h0), Ghost(h0), Ghost(ctx.handled@));
            }
            assert(from_list(ir_comments(items@), comments@)) by {
                if ir_comments(items@).len() > 0 {
                    assert(comments@[0].range.start == ir_comments(items@)[0]);
                }
            }
            let ghost h1 = ctx.handled@;
            if has_unhandled_comment(comments, ctx) {
                if is_single_line {
                    let mut values: Vec<SeparatedValue> = Vec::new();
                    proof {
                        assert(values_comments(values@) =~= Seq::<usize>::empty());
                        lemma_fresh_empty(h1);
                    }
                    let mut i: usize = 0;
                    while i < comments.len()
                        invariant
                            old(ctx).evolves_to(ctx),
                            h1.subset_of(ctx.handled@),
                            fresh_seq(values_comments(values@), h1, ctx.handled@),
                            from_list(values_comments(values@), comments@),
                            forall|k: int| 0 <= k < i ==> ctx.handled@.contains(#[trigger] comments@[k].range.start),
                            listed(ctx, comments),
                            i <= comments@.len(),
                        decreases comments@.len() - i,
                    {
                        let c = &comments[i];
                        let start_line = ctx.line(c.range.start);
                        let end_line = ctx.line(c.range.end);
                        let ghost hc = ctx.handled@;
                        proof {
                            lemma_listed_start(ctx, comments, i as int);
                        }
                        match gen_comment(c, ctx) {
                            Some(generated) => {
                                let ghost g = generated@;
                                let ghost before = values@;
                                push_value(
                                    &mut values,
                                    SeparatedValue {
                                        items: generated,
                                        lines_span: Some(LinesSpan { start_line, end_line }),
                                        allow_inline_multi_line: false,
                                    },
                                    Ghost(h1),
                                    Ghost(hc),
                                    Ghost(ctx.handled@),
                                );
                                proof {
                                    lemma_ir_comments_single(g[0]);
                                    assert(g =~= seq![g[0]]);
                                    lemma_values_comments_push(before, values@.last());
                                    lemma_from_list_push(values_comments(before), comments@, i as int);
                                }
                            },
                            None => {
                                assert(ctx.handled@ =~= hc);
                            },
                        }
                        i = i + 1;
                    }
                    let ghost h2 = ctx.handled@;
                    let x = Ir::SeparatedValues {
                        values,
                        force_use_new_lines: false,
                        space_at_start: false,
                        space_at_end: false,
                    };
                    let ghost before = items@;
                    push_fresh(&mut items, x, Ghost(h0), Ghost(h1), Ghost(h2));
                    proof {
                        lemma_ir_comments_push(before, x);
                        assert forall|k: int| #![trigger ir_comments(items@)[k]] 0 <= k < ir_comments(items@).len() implies exists|j: int|
                            #![trigger comments@[j]] 0 <= j < comments@.len() && comments@[j].range.start == ir_comments(items@)[k] by {
                            if k < ir_comments(before).len() {
                                assert(ir_comments(items@)[k] == ir_comments(before)[k]);
                            } else {
                                assert(ir_comments(items@)[k] == item_comments(x)[k - ir_comments(before).len()]);
                            }
                        }
                    }
                } else {
                    push_plain(&mut items, Ir::Signal(Signal::NewLine));
                    let statements = gen_comments_as_statements(comments, None, None, ctx);
                    let x = Ir::Indented(statements);
                    let ghost before = items@;
                    push_fresh(&mut items, x, Ghost(h0), Ghost(h1), Ghost(ctx.handled@));
                    push_plain(&mut items, Ir::Signal(Signal::NewLine));
                    proof {
                        lemma_ir_comments_push(before, x);
                        assert forall|k: int| #![trigger ir_comments(items@)[k]] 0 <= k < ir_comments(items@).len() implies exists|j: int|
                            #![trigger comments@[j]] 0 <= j < comments@.len() && comments@[j].range.start == ir_comments(items@)[k] by {
                            if k < ir_comments(before).len() {
                                assert(ir_comments(items@)[k] == ir_comments(before)[k]);
                            } else {
                                assert(ir_comments(items@)[k] == item_comments(x)[k - ir_comments(before).len()]);
                            }
                        }
                    }
                }
            }
        },
        None => {
            if !is_single_line && !prefer_single_line_when_empty {
                push_plain(&mut items, Ir::Signal(Signal::NewLine));
            }
        },
    }
    items
}

// Nodes

/// Whether a container's members go one per line whatever their width: not
/// where it prefers a single line; else where it stands on one source line
/// that is over twice the line width, or where its first member stands on
/// a later line than its opening token.
pub open spec fn forces_multi_line(inp: (Seq<u8>, Configuration, Map<usize, Vec<Comment>>, Seq<Token>, bool), prefer_single_line: bool, range: Range, first_start: int) -> bool {
    !prefer_single_line && ((line_count_before(inp.0, range.start as int) == line_count_before(inp.0, range.end as int) && range.end
        - range.start > 2 * inp.1.line_width) || line_count_before(inp.0, range.start as int) < line_count_before(inp.0, first_start))
}

/// One item of `items` lists the members of container `v` as separated
/// values, `n` of them, in source order, with spaces inside the delimiters
/// where `spaced`.
pub open spec fn lists_members(inp: (Seq<u8>, Configuration, Map<usize, Vec<Comment>>, Seq<Token>, bool), v: Value, items: Seq<Ir>, n: int, force: bool, spaced: bool) -> bool
    decreases v, 2int,
{
    exists|k: int|
        0 <= k < items.len() && (#[trigger] items[k] matches Ir::SeparatedValues {
            values,
            force_use_new_lines,
            space_at_start,
            space_at_end,
        } && values@.len() == n && force_use_new_lines == force && space_at_start == spaced && space_at_end
            == spaced && members_ok(inp, v, values@))
}

/// Value `k` of `values` is member `k` of container `v`, with the comma that
/// the trailing-comma rule gives it, then the comments after that comma.
pub open spec fn members_ok(inp: (Seq<u8>, Configuration, Map<usize, Vec<Comment>>, Seq<Token>, bool), v: Value, values: Seq<SeparatedValue>) -> bool
    decreases v, 1int,
{
    match v {
        Value::Array(a) => forall|k: int|
            0 <= k < values.len() && k < a.elements@.len() ==> (#[trigger] values[k]).items@.len() == 1 && (
            values[k].items@[0] matches Ir::NewLineGroup(g) && exists|n: Seq<Ir>, t: Seq<Ir>|
                #![trigger n + t]
                g@ == n + t && no_comma(t) && node_output(
                    inp,
                    a.elements@[k],
                    comma_after_element(
                        k,
                        a.elements@.len() as int,
                        inp.1.trailing_commas,
                        inp.4,
                        comma_after(inp.3, a.elements@[k].spec_range().end as int) is Some,
                    ),
                    Some(a.range.end),
                    n,
                )),
        Value::Object(o) => forall|k: int|
            0 <= k < values.len() && k < o.properties@.len() ==> (#[trigger] values[k]).items@.len() == 1 && (
            values[k].items@[0] matches Ir::NewLineGroup(g) && exists|n: Seq<Ir>, t: Seq<Ir>|
                #![trigger n + t]
                g@ == n + t && no_comma(t) && prop_output(
                    inp,
                    o.properties@[k],
                    comma_after_element(
                        k,
                        o.properties@.len() as int,
                        inp.1.trailing_commas,
                        inp.4,
                        comma_after(inp.3, o.properties@[k].range.end as int) is Some,
                    ),
                    Some(o.range.end),
                    n,
                )),
        _ => true,
    }
}

proof fn lemma_lists_members_extend(inp: (Seq<u8>, Configuration, Map<usize, Vec<Comment>>, Seq<Token>, bool), v: Value, a: Seq<Ir>, b: Seq<Ir>, n: int, force: bool, spaced: bool)
    requires
        lists_members(inp, v, a, n, force, spaced),
    ensures
        lists_members(inp, v, a + b, n, force, spaced),
{
    let k = choose|k: int|
        0 <= k < a.len() && (#[trigger] a[k] matches Ir::SeparatedValues {
            values,
            force_use_new_lines,
            space_at_start,
            space_at_end,
        } && values@.len() == n && force_use_new_lines == force && space_at_start == spaced && space_at_end
            == spaced && members_ok(inp, v, values@));
    assert((a + b)[k] == a[k]);
}

/// One item of `items` is the list comma.
pub open spec fn has_comma_item(items: Seq<Ir>) -> bool {
    exists|k: int| 0 <= k < items.len() && (#[trigger] items[k] is Comma)
}

/// The comma, where there is one.
pub open spec fn comma_seq(comma: bool) -> Seq<Ir> {
    if comma {
        seq![Ir::Comma]
    } else {
        Seq::empty()
    }
}

/// The value is one group that holds the comma.
pub open spec fn value_has_comma(v: SeparatedValue) -> bool {
    v.items@.len() == 1 && (v.items@[0] matches Ir::NewLineGroup(g) && has_comma_item(g@))
}

proof fn lemma_no_comma_concat(a: Seq<Ir>, b: Seq<Ir>)
    ensures
        no_comma(a + b) <==> no_comma(a) && no_comma(b),
        has_comma_item(a + b) <==> has_comma_item(a) || has_comma_item(b),
        no_comma(a) <==> !has_comma_item(a),
{
    let z = a + b;
    if has_comma_item(z) {
        let k = choose|k: int| 0 <= k < z.len() && (#[trigger] z[k] is Comma);
        if k < a.len() {
            assert(a[k] == z[k]);
        } else {
            assert(b[k - a.len()] == z[k]);
        }
    }
    if has_comma_item(a) {
        let k = choose|k: int| 0 <= k < a.len() && (#[trigger] a[k] is Comma);
        assert(z[k] == a[k]);
    }
    if has_comma_item(b) {
        let k = choose|k: int| 0 <= k < b.len() && (#[trigger] b[k] is Comma);
        assert(z[k + a.len()] == b[k]);
    }
    if no_comma(a) && no_comma(b) {
        assert forall|k: int| 0 <= k < z.len() implies !(#[trigger] z[k] is Comma) by {
            if k < a.len() {
                assert(z[k] == a[k]);
            } else {
                assert(z[k] == b[k - a.len()]);
            }
        }
    }
    if has_comma_item(z) {
        let k = choose|k: int| 0 <= k < z.len() && (#[trigger] z[k] is Comma);
        assert(!no_comma(z));
    }
    if has_comma_item(a) {
        let k = choose|k: int| 0 <= k < a.len() && (#[trigger] a[k] is Comma);
        assert(!no_comma(a));
    }
    if has_comma_item(b) {
        let k = choose|k: int| 0 <= k < b.len() && (#[trigger] b[k] is Comma);
        assert(!no_comma(b));
    }
}

proof fn lemma_comma_seq(comma: bool)
    ensures
        has_comma_item(comma_seq(comma)) <==> comma,
        ir_comments(comma_seq(comma)) == Seq::<usize>::empty(),
{
    if comma {
        assert(comma_seq(comma)[0] is Comma);
        lemma_ir_comments_single(Ir::Comma);
    } else {
        assert(ir_comments(Seq::<Ir>::empty()) =~= Seq::<usize>::empty());
    }
}

/// `b` renders value `v`: a literal as its text (a string in double quotes),
/// a container between its tokens, with its members as separated values.
pub open spec fn value_body(inp: (Seq<u8>, Configuration, Map<usize, Vec<Comment>>, Seq<Token>, bool), v: Value, b: Seq<Ir>) -> bool
    decreases v, 4int,
{
    let text = inp.0;
    match v {
        Value::NumberLit(r) => b.len() == 1 && (b[0] matches Ir::Text(t) && t@ == text.subrange(
            r.start as int,
            r.end as int,
        )),
        Value::BooleanLit(x, _) => b.len() == 1 && (b[0] matches Ir::Text(t) && t@ == if x {
            "true".spec_bytes()
        } else {
            "false".spec_bytes()
        }),
        Value::NullKeyword(_) => b.len() == 1 && (b[0] matches Ir::Text(t) && t@ == "null".spec_bytes()),
        Value::StringLit(r) => b.len() == 1 && (b[0] matches Ir::Text(t) && t@ == normalized_string_lit(
            text.subrange(r.start as int, r.end as int),
        )),
        Value::Array(a) => container_body(
            inp,
            v,
            b,
            "[".spec_bytes(),
            "]".spec_bytes(),
            a.elements@.len() as int,
            a.elements@.len() > 0 && forces_multi_line(inp,
                inp.1.array_prefer_single_line,
                a.range,
                a.elements@[0].spec_range().start as int,
            ),
            false,
        ),
        Value::Object(o) => container_body(
            inp,
            v,
            b,
            "{".spec_bytes(),
            "}".spec_bytes(),
            o.properties@.len() as int,
            o.properties@.len() > 0 && forces_multi_line(inp,
                inp.1.object_prefer_single_line,
                o.range,
                o.properties@[0].range.start as int,
            ),
            true,
        ),
    }
}

/// `b` stands between the two tokens and lists `n` members, if any.
pub open spec fn container_body(
    inp: (Seq<u8>, Configuration, Map<usize, Vec<Comment>>, Seq<Token>, bool),
    v: Value,
    b: Seq<Ir>,
    open: Seq<u8>,
    close: Seq<u8>,
    n: int,
    force: bool,
    spaced: bool,
) -> bool
    decreases v, 3int,
{
    &&& b.len() >= 2
    &&& b[0] matches Ir::Text(t) && t@ == open
    &&& b.last() matches Ir::Text(t) && t@ == close
    &&& n > 0 ==> lists_members(inp, v, b, n, force, spaced)
}

/// Whether a node's trailing comments are written with it: not where it
/// ends with its parent, which writes them.
pub open spec fn writes_trailing(parent_end: Option<usize>, end: usize) -> bool {
    match parent_end {
        Some(p) => p != end,
        None => true,
    }
}

/// A value with its comments: the leading comments, then the value (or,
/// under the ignore comment, its source as it stands), then the comma where
/// `comma`, then its trailing comments where it does not end with its parent.
fn gen_value_node(v: &Value, comma: bool, parent_end: Option<usize>, ctx: &mut Context) -> (r: Vec<Ir>)
    requires
        old(ctx).wf(),
        value_within(*v, old(ctx).text@.len() as int),
    ensures
        old(ctx).evolves_to(final(ctx)),
        fresh_seq(ir_comments(r@), old(ctx).handled@, final(ctx).handled@),
        has_comma_item(r@) <==> comma,
        writes_trailing(parent_end, v.spec_range().end) && old(ctx).comments@.contains_key(v.spec_range().end)
            ==> all_written(
            final(ctx).handled@,
            old(ctx).comments@[v.spec_range().end]@,
            starts_by(old(ctx).text@, Some(old(ctx).line_of(v.spec_range().end as int) as usize)),
        ),
        old(ctx).comments@.contains_key(v.spec_range().start) ==> all_written(
            final(ctx).handled@,
            old(ctx).comments@[v.spec_range().start]@,
            starts_by(old(ctx).text@, None),
        ),
        r@.len() > 0,
        node_output(old(ctx).inputs(), *v, comma, parent_end, r@),
        leading_written(old(ctx).inputs(), *v, final(ctx).handled@),
        ignored_at(old(ctx).comments@, v.spec_range().start, old(ctx).config.ignore_node_comment_text@)
            ==> exists|k: int|
            0 <= k < r@.len() && (#[trigger] r@[k] matches Ir::Raw(b) && b@ == old(ctx).text@.subrange(
                v.spec_range().start as int,
                v.spec_range().end as int,
            )),
    decreases v, 3int,
{
    let ghost h0 = ctx.handled@;
    let range = v.range();
    let mut items: Vec<Ir> = Vec::new();
    proof {
        lemma_fresh_empty(h0);
    }
    if let Some(comments) = comments_at(ctx, range.start) {
        let leading = gen_comments_as_leading(range, comments, ctx);
        append_fresh(&mut items, leading, Ghost(h0), Ghost(h0), Ghost(ctx.handled@));
    }
    let ghost h_lead = ctx.handled@;
    let ghost l = items@;
    let ghost h1 = ctx.handled@;
    proof {
        lemma_fresh_empty(h1);
    }
    let ignored = has_ignore_comment(range.start, ctx);
    let body = if ignored {
        gen_raw(range, ctx)
    } else {
        match v {
            Value::Array(a) => gen_array(a, ctx),
            Value::Object(o) => gen_object(o, ctx),
            Value::StringLit(r) => gen_string_lit(*r, ctx),
            Value::NumberLit(r) => text_items(slice_bytes(ctx.text, r.start, r.end)),
            Value::BooleanLit(b, _) => if *b {
                text_items(vstd::slice::slice_to_vec("true".as_bytes()))
            } else {
                text_items(vstd::slice::slice_to_vec("false".as_bytes()))
            },
            Value::NullKeyword(_) => text_items(vstd::slice::slice_to_vec("null".as_bytes())),
        }
    };
    let ghost b = body@;
    append_fresh(&mut items, body, Ghost(h0), Ghost(h1), Ghost(ctx.handled@));
    let ghost h2 = ctx.handled@;
    let mut trailing: Vec<Ir> = Vec::new();
    proof {
        lemma_fresh_empty(h2);
    }
    if match parent_end {
        Some(p) => p != range.end,
        None => true,
    } {
        trailing = gen_trailing_comments(range, ctx);
    }
    let ghost t = trailing@;
    proof {
        lemma_fresh_empty(h0);
        lemma_append_fresh(l, b, h0, h1, h2);
    }
    if comma {
        items.push(Ir::Comma);
    }
    let ghost with_comma = items@;
    items.append(&mut trailing);
    proof {
        assert(with_comma =~= l + b + comma_seq(comma));
        assert(items@ =~= l + b + comma_seq(comma) + t);
        lemma_comma_seq(comma);
        lemma_no_comma_concat(l, b);
        lemma_no_comma_concat(l + b, comma_seq(comma));
        lemma_no_comma_concat(l + b + comma_seq(comma), t);
        lemma_ir_comments_append(l + b, comma_seq(comma));
        lemma_ir_comments_append(l + b + comma_seq(comma), t);
        assert(ir_comments(l + b + comma_seq(comma)) =~= ir_comments(l + b));
        lemma_fresh_concat(ir_comments(l + b), ir_comments(t), h0, h2, ctx.handled@);
        if ignored {
            assert(items@[l.len() as int + 1] == b[1]);
        }
        assert(node_parts(old(ctx).inputs(), v.spec_range(), parent_end, l, b, t));
    }
    proof {
        let inp = old(ctx).inputs();
        if !ignored {
            match v {
                Value::Array(a) => {
                    assert forall|k: int| 0 <= k < a.elements@.len() implies leading_written(inp, #[trigger] a.elements@[k], ctx.handled@) by {
                        lemma_leading_written_grows(inp, a.elements@[k], h2, ctx.handled@);
                    }
                },
                Value::Object(o) => {
                    assert forall|k: int| 0 <= k < o.properties@.len() implies prop_leading_written(inp, #[trigger] o.properties@[k], ctx.handled@) by {
                        lemma_prop_leading_written_grows(inp, o.properties@[k], h2, ctx.handled@);
                    }
                },
                _ => {},
            }
        }
        if old(ctx).comments@.contains_key(range.start) {
            let cs = old(ctx).comments@[range.start]@;
            assert forall|i: int| 0 <= i < cs.len() && starts_by(old(ctx).text@, None)(cs[i]) implies ctx.handled@.contains(
                #[trigger] cs[i].range.start,
            ) by {
                assert(h_lead.contains(cs[i].range.start));
            }
            assert forall|i: int| 0 <= i < cs.len() implies ctx.handled@.contains(#[trigger] cs[i].range.start) by {
                assert(starts_by(old(ctx).text@, None)(cs[i]));
            }
        }
    }
    items
}

/// Every comment anchored at `pos` is written in `h`.
pub open spec fn anchor_written(inp: (Seq<u8>, Configuration, Map<usize, Vec<Comment>>, Seq<Token>, bool), pos: usize, h: Set<usize>) -> bool {
    inp.2.contains_key(pos) ==> forall|i: int|
        0 <= i < inp.2[pos]@.len() ==> h.contains(#[trigger] inp.2[pos]@[i].range.start)
}

/// Every comment that leads a node of `v` is written in `h`: the value's
/// own, and those of its members, except inside a value kept as it stands
/// under the ignore comment.
pub open spec fn leading_written(inp: (Seq<u8>, Configuration, Map<usize, Vec<Comment>>, Seq<Token>, bool), v: Value, h: Set<usize>) -> bool
    decreases v, 2int,
{
    &&& anchor_written(inp, v.spec_range().start, h)
    &&& (!ignored_at(inp.2, v.spec_range().start, inp.1.ignore_node_comment_text@) ==> match v {
        Value::Array(a) => forall|k: int| 0 <= k < a.elements@.len() ==> leading_written(inp, #[trigger] a.elements@[k], h),
        Value::Object(o) => forall|k: int|
            0 <= k < o.properties@.len() ==> prop_leading_written(inp, #[trigger] o.properties@[k], h),
        _ => true,
    })
}

pub open spec fn prop_leading_written(inp: (Seq<u8>, Configuration, Map<usize, Vec<Comment>>, Seq<Token>, bool), p: ObjectProp, h: Set<usize>) -> bool
    decreases p, 2int,
{
    &&& anchor_written(inp, p.range.start, h)
    &&& (!ignored_at(inp.2, p.range.start, inp.1.ignore_node_comment_text@) ==> leading_written(inp, p.value, h))
}

proof fn lemma_leading_written_grows(inp: (Seq<u8>, Configuration, Map<usize, Vec<Comment>>, Seq<Token>, bool), v: Value, h: Set<usize>, h2: Set<usize>)
    requires
        leading_written(inp, v, h),
        h.subset_of(h2),
    ensures
        leading_written(inp, v, h2),
    decreases v, 2int,
{
    if !ignored_at(inp.2, v.spec_range().start, inp.1.ignore_node_comment_text@) {
        match v {
            Value::Array(a) => {
                assert forall|k: int| 0 <= k < a.elements@.len() implies leading_written(inp, #[trigger] a.elements@[k], h2) by {
                    lemma_leading_written_grows(inp, a.elements@[k], h, h2);
                }
            },
            Value::Object(o) => {
                assert forall|k: int| 0 <= k < o.properties@.len() implies prop_leading_written(inp, #[trigger] o.properties@[k], h2) by {
                    lemma_prop_leading_written_grows(inp, o.properties@[k], h, h2);
                }
            },
            _ => {},
        }
    }
}

proof fn lemma_prop_leading_written_grows(inp: (Seq<u8>, Configuration, Map<usize, Vec<Comment>>, Seq<Token>, bool), p: ObjectProp, h: Set<usize>, h2: Set<usize>)
    requires
        prop_leading_written(inp, p, h),
        h.subset_of(h2),
    ensures
        prop_leading_written(inp, p, h2),
    decreases p, 2int,
{
    if !ignored_at(inp.2, p.range.start, inp.1.ignore_node_comment_text@) {
        lemma_leading_written_grows(inp, p.value, h, h2);
    }
}

/// `r` is what a value node writes: its leading comments, its body (the
/// source as it stands under the ignore comment), the comma where `comma`,
/// and its trailing comments.
pub open spec fn node_output(inp: (Seq<u8>, Configuration, Map<usize, Vec<Comment>>, Seq<Token>, bool), v: Value, comma: bool, parent_end: Option<usize>, r: Seq<Ir>) -> bool
    decreases v, 5int,
{
    exists|l: Seq<Ir>, b: Seq<Ir>, t: Seq<Ir>|
        #![trigger l + b + comma_seq(comma) + t]
        r == l + b + comma_seq(comma) + t && node_parts(inp, v.spec_range(), parent_end, l, b, t) && if ignored_at(
            inp.2,
            v.spec_range().start,
            inp.1.ignore_node_comment_text@,
        ) {
            raw_body(b, inp.0, v.spec_range())
        } else {
            value_body(inp, v, b)
        }
}

/// `r` is what a property node writes: its leading comments, `name: value`
/// (its source as it stands under the ignore comment), the comma where
/// `comma`, and its trailing comments.
pub open spec fn prop_output(inp: (Seq<u8>, Configuration, Map<usize, Vec<Comment>>, Seq<Token>, bool), p: ObjectProp, comma: bool, parent_end: Option<usize>, r: Seq<Ir>) -> bool
    decreases p, 5int,
{
    exists|l: Seq<Ir>, b: Seq<Ir>, t: Seq<Ir>|
        #![trigger l + b + comma_seq(comma) + t]
        r == l + b + comma_seq(comma) + t && node_parts(inp, p.range, parent_end, l, b, t) && if ignored_at(
            inp.2,
            p.range.start,
            inp.1.ignore_node_comment_text@,
        ) {
            raw_body(b, inp.0, p.range)
        } else {
            prop_body(inp, p, b)
        }
}

/// `b` is a property's name with its comments, then `: `, then the value
/// with its comments.
pub open spec fn prop_body(inp: (Seq<u8>, Configuration, Map<usize, Vec<Comment>>, Seq<Token>, bool), p: ObjectProp, b: Seq<Ir>) -> bool
    decreases p, 4int,
{
    exists|n: Seq<Ir>, v: Seq<Ir>|
        #![trigger n + v]
        b == n + v && n.len() >= 1 && (n.last() matches Ir::Text(t) && t@ == ": ".spec_bytes()) && no_comma(n)
            && name_output(inp, p.name, Some(p.range.end), n.drop_last())
            && node_output(inp, p.value, false, Some(p.range.end), v)
}

/// `r` is what a property name writes: its leading comments, the name in
/// double quotes (its source as it stands under the ignore comment), and
/// its trailing comments.
pub open spec fn name_output(inp: (Seq<u8>, Configuration, Map<usize, Vec<Comment>>, Seq<Token>, bool), name: PropName, parent_end: Option<usize>, r: Seq<Ir>) -> bool {
    exists|l: Seq<Ir>, b: Seq<Ir>, t: Seq<Ir>|
        #![trigger l + b + t]
        r == l + b + t && node_parts(inp, name.spec_range(), parent_end, l, b, t) && if ignored_at(
            inp.2,
            name.spec_range().start,
            inp.1.ignore_node_comment_text@,
        ) {
            raw_body(b, inp.0, name.spec_range())
        } else {
            b.len() == 1 && (b[0] matches Ir::Text(x) && x@ == match name {
                PropName::String(r) => normalized_string_lit(inp.0.subrange(r.start as int, r.end as int)),
                PropName::Word(r) => seq![34u8] + inp.0.subrange(r.start as int, r.end as int) + seq![34u8],
            })
        }
}

/// The source of `range` as it stands, after an empty text that keeps the
/// line's indentation.
pub open spec fn raw_body(b: Seq<Ir>, text: Seq<u8>, range: Range) -> bool {
    &&& b.len() == 2
    &&& b[0] matches Ir::Text(e) && e@.len() == 0
    &&& b[1] matches Ir::Raw(s) && s@ == text.subrange(range.start as int, range.end as int)
}

/// The parts of a node's output: `l` writes the comments that lead the node,
/// `b` is its body, `t` its trailing comments, empty where the node ends
/// with its parent; none holds a list comma.
pub open spec fn node_parts(inp: (Seq<u8>, Configuration, Map<usize, Vec<Comment>>, Seq<Token>, bool), range: Range, parent_end: Option<usize>, l: Seq<Ir>, b: Seq<Ir>, t: Seq<Ir>) -> bool {
    &&& no_comma(l)
    &&& no_comma(b)
    &&& no_comma(t)
    &&& (inp.2.contains_key(range.start) ==> from_list(ir_comments(l), inp.2[range.start]@))
    &&& (!inp.2.contains_key(range.start) ==> l.len() == 0)
    &&& (!writes_trailing(parent_end, range.end) ==> t.len() == 0)
    &&& (inp.2.contains_key(range.end) && writes_trailing(parent_end, range.end) ==> from_list(
        ir_comments(t),
        inp.2[range.end]@,
    ))
}

/// A property name with its comments.
fn gen_name_node(name: &PropName, parent_end: Option<usize>, ctx: &mut Context) -> (r: Vec<Ir>)
    requires
        old(ctx).wf(),
        name.spec_range().wf(),
        name.spec_range().end <= old(ctx).text@.len(),
        name matches PropName::String(r) ==> r.end >= r.start + 2,
    ensures
        old(ctx).evolves_to(final(ctx)),
        fresh_comments(r@, old(ctx).handled@, final(ctx).handled@),
        name_output(old(ctx).inputs(), *name, parent_end, r@),
{
    let ghost h0 = ctx.handled@;
    let range = name.range();
    let mut items: Vec<Ir> = Vec::new();
    proof {
        lemma_fresh_empty(h0);
    }
    if let Some(comments) = comments_at(ctx, range.start) {
        let leading = gen_comments_as_leading(range, comments, ctx);
        append_fresh(&mut items, leading, Ghost(h0), Ghost(h0), Ghost(ctx.handled@));
    }
    let ghost l = items@;
    let ghost h1 = ctx.handled@;
    proof {
        lemma_fresh_empty(h1);
    }
    let body = if has_ignore_comment(range.start, ctx) {
        gen_raw(range, ctx)
    } else {
        match name {
            PropName::String(r) => gen_string_lit(*r, ctx),
            PropName::Word(r) => gen_word_lit(*r, ctx),
        }
    };
    let ghost b = body@;
    append_fresh(&mut items, body, Ghost(h0), Ghost(h1), Ghost(h1));
    let ghost lb = items@;
    let mut trailing: Vec<Ir> = Vec::new();
    proof {
        lemma_fresh_empty(h1);
    }
    if match parent_end {
        Some(p) => p != range.end,
        None => true,
    } {
        trailing = gen_trailing_comments(range, ctx);
    }
    let ghost t = trailing@;
    append_fresh(&mut items, trailing, Ghost(h0), Ghost(h1), Ghost(ctx.handled@));
    proof {
        lemma_no_comma_concat(l, b);
        assert(lb == l + b);
        assert(items@ == l + b + t);
        assert(node_parts(old(ctx).inputs(), name.spec_range(), parent_end, l, b, t));
    }
    items
}

/// A property: its leading comments, then `name: value` (or, under the
/// ignore comment, its source as it stands), then the comma where `comma`,
/// then its trailing comments where it does not end with its parent.
fn gen_prop_node(p: &ObjectProp, comma: bool, parent_end: Option<usize>, ctx: &mut Context) -> (r: Vec<
    Ir,
>)
    requires
        old(ctx).wf(),
        prop_within(*p, old(ctx).text@.len() as int),
    ensures
        old(ctx).evolves_to(final(ctx)),
        fresh_seq(ir_comments(r@), old(ctx).handled@, final(ctx).handled@),
        has_comma_item(r@) <==> comma,
        old(ctx).comments@.contains_key(p.range.start) ==> all_written(
            final(ctx).handled@,
            old(ctx).comments@[p.range.start]@,
            starts_by(old(ctx).text@, None),
        ),
        prop_output(old(ctx).inputs(), *p, comma, parent_end, r@),
        prop_leading_written(old(ctx).inputs(), *p, final(ctx).handled@),
    decreases p, 3int,
{
    let ghost c0 = *ctx;
    let ghost h0 = ctx.handled@;
    let range = p.range;
    let mut items: Vec<Ir> = Vec::new();
    proof {
        lemma_fresh_empty(h0);
    }
    if let Some(comments) = comments_at(ctx, range.start) {
        let leading = gen_comments_as_leading(range, comments, ctx);
        append_fresh(&mut items, leading, Ghost(h0), Ghost(h0), Ghost(ctx.handled@));
    }
    let ghost h_lead = ctx.handled@;
    let ghost mut h_value: Set<usize> = Set::empty();
    let ghost l = items@;
    let ghost h1 = ctx.handled@;
    let ignored = has_ignore_comment(range.start, ctx);
    let mut body: Vec<Ir> = Vec::new();
    if ignored {
        body = gen_raw(range, ctx);
        proof {
            lemma_fresh_empty(h1);
            assert(no_comma(body@)) by {
                assert forall|k: int| 0 <= k < body@.len() implies !(#[trigger] body@[k] is Comma) by {}
            }
        }
    } else {
        let name = gen_name_node(&p.name, Some(range.end), ctx);
        let ghost name_items = name@;
        let ghost hn = ctx.handled@;
        body = name;
        push_plain(&mut body, text_ir(": "));
        let ghost n = body@;
        let ghost cv = *ctx;
        let value = gen_value_node(&p.value, false, Some(range.end), ctx);
        proof {
            h_value = ctx.handled@;
        }
        let ghost v = value@;
        let mut value = value;
        body.append(&mut value);
        proof {
            lemma_comma_seq(false);
            lemma_no_comma_concat(n, v);
            lemma_ir_comments_append(n, v);
            lemma_fresh_concat(ir_comments(n), ir_comments(v), h1, hn, ctx.handled@);
            assert(n.last() == body@[n.len() - 1]);
            assert(body@ =~= n + v);
            assert(n.drop_last() =~= name_items);
            assert(prop_body(c0.inputs(), *p, body@));
        }
    }
    let ghost b = body@;
    let ghost h2 = ctx.handled@;
    proof {
        lemma_append_fresh_seq(l, b, h0, h1, h2);
    }
    items.append(&mut body);
    let mut trailing: Vec<Ir> = Vec::new();
    proof {
        lemma_fresh_empty(h2);
    }
    if match parent_end {
        Some(pe) => pe != range.end,
        None => true,
    } {
        trailing = gen_trailing_comments(range, ctx);
    }
    let ghost t = trailing@;
    if comma {
        items.push(Ir::Comma);
    }
    let ghost with_comma = items@;
    items.append(&mut trailing);
    proof {
        assert(with_comma =~= l + b + comma_seq(comma));
        assert(items@ =~= l + b + comma_seq(comma) + t);
        lemma_comma_seq(comma);
        lemma_no_comma_concat(l, b);
        lemma_no_comma_concat(l + b, comma_seq(comma));
        lemma_no_comma_concat(l + b + comma_seq(comma), t);
        lemma_ir_comments_append(l + b, comma_seq(comma));
        lemma_ir_comments_append(l + b + comma_seq(comma), t);
        assert(ir_comments(l + b + comma_seq(comma)) =~= ir_comments(l + b));
        lemma_fresh_concat(ir_comments(l + b), ir_comments(t), h0, h2, ctx.handled@);
        assert(node_parts(c0.inputs(), p.range, parent_end, l, b, t));
    }
    proof {
        let inp = old(ctx).inputs();
        if !ignored {
            lemma_leading_written_grows(inp, p.value, h_value, ctx.handled@);
        }
        if old(ctx).comments@.contains_key(range.start) {
            let cs = old(ctx).comments@[range.start]@;
            assert forall|i: int| 0 <= i < cs.len() && starts_by(old(ctx).text@, None)(cs[i]) implies ctx.handled@.contains(
                #[trigger] cs[i].range.start,
            ) by {
                assert(h_lead.contains(cs[i].range.start));
            }
            assert forall|i: int| 0 <= i < cs.len() implies ctx.handled@.contains(#[trigger] cs[i].range.start) by {
                assert(starts_by(old(ctx).text@, None)(cs[i]));
            }
        }
    }
    items
}

fn gen_array(a: &Array, ctx: &mut Context) -> (r: Vec<Ir>)
    requires
        old(ctx).wf(),
        value_within(Value::Array(*a), old(ctx).text@.len() as int),
    ensures
        old(ctx).evolves_to(final(ctx)),
        r@.len() > 0,
        fresh_comments(r@, old(ctx).handled@, final(ctx).handled@),
        r@[0] matches Ir::Text(b) && b@ == "[".spec_bytes(),
        value_body(old(ctx).inputs(), Value::Array(*a), r@),
        a.elements@.len() == 0 && !old(ctx).comments@.contains_key((a.range.start + 1) as usize) ==> r@.len() == 2,
        forall|k: int| 0 <= k < a.elements@.len() ==> leading_written(old(ctx).inputs(), #[trigger] a.elements@[k], final(ctx).handled@),
    decreases a, 2int,
{
    let ghost mut h_values: Set<usize> = Set::empty();
    let ghost h0 = ctx.handled@;
    let range = a.range;
    let open_line = ctx.line(range.start);
    let first_line = if a.elements.len() > 0 {
        proof {
            lemma_array_within(a, ctx.text@.len() as int, 0);
        }
        ctx.line(a.elements[0].range().start)
    } else {
        open_line
    };
    let force_use_new_lines = !ctx.config.array_prefer_single_line && (should_break_up_single_line(
        range,
        ctx,
    ) || open_line < first_line);
    assert(a.elements@.len() > 0 ==> force_use_new_lines == forces_multi_line(
        ctx.inputs(),
        ctx.config.array_prefer_single_line,
        range,
        a.elements@[0].spec_range().start as int,
    ));
    let ghost n = a.elements@.len() as int;
    let mut items: Vec<Ir> = Vec::new();
    proof {
        lemma_fresh_empty(h0);
    }
    push_plain(&mut items, text_ir("["));
    if a.elements.len() > 0 {
        let open = gen_after_open_token(range, a.elements[0].range().start, ctx);
        append_fresh(&mut items, open, Ghost(h0), Ghost(h0), Ghost(ctx.handled@));
        let ghost h1 = ctx.handled@;
        let values = gen_array_values(a, force_use_new_lines, ctx);
        proof {
            h_values = ctx.handled@;
        }
        assert(members_ok(old(ctx).inputs(), Value::Array(*a), values@));
        let ghost h2 = ctx.handled@;
        let ghost at: int = items@.len() as int;
        let ghost before = items@;
        push_fresh(
            &mut items,
            Ir::SeparatedValues { values, force_use_new_lines, space_at_start: false, space_at_end: false },
            Ghost(h0),
            Ghost(h1),
            Ghost(h2),
        );
        assert(items@[at] matches Ir::SeparatedValues { .. });
        assert(lists_members(old(ctx).inputs(), Value::Array(*a), items@, n, force_use_new_lines, false));
        let ghost with_values = items@;
        let close = gen_before_close_token(range, ctx);
        let ghost close_items = close@;
        append_fresh(&mut items, close, Ghost(h0), Ghost(h2), Ghost(ctx.handled@));
        proof {
            lemma_lists_members_extend(old(ctx).inputs(), Value::Array(*a), with_values, close_items, n, force_use_new_lines, false);
        }
    } else {
        let ghost before_inside = items@;
        let inside = gen_empty_inside(range, true, ctx);
        append_fresh(&mut items, inside, Ghost(h0), Ghost(h0), Ghost(ctx.handled@));
    }
    proof {
        if a.elements@.len() > 0 {
            assert forall|k: int| 0 <= k < a.elements@.len() implies leading_written(old(ctx).inputs(), #[trigger] a.elements@[k], ctx.handled@) by {
                lemma_leading_written_grows(old(ctx).inputs(), a.elements@[k], h_values, ctx.handled@);
            }
        }
    }
    let ghost body_items = items@;
    let close_token = text_ir("]");
    assert(close_token matches Ir::Text(t) && t@ == "]".spec_bytes());
    push_plain(&mut items, close_token);
    proof {
        if n > 0 {
            assert(items@ == body_items + seq![close_token]);
            lemma_lists_members_extend(old(ctx).inputs(), Value::Array(*a), body_items, seq![close_token], n, force_use_new_lines, false);
        }
        assert(items@.last() == close_token);
        assert(items@[0] == body_items[0]);
    }
    items
}

/// The elements of an array, each with its comma and comments.
fn gen_array_values(a: &Array, force_use_new_lines: bool, ctx: &mut Context) -> (r: Vec<SeparatedValue>)
    requires
        old(ctx).wf(),
        value_within(Value::Array(*a), old(ctx).text@.len() as int),
    ensures
        old(ctx).evolves_to(final(ctx)),
        fresh_seq(values_comments(r@), old(ctx).handled@, final(ctx).handled@),
        r@.len() == a.elements@.len(),
        forall|k: int|
            0 <= k < r@.len() ==> (#[trigger] r@[k]).items@.len() == 1 && (r@[k].items@[0] matches Ir::NewLineGroup(g)
                && exists|n: Seq<Ir>, t: Seq<Ir>|
                #![trigger n + t]
                g@ == n + t && no_comma(t) && node_output(
                    old(ctx).inputs(),
                    a.elements@[k],
                    comma_after_element(
                        k,
                        a.elements@.len() as int,
                        old(ctx).config.trailing_commas,
                        old(ctx).is_jsonc,
                        comma_after(old(ctx).token_finder.tokens(), a.elements@[k].spec_range().end as int) is Some,
                    ),
                    Some(a.range.end),
                    n,
                )),
        forall|k: int|
            0 <= k < r@.len() ==> (#[trigger] r@[k]).lines_span == if force_use_new_lines {
                Some(
                    LinesSpan {
                        start_line: start_line_spec(old(ctx).inputs(), old(ctx).token_finder.tokens(), a.elements@[k].spec_range()) as usize,
                        end_line: end_line_spec(old(ctx).inputs(), old(ctx).token_finder.tokens(), a.elements@[k].spec_range()) as usize,
                    },
                )
            } else {
                None
            } && r@[k].allow_inline_multi_line == (a.elements@[k] is Object),
        forall|k: int|
            0 <= k < r@.len() ==> (comma_after_element(
                k,
                a.elements@.len() as int,
                old(ctx).config.trailing_commas,
                old(ctx).is_jsonc,
                comma_after(old(ctx).token_finder.tokens(), a.elements@[k].spec_range().end as int) is Some,
            ) <==> value_has_comma(#[trigger] r@[k])),
        forall|k: int| 0 <= k < a.elements@.len() ==> leading_written(old(ctx).inputs(), #[trigger] a.elements@[k], final(ctx).handled@),
    decreases a, 1int,
{
    let n = a.elements.len();
    let ghost h0 = ctx.handled@;
    let mut values: Vec<SeparatedValue> = Vec::new();
    proof {
        assert(values_comments(values@) =~= Seq::<usize>::empty());
        lemma_fresh_empty(h0);
    }
    let mut i: usize = 0;
    while i < n
        invariant
            old(ctx).evolves_to(ctx),
            h0 == old(ctx).handled@,
            fresh_seq(values_comments(values@), h0, ctx.handled@),
            value_within(Value::Array(*a), ctx.text@.len() as int),
            n == a.elements@.len(),
            i <= n,
            values@.len() == i,
            forall|k: int| 0 <= k < i ==> leading_written(old(ctx).inputs(), #[trigger] a.elements@[k], ctx.handled@),
            forall|k: int|
                0 <= k < values@.len() ==> (#[trigger] values@[k]).items@.len() == 1 && (values@[k].items@[0] matches Ir::NewLineGroup(g)
                    && exists|n: Seq<Ir>, t: Seq<Ir>|
                    #![trigger n + t]
                    g@ == n + t && no_comma(t) && node_output(
                        ctx.inputs(),
                        a.elements@[k],
                        comma_after_element(
                            k,
                            a.elements@.len() as int,
                            ctx.config.trailing_commas,
                            ctx.is_jsonc,
                            comma_after(ctx.token_finder.tokens(), a.elements@[k].spec_range().end as int) is Some,
                        ),
                        Some(a.range.end),
                        n,
                    )),
            ctx.inputs() == old(ctx).inputs(),
            forall|k: int|
                0 <= k < values@.len() ==> (#[trigger] values@[k]).lines_span == if force_use_new_lines {
                    Some(
                        LinesSpan {
                            start_line: start_line_spec(ctx.inputs(), ctx.token_finder.tokens(), a.elements@[k].spec_range()) as usize,
                            end_line: end_line_spec(ctx.inputs(), ctx.token_finder.tokens(), a.elements@[k].spec_range()) as usize,
                        },
                    )
                } else {
                    None
                } && values@[k].allow_inline_multi_line == (a.elements@[k] is Object),
            forall|k: int|
                0 <= k < values@.len() ==> (comma_after_element(
                    k,
                    a.elements@.len() as int,
                    ctx.config.trailing_commas,
                    ctx.is_jsonc,
                    comma_after(ctx.token_finder.tokens(), a.elements@[k].spec_range().end as int) is Some,
                ) <==> value_has_comma(#[trigger] values@[k])),
        decreases n - i,
    {
        let v = &a.elements[i];
        proof {
            lemma_array_within(a, ctx.text@.len() as int, i as int);
        }
        let range = v.range();
        let allow_inline_multi_line = match v {
            Value::Object(_) => true,
            _ => false,
        };
        let lines_span = if force_use_new_lines {
            let start_line = start_line_with_comments(range, ctx);
            let end_line = end_line_with_comments(range, ctx);
            Some(LinesSpan { start_line, end_line })
        } else {
            None
        };
        let comma_token = ctx.token_finder.get_next_token_if_comma(range.end);
        let comma = should_have_comma(i, n, ctx.config.trailing_commas, ctx.is_jsonc, comma_token.is_some());
        let ghost h1 = ctx.handled@;
        let ghost node_inputs = ctx.inputs();
        let mut items = gen_value_node(v, comma, Some(a.range.end), ctx);
        let ghost h_node = ctx.handled@;
        let ghost node_items = items@;
        let ghost mut after_comma: Seq<Ir> = Seq::empty();
        if let Some(t) = comma_token {
            proof {
                let k = choose|k: int| 0 <= k < ctx.token_finder.tokens().len() && ctx.token_finder.tokens()[k] == t;
                assert(tokens_within(ctx.token_finder.tokens(), ctx.text@.len() as int));
                assert(ctx.token_finder.tokens()[k].range.wf());
            }
            let ghost h2 = ctx.handled@;
            let mut trailing = gen_trailing_comments(t.range, ctx);
            let ghost before_trailing = items@;
            let ghost trailing_items = trailing@;
            proof {
                after_comma = trailing_items;
            }
            items.append(&mut trailing);
            proof {
                lemma_no_comma_concat(before_trailing, trailing_items);
                lemma_ir_comments_append(before_trailing, trailing_items);
                lemma_fresh_concat(ir_comments(before_trailing), ir_comments(trailing_items), h1, h2, ctx.handled@);
            }
        }
        let ghost group_items = items@;
        let group = vec![Ir::NewLineGroup(items)];
        proof {
            assert(group@ =~= Seq::<Ir>::empty().push(group@[0]));
            lemma_ir_comments_push(Seq::<Ir>::empty(), group@[0]);
            assert(ir_comments(Seq::<Ir>::empty()) =~= Seq::<usize>::empty());
            assert(ir_comments(group@) =~= ir_comments(items@));
        }
        push_value(
            &mut values,
            SeparatedValue { items: group, lines_span, allow_inline_multi_line },
            Ghost(h0),
            Ghost(h1),
            Ghost(ctx.handled@),
        );
        proof {
            assert(values@[i as int].items@ == group@);
            assert(values@[i as int].items@[0] matches Ir::NewLineGroup(g) && g@ == group_items);
            assert(comma <==> value_has_comma(values@[i as int]));
            assert(group_items =~= node_items + after_comma);
            assert(node_output(old(ctx).inputs(), a.elements@[i as int], comma, Some(a.range.end), node_items));
        }
        proof {
            assert forall|k: int| 0 <= k < i + 1 implies leading_written(old(ctx).inputs(), #[trigger] a.elements@[k], ctx.handled@) by {
                if k < i {
                    lemma_leading_written_grows(old(ctx).inputs(), a.elements@[k], h1, ctx.handled@);
                } else {
                    lemma_leading_written_grows(old(ctx).inputs(), a.elements@[k], h_node, ctx.handled@);
                }
            }
        }
        i = i + 1;
    }
    values
}

fn gen_object(o: &Object, ctx: &mut Context) -> (r: Vec<Ir>)
    requires
        old(ctx).wf(),
        value_within(Value::Object(*o), old(ctx).text@.len() as int),
    ensures
        old(ctx).evolves_to(final(ctx)),
        r@.len() > 0,
        fresh_comments(r@, old(ctx).handled@, final(ctx).handled@),
        r@[0] matches Ir::Text(b) && b@ == "{".spec_bytes(),
        value_body(old(ctx).inputs(), Value::Object(*o), r@),
        o.properties@.len() == 0 && !old(ctx).comments@.contains_key((o.range.start + 1) as usize) ==> if old(
            ctx,
        ).line_of(o.range.start as int) == old(ctx).line_of(o.range.end as int) {
            r@.len() == 2
        } else {
            r@.len() == 3 && r@[1] == Ir::Signal(Signal::NewLine)
        },
        forall|k: int| 0 <= k < o.properties@.len() ==> prop_leading_written(old(ctx).inputs(), #[trigger] o.properties@[k], final(ctx).handled@),
    decreases o, 2int,
{
    let ghost mut h_values: Set<usize> = Set::empty();
    let ghost h0 = ctx.handled@;
    let range = o.range;
    let open_line = ctx.line(range.start);
    let first_line = if o.properties.len() > 0 {
        proof {
            lemma_object_within(o, ctx.text@.len() as int, 0);
        }
        ctx.line(o.properties[0].range.start)
    } else {
        ctx.line(range.end)
    };
    let force_use_new_lines = !ctx.config.object_prefer_single_line && (should_break_up_single_line(
        range,
        ctx,
    ) || open_line < first_line);
    assert(o.properties@.len() > 0 ==> force_use_new_lines == forces_multi_line(
        ctx.inputs(),
        ctx.config.object_prefer_single_line,
        range,
        o.properties@[0].range.start as int,
    ));
    let ghost n = o.properties@.len() as int;
    let mut items: Vec<Ir> = Vec::new();
    proof {
        lemma_fresh_empty(h0);
    }
    push_plain(&mut items, text_ir("{"));
    if o.properties.len() > 0 {
        let open = gen_after_open_token(range, o.properties[0].range.start, ctx);
        append_fresh(&mut items, open, Ghost(h0), Ghost(h0), Ghost(ctx.handled@));
        let ghost h1 = ctx.handled@;
        let values = gen_object_values(o, force_use_new_lines, ctx);
        proof {
            h_values = ctx.handled@;
        }
        assert(members_ok(old(ctx).inputs(), Value::Object(*o), values@));
        let ghost h2 = ctx.handled@;
        let ghost at: int = items@.len() as int;
        let ghost before = items@;
        push_fresh(
            &mut items,
            Ir::SeparatedValues { values, force_use_new_lines, space_at_start: true, space_at_end: true },
            Ghost(h0),
            Ghost(h1),
            Ghost(h2),
        );
        assert(items@[at] matches Ir::SeparatedValues { .. });
        assert(lists_members(old(ctx).inputs(), Value::Object(*o), items@, n, force_use_new_lines, true));
        let ghost with_values = items@;
        let close = gen_before_close_token(range, ctx);
        let ghost close_items = close@;
        append_fresh(&mut items, close, Ghost(h0), Ghost(h2), Ghost(ctx.handled@));
        proof {
            lemma_lists_members_extend(old(ctx).inputs(), Value::Object(*o), with_values, close_items, n, force_use_new_lines, true);
        }
    } else {
        let ghost before_inside = items@;
        let inside = gen_empty_inside(range, false, ctx);
        append_fresh(&mut items, inside, Ghost(h0), Ghost(h0), Ghost(ctx.handled@));
    }
    proof {
        if o.properties@.len() > 0 {
            assert forall|k: int| 0 <= k < o.properties@.len() implies prop_leading_written(old(ctx).inputs(), #[trigger] o.properties@[k], ctx.handled@) by {
                lemma_prop_leading_written_grows(old(ctx).inputs(), o.properties@[k], h_values, ctx.handled@);
            }
        }
    }
    let ghost body_items = items@;
    let close_token = text_ir("}");
    assert(close_token matches Ir::Text(t) && t@ == "}".spec_bytes());
    push_plain(&mut items, close_token);
    proof {
        if n > 0 {
            assert(items@ == body_items + seq![close_token]);
            lemma_lists_members_extend(old(ctx).inputs(), Value::Object(*o), body_items, seq![close_token], n, force_use_new_lines, true);
        }
        assert(items@.last() == close_token);
        assert(items@[0] == body_items[0]);
    }
    items
}

/// The properties of an object, each with its comma and comments.
fn gen_object_values(o: &Object, force_use_new_lines: bool, ctx: &mut Context) -> (r: Vec<SeparatedValue>)
    requires
        old(ctx).wf(),
        value_within(Value::Object(*o), old(ctx).text@.len() as int),
    ensures
        old(ctx).evolves_to(final(ctx)),
        fresh_seq(values_comments(r@), old(ctx).handled@, final(ctx).handled@),
        r@.len() == o.properties@.len(),
        forall|k: int|
            0 <= k < r@.len() ==> (#[trigger] r@[k]).items@.len() == 1 && (r@[k].items@[0] matches Ir::NewLineGroup(g)
                && exists|n: Seq<Ir>, t: Seq<Ir>|
                #![trigger n + t]
                g@ == n + t && no_comma(t) && prop_output(
                    old(ctx).inputs(),
                    o.properties@[k],
                    comma_after_element(
                        k,
                        o.properties@.len() as int,
                        old(ctx).config.trailing_commas,
                        old(ctx).is_jsonc,
                        comma_after(old(ctx).token_finder.tokens(), o.properties@[k].range.end as int) is Some,
                    ),
                    Some(o.range.end),
                    n,
                )),
        forall|k: int|
            0 <= k < r@.len() ==> (#[trigger] r@[k]).lines_span == if force_use_new_lines {
                Some(
                    LinesSpan {
                        start_line: start_line_spec(old(ctx).inputs(), old(ctx).token_finder.tokens(), o.properties@[k].range) as usize,
                        end_line: end_line_spec(old(ctx).inputs(), old(ctx).token_finder.tokens(), o.properties@[k].range) as usize,
                    },
                )
            } else {
                None
            } && r@[k].allow_inline_multi_line == false,
        forall|k: int|
            0 <= k < r@.len() ==> (comma_after_element(
                k,
                o.properties@.len() as int,
                old(ctx).config.trailing_commas,
                old(ctx).is_jsonc,
                comma_after(old(ctx).token_finder.tokens(), o.properties@[k].range.end as int) is Some,
            ) <==> value_has_comma(#[trigger] r@[k])),
        forall|k: int| 0 <= k < o.properties@.len() ==> prop_leading_written(old(ctx).inputs(), #[trigger] o.properties@[k], final(ctx).handled@),
    decreases o, 1int,
{
    let n = o.properties.len();
    let ghost h0 = ctx.handled@;
    let mut values: Vec<SeparatedValue> = Vec::new();
    proof {
        assert(values_comments(values@) =~= Seq::<usize>::empty());
        lemma_fresh_empty(h0);
    }
    let mut i: usize = 0;
    while i < n
        invariant
            old(ctx).evolves_to(ctx),
            h0 == old(ctx).handled@,
            fresh_seq(values_comments(values@), h0, ctx.handled@),
            value_within(Value::Object(*o), ctx.text@.len() as int),
            n == o.properties@.len(),
            i <= n,
            values@.len() == i,
            forall|k: int| 0 <= k < i ==> prop_leading_written(old(ctx).inputs(), #[trigger] o.properties@[k], ctx.handled@),
            forall|k: int|
                0 <= k < values@.len() ==> (#[trigger] values@[k]).items@.len() == 1 && (values@[k].items@[0] matches Ir::NewLineGroup(g)
                    && exists|n: Seq<Ir>, t: Seq<Ir>|
                    #![trigger n + t]
                    g@ == n + t && no_comma(t) && prop_output(
                        ctx.inputs(),
                        o.properties@[k],
                        comma_after_element(
                            k,
                            o.properties@.len() as int,
                            ctx.config.trailing_commas,
                            ctx.is_jsonc,
                            comma_after(ctx.token_finder.tokens(), o.properties@[k].range.end as int) is Some,
                        ),
                        Some(o.range.end),
                        n,
                    )),
            ctx.inputs() == old(ctx).inputs(),
            forall|k: int|
                0 <= k < values@.len() ==> (#[trigger] values@[k]).lines_span == if force_use_new_lines {
                    Some(
                        LinesSpan {
                            start_line: start_line_spec(ctx.inputs(), ctx.token_finder.tokens(), o.properties@[k].range) as usize,
                            end_line: end_line_spec(ctx.inputs(), ctx.token_finder.tokens(), o.properties@[k].range) as usize,
                        },
                    )
                } else {
                    None
                } && values@[k].allow_inline_multi_line == false,
            forall|k: int|
                0 <= k < values@.len() ==> (comma_after_element(
                    k,
                    o.properties@.len() as int,
                    ctx.config.trailing_commas,
                    ctx.is_jsonc,
                    comma_after(ctx.token_finder.tokens(), o.properties@[k].range.end as int) is Some,
                ) <==> value_has_comma(#[trigger] values@[k])),
        decreases n - i,
    {
        let p = &o.properties[i];
        proof {
            lemma_object_within(o, ctx.text@.len() as int, i as int);
        }
        let range = p.range;
        let lines_span = if force_use_new_lines {
            let start_line = start_line_with_comments(range, ctx);
            let end_line = end_line_with_comments(range, ctx);
            Some(LinesSpan { start_line, end_line })
        } else {
            None
        };
        let comma_token = ctx.token_finder.get_next_token_if_comma(range.end);
        let comma = should_have_comma(i, n, ctx.config.trailing_commas, ctx.is_jsonc, comma_token.is_some());
        let ghost h1 = ctx.handled@;
        let mut items = gen_prop_node(p, comma, Some(o.range.end), ctx);
        let ghost h_node = ctx.handled@;
        let ghost node_items = items@;
        let ghost mut after_comma: Seq<Ir> = Seq::empty();
        if let Some(t) = comma_token {
            proof {
                let k = choose|k: int| 0 <= k < ctx.token_finder.tokens().len() && ctx.token_finder.tokens()[k] == t;
                assert(tokens_within(ctx.token_finder.tokens(), ctx.text@.len() as int));
                assert(ctx.token_finder.tokens()[k].range.wf());
            }
            let ghost h2 = ctx.handled@;
            let mut trailing = gen_trailing_comments(t.range, ctx);
            let ghost before_trailing = items@;
            let ghost trailing_items = trailing@;
            proof {
                after_comma = trailing_items;
            }
            items.append(&mut trailing);
            proof {
                lemma_no_comma_concat(before_trailing, trailing_items);
                lemma_ir_comments_append(before_trailing, trailing_items);
                lemma_fresh_concat(ir_comments(before_trailing), ir_comments(trailing_items), h1, h2, ctx.handled@);
            }
        }
        let ghost group_items = items@;
        let group = vec![Ir::NewLineGroup(items)];
        proof {
            assert(group@ =~= Seq::<Ir>::empty().push(group@[0]));
            lemma_ir_comments_push(Seq::<Ir>::empty(), group@[0]);
            assert(ir_comments(Seq::<Ir>::empty()) =~= Seq::<usize>::empty());
            assert(ir_comments(group@) =~= ir_comments(items@));
        }
        push_value(
            &mut values,
            SeparatedValue { items: group, lines_span, allow_inline_multi_line: false },
            Ghost(h0),
            Ghost(h1),
            Ghost(ctx.handled@),
        );
        proof {
            assert(values@[i as int].items@ == group@);
            assert(values@[i as int].items@[0] matches Ir::NewLineGroup(g) && g@ == group_items);
            assert(comma <==> value_has_comma(values@[i as int]));
            assert(group_items =~= node_items + after_comma);
        }
        proof {
            assert forall|k: int| 0 <= k < i + 1 implies prop_leading_written(old(ctx).inputs(), #[trigger] o.properties@[k], ctx.handled@) by {
                if k < i {
                    lemma_prop_leading_written_grows(old(ctx).inputs(), o.properties@[k], h1, ctx.handled@);
                } else {
                    lemma_prop_leading_written_grows(old(ctx).inputs(), o.properties@[k], h_node, ctx.handled@);
                }
            }
        }
        i = i + 1;
    }
    values
}

// Document

/// One item of `items` is the source of `range` as it stands.
pub open spec fn keeps_source(items: Seq<Ir>, text: Seq<u8>, range: Range) -> bool {
    exists|k: int|
        0 <= k < items.len() && (#[trigger] items[k] matches Ir::Raw(b) && b@ == text.subrange(
            range.start as int,
            range.end as int,
        ))
}

/// What `generate` returns for a document: each written comment is one of
/// the document's, written once; a final line break where anything is
/// written; the value rendered as a node with its comments, its source kept
/// under the ignore comment; without a value, the comments at offset 0.
pub open spec fn generated(doc: &Document, config: &Configuration, is_jsonc: bool, r: Seq<Ir>) -> bool {
    &&& (doc.spec_value() is Some ==> r.len() > 0)
    &&& ir_comments(r).no_duplicates()
    &&& forall|i: int|
        0 <= i < ir_comments(r).len() ==> is_comment_start(doc.spec_comments(), #[trigger] ir_comments(r)[i])
    &&& (r.len() > 0 ==> r.last() == Ir::Signal(Signal::NewLine))
    &&& match doc.spec_value() {
        Some(v) => {
            &&& (ignored_at(doc.spec_comments(), v.spec_range().start, config.ignore_node_comment_text@)
                ==> keeps_source(r, doc.spec_text_bytes(), v.spec_range()))
            &&& leading_written(
                (doc.spec_text_bytes(), *config, doc.spec_comments(), doc.spec_tokens(), is_jsonc),
                v,
                ir_comments(r).to_set(),
            )
            &&& exists|n: Seq<Ir>, s: Seq<Ir>|
                #![trigger n + s]
                r == n + s && node_output((doc.spec_text_bytes(), *config, doc.spec_comments(), doc.spec_tokens(), is_jsonc), v, false, None, n)
        },
        None => if doc.spec_comments().contains_key(0) {
            &&& from_list(ir_comments(r), doc.spec_comments()[0]@)
            &&& ir_comments(r) == pending(doc.spec_comments()[0]@, Set::empty(), ends_after(doc.spec_text_bytes(), None))
            &&& forall|i: int|
                0 <= i < doc.spec_comments()[0]@.len() ==> ir_comments(r).contains(
                    #[trigger] doc.spec_comments()[0]@[i].range.start,
                )
        } else {
            r.len() == 0
        },
    }
}

/// Generates the layout instruction tree of a document: its value with all
/// comments, each written once, or only its comments where it has no value,
/// and a final line break wherever anything was written.
pub fn generate(doc: &Document, config: &Configuration, is_jsonc: bool) -> (r: Vec<Ir>)
    ensures
        generated(doc, config, is_jsonc, r@),

{
    let text = doc.text().as_bytes();
    let comments = doc.comments();
    let tokens = doc.tokens();
    let mut ctx = Context {
        config,
        text,
        lines: LineIndex::new(text),
        is_jsonc,
        handled: HashSet::new(),
        comments,
        token_finder: TokenFinder::new(tokens),
    };
    let mut items: Vec<Ir> = Vec::new();
    assert(ctx.wf());
    let ghost h0 = ctx.handled@;
    proof {
        lemma_fresh_empty(h0);
    }
    match doc.value() {
        Some(v) => {
            let ghost inputs = ctx.inputs();
            let node = gen_value_node(v, false, None, &mut ctx);
            let ghost node_items = node@;
            let ghost h_node = ctx.handled@;
            append_fresh(&mut items, node, Ghost(h0), Ghost(h0), Ghost(ctx.handled@));
            let ghost h1 = ctx.handled@;
            let rest = gen_trailing_comments_as_statements(v.range().end, &mut ctx);
            append_fresh(&mut items, rest, Ghost(h0), Ghost(h1), Ghost(ctx.handled@));
            assert(node_items.len() > 0);
            push_plain(&mut items, Ir::Signal(Signal::NewLine));
            proof {
                assert forall|i: int| 0 <= i < ir_comments(items@).len() implies is_comment_start(
                    doc.spec_comments(),
                    #[trigger] ir_comments(items@)[i],
                ) by {
                    assert(ctx.handled@.contains(ir_comments(items@)[i]));
                }
                if ignored_at(doc.spec_comments(), v.spec_range().start, config.ignore_node_comment_text@) {
                    let k = choose|k: int|
                        0 <= k < node_items.len() && (#[trigger] node_items[k] matches Ir::Raw(b) && b@
                            == text@.subrange(v.spec_range().start as int, v.spec_range().end as int));
                    assert(items@[k] == node_items[k]);
                }
            }
            proof {
                assert(inputs == (doc.spec_text_bytes(), *config, doc.spec_comments(), doc.spec_tokens(), is_jsonc));
                assert(h0 =~= Set::<usize>::empty());
                assert(ctx.handled@ =~= ir_comments(items@).to_set());
                lemma_leading_written_grows(inputs, *v, h_node, ctx.handled@);
                assert(items@ =~= node_items + items@.skip(node_items.len() as int));
            }
            return items;
        },
        None => {
            if let Some(c) = comments_at(&ctx, 0) {
                let statements = gen_comments_as_statements(c, None, None, &mut ctx);
                let ghost st = statements@;
                append_fresh(&mut items, statements, Ghost(h0), Ghost(h0), Ghost(ctx.handled@));
                proof {
                    assert(ir_comments(items@) =~= ir_comments(st));
                    assert(h0 =~= Set::<usize>::empty());
                    assert forall|i: int| 0 <= i < c@.len() implies ir_comments(items@).contains(#[trigger] c@[i].range.start) by {
                        assert(ends_after(ctx.text@, None)(c@[i]));
                        assert(ctx.handled@.contains(c@[i].range.start));
                        assert(ir_comments(items@).to_set().contains(c@[i].range.start));
                    }
                }
            }
        },
    }
    let ghost before_break = items@;
    if items.len() > 0 {
        push_plain(&mut items, Ir::Signal(Signal::NewLine));
    }
    proof {
        assert forall|i: int| 0 <= i < ir_comments(items@).len() implies is_comment_start(
            doc.spec_comments(),
            #[trigger] ir_comments(items@)[i],
        ) by {
            assert(ctx.handled@.contains(ir_comments(items@)[i]));
        }
    }
    items
}

} // verus!
