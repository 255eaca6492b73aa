//! Finding the tokens next to a node: the comma after it, the token before
//! it.
use crate::ast::{Token, TokenKind};
use vstd::prelude::*;

verus! {

/// Tokens stand in source order.
pub open spec fn tokens_ordered(tokens: Seq<Token>) -> bool {
    forall|i: int, j: int|
        0 <= i < j < tokens.len() ==> #[trigger] tokens[i].range.start <= #[trigger] tokens[j].range.start
}

/// The index of the first token, from index `i` on, that starts at or after
/// `pos`; the length of the sequence if there is none.
pub open spec fn first_token_from(tokens: Seq<Token>, pos: int, i: int) -> int
    decreases tokens.len() - i,
{
    if i < 0 || i >= tokens.len() {
        tokens.len() as int
    } else if tokens[i].range.start >= pos {
        i
    } else {
        first_token_from(tokens, pos, i + 1)
    }
}

/// The first token that starts at or after `pos`.
pub open spec fn token_after(tokens: Seq<Token>, pos: int) -> Option<Token> {
    let c = first_token_from(tokens, pos, 0);
    if c < tokens.len() {
        Some(tokens[c])
    } else {
        None
    }
}

/// The last token that starts before `pos`.
pub open spec fn token_before(tokens: Seq<Token>, pos: int) -> Option<Token> {
    let c = first_token_from(tokens, pos, 0);
    if c > 0 {
        Some(tokens[c - 1])
    } else {
        None
    }
}

/// The first token at or after `pos`, if it is a comma.
pub open spec fn comma_after(tokens: Seq<Token>, pos: int) -> Option<Token> {
    match token_after(tokens, pos) {
        Some(t) => if t.kind == TokenKind::Comma {
            Some(t)
        } else {
            None
        },
        None => None,
    }
}

/// `c` splits the tokens into those that start before `pos` and those that
/// start at or after it.
pub open spec fn is_split(tokens: Seq<Token>, pos: int, c: int) -> bool {
    &&& 0 <= c <= tokens.len()
    &&& forall|k: int| 0 <= k < c ==> #[trigger] tokens[k].range.start < pos
    &&& forall|k: int| c <= k < tokens.len() ==> #[trigger] tokens[k].range.start >= pos
}

proof fn lemma_split_is_first(tokens: Seq<Token>, pos: int, c: int, i: int)
    requires
        is_split(tokens, pos, c),
        0 <= i <= c,
    ensures
        first_token_from(tokens, pos, i) == c,
    decreases c - i,
{
    if i < c {
        lemma_split_is_first(tokens, pos, c, i + 1);
    }
}

/// Finds the tokens next to a node. Nodes are visited in source order, so
/// the search starts from where the last one ended and moves mostly forward.
pub struct TokenFinder<'a> {
    tokens: &'a Vec<Token>,
    cursor: usize,
}

impl<'a> TokenFinder<'a> {
    pub closed spec fn tokens(&self) -> Seq<Token> {
        self.tokens@
    }

    pub closed spec fn wf(&self) -> bool {
        &&& self.cursor <= self.tokens@.len()
        &&& tokens_ordered(self.tokens@)
    }

    pub fn new(tokens: &'a Vec<Token>) -> (r: TokenFinder<'a>)
        requires
            tokens_ordered(tokens@),
        ensures
            r.wf(),
            r.tokens() == tokens@,
    {
        TokenFinder { tokens, cursor: 0 }
    }

    fn split_at(&mut self, pos: usize) -> (c: usize)
        requires
            old(self).wf(),
        ensures
            final(self).wf(),
            final(self).tokens() == old(self).tokens(),
            is_split(old(self).tokens(), pos as int, c as int),
    {
        let tokens = self.tokens;
        let mut c = self.cursor;
        while c > 0 && tokens[c - 1].range.start >= pos
            invariant
                c <= tokens@.len(),
            decreases c,
        {
            c = c - 1;
        }
        proof {
            assert forall|k: int| 0 <= k < c implies #[trigger] tokens@[k].range.start < pos by {
                assert(tokens@[k].range.start <= tokens@[c - 1].range.start);
            }
        }
        while c < tokens.len() && tokens[c].range.start < pos
            invariant
                tokens_ordered(tokens@),
                c <= tokens@.len(),
                forall|k: int| 0 <= k < c ==> #[trigger] tokens@[k].range.start < pos,
            decreases tokens@.len() - c,
        {
            c = c + 1;
        }
        proof {
            assert forall|k: int| c <= k < tokens@.len() implies #[trigger] tokens@[k].range.start >= pos by {
                assert(tokens@[c as int].range.start <= tokens@[k].range.start);
            }
        }
        self.cursor = c;
        c
    }

    /// The token that follows the node that ends at `end`, if it is a comma.
    pub fn get_next_token_if_comma(&mut self, end: usize) -> (r: Option<Token>)
        requires
            old(self).wf(),
        ensures
            final(self).wf(),
            final(self).tokens() == old(self).tokens(),
            r == comma_after(old(self).tokens(), end as int),
            r matches Some(t) ==> old(self).tokens().contains(t),
    {
        let c = self.split_at(end);
        proof {
            lemma_split_is_first(self.tokens(), end as int, c as int, 0);
        }
        if c < self.tokens.len() && self.tokens[c].kind == TokenKind::Comma {
            Some(self.tokens[c])
        } else {
            None
        }
    }

    /// The token that precedes the node that starts at `start`.
    pub fn get_previous_token(&mut self, start: usize) -> (r: Option<Token>)
        requires
            old(self).wf(),
        ensures
            final(self).wf(),
            final(self).tokens() == old(self).tokens(),
            r == token_before(old(self).tokens(), start as int),
            r matches Some(t) ==> old(self).tokens().contains(t),
    {
        let c = self.split_at(start);
        proof {
            lemma_split_is_first(self.tokens(), start as int, c as int, 0);
        }
        if c > 0 {
            Some(self.tokens[c - 1])
        } else {
            None
        }
    }
}

} // verus!
