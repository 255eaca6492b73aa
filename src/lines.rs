//! Line numbers of byte offsets.
use vstd::prelude::*;

verus! {

/// The number of line feeds among the first `pos` bytes of `text`: the
/// zero-based line on which byte `pos` stands.
pub open spec fn line_count_before(text: Seq<u8>, pos: int) -> int
    decreases pos,
{
    if pos <= 0 {
        0
    } else {
        line_count_before(text, pos - 1) + if text[pos - 1] == 10u8 {
            1int
        } else {
            0int
        }
    }
}

proof fn lemma_count_monotone(text: Seq<u8>, a: int, b: int)
    requires
        0 <= a <= b,
    ensures
        line_count_before(text, a) <= line_count_before(text, b),
    decreases b - a,
{
    if a < b {
        lemma_count_monotone(text, a, b - 1);
    }
}

proof fn lemma_count_bounded(text: Seq<u8>, pos: int)
    requires
        0 <= pos,
    ensures
        0 <= line_count_before(text, pos) <= pos,
    decreases pos,
{
    if pos > 0 {
        lemma_count_bounded(text, pos - 1);
    }
}

/// The positions of the line feeds of a text, in increasing order, for
/// finding the line of a byte offset by binary search.
pub struct LineIndex {
    breaks: Vec<usize>,
    text_len: usize,
    text: Ghost<Seq<u8>>,
}

impl LineIndex {
    /// The text that this index was built from.
    pub closed spec fn text(&self) -> Seq<u8> {
        self.text@
    }

    #[verifier::type_invariant]
    closed spec fn inv(&self) -> bool {
        self.describes(self.text@)
    }

    /// `breaks` holds exactly the offsets of the line feeds of `text`, in
    /// increasing order.
    closed spec fn describes(&self, text: Seq<u8>) -> bool {
        &&& self.text_len == text.len()
        &&& forall|k: int|
            #![trigger self.breaks@[k]]
            0 <= k < self.breaks@.len() ==> {
                &&& self.breaks@[k] < text.len()
                &&& text[self.breaks@[k] as int] == 10u8
                &&& line_count_before(text, self.breaks@[k] as int) == k
            }
        &&& line_count_before(text, text.len() as int) == self.breaks@.len()
    }

    pub fn new(text: &[u8]) -> (r: LineIndex)
        ensures
            r.text() == text@,
    {
        let mut breaks: Vec<usize> = Vec::new();
        let mut i: usize = 0;
        while i < text.len()
            invariant
                i <= text@.len(),
                line_count_before(text@, i as int) == breaks@.len(),
                forall|k: int|
                    #![trigger breaks@[k]]
                    0 <= k < breaks@.len() ==> {
                        &&& breaks@[k] < i
                        &&& text@[breaks@[k] as int] == 10u8
                        &&& line_count_before(text@, breaks@[k] as int) == k
                    },
            decreases text@.len() - i,
        {
            if text[i] == 10u8 {
                breaks.push(i);
            }
            i = i + 1;
        }
        LineIndex { breaks, text_len: text.len(), text: Ghost(text@) }
    }

    /// The zero-based line of byte offset `pos`.
    pub fn line_index(&self, pos: usize) -> (r: usize)
        requires
            pos <= self.text().len(),
        ensures
            r == line_count_before(self.text(), pos as int),
    {
        proof {
            use_type_invariant(self);
        }
        let ghost text = self.text@;
        assert(self.describes(text));
        // the number of line feeds that stand before `pos`
        let mut lo: usize = 0;
        let mut hi: usize = self.breaks.len();
        while lo < hi
            invariant
                self.describes(text),
                pos <= text.len(),
                0 <= lo <= hi <= self.breaks@.len(),
                forall|k: int| 0 <= k < lo ==> #[trigger] self.breaks@[k] < pos,
                forall|k: int| hi <= k < self.breaks@.len() ==> #[trigger] self.breaks@[k] >= pos,
            decreases hi - lo,
        {
            let mid = lo + (hi - lo) / 2;
            if self.breaks[mid] < pos {
                proof {
                    assert forall|k: int| 0 <= k <= mid implies #[trigger] self.breaks@[k] < pos by {
                        self.lemma_sorted(text, k, mid as int);
                    }
                }
                lo = mid + 1;
            } else {
                proof {
                    assert forall|k: int| mid <= k < self.breaks@.len() implies #[trigger] self.breaks@[k] >= pos by {
                        self.lemma_sorted(text, mid as int, k);
                    }
                }
                hi = mid;
            }
        }
        proof {
            let n = self.breaks@.len() as int;
            if lo > 0 {
                let prev = self.breaks@[lo - 1] as int;
                assert(line_count_before(text, prev + 1) == lo);
                lemma_count_monotone(text, prev + 1, pos as int);
            } else {
                lemma_count_bounded(text, 0);
                lemma_count_monotone(text, 0, pos as int);
            }
            if lo < n {
                let next = self.breaks@[lo as int] as int;
                lemma_count_monotone(text, pos as int, next);
            } else {
                lemma_count_monotone(text, pos as int, text.len() as int);
            }
        }
        lo
    }

    proof fn lemma_sorted(&self, text: Seq<u8>, a: int, b: int)
        requires
            self.describes(text),
            0 <= a <= b < self.breaks@.len(),
        ensures
            self.breaks@[a] <= self.breaks@[b],
    {
        if self.breaks@[a] > self.breaks@[b] {
            lemma_count_monotone(text, self.breaks@[b] as int, self.breaks@[a] as int);
        }
    }
}

} // verus!
