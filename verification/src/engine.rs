//! The slice engine: applies a slice to a token stream, lazily.
//!
//! [`Slice`] wraps a segmenter with an index counter.  Each call to `next`
//! pulls tokens until one falls inside the slice, hands it out, and stops
//! pulling altogether once the index reaches the end bound, so a small
//! `end` never forces the whole input to be read.

use vstd::prelude::*;
use crate::segment::Segmenter;
use crate::tokens::{lemma_select_from_done, lemma_token_len_bounds, select_from, selected, tokens};

verus! {

/// The effective step of a slice argument: an absent step means 1.
pub open spec fn opt_step(step: Option<usize>) -> int {
    match step {
        Some(k) => k as int,
        None => 1,
    }
}

/// A lazy view of the selected tokens of a segmenter's stream.
pub struct Slice {
    seg: Segmenter,
    start: usize,
    end: usize,
    step: usize,
    idx: usize,
}

impl Slice {
    pub closed spec fn wf(&self) -> bool {
        self.seg.wf() && self.step >= 1
    }

    /// The selected tokens not yet handed out.
    pub closed spec fn pending(&self) -> Seq<Seq<u8>> {
        select_from(
            tokens(self.seg.remaining(), self.seg.delim()),
            self.start as int,
            self.end as int,
            self.step as int,
            self.idx as int,
        )
    }

    /// Wraps a token stream so that exactly the tokens the slice
    /// `(start, end, step)` keeps come out, in order.
    pub fn new(seg: Segmenter, start: usize, end: usize, step: Option<usize>) -> (r: Self)
        requires
            seg.wf(),
            step matches Some(k) ==> k >= 1,
        ensures
            r.wf(),
            r.pending() == select_from(
                tokens(seg.remaining(), seg.delim()),
                start as int,
                end as int,
                opt_step(step),
                0,
            ),
    {
        let st: usize = match step {
            Some(k) => k,
            None => 1,
        };
        Slice { seg, start, end, step: st, idx: 0 }
    }

    /// Produces the next selected token, or `None` once none is left.
    pub fn next(&mut self) -> (r: Option<Vec<u8>>)
        requires
            old(self).wf(),
        ensures
            final(self).wf(),
            match r {
                None => old(self).pending().len() == 0 && final(self).pending().len() == 0,
                Some(t) => {
                    &&& old(self).pending().len() > 0
                    &&& t@ == old(self).pending()[0]
                    &&& final(self).pending() == old(self).pending().drop_first()
                },
            },
    {
        loop
            invariant
                self.wf(),
                self.pending() == old(self).pending(),
            decreases self.seg.remaining().len(),
        {
            if self.idx >= self.end {
                proof {
                    lemma_select_from_done(
                        tokens(self.seg.remaining(), self.seg.delim()),
                        self.start as int,
                        self.end as int,
                        self.step as int,
                        self.idx as int,
                    );
                }
                return None;
            }
            let ghost rem0 = self.seg.remaining();
            let ghost d = self.seg.delim();
            let t_opt: Option<Vec<u8>> = self.seg.next();
            match t_opt {
                None => {
                    return None;
                },
                Some(t) => {
                    proof {
                        lemma_token_len_bounds(rem0, d);
                        assert(tokens(rem0, d) == seq![t@] + tokens(self.seg.remaining(), d));
                        assert((seq![t@] + tokens(self.seg.remaining(), d)).drop_first()
                            =~= tokens(self.seg.remaining(), d));
                        assert((seq![t@] + tokens(self.seg.remaining(), d)).first() == t@);
                    }
                    let i: usize = self.idx;
                    self.idx = self.idx + 1;
                    if i >= self.start && (i - self.start) % self.step == 0 {
                        proof {
                            assert(selected(i as int, self.start as int, self.end as int, self.step as int));
                        }
                        return Some(t);
                    }
                    proof {
                        assert(!selected(i as int, self.start as int, self.end as int, self.step as int));
                    }
                },
            }
        }
    }
}

} // verus!
