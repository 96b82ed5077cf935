//! Incremental slicing of a stream fed chunk by chunk.
//!
//! [`StreamSlicer`] holds only the bytes since the last token boundary, so
//! memory stays proportional to one token plus one chunk, however long the
//! stream.  The caller feeds chunks as they arrive and drains the selected
//! tokens between chunks; a token leaves the buffer as soon as a delimiter
//! occurrence completes it, which no later byte can undo
//! ([`crate::tokens::lemma_token_len_stable`]).  Its contracts speak of
//! `pending_given(future)`: what the slice still selects if `future` is the
//! rest of the stream — so whatever arrives later, every hand-out is right.

use vstd::prelude::*;
use vstd::slice::slice_index_get;
use crate::modes::{mode_delim, mode_delimiter, slice_output, Mode};
use crate::range::{copy_range, SliceRange};
use crate::segment::range_eq;
use crate::tokens::{
    delim_pos, has_complete_token, lemma_select_from_done, lemma_token_len_bounds,
    lemma_token_len_stable, match_at, select_from, selected, token_len, tokens,
};

verus! {

/// The position just after the first delimiter occurrence that is complete
/// within `data`, when there is one.
fn find_match(data: &[u8], d: &[u8]) -> (r: Option<usize>)
    requires
        data@.len() >= 1,
        d@.len() >= 1,
    ensures
        match r {
            Some(p) => match_at(data@, d@, p as int) && p as int == token_len(data@, d@),
            None => !has_complete_token(data@, d@) && token_len(data@, d@) == data@.len(),
        },
{
    let n: usize = data.len();
    let mut p: usize = 1;
    loop
        invariant
            1 <= p <= n,
            n == data@.len(),
            d@.len() >= 1,
            delim_pos(data@, d@, 1) == delim_pos(data@, d@, p as int),
            forall|q: int| 1 <= q < p ==> !match_at(data@, d@, q),
        decreases n - p,
    {
        if p >= d.len() && range_eq(data, p - d.len(), d) {
            proof {
                assert(match_at(data@, d@, p as int));
            }
            return Some(p);
        }
        proof {
            assert(!match_at(data@, d@, p as int));
        }
        if p == n {
            proof {
                assert(delim_pos(data@, d@, p + 1) == n);
                assert(forall|q: int| match_at(data@, d@, q) ==> 1 <= q <= n);
            }
            return None;
        }
        p = p + 1;
    }
}

/// A slice engine over a stream that arrives chunk by chunk.
pub struct StreamSlicer {
    buf: Vec<u8>,
    delimiter: Vec<u8>,
    start: usize,
    end: usize,
    step: usize,
    idx: usize,
}

impl StreamSlicer {
    pub closed spec fn wf(&self) -> bool {
        self.step >= 1
    }

    /// The bytes fed but not yet part of a handed-out token.
    pub closed spec fn buffered(&self) -> Seq<u8> {
        self.buf@
    }

    /// The delimiter tokens are cut by.
    pub closed spec fn delim(&self) -> Seq<u8> {
        self.delimiter@
    }

    /// The selected tokens still owed, supposing `future` is the rest of
    /// the stream.
    pub closed spec fn pending_given(&self, future: Seq<u8>) -> Seq<Seq<u8>> {
        select_from(
            tokens(self.buf@ + future, self.delimiter@),
            self.start as int,
            self.end as int,
            self.step as int,
            self.idx as int,
        )
    }

    /// A fresh slicer: everything the stream will carry is still to come.
    pub fn new(delimiter: Vec<u8>, range: &SliceRange) -> (r: Self)
        requires
            range.wf(),
        ensures
            r.wf(),
            r.buffered() == Seq::<u8>::empty(),
            r.delim() == delimiter@,
            forall|future: Seq<u8>| #[trigger] r.pending_given(future) == select_from(
                tokens(future, delimiter@),
                range.start as int,
                range.end as int,
                range.step_or_one(),
                0,
            ),
    {
        let st: usize = match range.step {
            Some(k) => k,
            None => 1,
        };
        let r = StreamSlicer {
            buf: Vec::new(),
            delimiter,
            start: range.start,
            end: range.end,
            step: st,
            idx: 0,
        };
        proof {
            assert forall|future: Seq<u8>| #[trigger] r.pending_given(future) == select_from(
                tokens(future, r.delimiter@),
                range.start as int,
                range.end as int,
                range.step_or_one(),
                0,
            ) by {
                assert(r.buf@ + future =~= future);
            }
        }
        r
    }

    /// Hands the slicer the next chunk of the stream.
    pub fn feed(&mut self, chunk: &[u8])
        requires
            old(self).wf(),
        ensures
            final(self).wf(),
            final(self).delim() == old(self).delim(),
            forall|future: Seq<u8>| #[trigger] final(self).pending_given(future) == old(
                self,
            ).pending_given(chunk@ + future),
    {
        let m: usize = chunk.len();
        let mut j: usize = 0;
        while j < m
            invariant
                j <= m,
                m == chunk@.len(),
                self.wf(),
                self.delimiter@ == old(self).delimiter@,
                self.start == old(self).start,
                self.end == old(self).end,
                self.step == old(self).step,
                self.idx == old(self).idx,
                self.buf@ == old(self).buf@ + chunk@.take(j as int),
            decreases m - j,
        {
            let b: u8 = chunk[j];
            self.buf.push(b);
            j = j + 1;
            proof {
                assert(self.buf@ =~= old(self).buf@ + chunk@.take(j as int));
            }
        }
        proof {
            assert(chunk@.take(m as int) =~= chunk@);
            assert forall|future: Seq<u8>| #[trigger] self.pending_given(future) == old(
                self,
            ).pending_given(chunk@ + future) by {
                assert(self.buf@ + future =~= old(self).buf@ + (chunk@ + future));
            }
        }
    }

    /// Whether the slice is already complete, whatever the stream still
    /// carries: the caller may stop feeding input.
    pub fn finished(&self) -> (b: bool)
        ensures
            b ==> forall|future: Seq<u8>| #[trigger] self.pending_given(future).len() == 0,
    {
        let b: bool = self.idx >= self.end;
        proof {
            if b {
                assert forall|future: Seq<u8>| #[trigger] self.pending_given(future).len()
                    == 0 by {
                    lemma_select_from_done(
                        tokens(self.buf@ + future, self.delimiter@),
                        self.start as int,
                        self.end as int,
                        self.step as int,
                        self.idx as int,
                    );
                }
            }
        }
        b
    }

    /// Produces the next selected token that the bytes so far already
    /// determine, or `None` when more input is needed (`at_end` false) or
    /// the stream is over and nothing is owed (`at_end` true).
    pub fn next_output(&mut self, at_end: bool) -> (r: Option<Vec<u8>>)
        requires
            old(self).wf(),
        ensures
            final(self).wf(),
            final(self).delim() == old(self).delim(),
            final(self).buffered().len() <= old(self).buffered().len(),
            match r {
                None => {
                    &&& (!at_end ==> (forall|future: Seq<u8>|
                        #[trigger] final(self).pending_given(future) == old(self).pending_given(
                            future,
                        )))
                    &&& (!at_end ==> (!has_complete_token(final(self).buffered(), old(self).delim())
                        || (forall|future: Seq<u8>|
                            #[trigger] final(self).pending_given(future).len() == 0)))
                    &&& (at_end ==> old(self).pending_given(Seq::empty())
                        == final(self).pending_given(Seq::empty()))
                    &&& (at_end ==> final(self).pending_given(Seq::empty()).len() == 0)
                },
                Some(t) => {
                    &&& t@.len() >= 1
                    &&& final(self).buffered().len() < old(self).buffered().len()
                    &&& (!at_end ==> (forall|future: Seq<u8>|
                        #[trigger] old(self).pending_given(future) == seq![t@]
                            + final(self).pending_given(future)))
                    &&& (at_end ==> old(self).pending_given(Seq::empty()) == seq![t@]
                        + final(self).pending_given(Seq::empty()))
                },
            },
    {
        loop
            invariant
                self.wf(),
                self.delimiter@ == old(self).delimiter@,
                self.start == old(self).start,
                self.end == old(self).end,
                self.step == old(self).step,
                self.buf@.len() <= old(self).buf@.len(),
                !at_end ==> (forall|future: Seq<u8>| #[trigger] self.pending_given(future) == old(
                    self,
                ).pending_given(future)),
                at_end ==> self.pending_given(Seq::empty()) == old(self).pending_given(
                    Seq::empty(),
                ),
            decreases self.buf@.len(),
        {
            let ghost pre = *self;
            let ghost d = self.delimiter@;
            let ghost s = self.start as int;
            let ghost e = self.end as int;
            let ghost st = self.step as int;
            if self.idx >= self.end {
                proof {
                    assert forall|future: Seq<u8>| #[trigger] self.pending_given(future).len()
                        == 0 by {
                        lemma_select_from_done(
                            tokens(self.buf@ + future, d),
                            s,
                            e,
                            st,
                            self.idx as int,
                        );
                    }
                }
                return None;
            }
            let n: usize = self.buf.len();
            if n == 0 {
                proof {
                    assert(self.buf@ + Seq::<u8>::empty() =~= Seq::<u8>::empty());
                }
                return None;
            }
            let ghost b0 = self.buf@;
            let l: usize;
            if self.delimiter.len() == 0 {
                proof {
                    assert(b0.subrange(1 - d.len(), 1) =~= d);
                    assert(match_at(b0, d, 1));
                    assert(has_complete_token(b0, d));
                    assert(delim_pos(b0, d, 1) == 1);
                }
                l = 1;
            } else {
                match find_match(self.buf.as_slice(), self.delimiter.as_slice()) {
                    Some(p) => {
                        proof {
                            assert(has_complete_token(b0, d));
                        }
                        l = p;
                    },
                    None => {
                        if at_end {
                            l = n;
                        } else {
                            return None;
                        }
                    },
                }
            }
            proof {
                assert(l as int == token_len(b0, d));
                assert(1 <= l <= b0.len()) by {
                    lemma_token_len_bounds(b0, d);
                }
            }
            let t: Vec<u8> = copy_range(self.buf.as_slice(), 0, l);
            let rest: Vec<u8> = copy_range(self.buf.as_slice(), l, n);
            self.buf = rest;
            let ghost tv = t@;
            let ghost b1 = self.buf@;
            let i: usize = self.idx;
            self.idx = i + 1;
            proof {
                assert(tv =~= b0.take(l as int));
                assert(b1 =~= b0.skip(l as int));
                if !at_end {
                    assert(has_complete_token(b0, d));
                }
                if has_complete_token(b0, d) {
                    assert forall|future: Seq<u8>| #[trigger] tokens(b0 + future, d) == seq![tv]
                        + tokens(b1 + future, d) by {
                        lemma_token_len_stable(b0, future, d);
                        assert((b0 + future).take(l as int) =~= b0.take(l as int));
                        assert((b0 + future).skip(l as int) =~= b1 + future);
                    }
                }
                assert(b0 + Seq::<u8>::empty() =~= b0);
                assert(b1 + Seq::<u8>::empty() =~= b1);
                assert(tokens(b0, d) == seq![tv] + tokens(b1, d));
            }
            if i >= self.start && (i - self.start) % self.step == 0 {
                proof {
                    assert(selected(i as int, s, e, st));
                    if !at_end {
                        assert forall|future: Seq<u8>| #[trigger] old(self).pending_given(future)
                            == seq![tv] + self.pending_given(future) by {
                            assert(pre.pending_given(future) == old(self).pending_given(future));
                            assert(tokens(b0 + future, d) == seq![tv] + tokens(b1 + future, d));
                            let x = tokens(b1 + future, d);
                            assert((seq![tv] + x).first() == tv);
                            assert((seq![tv] + x).drop_first() =~= x);
                        }
                    } else {
                        let x = tokens(b1 + Seq::<u8>::empty(), d);
                        assert(tokens(b0 + Seq::<u8>::empty(), d) == seq![tv] + x);
                        assert((seq![tv] + x).first() == tv);
                        assert((seq![tv] + x).drop_first() =~= x);
                        assert(old(self).pending_given(Seq::empty()) == seq![tv]
                            + self.pending_given(Seq::empty()));
                    }
                }
                return Some(t);
            }
            proof {
                assert(!selected(i as int, s, e, st));
                if !at_end {
                    assert forall|future: Seq<u8>| #[trigger] self.pending_given(future) == old(
                        self,
                    ).pending_given(future) by {
                        assert(pre.pending_given(future) == old(self).pending_given(future));
                        assert(tokens(b0 + future, d) == seq![tv] + tokens(b1 + future, d));
                        let x = tokens(b1 + future, d);
                        assert((seq![tv] + x).first() == tv);
                        assert((seq![tv] + x).drop_first() =~= x);
                    }
                } else {
                    let x = tokens(b1 + Seq::<u8>::empty(), d);
                    assert(tokens(b0 + Seq::<u8>::empty(), d) == seq![tv] + x);
                    assert((seq![tv] + x).first() == tv);
                    assert((seq![tv] + x).drop_first() =~= x);
                    assert(self.pending_given(Seq::empty()) == old(self).pending_given(
                        Seq::empty(),
                    ));
                }
            }
        }
    }
}

/// The bytes of a sequence of chunks, in order.
pub open spec fn chunks_bytes(cs: Seq<Vec<u8>>) -> Seq<u8> {
    cs.map_values(|c: Vec<u8>| c@).flatten()
}

/// The bytes of the chunks from index `i` on.
pub open spec fn rest_bytes(cs: Seq<Vec<u8>>, i: int) -> Seq<u8> {
    chunks_bytes(cs.skip(i))
}

proof fn lemma_rest_bytes_step(cs: Seq<Vec<u8>>, i: int)
    requires
        0 <= i < cs.len(),
    ensures
        rest_bytes(cs, i) == cs[i]@ + rest_bytes(cs, i + 1),
{
    let m = cs.skip(i).map_values(|c: Vec<u8>| c@);
    assert(m.first() == cs[i]@);
    assert(m.drop_first() =~= cs.skip(i + 1).map_values(|c: Vec<u8>| c@));
}

/// Slices a stream given as chunks, feeding them to a [`StreamSlicer`] one
/// at a time and stopping early once the slice is complete: the output is
/// byte-for-byte what slicing the concatenated stream gives.
pub fn run_mode_chunked(mode: &Mode, chunks: &Vec<Vec<u8>>, range: &SliceRange) -> (out: Vec<u8>)
    requires
        range.wf(),
    ensures
        out@ == slice_output(chunks_bytes(chunks@), mode_delim(*mode), *range),
{
    let delimiter: Vec<u8> = mode_delimiter(mode);
    let ghost d = delimiter@;
    let ghost total = select_from(
        tokens(chunks_bytes(chunks@), d),
        range.start as int,
        range.end as int,
        range.step_or_one(),
        0,
    );
    let mut sl: StreamSlicer = StreamSlicer::new(delimiter, range);
    let ghost mut done: Seq<Seq<u8>> = Seq::empty();
    let mut out: Vec<u8> = Vec::new();
    let n: usize = chunks.len();
    let mut i: usize = 0;
    proof {
        assert(chunks@.skip(0) =~= chunks@);
        assert(done + sl.pending_given(rest_bytes(chunks@, 0)) =~= total);
        assert(Seq::<Seq<u8>>::empty().flatten() =~= Seq::<u8>::empty());
    }
    loop
        invariant
            i <= n,
            n == chunks@.len(),
            sl.wf(),
            out@ == done.flatten(),
            done + sl.pending_given(rest_bytes(chunks@, i as int)) == total,
        ensures
            out@ == done.flatten(),
            sl.wf(),
            done + sl.pending_given(rest_bytes(chunks@, i as int)) == total,
            i == n || (forall|future: Seq<u8>| #[trigger] sl.pending_given(future).len() == 0),
        decreases n - i,
    {
        if i == n {
            break;
        }
        if sl.finished() {
            break;
        }
        let chunk: &Vec<u8> = slice_index_get(chunks.as_slice(), i);
        proof {
            lemma_rest_bytes_step(chunks@, i as int);
        }
        sl.feed(chunk.as_slice());
        i = i + 1;
        loop
            invariant
                i <= n,
                n == chunks@.len(),
                sl.wf(),
                out@ == done.flatten(),
                done + sl.pending_given(rest_bytes(chunks@, i as int)) == total,
            decreases sl.buffered().len(),
        {
            match sl.next_output(false) {
                None => {
                    break;
                },
                Some(mut t) => {
                    let ghost tv = t@;
                    out.append(&mut t);
                    proof {
                        done.lemma_flatten_push(tv);
                        done = done.push(tv);
                        assert(done + sl.pending_given(rest_bytes(chunks@, i as int)) =~= total);
                    }
                },
            }
        }
    }
    proof {
        if i == n {
            assert(chunks@.skip(n as int) =~= Seq::<Vec<u8>>::empty());
            assert(Seq::<Vec<u8>>::empty().map_values(|c: Vec<u8>| c@) =~= Seq::<Seq<u8>>::empty());
            assert(rest_bytes(chunks@, n as int) == Seq::<u8>::empty());
        } else {
            assert(sl.pending_given(rest_bytes(chunks@, i as int)).len() == 0);
            assert(sl.pending_given(Seq::<u8>::empty()).len() == 0);
        }
        assert(done + sl.pending_given(Seq::<u8>::empty()) =~= total);
    }
    loop
        invariant
            sl.wf(),
            out@ == done.flatten(),
            done + sl.pending_given(Seq::<u8>::empty()) == total,
        ensures
            out@ == done.flatten(),
            done + sl.pending_given(Seq::<u8>::empty()) == total,
            sl.pending_given(Seq::<u8>::empty()).len() == 0,
        decreases sl.buffered().len(),
    {
        match sl.next_output(true) {
            None => {
                break;
            },
            Some(mut t) => {
                let ghost tv = t@;
                out.append(&mut t);
                proof {
                    done.lemma_flatten_push(tv);
                    done = done.push(tv);
                    assert(done + sl.pending_given(Seq::<u8>::empty()) =~= total);
                }
            },
        }
    }
    proof {
        assert(done =~= total);
    }
    out
}

} // verus!
