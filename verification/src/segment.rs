//! Segmenters: pull-based producers of tokens from an in-memory byte
//! sequence.
//!
//! Each segmenter owns its input and a cursor, hands out one token per call
//! to `next`, in strictly increasing stream order, and never revisits a
//! byte.  What a call returns is pinned to the [`crate::tokens::tokens`]
//! model of the bytes that were still unread.

use vstd::prelude::*;
use crate::range::copy_range;
use crate::tokens::{delim_pos, line_delim, token_len, LINE_FEED};

verus! {

/// Compares `data[at .. at + d.len()]` with `d`.
pub(crate) fn range_eq(data: &[u8], at: usize, d: &[u8]) -> (r: bool)
    requires
        at + d@.len() <= data@.len(),
    ensures
        r <==> data@.subrange(at as int, at + d@.len()) == d@,
{
    let m: usize = d.len();
    let n: usize = data.len();
    let mut j: usize = 0;
    while j < m
        invariant
            j <= m,
            m == d@.len(),
            n == data@.len(),
            at + m <= n,
            forall|k: int| 0 <= k < j ==> data@[at + k] == d@[k],
        decreases m - j,
    {
        if data[at + j] != d[j] {
            proof {
                assert(data@.subrange(at as int, at + d@.len())[j as int] != d@[j as int]);
            }
            return false;
        }
        j = j + 1;
    }
    proof {
        assert(data@.subrange(at as int, at + d@.len()) =~= d@);
    }
    true
}

/// The length of the first token of `data[pos..]`, segmenting by the
/// non-empty delimiter `d`.
fn find_token_len(data: &[u8], pos: usize, d: &[u8]) -> (l: usize)
    requires
        pos < data@.len(),
        d@.len() >= 1,
    ensures
        l == token_len(data@.skip(pos as int), d@),
        1 <= l <= data@.len() - pos,
{
    let ghost rem = data@.skip(pos as int);
    let n: usize = data.len();
    let rem_len: usize = n - pos;
    let mut p: usize = 1;
    while p < rem_len
        invariant
            1 <= p <= rem_len,
            rem_len == n - pos,
            n == data@.len(),
            pos < n,
            d@.len() >= 1,
            rem == data@.skip(pos as int),
            delim_pos(rem, d@, 1) == delim_pos(rem, d@, p as int),
        decreases rem_len - p,
    {
        if p >= d.len() && range_eq(data, pos + p - d.len(), d) {
            proof {
                assert(rem.subrange(p - d@.len(), p as int) =~= data@.subrange(
                    pos + p - d@.len(),
                    pos + p,
                ));
            }
            return p;
        }
        proof {
            if p >= d@.len() {
                assert(rem.subrange(p - d@.len(), p as int) =~= data@.subrange(
                    pos + p - d@.len(),
                    pos + p,
                ));
            }
        }
        p = p + 1;
    }
    proof {
        assert(delim_pos(rem, d@, rem_len + 1) == rem_len);
        assert(delim_pos(rem, d@, rem_len as int) == rem_len);
    }
    rem_len
}

/// A segmenter that cuts its input just after each occurrence of a
/// delimiter byte string; with an empty delimiter every single byte is its
/// own token.
pub struct Delimited {
    data: Vec<u8>,
    pos: usize,
    delimiter: Vec<u8>,
}

impl Delimited {
    /// The cursor never passes the end of the input.
    pub closed spec fn wf(&self) -> bool {
        self.pos <= self.data@.len()
    }

    /// The bytes not yet handed out.
    pub closed spec fn remaining(&self) -> Seq<u8> {
        self.data@.skip(self.pos as int)
    }

    /// The delimiter this segmenter cuts by.
    pub closed spec fn delim(&self) -> Seq<u8> {
        self.delimiter@
    }

    pub fn new(data: Vec<u8>, delimiter: Vec<u8>) -> (r: Self)
        ensures
            r.wf(),
            r.remaining() == data@,
            r.delim() == delimiter@,
    {
        Delimited { data, pos: 0, delimiter }
    }

    /// Produces the next token, or `None` once the input is exhausted.
    pub fn next(&mut self) -> (r: Option<Vec<u8>>)
        requires
            old(self).wf(),
        ensures
            final(self).wf(),
            final(self).delim() == old(self).delim(),
            match r {
                None => old(self).remaining().len() == 0 && final(self).remaining() == old(
                    self,
                ).remaining(),
                Some(t) => {
                    &&& old(self).remaining().len() > 0
                    &&& t@.len() >= 1
                    &&& t@ == old(self).remaining().take(
                        token_len(old(self).remaining(), old(self).delim()),
                    )
                    &&& final(self).remaining() == old(self).remaining().skip(
                        token_len(old(self).remaining(), old(self).delim()),
                    )
                },
            },
    {
        let n: usize = self.data.len();
        if self.pos == n {
            return None;
        }
        let ghost rem = self.remaining();
        let ghost d = self.delim();
        let l: usize;
        if self.delimiter.len() == 0 {
            proof {
                assert(rem.subrange(1 - d.len(), 1) =~= d);
            }
            l = 1;
        } else {
            l = find_token_len(self.data.as_slice(), self.pos, self.delimiter.as_slice());
        }
        let t: Vec<u8> = copy_range(self.data.as_slice(), self.pos, self.pos + l);
        self.pos = self.pos + l;
        proof {
            assert(t@ =~= rem.take(l as int));
            assert(self.remaining() =~= rem.skip(l as int));
        }
        Some(t)
    }
}

/// A segmenter that cuts its input after each line feed; the final token may
/// lack the terminator when the input does.
pub struct LinesWithEol {
    inner: Delimited,
}

impl LinesWithEol {
    pub closed spec fn wf(&self) -> bool {
        self.inner.wf() && self.inner.delim() == line_delim()
    }

    /// The bytes not yet handed out.
    pub closed spec fn remaining(&self) -> Seq<u8> {
        self.inner.remaining()
    }

    pub fn new(data: Vec<u8>) -> (r: Self)
        ensures
            r.wf(),
            r.remaining() == data@,
    {
        let mut delimiter: Vec<u8> = Vec::new();
        delimiter.push(LINE_FEED);
        proof {
            assert(delimiter@ =~= line_delim());
        }
        LinesWithEol { inner: Delimited::new(data, delimiter) }
    }

    /// Produces the next line, or `None` once the input is exhausted.
    pub fn next(&mut self) -> (r: Option<Vec<u8>>)
        requires
            old(self).wf(),
        ensures
            final(self).wf(),
            match r {
                None => old(self).remaining().len() == 0 && final(self).remaining() == old(
                    self,
                ).remaining(),
                Some(t) => {
                    &&& old(self).remaining().len() > 0
                    &&& t@.len() >= 1
                    &&& t@ == old(self).remaining().take(
                        token_len(old(self).remaining(), line_delim()),
                    )
                    &&& final(self).remaining() == old(self).remaining().skip(
                        token_len(old(self).remaining(), line_delim()),
                    )
                },
            },
    {
        self.inner.next()
    }
}

/// Any of the three segmentation modes, behind one interface.
pub enum Segmenter {
    Lines(LinesWithEol),
    Delim(Delimited),
}

impl Segmenter {
    pub closed spec fn wf(&self) -> bool {
        match self {
            Segmenter::Lines(l) => l.wf(),
            Segmenter::Delim(d) => d.wf(),
        }
    }

    /// The bytes not yet handed out.
    pub closed spec fn remaining(&self) -> Seq<u8> {
        match self {
            Segmenter::Lines(l) => l.remaining(),
            Segmenter::Delim(d) => d.remaining(),
        }
    }

    /// The delimiter this segmenter's mode cuts by.
    pub closed spec fn delim(&self) -> Seq<u8> {
        match self {
            Segmenter::Lines(_) => line_delim(),
            Segmenter::Delim(d) => d.delim(),
        }
    }

    /// A line-mode segmenter.
    pub fn lines(data: Vec<u8>) -> (r: Self)
        ensures
            r.wf(),
            r.remaining() == data@,
            r.delim() == line_delim(),
    {
        Segmenter::Lines(LinesWithEol::new(data))
    }

    /// A delimiter-mode segmenter.
    pub fn delimited(data: Vec<u8>, delimiter: Vec<u8>) -> (r: Self)
        ensures
            r.wf(),
            r.remaining() == data@,
            r.delim() == delimiter@,
    {
        Segmenter::Delim(Delimited::new(data, delimiter))
    }

    /// A byte-mode segmenter: every single byte is a token.
    pub fn bytes(data: Vec<u8>) -> (r: Self)
        ensures
            r.wf(),
            r.remaining() == data@,
            r.delim() == Seq::<u8>::empty(),
    {
        let delimiter: Vec<u8> = Vec::new();
        proof {
            assert(delimiter@ =~= Seq::<u8>::empty());
        }
        Segmenter::Delim(Delimited::new(data, delimiter))
    }

    /// Produces the next token, or `None` once the input is exhausted.
    pub fn next(&mut self) -> (r: Option<Vec<u8>>)
        requires
            old(self).wf(),
        ensures
            final(self).wf(),
            final(self).delim() == old(self).delim(),
            match r {
                None => old(self).remaining().len() == 0 && final(self).remaining() == old(
                    self,
                ).remaining(),
                Some(t) => {
                    &&& old(self).remaining().len() > 0
                    &&& t@.len() >= 1
                    &&& t@ == old(self).remaining().take(
                        token_len(old(self).remaining(), old(self).delim()),
                    )
                    &&& final(self).remaining() == old(self).remaining().skip(
                        token_len(old(self).remaining(), old(self).delim()),
                    )
                },
            },
    {
        match self {
            Segmenter::Lines(l) => l.next(),
            Segmenter::Delim(d) => d.next(),
        }
    }
}

} // verus!
