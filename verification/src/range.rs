//! The slice notation `start:end:step` and its parser.
//!
//! A slice specification is a string of colon-separated fields.  The first
//! field is the index of the first token to keep (default 0), the second is
//! the exclusive upper bound on token indices (default: unbounded, encoded as
//! `usize::MAX`), and the third is the step between kept indices (default 1).
//! The second field also accepts two relative forms: `+N` sets the end to
//! `start + N`, and `+-N` widens to the symmetric window from `start - N` to
//! `start + N`.  Relative bounds are clamped at zero and saturated at
//! `usize::MAX` rather than wrapping.
//!
//! Absent fields take their defaults: a string without any colon is a start
//! field alone, and every field itself may be empty.  Only the entirely
//! empty string is rejected outright.  Fields after the third are ignored.

use vstd::prelude::*;
use vstd::slice::{slice_subrange, slice_to_vec};
use vstd::string::StringSliceAdditionalSpecFns;

verus! {

/// The byte that separates fields of a slice specification.
pub const COLON: u8 = 58;

/// The byte that introduces a relative end bound.
pub const PLUS: u8 = 43;

/// The second byte of the symmetric-window form `+-N`.
pub const MINUS: u8 = 45;

/// A parsed slice specification: keep the tokens whose 0-based index `i`
/// satisfies `start <= i < end` and `(i - start) % step == 0`.
///
/// `end == usize::MAX` stands for "unbounded".  `step` is `None` when the
/// step field was absent altogether; an absent or empty step means 1.
#[derive(Clone, Copy, PartialEq, Eq, Structural, Debug)]
pub struct SliceRange {
    pub start: usize,
    pub end: usize,
    pub step: Option<usize>,
}

impl SliceRange {
    /// A well-formed range never carries a zero step.
    pub open spec fn wf(self) -> bool {
        match self.step {
            Some(k) => k >= 1,
            None => true,
        }
    }

    /// The effective step: an absent step field means a step of 1.
    pub open spec fn step_or_one(self) -> int {
        match self.step {
            Some(k) => k as int,
            None => 1,
        }
    }
}

/// Why a slice specification was rejected, with the text of the field that
/// failed.
#[derive(Debug)]
pub enum SpecParseError {
    /// The string was empty: it held no start field at all.
    MissingStart,
    /// The start field was not a non-negative integer.
    InvalidStart(Vec<u8>),
    /// The end field was neither a non-negative integer nor a `+N` / `+-N`
    /// form.
    InvalidEnd(Vec<u8>),
    /// The step field was not a positive integer.
    InvalidStep(Vec<u8>),
}

/// The abstract value of a [`SpecParseError`].
pub enum SpecParseErrorView {
    MissingStart,
    InvalidStart(Seq<u8>),
    InvalidEnd(Seq<u8>),
    InvalidStep(Seq<u8>),
}

impl View for SpecParseError {
    type V = SpecParseErrorView;

    open spec fn view(&self) -> SpecParseErrorView {
        match self {
            SpecParseError::MissingStart => SpecParseErrorView::MissingStart,
            SpecParseError::InvalidStart(t) => SpecParseErrorView::InvalidStart(t@),
            SpecParseError::InvalidEnd(t) => SpecParseErrorView::InvalidEnd(t@),
            SpecParseError::InvalidStep(t) => SpecParseErrorView::InvalidStep(t@),
        }
    }
}

/// Whether `b` is an ASCII decimal digit.
pub open spec fn is_digit(b: u8) -> bool {
    48 <= b <= 57
}

/// Whether every byte of `s` is an ASCII decimal digit.
pub open spec fn all_digits(s: Seq<u8>) -> bool {
    forall|i: int| 0 <= i < s.len() ==> is_digit(#[trigger] s[i])
}

/// The value of a digit string read in base 10.
pub open spec fn digits_val(s: Seq<u8>) -> int
    decreases s.len(),
{
    if s.len() == 0 {
        0
    } else {
        10 * digits_val(s.drop_last()) + (s.last() - 48)
    }
}

/// A number field may carry one leading `+`, as the standard library's
/// unsigned parsers accept.
pub open spec fn strip_plus(s: Seq<u8>) -> Seq<u8> {
    if s.len() > 0 && s[0] == PLUS {
        s.drop_first()
    } else {
        s
    }
}

/// Whether `s` parses as a machine-sized non-negative integer: at least one
/// digit after an optional `+`, and a value that fits.
pub open spec fn valid_number(s: Seq<u8>) -> bool {
    let d = strip_plus(s);
    d.len() > 0 && all_digits(d) && digits_val(d) <= usize::MAX
}

/// The value of a number field.
pub open spec fn number_val(s: Seq<u8>) -> int {
    digits_val(strip_plus(s))
}

/// A digit string's value is never negative.
pub proof fn lemma_digits_val_nonneg(s: Seq<u8>)
    requires
        all_digits(s),
    ensures
        digits_val(s) >= 0,
    decreases s.len(),
{
    if s.len() > 0 {
        assert(all_digits(s.drop_last())) by {
            assert(forall|i: int| 0 <= i < s.len() - 1 ==> s.drop_last()[i] == s[i]);
        }
        lemma_digits_val_nonneg(s.drop_last());
    }
}

/// Extending a digit string can only grow its value.
pub proof fn lemma_digits_val_take_le(s: Seq<u8>, k: int)
    requires
        all_digits(s),
        0 <= k <= s.len(),
    ensures
        digits_val(s.take(k)) <= digits_val(s),
    decreases s.len(),
{
    if k == s.len() {
        assert(s.take(k) =~= s);
    } else {
        assert(all_digits(s.drop_last())) by {
            assert(forall|i: int| 0 <= i < s.len() - 1 ==> s.drop_last()[i] == s[i]);
        }
        assert(s.take(k) =~= s.drop_last().take(k));
        lemma_digits_val_take_le(s.drop_last(), k);
        lemma_digits_val_nonneg(s.drop_last());
        assert(is_digit(s[s.len() - 1]));
    }
}

/// The first position at or after `from` where `s` holds a colon, or
/// `s.len()` if there is none.
pub open spec fn colon_pos(s: Seq<u8>, from: int) -> int
    decreases s.len() - from,
{
    if !(0 <= from < s.len()) {
        s.len() as int
    } else if s[from] == COLON {
        from
    } else {
        colon_pos(s, from + 1)
    }
}

/// Addition clamped from above at `usize::MAX`.
pub open spec fn sat_add(a: int, b: int) -> int {
    if a + b > usize::MAX {
        usize::MAX as int
    } else {
        a + b
    }
}

/// Subtraction clamped from below at zero.
pub open spec fn sat_sub(a: int, b: int) -> int {
    if a - b < 0 {
        0
    } else {
        a - b
    }
}

/// What parsing a slice specification yields: the range, or the first
/// field-scoped error, checking the start field, then the end field, then
/// the step field.
pub open spec fn spec_parse(s: Seq<u8>) -> Result<SliceRange, SpecParseErrorView> {
    if s.len() == 0 {
        Err(SpecParseErrorView::MissingStart)
    } else {
        let c1 = colon_pos(s, 0);
        let f1 = s.take(c1);
        if f1.len() > 0 && !valid_number(f1) {
            Err(SpecParseErrorView::InvalidStart(f1))
        } else {
            let start0 = if f1.len() == 0 {
                0
            } else {
                number_val(f1)
            };
            if c1 == s.len() {
                Ok(SliceRange { start: start0 as usize, end: usize::MAX, step: None })
            } else {
                spec_parse_end(s, c1, start0)
            }
        }
    }
}

/// The end field begins after the first colon, at `c1 + 1`.
pub open spec fn spec_parse_end(s: Seq<u8>, c1: int, start0: int) -> Result<
    SliceRange,
    SpecParseErrorView,
> {
    let c2 = colon_pos(s, c1 + 1);
    let f2 = s.subrange(c1 + 1, c2);
    if f2.len() >= 2 && f2[0] == PLUS && f2[1] == MINUS {
        let rest = f2.skip(2);
        if rest.len() > 0 && !valid_number(rest) {
            Err(SpecParseErrorView::InvalidEnd(f2))
        } else {
            let n = if rest.len() == 0 {
                usize::MAX as int
            } else {
                number_val(rest)
            };
            spec_parse_step(s, c2, sat_sub(start0, n), sat_add(start0, n))
        }
    } else if f2.len() >= 1 && f2[0] == PLUS {
        let rest = f2.skip(1);
        if rest.len() > 0 && !valid_number(rest) {
            Err(SpecParseErrorView::InvalidEnd(f2))
        } else {
            let n = if rest.len() == 0 {
                usize::MAX as int
            } else {
                number_val(rest)
            };
            spec_parse_step(s, c2, start0, sat_add(start0, n))
        }
    } else if f2.len() > 0 && !valid_number(f2) {
        Err(SpecParseErrorView::InvalidEnd(f2))
    } else {
        let end = if f2.len() == 0 {
            usize::MAX as int
        } else {
            number_val(f2)
        };
        spec_parse_step(s, c2, start0, end)
    }
}

/// The step field begins after the second colon, at `c2 + 1`; when `c2` is
/// the end of the string there is no step field at all.
pub open spec fn spec_parse_step(s: Seq<u8>, c2: int, start: int, end: int) -> Result<
    SliceRange,
    SpecParseErrorView,
> {
    if c2 == s.len() {
        Ok(SliceRange { start: start as usize, end: end as usize, step: None })
    } else {
        let c3 = colon_pos(s, c2 + 1);
        let f3 = s.subrange(c2 + 1, c3);
        if f3.len() == 0 {
            Ok(SliceRange { start: start as usize, end: end as usize, step: Some(1) })
        } else if !valid_number(f3) || number_val(f3) == 0 {
            Err(SpecParseErrorView::InvalidStep(f3))
        } else {
            Ok(
                SliceRange {
                    start: start as usize,
                    end: end as usize,
                    step: Some(number_val(f3) as usize),
                },
            )
        }
    }
}

/// Every successfully parsed range is well formed: its bounds are
/// non-negative machine integers and its effective step is at least 1.
pub proof fn lemma_parse_wf(s: Seq<u8>)
    ensures
        spec_parse(s) matches Ok(v) ==> v.wf() && v.step_or_one() >= 1,
{
    let c1 = colon_pos(s, 0);
    if s.len() > 0 && c1 != s.len() {
        let c2 = colon_pos(s, c1 + 1);
        if c2 != s.len() {
            let c3 = colon_pos(s, c2 + 1);
            let f3 = s.subrange(c2 + 1, c3);
            if f3.len() > 0 && valid_number(f3) {
                lemma_digits_val_nonneg(strip_plus(f3));
            }
        }
    }
}

pub(crate) fn copy_range(b: &[u8], lo: usize, hi: usize) -> (out: Vec<u8>)
    requires
        lo <= hi <= b@.len(),
    ensures
        out@ == b@.subrange(lo as int, hi as int),
{
    let sub: &[u8] = slice_subrange(b, lo, hi);
    slice_to_vec(sub)
}

fn find_colon(b: &[u8], from: usize) -> (r: usize)
    requires
        from <= b@.len(),
    ensures
        r == colon_pos(b@, from as int),
        from <= r <= b@.len(),
        r < b@.len() ==> b@[r as int] == COLON,
{
    let n: usize = b.len();
    let mut i: usize = from;
    while i < n && b[i] != COLON
        invariant
            from <= i <= n,
            n == b@.len(),
            colon_pos(b@, from as int) == colon_pos(b@, i as int),
        decreases n - i,
    {
        i = i + 1;
    }
    i
}

/// Parses the number in `b[lo..hi]`: an optional leading `+`, then at least
/// one decimal digit, with a value that fits in `usize`.
fn parse_number(b: &[u8], lo: usize, hi: usize) -> (r: Option<usize>)
    requires
        lo <= hi <= b@.len(),
    ensures
        match r {
            Some(v) => valid_number(b@.subrange(lo as int, hi as int)) && v == number_val(
                b@.subrange(lo as int, hi as int),
            ),
            None => !valid_number(b@.subrange(lo as int, hi as int)),
        },
{
    let ghost sub = b@.subrange(lo as int, hi as int);
    let mut i: usize = lo;
    if i < hi && b[i] == PLUS {
        i = i + 1;
    }
    let d0: usize = i;
    let ghost digits = b@.subrange(d0 as int, hi as int);
    proof {
        assert(strip_plus(sub) =~= digits);
    }
    if i == hi {
        return None;
    }
    let mut acc: usize = 0;
    while i < hi
        invariant
            lo <= d0 <= i <= hi <= b@.len(),
            sub == b@.subrange(lo as int, hi as int),
            digits == b@.subrange(d0 as int, hi as int),
            strip_plus(sub) == digits,
            digits.len() > 0,
            all_digits(b@.subrange(d0 as int, i as int)),
            acc == digits_val(b@.subrange(d0 as int, i as int)),
        decreases hi - i,
    {
        let c: u8 = b[i];
        if c < 48 || c > 57 {
            proof {
                assert(digits[i - d0] == c);
                assert(!all_digits(digits));
            }
            return None;
        }
        let dv: usize = (c - 48) as usize;
        let q: usize = (usize::MAX - dv) / 10;
        if acc > q {
            proof {
                let done = b@.subrange(d0 as int, i as int);
                let next = b@.subrange(d0 as int, i + 1);
                assert(next.drop_last() =~= done);
                assert(next.last() == c);
                assert(10 * q <= usize::MAX - dv < 10 * (q + 1));
                assert(digits_val(next) == 10 * acc + dv);
                assert(digits_val(next) > usize::MAX);
                if all_digits(digits) {
                    assert(digits.take(i + 1 - d0) =~= next);
                    lemma_digits_val_take_le(digits, i + 1 - d0);
                }
            }
            return None;
        }
        proof {
            assert(10 * q <= usize::MAX - dv < 10 * (q + 1));
            let done = b@.subrange(d0 as int, i as int);
            let next = b@.subrange(d0 as int, i + 1);
            assert(next.drop_last() =~= done);
            assert(next.last() == c);
            assert(forall|j: int| 0 <= j < done.len() ==> next[j] == done[j]);
        }
        acc = acc * 10 + dv;
        i = i + 1;
    }
    proof {
        assert(b@.subrange(d0 as int, i as int) =~= digits);
    }
    Some(acc)
}

fn sat_add_usize(a: usize, b: usize) -> (r: usize)
    ensures
        r as int == sat_add(a as int, b as int),
{
    if a > usize::MAX - b {
        usize::MAX
    } else {
        a + b
    }
}

fn sat_sub_usize(a: usize, b: usize) -> (r: usize)
    ensures
        r as int == sat_sub(a as int, b as int),
{
    if b > a {
        0
    } else {
        a - b
    }
}

impl SliceRange {
    /// Parses a slice specification.
    ///
    /// The result is exactly what [`spec_parse`] says of the string's bytes:
    /// the first of up to three colon-separated fields is the start (default
    /// 0), the second the end (default unbounded; `+N` and `+-N` set it
    /// relative to the start, clamped at zero and saturated at
    /// `usize::MAX`), the third the step (default 1).  A string without any
    /// colon is a start field alone.  The empty string, a start or end field
    /// that is not a non-negative integer, and a step field that is not a
    /// positive integer are each rejected, naming the field that failed.
    pub fn from_str(s: &str) -> (r: Result<SliceRange, SpecParseError>)
        ensures
            match r {
                Ok(v) => spec_parse(s.spec_bytes()) == Ok::<SliceRange, SpecParseErrorView>(v),
                Err(e) => spec_parse(s.spec_bytes()) == Err::<SliceRange, SpecParseErrorView>(e@),
            },
            r matches Ok(v) ==> v.wf(),
    {
        let b: &[u8] = s.as_bytes();
        let n: usize = b.len();
        if n == 0 {
            return Err(SpecParseError::MissingStart);
        }
        let c1: usize = find_colon(b, 0);
        let ghost f1 = b@.take(c1 as int);
        proof {
            assert(f1 =~= b@.subrange(0, c1 as int));
        }
        let start0: usize = if c1 == 0 {
            0
        } else {
            match parse_number(b, 0, c1) {
                Some(v) => v,
                None => {
                    return Err(SpecParseError::InvalidStart(copy_range(b, 0, c1)));
                },
            }
        };
        if c1 == n {
            return Ok(SliceRange { start: start0, end: usize::MAX, step: None });
        }
        let c2: usize = find_colon(b, c1 + 1);
        let f2lo: usize = c1 + 1;
        let ghost f2 = b@.subrange(f2lo as int, c2 as int);
        let start: usize;
        let end: usize;
        if c2 - f2lo >= 2 && b[f2lo] == PLUS && b[f2lo + 1] == MINUS {
            proof {
                assert(f2.skip(2) =~= b@.subrange(f2lo + 2, c2 as int));
            }
            let nval: usize = if f2lo + 2 == c2 {
                usize::MAX
            } else {
                match parse_number(b, f2lo + 2, c2) {
                    Some(v) => v,
                    None => {
                        return Err(SpecParseError::InvalidEnd(copy_range(b, f2lo, c2)));
                    },
                }
            };
            start = sat_sub_usize(start0, nval);
            end = sat_add_usize(start0, nval);
        } else if c2 - f2lo >= 1 && b[f2lo] == PLUS {
            proof {
                assert(f2.skip(1) =~= b@.subrange(f2lo + 1, c2 as int));
            }
            let nval: usize = if f2lo + 1 == c2 {
                usize::MAX
            } else {
                match parse_number(b, f2lo + 1, c2) {
                    Some(v) => v,
                    None => {
                        return Err(SpecParseError::InvalidEnd(copy_range(b, f2lo, c2)));
                    },
                }
            };
            start = start0;
            end = sat_add_usize(start0, nval);
        } else if f2lo == c2 {
            start = start0;
            end = usize::MAX;
        } else {
            match parse_number(b, f2lo, c2) {
                Some(v) => {
                    start = start0;
                    end = v;
                },
                None => {
                    return Err(SpecParseError::InvalidEnd(copy_range(b, f2lo, c2)));
                },
            }
        }
        let step: Option<usize>;
        if c2 == n {
            step = None;
        } else {
            let c3: usize = find_colon(b, c2 + 1);
            let ghost f3 = b@.subrange(c2 + 1, c3 as int);
            if c2 + 1 == c3 {
                step = Some(1);
            } else {
                match parse_number(b, c2 + 1, c3) {
                    Some(v) => {
                        if v == 0 {
                            return Err(SpecParseError::InvalidStep(copy_range(b, c2 + 1, c3)));
                        }
                        step = Some(v);
                    },
                    None => {
                        return Err(SpecParseError::InvalidStep(copy_range(b, c2 + 1, c3)));
                    },
                }
            }
        }
        Ok(SliceRange { start, end, step })
    }
}

} // verus!

