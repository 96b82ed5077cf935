//! The three slicing modes and the multi-target driver.
//!
//! A mode is just a choice of delimiter for the token model: line mode cuts
//! after each line feed, character mode makes every byte a token, and
//! delimiter mode cuts after a caller-chosen byte string.  The driver runs
//! one segmenter-plus-engine pass per target, each restarting at token
//! index 0, and can put a `==> name <==` header line before each target's
//! output when several targets are shown together.

use vstd::prelude::*;
use vstd::slice::{slice_index_get, slice_to_vec};
use crate::engine::Slice;
use crate::range::SliceRange;
use crate::segment::Segmenter;
use crate::tokens::{
    lemma_exact_count_identity, lemma_full_range_identity, line_delim, select_from, tokens,
    LINE_FEED,
};

verus! {

/// How the input splits into tokens.
pub enum Mode {
    /// Each line, with its terminator when present, is a token.
    Lines,
    /// Each single byte is a token.
    Characters,
    /// Each segment up to and including the delimiter is a token; an empty
    /// delimiter degrades to single-byte tokens.
    Delimiter(Vec<u8>),
}

/// The delimiter a mode cuts tokens by.
pub open spec fn mode_delim(m: Mode) -> Seq<u8> {
    match m {
        Mode::Lines => line_delim(),
        Mode::Characters => Seq::empty(),
        Mode::Delimiter(d) => d@,
    }
}

/// Picks the mode from the flags, character mode taking precedence over
/// delimiter mode, which takes precedence over line mode.
pub fn select_mode(characters: bool, delimiter: Option<Vec<u8>>) -> (m: Mode)
    ensures
        (m is Characters) == characters,
        !characters ==> ((m is Delimiter) <==> delimiter is Some),
        mode_delim(m) == (if characters {
            Seq::<u8>::empty()
        } else {
            match delimiter {
                Some(d) => d@,
                None => line_delim(),
            }
        }),
{
    if characters {
        Mode::Characters
    } else {
        match delimiter {
            Some(d) => Mode::Delimiter(d),
            None => Mode::Lines,
        }
    }
}

/// Builds the delimiter a mode cuts tokens by.
pub fn mode_delimiter(mode: &Mode) -> (d: Vec<u8>)
    ensures
        d@ == mode_delim(*mode),
{
    match mode {
        Mode::Lines => {
            let mut v: Vec<u8> = Vec::new();
            v.push(LINE_FEED);
            proof {
                assert(v@ =~= line_delim());
            }
            v
        },
        Mode::Characters => {
            let v: Vec<u8> = Vec::new();
            proof {
                assert(v@ =~= Seq::<u8>::empty());
            }
            v
        },
        Mode::Delimiter(x) => slice_to_vec(x.as_slice()),
    }
}

/// The bytes a slice keeps of an input, under delimiter `d`: the selected
/// tokens, concatenated in order.
pub open spec fn slice_output(s: Seq<u8>, d: Seq<u8>, r: SliceRange) -> Seq<u8> {
    select_from(tokens(s, d), r.start as int, r.end as int, r.step_or_one(), 0).flatten()
}

/// Drains a token stream through the slice engine, collecting the selected
/// tokens' bytes.
pub fn run_slice(seg: Segmenter, range: &SliceRange) -> (out: Vec<u8>)
    requires
        seg.wf(),
        range.wf(),
    ensures
        out@ == slice_output(seg.remaining(), seg.delim(), *range),
{
    let mut sl: Slice = Slice::new(seg, range.start, range.end, range.step);
    let ghost total = sl.pending();
    let ghost mut done: Seq<Seq<u8>> = Seq::empty();
    let mut out: Vec<u8> = Vec::new();
    proof {
        assert(Seq::<Seq<u8>>::empty().flatten() =~= Seq::<u8>::empty());
        assert(done + sl.pending() =~= total);
    }
    loop
        invariant
            sl.wf(),
            done + sl.pending() == total,
            out@ == done.flatten(),
        ensures
            sl.pending().len() == 0,
            done + sl.pending() == total,
            out@ == done.flatten(),
        decreases sl.pending().len(),
    {
        match sl.next() {
            None => {
                proof {
                    assert(done + sl.pending() =~= total);
                }
                break;
            },
            Some(mut t) => {
                let ghost tv = t@;
                out.append(&mut t);
                proof {
                    done.lemma_flatten_push(tv);
                    done = done.push(tv);
                    assert(done + sl.pending() =~= total);
                }
            },
        }
    }
    proof {
        assert(done =~= total);
    }
    out
}

/// Slices the lines of `input`: each token is a line with its terminator,
/// except possibly an unterminated last line.
pub fn line_mode(input: &[u8], range: &SliceRange) -> (out: Vec<u8>)
    requires
        range.wf(),
    ensures
        out@ == slice_output(input@, line_delim(), *range),
{
    run_slice(Segmenter::lines(slice_to_vec(input)), range)
}

/// Slices the single bytes of `input`.
pub fn character_mode(input: &[u8], range: &SliceRange) -> (out: Vec<u8>)
    requires
        range.wf(),
    ensures
        out@ == slice_output(input@, Seq::<u8>::empty(), *range),
{
    run_slice(Segmenter::bytes(slice_to_vec(input)), range)
}

/// Slices the delimited segments of `input`: each token runs up to and
/// including the next occurrence of `delimiter`, and the stream's tail is a
/// final token.  An empty delimiter degrades to single-byte tokens.
pub fn delimit_mode(input: &[u8], delimiter: &[u8], range: &SliceRange) -> (out: Vec<u8>)
    requires
        range.wf(),
    ensures
        out@ == slice_output(input@, delimiter@, *range),
{
    run_slice(Segmenter::delimited(slice_to_vec(input), slice_to_vec(delimiter)), range)
}

/// Slices `input` in whatever mode is selected.
pub fn run_mode(mode: &Mode, input: &[u8], range: &SliceRange) -> (out: Vec<u8>)
    requires
        range.wf(),
    ensures
        out@ == slice_output(input@, mode_delim(*mode), *range),
{
    match mode {
        Mode::Lines => line_mode(input, range),
        Mode::Characters => character_mode(input, range),
        Mode::Delimiter(del) => delimit_mode(input, del.as_slice(), range),
    }
}

/// A full-default slice — start 0, unbounded end, step 1, as the
/// specification `::` parses to — reproduces the input byte for byte in
/// every mode.
pub proof fn lemma_full_default_identity(s: Seq<u8>, d: Seq<u8>, r: SliceRange)
    requires
        r.start == 0,
        r.end == usize::MAX,
        r.step_or_one() == 1,
        s.len() <= usize::MAX,
    ensures
        slice_output(s, d, r) == s,
{
    lemma_full_range_identity(s, d);
}

/// A bounded slice `0 : end : 1` whose `end` equals the exact token count
/// also reproduces the input byte for byte in every mode.
pub proof fn lemma_exact_bound_identity(s: Seq<u8>, d: Seq<u8>, r: SliceRange)
    requires
        r.start == 0,
        r.end as int == tokens(s, d).len(),
        r.step_or_one() == 1,
    ensures
        slice_output(s, d, r) == s,
{
    lemma_exact_count_identity(s, d);
}

/// One input to slice, with the display name its header line shows.
pub struct Target {
    pub name: Vec<u8>,
    pub data: Vec<u8>,
}

/// The header line written before a target's output: `==> name <==` and a
/// line terminator.
pub open spec fn header_bytes(name: Seq<u8>) -> Seq<u8> {
    seq![61u8, 61u8, 62u8, 32u8] + name + seq![32u8, 60u8, 61u8, 61u8, LINE_FEED]
}

/// Builds the header line for a display name.
pub fn header_line(name: &[u8]) -> (out: Vec<u8>)
    ensures
        out@ == header_bytes(name@),
{
    let mut out: Vec<u8> = Vec::new();
    out.push(61);
    out.push(61);
    out.push(62);
    out.push(32);
    let ghost lead = seq![61u8, 61u8, 62u8, 32u8];
    proof {
        assert(out@ =~= lead + name@.take(0));
    }
    let n: usize = name.len();
    let mut j: usize = 0;
    while j < n
        invariant
            j <= n,
            n == name@.len(),
            out@ == lead + name@.take(j as int),
        decreases n - j,
    {
        let b: u8 = name[j];
        out.push(b);
        j = j + 1;
        proof {
            assert(out@ =~= lead + name@.take(j as int));
        }
    }
    out.push(32);
    out.push(60);
    out.push(61);
    out.push(61);
    out.push(LINE_FEED);
    proof {
        assert(name@.take(name@.len() as int) =~= name@);
        assert(out@ =~= header_bytes(name@));
    }
    out
}

/// What one target contributes to the combined output.
pub open spec fn target_chunk(t: Target, d: Seq<u8>, r: SliceRange, header: bool) -> Seq<u8> {
    (if header {
        header_bytes(t.name@)
    } else {
        Seq::<u8>::empty()
    }) + slice_output(t.data@, d, r)
}

/// The combined output of slicing every target in order.
pub open spec fn multi_output(ts: Seq<Target>, d: Seq<u8>, r: SliceRange, header: bool) -> Seq<u8>
    decreases ts.len(),
{
    if ts.len() == 0 {
        Seq::<u8>::empty()
    } else {
        multi_output(ts.drop_last(), d, r, header) + target_chunk(ts.last(), d, r, header)
    }
}

/// Whether a run over `target_count` explicitly named targets shows
/// headers: only when there are at least two and the quiet flag is off.
pub fn show_headers(target_count: usize, quiet: bool) -> (r: bool)
    ensures
        r == (target_count >= 2 && !quiet),
{
    target_count >= 2 && !quiet
}

/// Slices every target in order into one combined output, each target's
/// token indices restarting at 0, optionally preceded by its header line.
pub fn multi(targets: &Vec<Target>, mode: &Mode, range: &SliceRange, print_header: bool) -> (out:
    Vec<u8>)
    requires
        range.wf(),
    ensures
        out@ == multi_output(targets@, mode_delim(*mode), *range, print_header),
{
    let mut out: Vec<u8> = Vec::new();
    let n: usize = targets.len();
    proof {
        assert(targets@.take(0) =~= Seq::<Target>::empty());
    }
    let mut i: usize = 0;
    while i < n
        invariant
            i <= n,
            n == targets@.len(),
            range.wf(),
            out@ == multi_output(targets@.take(i as int), mode_delim(*mode), *range, print_header),
        decreases n - i,
    {
        let t: &Target = slice_index_get(targets.as_slice(), i);
        if print_header {
            let mut h: Vec<u8> = header_line(t.name.as_slice());
            out.append(&mut h);
        }
        let mut piece: Vec<u8> = run_mode(mode, t.data.as_slice(), range);
        out.append(&mut piece);
        i = i + 1;
        proof {
            assert(targets@.take(i as int).drop_last() =~= targets@.take(i - 1));
            assert(targets@.take(i as int).last() == targets@[i - 1]);
            assert(out@ =~= multi_output(
                targets@.take(i as int),
                mode_delim(*mode),
                *range,
                print_header,
            ));
        }
    }
    proof {
        assert(targets@.take(targets@.len() as int) =~= targets@);
    }
    out
}

/// Runs a whole invocation over explicitly named targets: headers appear
/// only when at least two targets are named and the quiet flag is off, so a
/// single target never shows a header.
pub fn run(targets: &Vec<Target>, mode: &Mode, range: &SliceRange, quiet: bool) -> (out: Vec<u8>)
    requires
        range.wf(),
    ensures
        out@ == multi_output(
            targets@,
            mode_delim(*mode),
            *range,
            targets@.len() >= 2 && !quiet,
        ),
{
    let header: bool = show_headers(targets.len(), quiet);
    multi(targets, mode, range, header)
}

} // verus!
