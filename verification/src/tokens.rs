//! The mathematical model of tokenization and slicing.
//!
//! A byte sequence splits into tokens relative to a delimiter `d`: each token
//! is the shortest non-empty prefix of what is left that ends with `d`, and
//! the final token may instead run to the end of the input when no further
//! delimiter occurs.  An empty delimiter makes every single byte a token, and
//! a delimiter of just a line feed gives exactly the lines of the input (each
//! with its terminator, except possibly the last).
//!
//! A slice `(start, end, step)` then keeps the tokens whose 0-based index `i`
//! satisfies `start <= i < end` and `(i - start) % step == 0`.

use vstd::prelude::*;

verus! {

/// The byte that closes a token in line mode.
pub const LINE_FEED: u8 = 10;

/// The delimiter that line mode segments by.
pub open spec fn line_delim() -> Seq<u8> {
    seq![LINE_FEED]
}

/// The position just after the first occurrence of `d` that ends at or after
/// position `p` in `s`, or `s.len()` if there is none.  Positions count bytes
/// from the start of `s`; the search begins with the candidate end `p`.
pub open spec fn delim_pos(s: Seq<u8>, d: Seq<u8>, p: int) -> int
    decreases s.len() - p + 1,
{
    if p > s.len() {
        s.len() as int
    } else if 1 <= p && d.len() <= p && s.subrange(p - d.len(), p) == d {
        p
    } else {
        delim_pos(s, d, p + 1)
    }
}

/// The length of the first token of a non-empty `s`, segmenting by `d`.
pub open spec fn token_len(s: Seq<u8>, d: Seq<u8>) -> int {
    delim_pos(s, d, 1)
}

/// `delim_pos` stays between its starting candidate and the end of `s`.
pub proof fn lemma_delim_pos_bounds(s: Seq<u8>, d: Seq<u8>, p: int)
    requires
        1 <= p,
    ensures
        delim_pos(s, d, p) <= s.len(),
        p <= s.len() ==> p <= delim_pos(s, d, p),
        p > s.len() ==> delim_pos(s, d, p) == s.len(),
    decreases s.len() - p + 1,
{
    if p <= s.len() && !(1 <= p && d.len() <= p && s.subrange(p - d.len(), p) == d) {
        lemma_delim_pos_bounds(s, d, p + 1);
    }
}

/// Every token of a non-empty input takes at least one byte and at most all
/// of them.
pub proof fn lemma_token_len_bounds(s: Seq<u8>, d: Seq<u8>)
    requires
        s.len() > 0,
    ensures
        1 <= token_len(s, d) <= s.len(),
{
    lemma_delim_pos_bounds(s, d, 1);
}

/// The tokens of `s`, segmenting by `d`, in stream order.
pub open spec fn tokens(s: Seq<u8>, d: Seq<u8>) -> Seq<Seq<u8>>
    decreases s.len(),
    via tokens_decreases
{
    if s.len() == 0 {
        Seq::empty()
    } else {
        seq![s.take(token_len(s, d))] + tokens(s.skip(token_len(s, d)), d)
    }
}

#[via_fn]
proof fn tokens_decreases(s: Seq<u8>, d: Seq<u8>) {
    if s.len() > 0 {
        lemma_token_len_bounds(s, d);
    }
}

/// There are never more tokens than input bytes.
pub proof fn lemma_tokens_count(s: Seq<u8>, d: Seq<u8>)
    ensures
        tokens(s, d).len() <= s.len(),
    decreases s.len(),
{
    if s.len() > 0 {
        lemma_token_len_bounds(s, d);
        lemma_tokens_count(s.skip(token_len(s, d)), d);
    }
}

/// Segmentation loses nothing and invents nothing: concatenating all tokens
/// gives back the input, byte for byte.
pub proof fn lemma_tokens_flatten(s: Seq<u8>, d: Seq<u8>)
    ensures
        tokens(s, d).flatten() == s,
    decreases s.len(),
{
    if s.len() == 0 {
        assert(tokens(s, d).flatten() =~= s);
    } else {
        let l = token_len(s, d);
        lemma_token_len_bounds(s, d);
        let head = s.take(l);
        let rest = tokens(s.skip(l), d);
        lemma_tokens_flatten(s.skip(l), d);
        assert((seq![head] + rest).first() == head);
        assert((seq![head] + rest).drop_first() =~= rest);
        assert(tokens(s, d).flatten() == head + rest.flatten());
        assert(head + s.skip(l) =~= s);
    }
}

/// Whether a delimiter occurrence ends exactly at position `p` of `s`.
pub open spec fn match_at(s: Seq<u8>, d: Seq<u8>, p: int) -> bool {
    1 <= p <= s.len() && d.len() <= p && s.subrange(p - d.len(), p) == d
}

/// Whether the first token of `s` is already complete: some delimiter
/// occurrence ends within `s`, so no bytes that arrive later can change
/// where the first token ends.
pub open spec fn has_complete_token(s: Seq<u8>, d: Seq<u8>) -> bool {
    exists|p: int| match_at(s, d, p)
}

proof fn lemma_delim_pos_stable(s: Seq<u8>, e: Seq<u8>, d: Seq<u8>, q: int)
    requires
        1 <= q,
        exists|p: int| q <= p && match_at(s, d, p),
    ensures
        delim_pos(s + e, d, q) == delim_pos(s, d, q),
        match_at(s, d, delim_pos(s, d, q)),
    decreases s.len() - q + 1,
{
    let p = choose|p: int| q <= p && match_at(s, d, p);
    assert(q <= s.len());
    if 1 <= q && d.len() <= q && s.subrange(q - d.len(), q) == d {
        assert((s + e).subrange(q - d.len(), q) =~= s.subrange(q - d.len(), q));
        assert(match_at(s, d, q));
    } else {
        if d.len() <= q {
            assert((s + e).subrange(q - d.len(), q) =~= s.subrange(q - d.len(), q));
        }
        assert(p >= q + 1);
        lemma_delim_pos_stable(s, e, d, q + 1);
    }
}

/// Once the first token of `s` is complete, extending `s` moves neither its
/// end nor, therefore, its bytes.
pub proof fn lemma_token_len_stable(s: Seq<u8>, e: Seq<u8>, d: Seq<u8>)
    requires
        has_complete_token(s, d),
    ensures
        token_len(s + e, d) == token_len(s, d),
        match_at(s, d, token_len(s, d)),
{
    let p = choose|p: int| match_at(s, d, p);
    assert(1 <= p && match_at(s, d, p));
    lemma_delim_pos_stable(s, e, d, 1);
}

/// Whether a slice keeps the token at index `i`.
pub open spec fn selected(i: int, start: int, end: int, step: int) -> bool {
    start <= i < end && (i - start) % step == 0
}

/// The tokens of `toks` that the slice keeps, in order, where the first
/// element of `toks` sits at index `base` of the original token stream.
pub open spec fn select_from(
    toks: Seq<Seq<u8>>,
    start: int,
    end: int,
    step: int,
    base: int,
) -> Seq<Seq<u8>>
    decreases toks.len(),
{
    if toks.len() == 0 {
        Seq::empty()
    } else if selected(base, start, end, step) {
        seq![toks.first()] + select_from(toks.drop_first(), start, end, step, base + 1)
    } else {
        select_from(toks.drop_first(), start, end, step, base + 1)
    }
}

/// Past the end bound nothing further is ever selected.
pub proof fn lemma_select_from_done(
    toks: Seq<Seq<u8>>,
    start: int,
    end: int,
    step: int,
    base: int,
)
    requires
        base >= end,
    ensures
        select_from(toks, start, end, step, base) == Seq::<Seq<u8>>::empty(),
    decreases toks.len(),
{
    if toks.len() > 0 {
        lemma_select_from_done(toks.drop_first(), start, end, step, base + 1);
    }
}

/// A slice that starts at or before the window, ends at or after it, and
/// steps by one keeps every token.
pub proof fn lemma_select_from_all(
    toks: Seq<Seq<u8>>,
    start: int,
    end: int,
    base: int,
)
    requires
        start <= base,
        base + toks.len() <= end,
    ensures
        select_from(toks, start, end, 1, base) == toks,
    decreases toks.len(),
{
    if toks.len() == 0 {
        assert(select_from(toks, start, end, 1, base) =~= toks);
    } else {
        lemma_select_from_all(toks.drop_first(), start, end, base + 1);
        assert(selected(base, start, end, 1));
        assert(select_from(toks, start, end, 1, base) =~= toks);
    }
}

/// The indices in `[base, base + n)` that the slice keeps, in increasing
/// order.
pub open spec fn selected_indices(n: int, start: int, end: int, step: int, base: int) -> Seq<int>
    decreases n,
{
    if n <= 0 {
        Seq::empty()
    } else if selected(base, start, end, step) {
        seq![base] + selected_indices(n - 1, start, end, step, base + 1)
    } else {
        selected_indices(n - 1, start, end, step, base + 1)
    }
}

/// The selected indices are exactly the set
/// `{ i | base <= i < base + n and selected(i, start, end, step) }`.
pub proof fn lemma_selected_indices_membership(
    n: int,
    start: int,
    end: int,
    step: int,
    base: int,
)
    ensures
        forall|i: int|
            #[trigger] selected_indices(n, start, end, step, base).contains(i) <==> (base <= i
                < base + n && selected(i, start, end, step)),
    decreases n,
{
    let s = selected_indices(n, start, end, step, base);
    if n <= 0 {
        assert(forall|i: int| !(#[trigger] s.contains(i)));
    } else {
        let rest = selected_indices(n - 1, start, end, step, base + 1);
        lemma_selected_indices_membership(n - 1, start, end, step, base + 1);
        assert forall|i: int| #[trigger] s.contains(i) implies (base <= i < base + n && selected(
            i,
            start,
            end,
            step,
        )) by {
            let j = choose|j: int| 0 <= j < s.len() && s[j] == i;
            if selected(base, start, end, step) {
                if j > 0 {
                    assert(rest[j - 1] == i);
                    assert(rest.contains(i));
                }
            } else {
                assert(rest[j] == i);
                assert(rest.contains(i));
            }
        }
        assert forall|i: int|
            (base <= i < base + n && selected(i, start, end, step)) implies #[trigger] s.contains(
            i,
        ) by {
            if i == base {
                assert(s[0] == i);
            } else {
                assert(rest.contains(i));
                let j = choose|j: int| 0 <= j < rest.len() && rest[j] == i;
                if selected(base, start, end, step) {
                    assert(s[j + 1] == i);
                } else {
                    assert(s[j] == i);
                }
            }
        }
    }
}

/// What the slice keeps is exactly the original tokens at the selected
/// indices, in index order.
pub proof fn lemma_select_from_indices(
    toks: Seq<Seq<u8>>,
    start: int,
    end: int,
    step: int,
    base: int,
)
    ensures
        select_from(toks, start, end, step, base) == selected_indices(
            toks.len() as int,
            start,
            end,
            step,
            base,
        ).map_values(|i: int| toks[i - base]),
    decreases toks.len(),
{
    let f = |i: int| toks[i - base];
    let idx = selected_indices(toks.len() as int, start, end, step, base);
    if toks.len() == 0 {
        assert(select_from(toks, start, end, step, base) =~= idx.map_values(f));
    } else {
        let dtoks = toks.drop_first();
        let g = |i: int| dtoks[i - (base + 1)];
        let rest_idx = selected_indices(toks.len() - 1, start, end, step, base + 1);
        lemma_select_from_indices(dtoks, start, end, step, base + 1);
        lemma_selected_indices_membership(toks.len() - 1, start, end, step, base + 1);
        assert(rest_idx.map_values(g) =~= rest_idx.map_values(f)) by {
            assert forall|j: int| 0 <= j < rest_idx.len() implies rest_idx.map_values(g)[j]
                == rest_idx.map_values(f)[j] by {
                let i = rest_idx[j];
                assert(rest_idx.contains(i));
                assert(dtoks[i - (base + 1)] == toks[i - base]);
            }
        }
        if selected(base, start, end, step) {
            assert(idx == seq![base] + rest_idx);
            assert(select_from(toks, start, end, step, base) =~= idx.map_values(f)) by {
                assert(idx.map_values(f)[0] == toks.first());
                assert(forall|j: int|
                    0 <= j < rest_idx.len() ==> idx.map_values(f)[j + 1] == rest_idx.map_values(
                        f,
                    )[j]);
            }
        } else {
            assert(idx == rest_idx);
            assert(select_from(toks, start, end, step, base) =~= idx.map_values(f));
        }
    }
}

/// Index law: slicing a token stream keeps exactly the tokens whose index
/// `i` satisfies `start <= i < end` and `(i - start) % step == 0`, each in
/// its original order.
pub proof fn lemma_slice_index_law(toks: Seq<Seq<u8>>, start: int, end: int, step: int)
    requires
        step >= 1,
    ensures
        select_from(toks, start, end, step, 0) == selected_indices(
            toks.len() as int,
            start,
            end,
            step,
            0,
        ).map_values(|i: int| toks[i]),
        forall|i: int|
            #[trigger] selected_indices(toks.len() as int, start, end, step, 0).contains(i) <==> (0
                <= i < toks.len() && selected(i, start, end, step)),
{
    lemma_select_from_indices(toks, start, end, step, 0);
    lemma_selected_indices_membership(toks.len() as int, start, end, step, 0);
    assert(selected_indices(toks.len() as int, start, end, step, 0).map_values(|i: int| toks[i - 0])
        =~= selected_indices(toks.len() as int, start, end, step, 0).map_values(|i: int| toks[i]));
}

/// A full-default slice (`start` 0, unbounded `end`, `step` 1) reproduces
/// the input byte for byte, whatever the delimiter.
pub proof fn lemma_full_range_identity(s: Seq<u8>, d: Seq<u8>)
    requires
        s.len() <= usize::MAX,
    ensures
        select_from(tokens(s, d), 0, usize::MAX as int, 1, 0).flatten() == s,
{
    lemma_tokens_count(s, d);
    lemma_select_from_all(tokens(s, d), 0, usize::MAX as int, 0);
    lemma_tokens_flatten(s, d);
}

/// A slice `0 : count : 1` whose `end` is the exact token count also
/// reproduces the input byte for byte.
pub proof fn lemma_exact_count_identity(s: Seq<u8>, d: Seq<u8>)
    ensures
        select_from(tokens(s, d), 0, tokens(s, d).len() as int, 1, 0).flatten() == s,
{
    lemma_select_from_all(tokens(s, d), 0, tokens(s, d).len() as int, 0);
    lemma_tokens_flatten(s, d);
}

} // verus!
