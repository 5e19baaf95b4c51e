//! What it means for weighted patterns to occur in a text, stated without any
//! reference to how occurrences are found.

use vstd::arithmetic::div_mod::{
    lemma_fundamental_div_mod, lemma_mod_bound, lemma_mod_multiples_vanish, lemma_small_mod,
};
use vstd::prelude::*;

verus! {

/// A weighted pattern: its symbols, the index it was registered under, and
/// its weight.
pub ghost struct Pattern {
    pub symbols: Seq<char>,
    pub index: usize,
    pub weight: i64,
}

/// `p` occurs in `text` starting at offset `k`.
pub open spec fn occurs_at(p: Seq<char>, text: Seq<char>, k: int) -> bool {
    0 <= k && k + p.len() <= text.len() && text.subrange(k, k + p.len()) == p
}

/// `p` occurs in `text` ending just before offset `j`.
pub open spec fn ends_at(p: Seq<char>, text: Seq<char>, j: int) -> bool {
    p.len() <= j <= text.len() && text.subrange(j - p.len(), j) == p
}

/// `x` is a suffix of `y`.
pub open spec fn is_suffix(x: Seq<char>, y: Seq<char>) -> bool {
    x.len() <= y.len() && y.subrange(y.len() - x.len(), y.len() as int) == x
}

/// Number of starting offsets below `n` at which `p` occurs in `text`.
pub open spec fn occurrences_before(p: Seq<char>, text: Seq<char>, n: nat) -> nat
    decreases n,
{
    if n == 0 {
        0
    } else {
        occurrences_before(p, text, (n - 1) as nat) + if occurs_at(p, text, n - 1) {
            1nat
        } else {
            0nat
        }
    }
}

/// Number of occurrences of `p` in `text`; overlapping ones count separately.
pub open spec fn count_occurrences(p: Seq<char>, text: Seq<char>) -> nat {
    occurrences_before(p, text, text.len() + 1)
}

/// Sum of `f` over a sequence of patterns.
pub open spec fn total(pats: Seq<Pattern>, f: spec_fn(Pattern) -> int) -> int
    decreases pats.len(),
{
    if pats.len() == 0 {
        0
    } else {
        total(pats.drop_last(), f) + f(pats.last())
    }
}

/// How a weight enters a sum: as it is when the pattern's index lies in a
/// window, or by its absolute value whatever the index.
pub enum Measure {
    Window(usize, usize),
    Absolute,
}

/// Absolute value of a weight.
pub open spec fn abs_weight(w: i64) -> int {
    if w < 0 {
        -(w as int)
    } else {
        w as int
    }
}

/// What one occurrence of a pattern with this index and weight is worth.
pub open spec fn worth(m: Measure, index: usize, weight: i64) -> int {
    match m {
        Measure::Window(lo, hi) => if lo <= index <= hi {
            weight as int
        } else {
            0int
        },
        Measure::Absolute => abs_weight(weight),
    }
}

/// What all occurrences of one pattern in `text` are worth together.
pub open spec fn share(m: Measure, text: Seq<char>) -> spec_fn(Pattern) -> int {
    |p: Pattern| worth(m, p.index, p.weight) * count_occurrences(p.symbols, text) as int
}

/// The answer to a query: the sum, over every pattern whose index lies in
/// `[lo, hi]` and every offset at which it occurs in `text`, of its weight.
pub open spec fn weighted_occurrences(pats: Seq<Pattern>, text: Seq<char>, lo: usize, hi: usize) -> int {
    total(pats, share(Measure::Window(lo, hi), text))
}

/// Sum of the absolute weights of all occurrences of all patterns in `text`.
/// The sum over any window lies within it, so that a sum whose magnitude
/// fits in 64 bits is returned as it is.
pub open spec fn magnitude(pats: Seq<Pattern>, text: Seq<char>) -> int {
    total(pats, share(Measure::Absolute, text))
}

/// What the occurrences ending just before offset `j` are worth, counting
/// only patterns longer than `d`.
pub open spec fn ending(m: Measure, text: Seq<char>, j: int, d: int) -> spec_fn(Pattern) -> int {
    |p: Pattern|
        if ends_at(p.symbols, text, j) && p.symbols.len() > d {
            worth(m, p.index, p.weight)
        } else {
            0int
        }
}

/// What one occurrence of each pattern with exactly the symbols `x` is worth.
pub open spec fn exactly(m: Measure, x: Seq<char>) -> spec_fn(Pattern) -> int {
    |p: Pattern|
        if p.symbols == x {
            worth(m, p.index, p.weight)
        } else {
            0int
        }
}

/// What a list of `(index, weight)` outputs is worth.
pub open spec fn emit(m: Measure, outs: Seq<(usize, i64)>) -> int
    decreases outs.len(),
{
    if outs.len() == 0 {
        0
    } else {
        emit(m, outs.drop_last()) + worth(m, outs.last().0, outs.last().1)
    }
}

/// The pairs `(index, weight)` of the patterns whose symbols are exactly `x`,
/// in registration order.
pub open spec fn matching(pats: Seq<Pattern>, x: Seq<char>) -> Seq<(usize, i64)>
    decreases pats.len(),
{
    if pats.len() == 0 {
        Seq::empty()
    } else if pats.last().symbols == x {
        matching(pats.drop_last(), x).push((pats.last().index, pats.last().weight))
    } else {
        matching(pats.drop_last(), x)
    }
}

/// No pattern is empty.
pub open spec fn all_nonempty(pats: Seq<Pattern>) -> bool {
    forall|i: int| 0 <= i < pats.len() ==> (#[trigger] pats[i]).symbols.len() > 0
}

/// No weight is negative.
pub open spec fn all_nonnegative(pats: Seq<Pattern>) -> bool {
    forall|i: int| 0 <= i < pats.len() ==> (#[trigger] pats[i]).weight >= 0
}

// ---------------------------------------------------------------------------
// Sums in 64 bits
// ---------------------------------------------------------------------------

/// The 64-bit value that a sum comes to when its additions wrap around:
/// the one number in the 64-bit range that differs from `x` by a multiple
/// of 2^64. A sum that fits in 64 bits comes to itself.
pub open spec fn wrapped(x: int) -> int {
    let r = x % 0x1_0000_0000_0000_0000;
    if r >= 0x8000_0000_0000_0000 {
        r - 0x1_0000_0000_0000_0000
    } else {
        r
    }
}

/// A number in the 64-bit range that differs from `x` by a multiple of 2^64
/// is what `x` wraps to.
pub proof fn lemma_wrapped_shift(x: int, y: int, k: int)
    requires
        y == x + k * 0x1_0000_0000_0000_0000,
        i64::MIN <= y <= i64::MAX,
    ensures
        wrapped(x) == y,
{
    let m = 0x1_0000_0000_0000_0000int;
    lemma_mod_multiples_vanish(-k, y, m);
    assert(m * (-k) + y == x);
    if y >= 0 {
        lemma_small_mod(y as nat, m as nat);
    } else {
        lemma_mod_multiples_vanish(1, y, m);
        lemma_small_mod((y + m) as nat, m as nat);
    }
}

/// What a sum wraps to lies in the 64-bit range and differs from the sum
/// by a multiple of 2^64.
pub proof fn lemma_wrapped_is(x: int) -> (k: int)
    ensures
        wrapped(x) == x + k * 0x1_0000_0000_0000_0000,
        i64::MIN <= wrapped(x) <= i64::MAX,
{
    let m = 0x1_0000_0000_0000_0000int;
    lemma_fundamental_div_mod(x, m);
    lemma_mod_bound(x, m);
    if x % m >= 0x8000_0000_0000_0000 {
        -(x / m) - 1
    } else {
        -(x / m)
    }
}

/// A sum that fits in 64 bits is not changed by wrapping.
pub proof fn lemma_wrapped_exact(x: int)
    requires
        i64::MIN <= x <= i64::MAX,
    ensures
        wrapped(x) == x,
{
    lemma_wrapped_shift(x, x, 0);
}

/// Wrapping after every addition comes to the same as wrapping at the end.
pub proof fn lemma_wrapped_add(a: int, w: int)
    ensures
        wrapped(wrapped(a) + w) == wrapped(a + w),
{
    let k1 = lemma_wrapped_is(a);
    let k2 = lemma_wrapped_is(wrapped(a) + w);
    let y = wrapped(wrapped(a) + w);
    assert(y == (a + w) + (k1 + k2) * 0x1_0000_0000_0000_0000) by (nonlinear_arith)
        requires
            y == wrapped(a) + w + k2 * 0x1_0000_0000_0000_0000,
            wrapped(a) == a + k1 * 0x1_0000_0000_0000_0000,
    ;
    lemma_wrapped_shift(a + w, y, k1 + k2);
}

/// Adds a weight to a 64-bit sum, wrapping around at the ends of the range.
pub fn add_wrapping(sum: i64, weight: i64) -> (r: i64)
    ensures
        r == wrapped(sum + weight),
{
    let t: i128 = sum as i128 + weight as i128;
    if t > 0x7FFF_FFFF_FFFF_FFFF {
        let r = (t - 0x1_0000_0000_0000_0000) as i64;
        proof {
            lemma_wrapped_shift(sum + weight, r as int, -1);
        }
        r
    } else if t < -0x8000_0000_0000_0000 {
        let r = (t + 0x1_0000_0000_0000_0000) as i64;
        proof {
            lemma_wrapped_shift(sum + weight, r as int, 1);
        }
        r
    } else {
        proof {
            lemma_wrapped_exact(sum + weight);
        }
        t as i64
    }
}

// ---------------------------------------------------------------------------
// Sums over patterns
// ---------------------------------------------------------------------------

pub proof fn lemma_total_push(pats: Seq<Pattern>, p: Pattern, f: spec_fn(Pattern) -> int)
    ensures
        total(pats.push(p), f) == total(pats, f) + f(p),
{
    assert(pats.push(p).drop_last() =~= pats);
}

pub proof fn lemma_total_split(
    pats: Seq<Pattern>,
    f: spec_fn(Pattern) -> int,
    g: spec_fn(Pattern) -> int,
    h: spec_fn(Pattern) -> int,
)
    requires
        forall|i: int| 0 <= i < pats.len() ==> f(#[trigger] pats[i]) == g(pats[i]) + h(pats[i]),
    ensures
        total(pats, f) == total(pats, g) + total(pats, h),
    decreases pats.len(),
{
    if pats.len() > 0 {
        let rest = pats.drop_last();
        assert forall|i: int| 0 <= i < rest.len() implies f(#[trigger] rest[i]) == g(rest[i]) + h(
            rest[i],
        ) by {
            assert(rest[i] == pats[i]);
        }
        lemma_total_split(rest, f, g, h);
        assert(pats.last() == pats[pats.len() - 1]);
    }
}

pub proof fn lemma_total_equal(
    pats: Seq<Pattern>,
    f: spec_fn(Pattern) -> int,
    g: spec_fn(Pattern) -> int,
)
    requires
        forall|i: int| 0 <= i < pats.len() ==> f(#[trigger] pats[i]) == g(pats[i]),
    ensures
        total(pats, f) == total(pats, g),
    decreases pats.len(),
{
    if pats.len() > 0 {
        let rest = pats.drop_last();
        assert forall|i: int| 0 <= i < rest.len() implies f(#[trigger] rest[i]) == g(rest[i]) by {
            assert(rest[i] == pats[i]);
        }
        lemma_total_equal(rest, f, g);
        assert(pats.last() == pats[pats.len() - 1]);
    }
}

pub proof fn lemma_total_zero(pats: Seq<Pattern>, f: spec_fn(Pattern) -> int)
    requires
        forall|i: int| 0 <= i < pats.len() ==> f(#[trigger] pats[i]) == 0,
    ensures
        total(pats, f) == 0,
    decreases pats.len(),
{
    if pats.len() > 0 {
        let rest = pats.drop_last();
        assert forall|i: int| 0 <= i < rest.len() implies f(#[trigger] rest[i]) == 0 by {
            assert(rest[i] == pats[i]);
        }
        lemma_total_zero(rest, f);
        assert(pats.last() == pats[pats.len() - 1]);
    }
}

pub proof fn lemma_total_le(
    pats: Seq<Pattern>,
    f: spec_fn(Pattern) -> int,
    g: spec_fn(Pattern) -> int,
)
    requires
        forall|i: int| 0 <= i < pats.len() ==> f(#[trigger] pats[i]) <= g(pats[i]),
    ensures
        total(pats, f) <= total(pats, g),
    decreases pats.len(),
{
    if pats.len() > 0 {
        let rest = pats.drop_last();
        assert forall|i: int| 0 <= i < rest.len() implies f(#[trigger] rest[i]) <= g(rest[i]) by {
            assert(rest[i] == pats[i]);
        }
        lemma_total_le(rest, f, g);
        assert(pats.last() == pats[pats.len() - 1]);
    }
}

/// A sum whose terms are bounded in absolute value by the terms of another
/// is bounded in absolute value by that other sum.
pub proof fn lemma_total_bounded(
    pats: Seq<Pattern>,
    f: spec_fn(Pattern) -> int,
    g: spec_fn(Pattern) -> int,
)
    requires
        forall|i: int|
            0 <= i < pats.len() ==> -g(pats[i]) <= f(#[trigger] pats[i]) <= g(pats[i]),
    ensures
        -total(pats, g) <= total(pats, f) <= total(pats, g),
    decreases pats.len(),
{
    if pats.len() > 0 {
        let rest = pats.drop_last();
        assert forall|i: int| 0 <= i < rest.len() implies -g(rest[i]) <= f(#[trigger] rest[i])
            <= g(rest[i]) by {
            assert(rest[i] == pats[i]);
        }
        lemma_total_bounded(rest, f, g);
        assert(pats.last() == pats[pats.len() - 1]);
    }
}

// ---------------------------------------------------------------------------
// Counting occurrences
// ---------------------------------------------------------------------------

/// Offsets at or beyond `text.len() - p.len() + 1` hold no occurrence.
pub proof fn lemma_occurrences_saturate(p: Seq<char>, text: Seq<char>, m: nat, n: nat)
    requires
        m <= n,
        m + p.len() > text.len(),
    ensures
        occurrences_before(p, text, n) == occurrences_before(p, text, m),
    decreases n,
{
    if m < n {
        lemma_occurrences_saturate(p, text, m, (n - 1) as nat);
    }
}

/// Reading one more symbol of the text adds exactly the occurrence, if any,
/// that ends at the new position.
pub proof fn lemma_occurrences_extend(p: Seq<char>, text: Seq<char>, j: int, n: nat)
    requires
        0 <= j < text.len(),
    ensures
        occurrences_before(p, text.take(j + 1), n) == occurrences_before(p, text.take(j), n) + (if j
            + 1 - p.len() < n && ends_at(p, text, j + 1) {
            1nat
        } else {
            0nat
        }),
    decreases n,
{
    if n > 0 {
        lemma_occurrences_extend(p, text, j, (n - 1) as nat);
        let k = n - 1;
        let longer = text.take(j + 1);
        let shorter = text.take(j);
        if 0 <= k && k + p.len() <= j {
            assert(longer.subrange(k, k + p.len()) =~= shorter.subrange(k, k + p.len()));
        }
        if k + p.len() == j + 1 {
            assert(longer.subrange(k, k + p.len()) =~= text.subrange(j + 1 - p.len(), j + 1));
        }
    }
}

/// The number of occurrences in the text read so far grows by one exactly
/// when `p` ends at the new position.
pub proof fn lemma_count_extend(p: Seq<char>, text: Seq<char>, j: int)
    requires
        0 <= j < text.len(),
    ensures
        count_occurrences(p, text.take(j + 1)) == count_occurrences(p, text.take(j)) + (if ends_at(
            p,
            text,
            j + 1,
        ) {
            1nat
        } else {
            0nat
        }),
{
    let n = (j + 2) as nat;
    lemma_occurrences_extend(p, text, j, n);
    lemma_occurrences_saturate(p, text.take(j), (j + 1) as nat, n);
    if p.len() == 0 {
        assert(j + 1 - p.len() < n);
    }
}

pub proof fn lemma_count_empty_text(p: Seq<char>)
    requires
        p.len() > 0,
    ensures
        count_occurrences(p, Seq::<char>::empty()) == 0,
{
    reveal_with_fuel(occurrences_before, 2);
}

// ---------------------------------------------------------------------------
// Suffixes
// ---------------------------------------------------------------------------

pub proof fn lemma_suffix_of_suffix(x: Seq<char>, y: Seq<char>, t: Seq<char>)
    requires
        is_suffix(x, y),
        is_suffix(y, t),
    ensures
        is_suffix(x, t),
{
    assert(t.subrange(t.len() - x.len(), t.len() as int) =~= y.subrange(
        y.len() - x.len(),
        y.len() as int,
    )) by {
        assert(y =~= t.subrange(t.len() - y.len(), t.len() as int));
    }
}

pub proof fn lemma_suffixes_nest(x: Seq<char>, y: Seq<char>, t: Seq<char>)
    requires
        is_suffix(x, t),
        is_suffix(y, t),
        x.len() <= y.len(),
    ensures
        is_suffix(x, y),
        x.len() == y.len() ==> x == y,
{
    assert(y =~= t.subrange(t.len() - y.len(), t.len() as int));
    assert(y.subrange(y.len() - x.len(), y.len() as int) =~= t.subrange(
        t.len() - x.len(),
        t.len() as int,
    ));
    if x.len() == y.len() {
        assert(x =~= y);
    }
}

pub proof fn lemma_suffix_push(x: Seq<char>, t: Seq<char>, c: char)
    requires
        is_suffix(x, t),
    ensures
        is_suffix(x.push(c), t.push(c)),
{
    let tc = t.push(c);
    assert(tc.subrange(tc.len() - x.len() - 1, tc.len() as int) =~= t.subrange(
        t.len() - x.len(),
        t.len() as int,
    ).push(c));
}

pub proof fn lemma_suffix_pop(y: Seq<char>, t: Seq<char>, c: char)
    requires
        is_suffix(y, t.push(c)),
        y.len() > 0,
    ensures
        y.last() == c,
        is_suffix(y.drop_last(), t),
{
    let tc = t.push(c);
    assert(y =~= tc.subrange(tc.len() - y.len(), tc.len() as int));
    assert(y.last() == tc[tc.len() - 1]);
    assert(t.subrange(t.len() - (y.len() - 1), t.len() as int) =~= y.drop_last());
}

/// The proper suffixes of a non-empty `x` are the suffixes of `x` without
/// its first symbol.
pub proof fn lemma_proper_suffix(y: Seq<char>, x: Seq<char>)
    requires
        x.len() > 0,
    ensures
        is_suffix(y, x.drop_first()) <==> (is_suffix(y, x) && y.len() < x.len()),
{
    let r = x.drop_first();
    if y.len() < x.len() {
        assert(r.subrange(r.len() - y.len(), r.len() as int) =~= x.subrange(
            x.len() - y.len(),
            x.len() as int,
        ));
    }
}

pub proof fn lemma_ends_at_is_suffix(p: Seq<char>, text: Seq<char>, j: int)
    requires
        0 <= j <= text.len(),
    ensures
        ends_at(p, text, j) <==> is_suffix(p, text.take(j)),
{
    if p.len() <= j {
        assert(text.take(j).subrange(j - p.len(), j) =~= text.subrange(j - p.len(), j));
    }
}

// ---------------------------------------------------------------------------
// Sums of occurrence weights
// ---------------------------------------------------------------------------

/// Whatever the window, a weight counts for no more than its absolute value.
pub proof fn lemma_worth_bounded(m: Measure, index: usize, weight: i64)
    ensures
        -worth(Measure::Absolute, index, weight) <= worth(m, index, weight) <= worth(
            Measure::Absolute,
            index,
            weight,
        ),
        worth(Measure::Absolute, index, weight) >= 0,
{
}

/// Reading one more symbol adds what the occurrences ending there are worth.
pub proof fn lemma_share_step(m: Measure, pats: Seq<Pattern>, text: Seq<char>, j: int)
    requires
        0 <= j < text.len(),
        all_nonempty(pats),
    ensures
        total(pats, share(m, text.take(j + 1))) == total(pats, share(m, text.take(j))) + total(
            pats,
            ending(m, text, j + 1, 0),
        ),
{
    let f = share(m, text.take(j + 1));
    let g = share(m, text.take(j));
    let h = ending(m, text, j + 1, 0);
    assert forall|i: int| 0 <= i < pats.len() implies f(#[trigger] pats[i]) == g(pats[i]) + h(
        pats[i],
    ) by {
        let p = pats[i];
        lemma_count_extend(p.symbols, text, j);
        let w = worth(m, p.index, p.weight);
        let c = count_occurrences(p.symbols, text.take(j)) as int;
        assert(w * (c + 1) == w * c + w) by (nonlinear_arith);
    }
    lemma_total_split(pats, f, g, h);
}

pub proof fn lemma_ending_none(m: Measure, pats: Seq<Pattern>, text: Seq<char>, j: int, d: int)
    requires
        forall|i: int|
            0 <= i < pats.len() && ends_at((#[trigger] pats[i]).symbols, text, j)
                ==> pats[i].symbols.len() <= d,
    ensures
        total(pats, ending(m, text, j, d)) == 0,
{
    lemma_total_zero(pats, ending(m, text, j, d));
}

/// Lowering the length bound from `x.len()` to `d` adds exactly the patterns
/// equal to `x`, when no other pattern ending at `j` has a length in between.
pub proof fn lemma_ending_step(
    m: Measure,
    pats: Seq<Pattern>,
    text: Seq<char>,
    j: int,
    x: Seq<char>,
    d: int,
)
    requires
        ends_at(x, text, j),
        d < x.len(),
        forall|i: int|
            0 <= i < pats.len() && ends_at((#[trigger] pats[i]).symbols, text, j) && d
                < pats[i].symbols.len() <= x.len() ==> pats[i].symbols == x,
    ensures
        total(pats, ending(m, text, j, d)) == total(pats, ending(m, text, j, x.len() as int))
            + total(pats, exactly(m, x)),
{
    let f = ending(m, text, j, d);
    let g = ending(m, text, j, x.len() as int);
    let h = exactly(m, x);
    assert forall|i: int| 0 <= i < pats.len() implies f(#[trigger] pats[i]) == g(pats[i]) + h(
        pats[i],
    ) by {}
    lemma_total_split(pats, f, g, h);
}

pub proof fn lemma_emit_push(m: Measure, outs: Seq<(usize, i64)>, o: (usize, i64))
    ensures
        emit(m, outs.push(o)) == emit(m, outs) + worth(m, o.0, o.1),
{
    assert(outs.push(o).drop_last() =~= outs);
}

/// The outputs listed for the symbols `x` are worth what the patterns equal
/// to `x` are worth.
pub proof fn lemma_emit_matching(m: Measure, pats: Seq<Pattern>, x: Seq<char>)
    ensures
        emit(m, matching(pats, x)) == total(pats, exactly(m, x)),
    decreases pats.len(),
{
    if pats.len() > 0 {
        lemma_emit_matching(m, pats.drop_last(), x);
        if pats.last().symbols == x {
            lemma_emit_push(
                m,
                matching(pats.drop_last(), x),
                (pats.last().index, pats.last().weight),
            );
        }
    }
}

/// With no negative weight, what a query over a narrower window returns is
/// no more than what the query over the wider window returns, whenever
/// the sum over the wider window fits in 64 bits.
pub proof fn lemma_narrower_window_returns_less(
    pats: Seq<Pattern>,
    text: Seq<char>,
    lo: usize,
    hi: usize,
    inner_lo: usize,
    inner_hi: usize,
)
    requires
        all_nonnegative(pats),
        lo <= inner_lo,
        inner_hi <= hi,
        weighted_occurrences(pats, text, lo, hi) <= i64::MAX,
    ensures
        wrapped(weighted_occurrences(pats, text, inner_lo, inner_hi)) <= wrapped(
            weighted_occurrences(pats, text, lo, hi),
        ),
{
    lemma_narrower_window_sums_less(pats, text, lo, hi, inner_lo, inner_hi);
    let f = share(Measure::Window(inner_lo, inner_hi), text);
    let z = |p: Pattern| 0int;
    assert forall|i: int| 0 <= i < pats.len() implies z(#[trigger] pats[i]) <= f(pats[i]) by {
        let p = pats[i];
        let a = worth(Measure::Window(inner_lo, inner_hi), p.index, p.weight);
        let c = count_occurrences(p.symbols, text) as int;
        assert(0 <= a * c) by (nonlinear_arith)
            requires
                0 <= a,
                0 <= c,
        ;
    }
    lemma_total_le(pats, z, f);
    lemma_total_zero(pats, z);
    lemma_wrapped_exact(weighted_occurrences(pats, text, inner_lo, inner_hi));
    lemma_wrapped_exact(weighted_occurrences(pats, text, lo, hi));
}

/// The sum over any window lies within the magnitude of the text.
pub proof fn lemma_sum_within_magnitude(pats: Seq<Pattern>, text: Seq<char>, lo: usize, hi: usize)
    ensures
        -magnitude(pats, text) <= weighted_occurrences(pats, text, lo, hi) <= magnitude(pats, text),
{
    let f = share(Measure::Window(lo, hi), text);
    let g = share(Measure::Absolute, text);
    assert forall|i: int| 0 <= i < pats.len() implies -g(pats[i]) <= f(#[trigger] pats[i]) <= g(
        pats[i],
    ) by {
        let p = pats[i];
        lemma_worth_bounded(Measure::Window(lo, hi), p.index, p.weight);
        let c = count_occurrences(p.symbols, text) as int;
        let w = worth(Measure::Window(lo, hi), p.index, p.weight);
        let a = worth(Measure::Absolute, p.index, p.weight);
        assert(-(a * c) <= w * c <= a * c) by (nonlinear_arith)
            requires
                -a <= w <= a,
                c >= 0,
        ;
    }
    lemma_total_bounded(pats, f, g);
}

/// With no empty pattern, nothing occurs in the empty text.
pub proof fn lemma_share_empty_text(m: Measure, pats: Seq<Pattern>)
    requires
        all_nonempty(pats),
    ensures
        total(pats, share(m, Seq::<char>::empty())) == 0,
{
    let f = share(m, Seq::<char>::empty());
    assert forall|i: int| 0 <= i < pats.len() implies f(#[trigger] pats[i]) == 0 by {
        lemma_count_empty_text(pats[i].symbols);
    }
    lemma_total_zero(pats, f);
}

// ---------------------------------------------------------------------------
// Laws of the query answer
// ---------------------------------------------------------------------------

/// What all occurrences of one pattern in `text` weigh together.
pub open spec fn every_occurrence(text: Seq<char>) -> spec_fn(Pattern) -> int {
    |p: Pattern| p.weight as int * count_occurrences(p.symbols, text) as int
}

/// Over a window that holds every index, the answer is the sum, over every
/// pattern and every offset at which it occurs in the text, of the
/// pattern's weight.
pub proof fn lemma_full_window(pats: Seq<Pattern>, text: Seq<char>, hi: usize)
    requires
        forall|i: int| 0 <= i < pats.len() ==> (#[trigger] pats[i]).index <= hi,
    ensures
        weighted_occurrences(pats, text, 0, hi) == total(pats, every_occurrence(text)),
{
    lemma_total_equal(pats, share(Measure::Window(0, hi), text), every_occurrence(text));
}

/// A query over an empty text sums to zero, whatever the window.
pub proof fn lemma_empty_text_yields_zero(pats: Seq<Pattern>, lo: usize, hi: usize)
    requires
        all_nonempty(pats),
    ensures
        weighted_occurrences(pats, Seq::<char>::empty(), lo, hi) == 0,
        magnitude(pats, Seq::<char>::empty()) == 0,
{
    lemma_share_empty_text(Measure::Window(lo, hi), pats);
    lemma_share_empty_text(Measure::Absolute, pats);
}

/// With no negative weight, a narrower window never gives a larger sum.
pub proof fn lemma_narrower_window_sums_less(
    pats: Seq<Pattern>,
    text: Seq<char>,
    lo: usize,
    hi: usize,
    inner_lo: usize,
    inner_hi: usize,
)
    requires
        all_nonnegative(pats),
        lo <= inner_lo,
        inner_hi <= hi,
    ensures
        weighted_occurrences(pats, text, inner_lo, inner_hi) <= weighted_occurrences(pats, text, lo, hi),
{
    let f = share(Measure::Window(inner_lo, inner_hi), text);
    let g = share(Measure::Window(lo, hi), text);
    assert forall|i: int| 0 <= i < pats.len() implies f(#[trigger] pats[i]) <= g(pats[i]) by {
        let p = pats[i];
        let a = worth(Measure::Window(inner_lo, inner_hi), p.index, p.weight);
        let b = worth(Measure::Window(lo, hi), p.index, p.weight);
        let c = count_occurrences(p.symbols, text) as int;
        assert(a * c <= b * c) by (nonlinear_arith)
            requires
                a <= b,
                c >= 0,
        ;
    }
    lemma_total_le(pats, f, g);
}

/// The absolute weight of a pattern.
pub open spec fn absolute_weight() -> spec_fn(Pattern) -> int {
    |p: Pattern| abs_weight(p.weight)
}

/// A pattern that is not empty occurs at most once for each symbol of the
/// text.
pub proof fn lemma_count_bounded(p: Seq<char>, text: Seq<char>, n: nat)
    requires
        p.len() > 0,
        n <= text.len() + 1,
    ensures
        occurrences_before(p, text, n) <= n,
        occurrences_before(p, text, n) <= text.len(),
    decreases n,
{
    if n > 0 {
        lemma_count_bounded(p, text, (n - 1) as nat);
    }
}

/// The magnitude of a text is at most its length times the sum of the
/// absolute weights: a bound that is known before any matching.
pub proof fn lemma_magnitude_bounded(pats: Seq<Pattern>, text: Seq<char>)
    requires
        all_nonempty(pats),
    ensures
        0 <= magnitude(pats, text) <= total(pats, absolute_weight()) * text.len(),
    decreases pats.len(),
{
    let f = share(Measure::Absolute, text);
    let g = absolute_weight();
    let n = text.len() as int;
    if pats.len() == 0 {
        assert(total(pats, g) * n == 0) by (nonlinear_arith)
            requires
                total(pats, g) == 0,
        ;
    } else {
        let rest = pats.drop_last();
        let p = pats.last();
        assert(all_nonempty(rest)) by {
            assert forall|i: int| 0 <= i < rest.len() implies (#[trigger] rest[i]).symbols.len()
                > 0 by {
                assert(rest[i] == pats[i]);
            }
        }
        lemma_magnitude_bounded(rest, text);
        assert(p == pats[pats.len() - 1]);
        lemma_count_bounded(p.symbols, text, text.len() + 1);
        let a = abs_weight(p.weight);
        let c = count_occurrences(p.symbols, text) as int;
        let r = total(rest, g);
        assert(0 <= a * c <= a * n) by (nonlinear_arith)
            requires
                0 <= a,
                0 <= c <= n,
        ;
        assert((r + a) * n == r * n + a * n) by (nonlinear_arith);
    }
}

// ---------------------------------------------------------------------------
// Sums taken offset by offset
// ---------------------------------------------------------------------------

/// What the occurrences of one pattern starting before offset `n` are worth.
pub open spec fn starting_before(m: Measure, text: Seq<char>, n: nat) -> spec_fn(Pattern) -> int {
    |p: Pattern| worth(m, p.index, p.weight) * occurrences_before(p.symbols, text, n) as int
}

/// What an occurrence of one pattern starting at offset `k` is worth.
pub open spec fn starting_at(m: Measure, text: Seq<char>, k: int) -> spec_fn(Pattern) -> int {
    |p: Pattern|
        if occurs_at(p.symbols, text, k) {
            worth(m, p.index, p.weight)
        } else {
            0int
        }
}

/// Terms that vanish from position `k` on do not count.
pub proof fn lemma_total_take(pats: Seq<Pattern>, f: spec_fn(Pattern) -> int, k: int)
    requires
        0 <= k <= pats.len(),
        forall|i: int| k <= i < pats.len() ==> f(#[trigger] pats[i]) == 0,
    ensures
        total(pats.take(k), f) == total(pats, f),
    decreases pats.len() - k,
{
    if k < pats.len() {
        let rest = pats.drop_last();
        assert forall|i: int| k <= i < rest.len() implies f(#[trigger] rest[i]) == 0 by {
            assert(rest[i] == pats[i]);
        }
        lemma_total_take(rest, f, k);
        assert(rest.take(k) =~= pats.take(k));
        assert(pats.last() == pats[pats.len() - 1]);
    } else {
        assert(pats.take(k) =~= pats);
    }
}

/// Moving on by one offset adds what the occurrences starting there are worth.
pub proof fn lemma_starting_step(m: Measure, pats: Seq<Pattern>, text: Seq<char>, k: nat)
    ensures
        total(pats, starting_before(m, text, k + 1)) == total(pats, starting_before(m, text, k))
            + total(pats, starting_at(m, text, k as int)),
{
    let f = starting_before(m, text, k + 1);
    let g = starting_before(m, text, k);
    let h = starting_at(m, text, k as int);
    assert forall|i: int| 0 <= i < pats.len() implies f(#[trigger] pats[i]) == g(pats[i]) + h(
        pats[i],
    ) by {
        let p = pats[i];
        let w = worth(m, p.index, p.weight);
        let c = occurrences_before(p.symbols, text, k) as int;
        assert(w * (c + 1) == w * c + w) by (nonlinear_arith);
    }
    lemma_total_split(pats, f, g, h);
}

/// Once every offset of the text has been passed, the sum is the answer.
pub proof fn lemma_starting_all(m: Measure, pats: Seq<Pattern>, text: Seq<char>)
    requires
        all_nonempty(pats),
    ensures
        total(pats, starting_before(m, text, text.len())) == total(pats, share(m, text)),
{
    let f = starting_before(m, text, text.len());
    let g = share(m, text);
    assert forall|i: int| 0 <= i < pats.len() implies f(#[trigger] pats[i]) == g(pats[i]) by {
        lemma_occurrences_saturate(pats[i].symbols, text, text.len(), text.len() + 1);
    }
    lemma_total_equal(pats, f, g);
}

// ---------------------------------------------------------------------------
// What a matcher emits
// ---------------------------------------------------------------------------

/// The outputs of the patterns of at most `d` symbols that end just before
/// offset `j` of `text`: longest patterns first, patterns of the same
/// symbols in registration order.
pub open spec fn ending_here(pats: Seq<Pattern>, text: Seq<char>, j: int, d: int) -> Seq<
    (usize, i64),
>
    decreases d,
{
    if d <= 0 {
        Seq::empty()
    } else if d <= j <= text.len() {
        matching(pats, text.subrange(j - d, j)) + ending_here(pats, text, j, d - 1)
    } else {
        ending_here(pats, text, j, d - 1)
    }
}

/// Everything a matcher emits while it reads the first `n` symbols of
/// `text`: position by position, what ends there.
pub open spec fn emitted(pats: Seq<Pattern>, text: Seq<char>, n: int) -> Seq<(usize, i64)>
    decreases n,
{
    if n <= 0 {
        Seq::empty()
    } else {
        emitted(pats, text, n - 1) + ending_here(pats, text, n, n)
    }
}

pub proof fn lemma_emit_concat(m: Measure, a: Seq<(usize, i64)>, b: Seq<(usize, i64)>)
    ensures
        emit(m, a + b) == emit(m, a) + emit(m, b),
    decreases b.len(),
{
    if b.len() == 0 {
        assert(a + b =~= a);
    } else {
        lemma_emit_concat(m, a, b.drop_last());
        assert((a + b).drop_last() =~= a + b.drop_last());
    }
}

/// Where no pattern with more than `low` and at most `high` symbols ends,
/// nothing is emitted for those lengths.
pub proof fn lemma_ending_here_gap(
    pats: Seq<Pattern>,
    text: Seq<char>,
    j: int,
    low: int,
    high: int,
)
    requires
        0 <= low <= high,
        forall|i: int|
            0 <= i < pats.len() && ends_at((#[trigger] pats[i]).symbols, text, j) ==> !(low
                < pats[i].symbols.len() <= high),
    ensures
        ending_here(pats, text, j, high) == ending_here(pats, text, j, low),
    decreases high - low,
{
    if low < high {
        lemma_ending_here_gap(pats, text, j, low, high - 1);
        if high <= j <= text.len() {
            let x = text.subrange(j - high, j);
            assert forall|i: int| 0 <= i < pats.len() implies (#[trigger] pats[i]).symbols
                != x by {
                if pats[i].symbols == x {
                    assert(ends_at(pats[i].symbols, text, j));
                }
            }
            lemma_matching_none(pats, x);
            assert(Seq::<(usize, i64)>::empty() + ending_here(pats, text, j, high - 1)
                =~= ending_here(pats, text, j, high - 1));
        }
    }
}

pub proof fn lemma_matching_none(pats: Seq<Pattern>, x: Seq<char>)
    requires
        forall|i: int| 0 <= i < pats.len() ==> (#[trigger] pats[i]).symbols != x,
    ensures
        matching(pats, x) == Seq::<(usize, i64)>::empty(),
    decreases pats.len(),
{
    if pats.len() > 0 {
        assert(pats.last() == pats[pats.len() - 1]);
        assert forall|i: int| 0 <= i < pats.drop_last().len() implies (
        #[trigger] pats.drop_last()[i]).symbols != x by {
            assert(pats.drop_last()[i] == pats[i]);
        }
        lemma_matching_none(pats.drop_last(), x);
    }
}

/// What is emitted at one position for lengths up to `d` is worth what the
/// patterns of at most `d` symbols that end there are worth.
pub proof fn lemma_ending_here_worth(
    m: Measure,
    pats: Seq<Pattern>,
    text: Seq<char>,
    j: int,
    d: int,
)
    requires
        0 <= d <= j <= text.len(),
    ensures
        emit(m, ending_here(pats, text, j, d)) + total(pats, ending(m, text, j, d)) == total(
            pats,
            ending(m, text, j, 0),
        ),
    decreases d,
{
    if d > 0 {
        lemma_ending_here_worth(m, pats, text, j, d - 1);
        let x = text.subrange(j - d, j);
        lemma_emit_concat(m, matching(pats, x), ending_here(pats, text, j, d - 1));
        lemma_emit_matching(m, pats, x);
        let f = ending(m, text, j, d - 1);
        let g = ending(m, text, j, d);
        let h = exactly(m, x);
        assert forall|i: int| 0 <= i < pats.len() implies f(#[trigger] pats[i]) == g(pats[i]) + h(
            pats[i],
        ) by {
            let p = pats[i].symbols;
            if p.len() == d && ends_at(p, text, j) {
                assert(p == x);
            }
            if p == x {
                assert(ends_at(p, text, j));
            }
        }
        lemma_total_split(pats, f, g, h);
    }
}

/// Whatever window is applied to it, what a matcher emits over a text is
/// worth the sum, over every pattern and every offset at which the pattern
/// occurs, of what the pattern is worth.
pub proof fn lemma_emitted_worth(m: Measure, pats: Seq<Pattern>, text: Seq<char>, n: int)
    requires
        all_nonempty(pats),
        0 <= n <= text.len(),
    ensures
        emit(m, emitted(pats, text, n)) == total(pats, share(m, text.take(n))),
    decreases n,
{
    if n == 0 {
        assert(text.take(0) =~= Seq::<char>::empty());
        lemma_share_empty_text(m, pats);
    } else {
        lemma_emitted_worth(m, pats, text, n - 1);
        lemma_emit_concat(m, emitted(pats, text, n - 1), ending_here(pats, text, n, n));
        lemma_ending_here_worth(m, pats, text, n, n);
        assert forall|i: int|
            0 <= i < pats.len() && ends_at((#[trigger] pats[i]).symbols, text, n) implies pats[i].symbols.len()
            <= n by {}
        lemma_ending_none(m, pats, text, n, n);
        lemma_share_step(m, pats, text, n - 1);
    }
}

} // verus!
