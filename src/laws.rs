//! Facts about the enumeration as a whole: what repeated pulls do.

use vstd::prelude::*;
use vstd::utf8::encode_utf8;
use crate::alphabet::lemma_successor_at;
use crate::bound::{lemma_span_shift, lemma_span_shrinks, lemma_span_split, power, span_count};
use crate::generator::DictionaryGenerator;
use crate::odometer::{alphabet_wf, strictly_ascending, increment, iterate, position, rank, successor_symbol, value_over};

verus! {

/// An alphabet is fixed by its symbols: two strictly ascending sequences with the same
/// members are the same sequence.
pub proof fn lemma_ascending_same_members(x: Seq<char>, y: Seq<char>)
    requires
        strictly_ascending(x),
        strictly_ascending(y),
        forall|c: char| x.contains(c) <==> y.contains(c),
    ensures
        x == y,
    decreases x.len(),
{
    if x.len() == 0 || y.len() == 0 {
        if x.len() > 0 {
            assert(x.contains(x[0]));
        }
        if y.len() > 0 {
            assert(y.contains(y[0]));
        }
        assert(x =~= y);
    } else {
        assert(x.contains(x[0]) && y.contains(y[0]));
        let i = choose|i: int| 0 <= i < y.len() && #[trigger] y[i] == x[0];
        let j = choose|j: int| 0 <= j < x.len() && #[trigger] x[j] == y[0];
        if i > 0 {
            assert((y[0] as u32) < (y[i] as u32));
            if j > 0 {
                assert((x[0] as u32) < (x[j] as u32));
            }
        }
        if j > 0 {
            assert((x[0] as u32) < (x[j] as u32));
        }
        vstd::utf8::char_u32_cast(x[0], x[0] as u32);
        vstd::utf8::char_u32_cast(y[0], y[0] as u32);
        assert(x[0] == y[0]);
        let xr = x.drop_first();
        let yr = y.drop_first();
        assert forall|a: int, b: int| 0 <= a < b < xr.len() implies (#[trigger] xr[a] as u32) < (#[trigger] xr[b] as u32) by {
            assert(xr[a] == x[a + 1] && xr[b] == x[b + 1]);
        }
        assert forall|a: int, b: int| 0 <= a < b < yr.len() implies (#[trigger] yr[a] as u32) < (#[trigger] yr[b] as u32) by {
            assert(yr[a] == y[a + 1] && yr[b] == y[b + 1]);
        }
        assert forall|c: char| xr.contains(c) <==> yr.contains(c) by {
            if xr.contains(c) {
                let k = choose|k: int| 0 <= k < xr.len() && #[trigger] xr[k] == c;
                assert(x[k + 1] == c);
                assert((x[0] as u32) < (x[k + 1] as u32));
                assert(y.contains(c));
                let m = choose|m: int| 0 <= m < y.len() && #[trigger] y[m] == c;
                assert(m != 0);
                assert(yr[m - 1] == c);
            }
            if yr.contains(c) {
                let k = choose|k: int| 0 <= k < yr.len() && #[trigger] yr[k] == c;
                assert(y[k + 1] == c);
                assert((y[0] as u32) < (y[k + 1] as u32));
                assert(x.contains(c));
                let m = choose|m: int| 0 <= m < x.len() && #[trigger] x[m] == c;
                assert(m != 0);
                assert(xr[m - 1] == c);
            }
        }
        lemma_ascending_same_members(xr, yr);
        assert(x =~= seq![x[0]] + xr);
        assert(y =~= seq![y[0]] + yr);
    }
}

/// Once exhausted, a pull changes nothing and hands out nothing, and so does every
/// later pull.
pub proof fn lemma_exhaustion_is_final(g: DictionaryGenerator, g2: DictionaryGenerator)
    requires
        g.spec_current() is None,
        g.steps_to(&g2),
    ensures
        g.rendered() is None,
        g.record() is None,
        g2.spec_current() is None,
        g2.rendered() is None,
        g2.record() is None,
        g.same_setup(&g2),
{
}

/// Every symbol of the value has no successor: the increment carries through all positions.
pub open spec fn carries_through(alpha: Seq<char>, v: Seq<char>) -> bool {
    forall|i: int| 0 <= i < v.len() ==> successor_symbol(alpha, #[trigger] v[i]) is None
}

/// The increment keeps the value's length, except when it carries through every position:
/// then the value grows by exactly one symbol. It stays over the alphabet.
pub proof fn lemma_increment_length(alpha: Seq<char>, v: Seq<char>)
    requires
        alphabet_wf(alpha),
        value_over(alpha, v),
    ensures
        increment(alpha, v).len() == v.len() + (if carries_through(alpha, v) { 1int } else { 0int }),
        value_over(alpha, increment(alpha, v)),
    decreases v.len(),
{
    if v.len() == 0 {
        assert(alpha.contains(alpha[0]));
    } else {
        let k = choose|k: int| 0 <= k < alpha.len() && #[trigger] alpha[k] == v[0];
        lemma_successor_at(alpha, k);
        let rest = v.drop_first();
        match successor_symbol(alpha, v[0]) {
            Some(n) => {
                assert(!carries_through(alpha, v));
                let w = increment(alpha, v);
                assert forall|i: int| 0 <= i < w.len() implies alpha.contains(#[trigger] w[i]) by {
                    if i == 0 {
                        assert(alpha[k + 1] == n);
                    } else {
                        assert(w[i] == v[i]);
                    }
                }
            },
            None => {
                assert forall|i: int| 0 <= i < rest.len() implies alpha.contains(#[trigger] rest[i]) by {
                    assert(rest[i] == v[i + 1]);
                }
                lemma_increment_length(alpha, rest);
                if carries_through(alpha, v) {
                    assert forall|i: int| 0 <= i < rest.len() implies successor_symbol(alpha, #[trigger] rest[i]) is None by {
                        assert(rest[i] == v[i + 1]);
                    }
                } else {
                    let j = choose|j: int| 0 <= j < v.len() && !(successor_symbol(alpha, #[trigger] v[j]) is None);
                    assert(rest[j - 1] == v[j]);
                }
                let w = increment(alpha, v);
                let wr = increment(alpha, rest);
                assert(w == seq![alpha[0]] + wr);
                assert forall|i: int| 0 <= i < w.len() implies alpha.contains(#[trigger] w[i]) by {
                    if i == 0 {
                        assert(alpha[0] == w[i]);
                    } else {
                        assert(w[i] == wr[i - 1]);
                    }
                }
            },
        }
    }
}

/// Across one pull the value's length never shrinks; it grows by exactly one when the
/// increment carries through every position.
pub proof fn lemma_length_monotone(g: DictionaryGenerator, g2: DictionaryGenerator)
    requires
        g.wf(),
        g.steps_to(&g2),
        g.spec_current() is Some,
        g2.spec_current() is Some,
    ensures
        g2.spec_current()->0.len() == g.spec_current()->0.len() + (if carries_through(
            g.spec_alphabet(),
            g.spec_current()->0,
        ) {
            1int
        } else {
            0int
        }),
{
    g.lemma_wf_parts();
    lemma_increment_length(g.spec_alphabet(), g.spec_current()->0);
}

/// A buffer pull writes exactly the text that a string pull hands out, in UTF-8, with a
/// newline after it.
pub proof fn lemma_buffer_matches_string(g: DictionaryGenerator)
    ensures
        match (g.rendered(), g.record()) {
            (Some(t), Some(b)) => b == encode_utf8(t) + seq![10u8],
            (None, None) => true,
            _ => false,
        },
{
}

/// The ceiling on the values still to come never rises across a pull, and is zero once
/// exhausted.
pub proof fn lemma_upper_bound_non_increasing(g: DictionaryGenerator, g2: DictionaryGenerator)
    requires
        g.wf(),
        g.steps_to(&g2),
    ensures
        0 <= g2.upper_bound() <= g.upper_bound(),
        g2.spec_current() is None ==> g2.upper_bound() == 0,
{
    g.lemma_wf_parts();
    let a = g.spec_alphabet().len() as int;
    let m = g.spec_terminal().len() as int;
    match g.spec_current() {
        None => {},
        Some(v) => {
            lemma_span_shrinks(a, v.len() as int, v.len() as int, m);
            match g2.spec_current() {
                None => {},
                Some(w) => {
                    lemma_increment_length(g.spec_alphabet(), v);
                    lemma_span_shrinks(a, v.len() as int, w.len() as int, m);
                },
            }
        },
    }
}

/// In a strictly ascending alphabet the symbol at `k` has rank `k`.
proof fn lemma_rank_at(alpha: Seq<char>, k: int)
    requires
        alphabet_wf(alpha),
        0 <= k < alpha.len(),
    ensures
        rank(alpha, alpha[k]) == k,
    decreases alpha.len(),
{
    if k > 0 {
        assert((alpha[0] as u32) < (alpha[k] as u32));
        let rest = alpha.drop_first();
        assert(rest[k - 1] == alpha[k]);
        if rest.len() >= 1 {
            assert forall|i: int, j: int| 0 <= i < j < rest.len() implies (#[trigger] rest[i] as u32) < (#[trigger] rest[j] as u32) by {
                assert(rest[i] == alpha[i + 1] && rest[j] == alpha[j + 1]);
            }
        }
        lemma_rank_at(rest, k - 1);
    }
}

/// Each increment moves a value one place up the number line.
pub proof fn lemma_increment_position(alpha: Seq<char>, v: Seq<char>)
    requires
        alphabet_wf(alpha),
        value_over(alpha, v),
    ensures
        position(alpha, increment(alpha, v)) == position(alpha, v) + 1,
    decreases v.len(),
{
    let a = alpha.len() as int;
    if v.len() == 0 {
        let w = increment(alpha, v);
        lemma_rank_at(alpha, 0);
        assert(w.drop_first() =~= Seq::<char>::empty());
        assert(position(alpha, w.drop_first()) == 0);
        assert(a * 0 == 0) by (nonlinear_arith);
        assert(w[0] == alpha[0]);
        assert(position(alpha, w) == 1 + rank(alpha, w[0]) + a * position(alpha, w.drop_first()));
    } else {
        let k = choose|k: int| 0 <= k < alpha.len() && #[trigger] alpha[k] == v[0];
        lemma_successor_at(alpha, k);
        lemma_rank_at(alpha, k);
        let rest = v.drop_first();
        let w = increment(alpha, v);
        match successor_symbol(alpha, v[0]) {
            Some(n) => {
                lemma_rank_at(alpha, k + 1);
                assert(w.drop_first() =~= rest);
                assert(w[0] == alpha[k + 1]);
                assert(position(alpha, w) == 1 + rank(alpha, w[0]) + a * position(alpha, w.drop_first()));
            },
            None => {
                assert forall|i: int| 0 <= i < rest.len() implies alpha.contains(#[trigger] rest[i]) by {
                    assert(rest[i] == v[i + 1]);
                }
                lemma_increment_position(alpha, rest);
                lemma_rank_at(alpha, 0);
                assert(w.drop_first() =~= increment(alpha, rest));
                let p = position(alpha, rest);
                assert(a * (p + 1) == a * p + a) by (nonlinear_arith);
                assert(w[0] == alpha[0]);
                assert(k == a - 1);
                assert(position(alpha, w) == 1 + rank(alpha, w[0]) + a * position(alpha, w.drop_first()));
            },
        }
    }
}

/// Positions are never negative.
proof fn lemma_position_nonneg(alpha: Seq<char>, v: Seq<char>)
    requires
        alphabet_wf(alpha),
        value_over(alpha, v),
    ensures
        position(alpha, v) >= 0,
        v.len() > 0 ==> position(alpha, v) >= 1,
    decreases v.len(),
{
    if v.len() > 0 {
        let rest = v.drop_first();
        assert forall|i: int| 0 <= i < rest.len() implies alpha.contains(#[trigger] rest[i]) by {
            assert(rest[i] == v[i + 1]);
        }
        lemma_position_nonneg(alpha, rest);
        let k = choose|k: int| 0 <= k < alpha.len() && #[trigger] alpha[k] == v[0];
        lemma_rank_at(alpha, k);
        let a = alpha.len() as int;
        let p = position(alpha, rest);
        assert(a * p >= 0) by (nonlinear_arith)
            requires
                a >= 1,
                p >= 0,
        ;
    }
}

/// Two values over the alphabet at the same position are the same value.
pub proof fn lemma_position_injective(alpha: Seq<char>, v: Seq<char>, w: Seq<char>)
    requires
        alphabet_wf(alpha),
        value_over(alpha, v),
        value_over(alpha, w),
        position(alpha, v) == position(alpha, w),
    ensures
        v == w,
    decreases v.len(),
{
    lemma_position_nonneg(alpha, v);
    lemma_position_nonneg(alpha, w);
    if v.len() == 0 || w.len() == 0 {
        assert(v.len() == 0 && w.len() == 0);
        assert(v =~= w);
    } else {
        let rv = v.drop_first();
        let rw = w.drop_first();
        assert forall|i: int| 0 <= i < rv.len() implies alpha.contains(#[trigger] rv[i]) by {
            assert(rv[i] == v[i + 1]);
        }
        assert forall|i: int| 0 <= i < rw.len() implies alpha.contains(#[trigger] rw[i]) by {
            assert(rw[i] == w[i + 1]);
        }
        lemma_position_nonneg(alpha, rv);
        lemma_position_nonneg(alpha, rw);
        let kv = choose|k: int| 0 <= k < alpha.len() && #[trigger] alpha[k] == v[0];
        let kw = choose|k: int| 0 <= k < alpha.len() && #[trigger] alpha[k] == w[0];
        lemma_rank_at(alpha, kv);
        lemma_rank_at(alpha, kw);
        let a = alpha.len() as int;
        let pv = position(alpha, rv);
        let pw = position(alpha, rw);
        assert(kv == kw && pv == pw) by (nonlinear_arith)
            requires
                0 <= kv < a,
                0 <= kw < a,
                pv >= 0,
                pw >= 0,
                kv + a * pv == kw + a * pw,
        ;
        lemma_position_injective(alpha, rv, rw);
        assert(v =~= seq![v[0]] + rv);
        assert(w =~= seq![w[0]] + rw);
    }
}

/// `k` increments move a value `k` places up the number line, staying over the alphabet.
pub proof fn lemma_iterate_position(alpha: Seq<char>, v: Seq<char>, k: nat)
    requires
        alphabet_wf(alpha),
        value_over(alpha, v),
    ensures
        position(alpha, iterate(alpha, v, k)) == position(alpha, v) + k,
        value_over(alpha, iterate(alpha, v, k)),
    decreases k,
{
    if k > 0 {
        lemma_iterate_position(alpha, v, (k - 1) as nat);
        let u = iterate(alpha, v, (k - 1) as nat);
        lemma_increment_position(alpha, u);
        lemma_increment_length(alpha, u);
    }
}

/// From a start at or below the terminal value on the number line, repeated increments
/// reach the terminal value after exactly as many steps as the distance between their
/// positions, and not before.
pub proof fn lemma_reaches_terminal(alpha: Seq<char>, v: Seq<char>, t: Seq<char>)
    requires
        alphabet_wf(alpha),
        value_over(alpha, v),
        value_over(alpha, t),
        position(alpha, v) <= position(alpha, t),
    ensures
        iterate(alpha, v, (position(alpha, t) - position(alpha, v)) as nat) == t,
        forall|k: nat| k < position(alpha, t) - position(alpha, v) ==> #[trigger] iterate(alpha, v, k) != t,
{
    let d = (position(alpha, t) - position(alpha, v)) as nat;
    lemma_iterate_position(alpha, v, d);
    lemma_position_injective(alpha, iterate(alpha, v, d), t);
    assert forall|k: nat| k < position(alpha, t) - position(alpha, v) implies #[trigger] iterate(alpha, v, k) != t by {
        lemma_iterate_position(alpha, v, k);
    }
}

/// The values of length `n` fill the positions from the count of all shorter values up
/// to one below the count of all values of length at most `n`.
pub proof fn lemma_position_range(alpha: Seq<char>, v: Seq<char>)
    requires
        alphabet_wf(alpha),
        value_over(alpha, v),
    ensures
        span_count(alpha.len() as int, 0, v.len() - 1) <= position(alpha, v),
        position(alpha, v) <= span_count(alpha.len() as int, 0, v.len() as int) - 1,
    decreases v.len(),
{
    let a = alpha.len() as int;
    let n = v.len() as int;
    if n == 0 {
        assert(power(a, 0) == 1);
        assert(span_count(a, 1, 0) == 0);
    } else {
        let u = v.drop_first();
        assert forall|i: int| 0 <= i < u.len() implies alpha.contains(#[trigger] u[i]) by {
            assert(u[i] == v[i + 1]);
        }
        lemma_position_range(alpha, u);
        let k = choose|k: int| 0 <= k < alpha.len() && #[trigger] alpha[k] == v[0];
        lemma_rank_at(alpha, k);
        // Shorter by one: all values up to length n - 1, and up to length n.
        lemma_span_shift(a, 0, n - 2);
        lemma_span_shift(a, 0, n - 1);
        lemma_span_split(a, 0, 1, n - 1);
        lemma_span_split(a, 0, 1, n);
        assert(span_count(a, 0, 0) == 1) by {
            assert(power(a, 0) == 1);
            assert(span_count(a, 1, 0) == 0);
        }
        let p = position(alpha, u);
        let lo = span_count(a, 0, n - 2);
        let hi = span_count(a, 0, n - 1);
        assert(a * lo <= a * p && a * p <= a * (hi - 1)) by (nonlinear_arith)
            requires
                a >= 1,
                lo <= p <= hi - 1,
        ;
        assert(a * (hi - 1) == a * hi - a) by (nonlinear_arith);
    }
}

/// `size_hint`'s ceiling covers the values still to come: from a current value `v` at or
/// below the terminal value `t` on the number line, `position(t) - position(v) + 1` values
/// remain (see `lemma_reaches_terminal`), and the ceiling is at least that many unless it
/// is held at `usize::MAX`.
pub proof fn lemma_upper_bound_covers_remaining(g: DictionaryGenerator)
    requires
        g.wf(),
        g.spec_current() is Some,
        position(g.spec_alphabet(), g.spec_current()->0) <= position(
            g.spec_alphabet(),
            g.spec_terminal(),
        ),
    ensures
        ({
            let remaining = position(g.spec_alphabet(), g.spec_terminal()) - position(
                g.spec_alphabet(),
                g.spec_current()->0,
            ) + 1;
            &&& 1 <= remaining
            &&& (remaining <= g.upper_bound() || g.upper_bound() == usize::MAX)
        }),
{
    g.lemma_wf_parts();
    let alpha = g.spec_alphabet();
    let a = alpha.len() as int;
    let v = g.spec_current()->0;
    let t = g.spec_terminal();
    lemma_position_range(alpha, v);
    lemma_position_range(alpha, t);
    let lv = v.len() as int;
    let lt = t.len() as int;
    if lv > lt {
        // A longer value sits higher on the number line than every shorter one.
        lemma_span_split(a, 0, lt + 1, lv - 1);
        lemma_span_shrinks(a, lt + 1, lt + 1, lv - 1);
        assert(false);
    } else {
        lemma_span_split(a, 0, lv, lt);
    }
}

} // verus!
