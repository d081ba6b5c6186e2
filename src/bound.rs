//! The ceiling on how many values remain: the number of strings of each length from
//! the current one to the terminal one, held at `usize::MAX` when larger.

use vstd::prelude::*;

verus! {

/// `a` to the power `n`.
pub open spec fn power(a: int, n: nat) -> int
    decreases n,
{
    if n == 0 {
        1
    } else {
        a * power(a, (n - 1) as nat)
    }
}

/// The number of strings of every length from `lo` to `hi` over `a` symbols.
pub open spec fn span_count(a: int, lo: int, hi: int) -> int
    decreases hi - lo + 1,
{
    if lo > hi || lo < 0 {
        0
    } else {
        power(a, lo as nat) + span_count(a, lo + 1, hi)
    }
}

/// `x`, held at `usize::MAX` when larger.
pub open spec fn saturated(x: int) -> int {
    if x > usize::MAX {
        usize::MAX as int
    } else {
        x
    }
}

pub proof fn lemma_power_nonneg(a: int, n: nat)
    requires
        a >= 0,
    ensures
        power(a, n) >= 0,
    decreases n,
{
    if n > 0 {
        lemma_power_nonneg(a, (n - 1) as nat);
        assert(a * power(a, (n - 1) as nat) >= 0) by (nonlinear_arith)
            requires
                a >= 0,
                power(a, (n - 1) as nat) >= 0,
        ;
    }
}

/// Fewer lengths to count never give more strings.
pub proof fn lemma_span_shrinks(a: int, lo: int, lo2: int, hi: int)
    requires
        a >= 0,
        0 <= lo <= lo2,
    ensures
        0 <= span_count(a, lo2, hi) <= span_count(a, lo, hi),
    decreases hi - lo + 1,
{
    if lo > hi {
    } else if lo == lo2 {
        lemma_span_shrinks(a, lo + 1, lo + 1, hi);
        lemma_power_nonneg(a, lo as nat);
    } else {
        lemma_span_shrinks(a, lo + 1, lo2, hi);
        lemma_power_nonneg(a, lo as nat);
    }
}

/// Counting from one length higher multiplies the count by the alphabet size.
pub proof fn lemma_span_shift(a: int, lo: int, hi: int)
    requires
        lo >= 0,
    ensures
        span_count(a, lo + 1, hi + 1) == a * span_count(a, lo, hi),
    decreases hi - lo + 1,
{
    if lo <= hi {
        lemma_span_shift(a, lo + 1, hi);
        let p = power(a, lo as nat);
        let s = span_count(a, lo + 1, hi);
        assert(power(a, (lo + 1) as nat) == a * p);
        assert(a * p + a * s == a * (p + s)) by (nonlinear_arith);
    }
}

/// A count over lengths `lo..=hi` splits at any `mid` between them.
pub proof fn lemma_span_split(a: int, lo: int, mid: int, hi: int)
    requires
        0 <= lo <= mid <= hi + 1,
    ensures
        span_count(a, lo, hi) == span_count(a, lo, mid - 1) + span_count(a, mid, hi),
    decreases mid - lo,
{
    if lo < mid {
        lemma_span_split(a, lo + 1, mid, hi);
    }
}

/// `a` to the power `n`, held at `usize::MAX`.
fn saturating_power(a: usize, n: usize) -> (r: usize)
    requires
        a >= 1,
    ensures
        r == saturated(power(a as int, n as nat)),
{
    let mut p: usize = 1;
    let mut j: usize = 0;
    while j < n
        invariant
            a >= 1,
            j <= n,
            p == saturated(power(a as int, j as nat)),
        decreases n - j,
    {
        let ghost x = power(a as int, j as nat);
        proof {
            lemma_power_nonneg(a as int, j as nat);
        }
        p = match p.checked_mul(a) {
            Some(q) => q,
            None => usize::MAX,
        };
        proof {
            assert(power(a as int, (j + 1) as nat) == a * x);
            if x > usize::MAX {
                assert(a * x >= x) by (nonlinear_arith)
                    requires
                        a >= 1,
                        x >= 0,
                ;
                assert(usize::MAX * a >= usize::MAX) by (nonlinear_arith)
                    requires
                        a >= 1,
                ;
            } else {
                assert(p == saturated(a * x)) by (nonlinear_arith)
                    requires
                        a >= 1,
                        x >= 0,
                        p == saturated((x as usize) * a),
                        x <= usize::MAX,
                ;
            }
        }
        j = j + 1;
    }
    p
}

/// The number of strings of every length from `lo` to `hi` over `a` symbols, held at
/// `usize::MAX`.
pub(crate) fn saturating_span_count(a: usize, lo: usize, hi: usize) -> (r: usize)
    requires
        a >= 1,
    ensures
        r == saturated(span_count(a as int, lo as int, hi as int)),
{
    if lo > hi {
        return 0;
    }
    let mut total: usize = 0;
    let mut i: usize = hi;
    loop
        invariant_except_break
            a >= 1,
            lo <= i <= hi,
            total == saturated(span_count(a as int, i + 1, hi as int)),
        ensures
            total == saturated(span_count(a as int, lo as int, hi as int)),
        decreases i,
    {
        proof {
            lemma_power_nonneg(a as int, i as nat);
            lemma_span_shrinks(a as int, i + 1, i + 1, hi as int);
        }
        total = saturating_power(a, i).saturating_add(total);
        if i == lo {
            break;
        }
        i = i - 1;
    }
    total
}

} // verus!
