//! Building an alphabet from arbitrary text, and stepping through it.

use vstd::prelude::*;
use vstd::string::*;
use crate::odometer::{strictly_ascending, successor_symbol};

verus! {

broadcast use vstd::utf8::char_u32_cast;

/// The distinct symbols of `s`, in ascending code-point order.
pub fn sorted_alphabet(s: &str) -> (r: Vec<char>)
    ensures
        strictly_ascending(r@),
        forall|c: char| r@.contains(c) <==> s@.contains(c),
{
    let n = s.unicode_len();
    let mut alpha: Vec<char> = Vec::new();
    let mut i: usize = 0;
    while i < n
        invariant
            n == s@.len(),
            i <= n,
            strictly_ascending(alpha@),
            forall|c: char| alpha@.contains(c) <==> s@.subrange(0, i as int).contains(c),
        decreases n - i,
    {
        let c = s.get_char(i);
        let mut j: usize = 0;
        while j < alpha.len() && (alpha[j] as u32) < (c as u32)
            invariant
                j <= alpha.len(),
                forall|k: int| 0 <= k < j ==> (#[trigger] alpha@[k] as u32) < (c as u32),
            decreases alpha.len() - j,
        {
            j = j + 1;
        }
        let ghost before = alpha@;
        if j < alpha.len() && alpha[j] == c {
            assert(alpha@[j as int] == c);
            assert forall|x: char| alpha@.contains(x) <==> (before.contains(x) || x == c) by {
                if x == c {
                    assert(alpha@[j as int] == x);
                }
            }
        } else {
            alpha.insert(j, c);
            assert(strictly_ascending(alpha@)) by {
                assert forall|a: int, b: int| 0 <= a < b < alpha@.len() implies
                    (#[trigger] alpha@[a] as u32) < (#[trigger] alpha@[b] as u32) by {
                    if b < j {
                        assert(alpha@[a] == before[a] && alpha@[b] == before[b]);
                    } else if a > j {
                        assert(alpha@[a] == before[a - 1] && alpha@[b] == before[b - 1]);
                    } else if a < j && b == j {
                        assert(alpha@[a] == before[a]);
                    } else if a < j {
                        assert(alpha@[a] == before[a] && alpha@[b] == before[b - 1]);
                    } else {
                        assert(alpha@[b] == before[b - 1]);
                        assert(before[j as int] != c);
                        vstd::utf8::char_u32_cast(before[j as int], before[j as int] as u32);
                        vstd::utf8::char_u32_cast(c, c as u32);
                        if b - 1 > j {
                            assert((before[j as int] as u32) < (before[b - 1] as u32));
                        }
                    }
                }
            }
            assert forall|x: char| alpha@.contains(x) <==> (before.contains(x) || x == c) by {
                if alpha@.contains(x) {
                    let k = choose|k: int| 0 <= k < alpha@.len() && #[trigger] alpha@[k] == x;
                    if k < j {
                        assert(before[k] == x);
                    } else if k > j {
                        assert(before[k - 1] == x);
                    }
                }
                if before.contains(x) {
                    let k = choose|k: int| 0 <= k < before.len() && #[trigger] before[k] == x;
                    if k < j {
                        assert(alpha@[k] == x);
                    } else {
                        assert(alpha@[k + 1] == x);
                    }
                }
                if x == c {
                    assert(alpha@[j as int] == x);
                }
            }
        }
        let ghost p0 = s@.subrange(0, i as int);
        let ghost p1 = s@.subrange(0, i + 1);
        assert(p1 =~= p0.push(c));
        assert forall|x: char| p1.contains(x) <==> (p0.contains(x) || x == c) by {
            if p1.contains(x) {
                let k = choose|k: int| 0 <= k < p1.len() && #[trigger] p1[k] == x;
                if k < i {
                    assert(p0[k] == x);
                }
            }
            if p0.contains(x) {
                let k = choose|k: int| 0 <= k < p0.len() && #[trigger] p0[k] == x;
                assert(p1[k] == x);
            }
            if x == c {
                assert(p1[i as int] == x);
            }
        }
        assert forall|x: char| alpha@.contains(x) <==> p1.contains(x) by {
            assert(alpha@.contains(x) <==> (before.contains(x) || x == c));
            assert(before.contains(x) <==> p0.contains(x));
            assert(p1.contains(x) <==> (p0.contains(x) || x == c));
        }
        i = i + 1;
    }
    assert(s@.subrange(0, n as int) == s@);
    alpha
}

/// Within a strictly ascending alphabet, the successor of the symbol at position `k`
/// is the symbol at `k + 1`, and the last symbol has none.
pub proof fn lemma_successor_at(alpha: Seq<char>, k: int)
    requires
        strictly_ascending(alpha),
        0 <= k < alpha.len(),
    ensures
        successor_symbol(alpha, alpha[k]) == (if k + 1 < alpha.len() {
            Some(alpha[k + 1])
        } else {
            None::<char>
        }),
    decreases alpha.len(),
{
    if alpha.len() >= 2 && k > 0 {
        assert((alpha[0] as u32) < (alpha[k] as u32));
        let rest = alpha.drop_first();
        assert(rest[k - 1] == alpha[k]);
        lemma_successor_at(rest, k - 1);
    }
}

/// A symbol absent from the alphabet has no successor.
pub proof fn lemma_successor_absent(alpha: Seq<char>, c: char)
    requires
        !alpha.contains(c),
    ensures
        successor_symbol(alpha, c) is None,
    decreases alpha.len(),
{
    if alpha.len() >= 2 {
        assert(alpha[0] != c);
        let rest = alpha.drop_first();
        assert forall|i: int| 0 <= i < rest.len() implies rest[i] != c by {
            assert(rest[i] == alpha[i + 1]);
        }
        lemma_successor_absent(rest, c);
    }
}

/// The successor of `c` in `alpha`, found by a scan.
pub(crate) fn next_symbol(alpha: &Vec<char>, c: char) -> (r: Option<char>)
    requires
        strictly_ascending(alpha@),
    ensures
        r == successor_symbol(alpha@, c),
{
    let mut i: usize = 0;
    while i < alpha.len()
        invariant
            i <= alpha.len(),
            strictly_ascending(alpha@),
            forall|k: int| 0 <= k < i ==> alpha@[k] != c,
        decreases alpha.len() - i,
    {
        if alpha[i] == c {
            proof {
                lemma_successor_at(alpha@, i as int);
            }
            if i + 1 < alpha.len() {
                return Some(alpha[i + 1]);
            } else {
                return None;
            }
        }
        i = i + 1;
    }
    proof {
        lemma_successor_absent(alpha@, c);
    }
    None
}

} // verus!
