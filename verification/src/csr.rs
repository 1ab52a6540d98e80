//! The compressed sparse row (CSR) model: well-formed offsets arrays,
//! ownership of flat positions by groups, and counting functions used by
//! the incidence and adjacency contracts.

use vstd::prelude::*;

verus! {

/// A well-formed CSR offsets sequence over a values array of length `n`:
/// it starts at zero, never decreases, and its last entry is `n`.
pub open spec fn valid_offsets(off: Seq<usize>, n: int) -> bool {
    &&& off.len() >= 1
    &&& off[0] == 0
    &&& forall|i: int| 0 <= i < off.len() - 1 ==> #[trigger] off[i] <= off[i + 1]
    &&& off[off.len() - 1] as int == n
}

/// Group `e` of the offsets array `off` owns the flat position `idx`.
pub open spec fn owns(off: Seq<usize>, e: int, idx: int) -> bool {
    &&& 0 <= e < off.len() - 1
    &&& off[e] <= idx < off[e + 1]
}

/// The group owning the flat position `idx` (unique for well-formed offsets).
pub open spec fn owner_of(off: Seq<usize>, idx: int) -> int {
    choose|e: int| owns(off, e, idx)
}

/// In a sequence whose neighbouring entries never decrease below index
/// `m`, entries at `i <= j` (both below `m`) never decrease either.
pub proof fn lemma_mono_prefix(off: Seq<usize>, i: int, j: int, m: int)
    requires
        m <= off.len(),
        forall|k: int| 0 <= k < m - 1 ==> #[trigger] off[k] <= off[k + 1],
        0 <= i <= j < m,
    ensures
        off[i] <= off[j],
    decreases j - i,
{
    if i < j {
        lemma_mono_prefix(off, i, j - 1, m);
    }
}

/// Entries of a well-formed offsets array never decrease.
pub proof fn lemma_offsets_mono(off: Seq<usize>, n: int, i: int, j: int)
    requires
        valid_offsets(off, n),
        0 <= i <= j < off.len(),
    ensures
        off[i] <= off[j],
{
    lemma_mono_prefix(off, i, j, off.len() as int);
}

/// Every flat position below the total is owned by some group.
pub proof fn lemma_owner_exists(off: Seq<usize>, n: int, idx: int)
    requires
        valid_offsets(off, n),
        0 <= idx < n,
    ensures
        owns(off, owner_of(off, idx), idx),
    decreases off.len(),
{
    let len = off.len() as int;
    assert(off[len - 1] as int == n > 0);
    assert(len >= 2) by {
        if len < 2 {
            assert(off[len - 1] == off[0]);
        }
    }
    if off[len - 2] <= idx {
        assert(owns(off, len - 2, idx));
    } else {
        let sub = off.drop_last();
        assert(sub.len() == len - 1);
        assert(forall|k: int| 0 <= k < sub.len() - 1 ==> #[trigger] sub[k] <= sub[k + 1]) by {
            assert(forall|k: int| 0 <= k < sub.len() ==> #[trigger] sub[k] == off[k]);
        }
        lemma_owner_exists(sub, off[len - 2] as int, idx);
        let e = owner_of(sub, idx);
        assert(owns(sub, e, idx));
        assert(sub[e] == off[e] && sub[e + 1] == off[e + 1]);
        assert(owns(off, e, idx));
    }
}

/// A flat position is owned by at most one group.
pub proof fn lemma_owner_unique(off: Seq<usize>, n: int, e1: int, e2: int, idx: int)
    requires
        valid_offsets(off, n),
        owns(off, e1, idx),
        owns(off, e2, idx),
    ensures
        e1 == e2,
{
    if e1 < e2 {
        lemma_offsets_mono(off, n, e1 + 1, e2);
    }
    if e2 < e1 {
        lemma_offsets_mono(off, n, e2 + 1, e1);
    }
}

/// Number of positions below `n` in `s` that hold the value `v`.
pub open spec fn count_eq(s: Seq<usize>, v: int, n: int) -> int
    decreases n,
{
    if n <= 0 {
        0
    } else {
        count_eq(s, v, n - 1) + if s[n - 1] as int == v {
            1int
        } else {
            0int
        }
    }
}

/// Number of positions below `n` in `s` whose value is below `v`.
pub open spec fn count_lt(s: Seq<usize>, v: int, n: int) -> int
    decreases n,
{
    if n <= 0 {
        0
    } else {
        count_lt(s, v, n - 1) + if (s[n - 1] as int) < v {
            1int
        } else {
            0int
        }
    }
}

pub proof fn lemma_count_eq_bounds(s: Seq<usize>, v: int, n: int)
    requires
        0 <= n <= s.len(),
    ensures
        0 <= count_eq(s, v, n) <= n,
    decreases n,
{
    if n > 0 {
        lemma_count_eq_bounds(s, v, n - 1);
    }
}

pub proof fn lemma_count_lt_bounds(s: Seq<usize>, v: int, n: int)
    requires
        0 <= n <= s.len(),
    ensures
        0 <= count_lt(s, v, n) <= n,
    decreases n,
{
    if n > 0 {
        lemma_count_lt_bounds(s, v, n - 1);
    }
}

/// Counting values below `v + 1` splits into those below `v` and those equal to `v`.
pub proof fn lemma_count_lt_split(s: Seq<usize>, v: int, n: int)
    requires
        n <= s.len(),
    ensures
        count_lt(s, v + 1, n) == count_lt(s, v, n) + count_eq(s, v, n),
    decreases n,
{
    if n > 0 {
        lemma_count_lt_split(s, v, n - 1);
    }
}

/// No entry is below a non-positive bound.
pub proof fn lemma_count_lt_nonpos(s: Seq<usize>, v: int, n: int)
    requires
        n <= s.len(),
        v <= 0,
    ensures
        count_lt(s, v, n) == 0,
    decreases n,
{
    if n > 0 {
        lemma_count_lt_nonpos(s, v, n - 1);
    }
}

pub proof fn lemma_count_lt_mono(s: Seq<usize>, v: int, w: int, n: int)
    requires
        n <= s.len(),
        v <= w,
    ensures
        count_lt(s, v, n) <= count_lt(s, w, n),
    decreases n,
{
    if n > 0 {
        lemma_count_lt_mono(s, v, w, n - 1);
    }
}

pub proof fn lemma_count_eq_mono(s: Seq<usize>, v: int, n: int, m: int)
    requires
        0 <= n <= m <= s.len(),
    ensures
        count_eq(s, v, n) <= count_eq(s, v, m),
    decreases m,
{
    if n < m {
        lemma_count_eq_mono(s, v, n, m - 1);
    }
}

/// When every entry below `n` is below `v`, all of them are counted.
pub proof fn lemma_count_lt_all(s: Seq<usize>, v: int, n: int)
    requires
        0 <= n <= s.len(),
        forall|i: int| 0 <= i < n ==> (#[trigger] s[i] as int) < v,
    ensures
        count_lt(s, v, n) == n,
    decreases n,
{
    if n > 0 {
        lemma_count_lt_all(s, v, n - 1);
    }
}

/// When no entry below `n` equals `v`, none is counted.
pub proof fn lemma_count_eq_absent(s: Seq<usize>, v: int, n: int)
    requires
        n <= s.len(),
        forall|i: int| 0 <= i < n ==> (#[trigger] s[i] as int) != v,
    ensures
        count_eq(s, v, n) == 0,
    decreases n,
{
    if n > 0 {
        lemma_count_eq_absent(s, v, n - 1);
    }
}

/// Counting depends only on the entries below `n`.
pub proof fn lemma_count_eq_prefix(s1: Seq<usize>, s2: Seq<usize>, v: int, n: int)
    requires
        n <= s1.len(),
        n <= s2.len(),
        forall|i: int| 0 <= i < n ==> s1[i] == s2[i],
    ensures
        count_eq(s1, v, n) == count_eq(s2, v, n),
    decreases n,
{
    if n > 0 {
        lemma_count_eq_prefix(s1, s2, v, n - 1);
    }
}

/// Number of positions in `[lo, hi)` of `s` that hold the value `v`.
pub open spec fn count_eq_range(s: Seq<usize>, v: int, lo: int, hi: int) -> int
    decreases hi - lo,
{
    if hi <= lo {
        0
    } else {
        count_eq_range(s, v, lo, hi - 1) + if s[hi - 1] as int == v {
            1int
        } else {
            0int
        }
    }
}

/// A positive count is equivalent to the value occurring.
pub proof fn lemma_count_eq_exists(s: Seq<usize>, v: int, n: int)
    requires
        n <= s.len(),
    ensures
        count_eq(s, v, n) > 0 <==> exists|i: int| 0 <= i < n && (#[trigger] s[i] as int) == v,
    decreases n,
{
    if n > 0 {
        lemma_count_eq_exists(s, v, n - 1);
        if s[n - 1] as int == v {
            assert(0 <= n - 1 < n && s[n - 1] as int == v);
        }
        lemma_count_eq_bounds(s, v, n - 1);
    }
}

/// A positive range count is equivalent to the value occurring in the range.
pub proof fn lemma_count_eq_range_exists(s: Seq<usize>, v: int, lo: int, hi: int)
    requires
        0 <= lo,
        hi <= s.len(),
    ensures
        count_eq_range(s, v, lo, hi) > 0 <==> exists|i: int|
            lo <= i < hi && (#[trigger] s[i] as int) == v,
    decreases hi - lo,
{
    if hi > lo {
        lemma_count_eq_range_exists(s, v, lo, hi - 1);
        if s[hi - 1] as int == v {
            assert(lo <= hi - 1 < hi && s[hi - 1] as int == v);
        }
        lemma_count_eq_range_nonneg(s, v, lo, hi - 1);
    }
}

pub proof fn lemma_count_eq_range_nonneg(s: Seq<usize>, v: int, lo: int, hi: int)
    ensures
        count_eq_range(s, v, lo, hi) >= 0,
    decreases hi - lo,
{
    if hi > lo {
        lemma_count_eq_range_nonneg(s, v, lo, hi - 1);
    }
}

/// The sequence `s` has the value `x` at some position.
pub open spec fn seq_has(s: Seq<usize>, x: int) -> bool {
    exists|i: int| 0 <= i < s.len() && (#[trigger] s[i] as int) == x
}

/// Entries of `s` grow strictly from left to right.
pub open spec fn strictly_increasing(s: Seq<usize>) -> bool {
    forall|i: int, j: int| #![trigger s[i], s[j]] 0 <= i < j < s.len() ==> s[i] < s[j]
}

/// Two strictly increasing sequences holding the same values are equal.
pub proof fn lemma_sorted_unique(a: Seq<usize>, b: Seq<usize>)
    requires
        strictly_increasing(a),
        strictly_increasing(b),
        forall|x: int| seq_has(a, x) <==> seq_has(b, x),
    ensures
        a == b,
    decreases a.len(),
{
    if a.len() == 0 {
        if b.len() > 0 {
            assert(seq_has(b, b[0] as int));
            assert(seq_has(a, b[0] as int));
        }
        assert(a =~= b);
    } else {
        assert(seq_has(a, a[a.len() - 1] as int));
        assert(seq_has(b, a[a.len() - 1] as int));
        assert(b.len() > 0);
        assert(seq_has(a, b[b.len() - 1] as int));
        // the last entry of each is its maximum, and the sets agree
        let la = a[a.len() - 1];
        let lb = b[b.len() - 1];
        assert(la <= lb) by {
            let i = choose|i: int| 0 <= i < b.len() && (#[trigger] b[i] as int) == la as int;
            if i < b.len() - 1 {
                assert(b[i] < b[b.len() - 1]);
            }
        }
        assert(lb <= la) by {
            let i = choose|i: int| 0 <= i < a.len() && (#[trigger] a[i] as int) == lb as int;
            if i < a.len() - 1 {
                assert(a[i] < a[a.len() - 1]);
            }
        }
        let a1 = a.drop_last();
        let b1 = b.drop_last();
        assert forall|x: int| seq_has(a1, x) <==> seq_has(b1, x) by {
            if seq_has(a1, x) {
                let i = choose|i: int| 0 <= i < a1.len() && (#[trigger] a1[i] as int) == x;
                assert(a1[i] == a[i]);
                assert(a[i] < la);
                assert(seq_has(a, x));
                let j = choose|j: int| 0 <= j < b.len() && (#[trigger] b[j] as int) == x;
                assert(j < b.len() - 1);
                assert(b1[j] == b[j]);
                assert(seq_has(b1, x));
            }
            if seq_has(b1, x) {
                let i = choose|i: int| 0 <= i < b1.len() && (#[trigger] b1[i] as int) == x;
                assert(b1[i] == b[i]);
                assert(b[i] < lb);
                assert(seq_has(b, x));
                let j = choose|j: int| 0 <= j < a.len() && (#[trigger] a[j] as int) == x;
                assert(j < a.len() - 1);
                assert(a1[j] == a[j]);
                assert(seq_has(a1, x));
            }
        }
        assert(strictly_increasing(a1)) by {
            assert(forall|i: int, j: int| #![trigger a1[i], a1[j]] 0 <= i < j < a1.len() ==> a[i]
                < a[j]);
        }
        assert(strictly_increasing(b1)) by {
            assert(forall|i: int, j: int| #![trigger b1[i], b1[j]] 0 <= i < j < b1.len() ==> b[i]
                < b[j]);
        }
        lemma_sorted_unique(a1, b1);
        assert(a =~= b) by {
            assert(a.len() == a1.len() + 1 && b.len() == b1.len() + 1);
            assert(forall|i: int| 0 <= i < a.len() - 1 ==> a[i] == a1[i] && b[i] == b1[i]);
        }
    }
}

} // verus!
