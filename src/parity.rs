//! How the inversion count changes when entries exchange places: the
//! arithmetic behind the parity test.

use vstd::prelude::*;

use crate::board::{count_above, inversions, swap_cells};

verus! {

/// The change of the inversion count when adjacent entries `x` (first) and
/// `y` exchange places, the marker `e` taking no part in inversions.
pub open spec fn adjacent_swap_delta(x: int, y: int, e: int) -> int {
    if x == e || y == e {
        0
    } else if x < y {
        1
    } else if x > y {
        -1
    } else {
        0
    }
}

/// No value occurs twice in `s`.
pub open spec fn all_distinct(s: Seq<int>) -> bool {
    forall|a: int, b: int|
        0 <= a < s.len() && 0 <= b < s.len() && a != b ==> #[trigger] s[a] != #[trigger] s[b]
}

/// Exchanging two entries keeps the entries distinct.
pub proof fn lemma_swap_distinct(s: Seq<int>, p: int, q: int)
    requires
        all_distinct(s),
        0 <= p < s.len(),
        0 <= q < s.len(),
    ensures
        all_distinct(swap_cells(s, p, q)),
        swap_cells(s, p, q).len() == s.len(),
{
    let w = swap_cells(s, p, q);
    let from = |k: int|
        if k == p {
            q
        } else if k == q {
            p
        } else {
            k
        };
    assert forall|a: int, b: int| 0 <= a < w.len() && 0 <= b < w.len() && a != b implies #[trigger] w[a]
        != #[trigger] w[b] by {
        assert(w[a] == s[from(a)]);
        assert(w[b] == s[from(b)]);
    }
}

/// Reordering two adjacent entries of `t` does not change how many exceed `v`.
pub proof fn lemma_count_above_adjacent_swap(t: Seq<int>, k: int, v: int, e: int)
    requires
        0 <= k,
        k + 1 < t.len(),
    ensures
        count_above(swap_cells(t, k, k + 1), v, e) == count_above(t, v, e),
    decreases t.len(),
{
    let w = swap_cells(t, k, k + 1);
    if t.len() > k + 2 {
        assert(w.drop_last() =~= swap_cells(t.drop_last(), k, k + 1));
        lemma_count_above_adjacent_swap(t.drop_last(), k, v, e);
    } else {
        let p = t.take(k);
        let x = t[k];
        let y = t[k + 1];
        assert(t =~= p.push(x).push(y));
        assert(w =~= p.push(y).push(x));
        assert(p.push(x).push(y).drop_last() =~= p.push(x));
        assert(p.push(y).push(x).drop_last() =~= p.push(y));
        assert(p.push(x).drop_last() =~= p);
        assert(p.push(y).drop_last() =~= p);
        assert(count_above(p.push(x), v, e) == count_above(p, v, e) + if x != e && x > v {
            1nat
        } else {
            0nat
        });
        assert(count_above(p.push(y), v, e) == count_above(p, v, e) + if y != e && y > v {
            1nat
        } else {
            0nat
        });
    }
}

/// Exchanging adjacent entries changes the inversion count by
/// `adjacent_swap_delta`.
pub proof fn lemma_inversions_adjacent_swap(s: Seq<int>, k: int, e: int)
    requires
        0 <= k,
        k + 1 < s.len(),
    ensures
        inversions(swap_cells(s, k, k + 1), e) == inversions(s, e) + adjacent_swap_delta(
            s[k],
            s[k + 1],
            e,
        ),
    decreases s.len(),
{
    let w = swap_cells(s, k, k + 1);
    if s.len() > k + 2 {
        assert(w.drop_last() =~= swap_cells(s.drop_last(), k, k + 1));
        assert(w.last() == s.last());
        lemma_inversions_adjacent_swap(s.drop_last(), k, e);
        lemma_count_above_adjacent_swap(s.drop_last(), k, s.last(), e);
    } else {
        let p = s.take(k);
        let x = s[k];
        let y = s[k + 1];
        assert(s =~= p.push(x).push(y));
        assert(w =~= p.push(y).push(x));
        assert(p.push(x).push(y).drop_last() =~= p.push(x));
        assert(p.push(y).push(x).drop_last() =~= p.push(y));
        assert(p.push(x).drop_last() =~= p);
        assert(p.push(y).drop_last() =~= p);
        assert(count_above(p.push(x), y, e) == count_above(p, y, e) + if x != e && x > y {
            1nat
        } else {
            0nat
        });
        assert(count_above(p.push(y), x, e) == count_above(p, x, e) + if y != e && y > x {
            1nat
        } else {
            0nat
        });
        assert(inversions(p.push(x), e) == inversions(p, e) + if x != e {
            count_above(p, x, e)
        } else {
            0nat
        });
        assert(inversions(p.push(y), e) == inversions(p, e) + if y != e {
            count_above(p, y, e)
        } else {
            0nat
        });
        assert(inversions(s, e) == inversions(p.push(x), e) + if y != e {
            count_above(p.push(x), y, e)
        } else {
            0nat
        });
        assert(inversions(w, e) == inversions(p.push(y), e) + if x != e {
            count_above(p.push(y), x, e)
        } else {
            0nat
        });
    }
}

/// Exchanging the entry at `p` with the marker at a later position `q`
/// changes the parity of the inversion count by `q - p - 1`.
pub proof fn lemma_swap_with_later_marker(s: Seq<int>, p: int, q: int, e: int)
    requires
        0 <= p < q < s.len(),
        s[q] == e,
        all_distinct(s),
    ensures
        (inversions(swap_cells(s, p, q), e) + (q - p - 1)) % 2 == inversions(s, e) % 2,
    decreases q - p,
{
    lemma_inversions_adjacent_swap(s, q - 1, e);
    if q == p + 1 {
    } else {
        let s1 = swap_cells(s, q - 1, q);
        lemma_swap_distinct(s, q - 1, q);
        lemma_swap_with_later_marker(s1, p, q - 1, e);
        let s2 = swap_cells(s1, p, q - 1);
        lemma_swap_distinct(s1, p, q - 1);
        lemma_inversions_adjacent_swap(s2, q - 1, e);
        assert(s2[q - 1] == s[p] && s2[q] == s[q - 1]);
        assert(s[p] != e && s[q - 1] != e && s[p] != s[q - 1]);
        assert(swap_cells(s2, q - 1, q) =~= swap_cells(s, p, q));
    }
}

/// Exchanging the marker at `q` with the entry at a later position `p`
/// changes the parity of the inversion count by `p - q - 1`.
pub proof fn lemma_swap_with_earlier_marker(s: Seq<int>, q: int, p: int, e: int)
    requires
        0 <= q < p < s.len(),
        s[q] == e,
        all_distinct(s),
    ensures
        (inversions(swap_cells(s, q, p), e) + (p - q - 1)) % 2 == inversions(s, e) % 2,
    decreases p - q,
{
    lemma_inversions_adjacent_swap(s, q, e);
    if p == q + 1 {
    } else {
        let s1 = swap_cells(s, q, q + 1);
        lemma_swap_distinct(s, q, q + 1);
        lemma_swap_with_earlier_marker(s1, q + 1, p, e);
        let s2 = swap_cells(s1, q + 1, p);
        lemma_swap_distinct(s1, q + 1, p);
        lemma_inversions_adjacent_swap(s2, q, e);
        assert(s2[q] == s[q + 1] && s2[q + 1] == s[p]);
        assert(s[p] != e && s[q + 1] != e && s[p] != s[q + 1]);
        assert(swap_cells(s2, q, q + 1) =~= swap_cells(s, q, p));
    }
}

} // verus!
