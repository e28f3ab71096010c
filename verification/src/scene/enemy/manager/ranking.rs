//! Ranking of candidates under a strict total order: the position a
//! candidate takes once the list is sorted.  Two orders are used by the
//! blob passes: descending score with ties in list order (a stable sort),
//! and descending score with ties by grid position.
use vstd::prelude::*;
use vstd::set_lib::{set_int_range, lemma_int_range, lemma_map_size, lemma_subset_equality};
use crate::scene::enemy::behaviors::blob::{GridPos, pos_lt, pos_less};

verus! {

/// `before` strictly and totally orders the indices `0..n`.
pub open spec fn strict_total_order(before: spec_fn(int, int) -> bool, n: int) -> bool {
    &&& forall|i: int| 0 <= i < n ==> !#[trigger] before(i, i)
    &&& forall|i: int, j: int, k: int|
        0 <= i < n && 0 <= j < n && 0 <= k < n && #[trigger] before(i, j) && #[trigger] before(j, k)
            ==> before(i, k)
    &&& forall|i: int, j: int| 0 <= i < n && 0 <= j < n && i != j ==> #[trigger] before(i, j) || before(j, i)
}

/// How many of the indices below `m` come before index `i`.
pub open spec fn count_before(before: spec_fn(int, int) -> bool, i: int, m: int) -> nat
    decreases m,
{
    if m <= 0 {
        0
    } else {
        count_before(before, i, m - 1) + if before(m - 1, i) { 1nat } else { 0nat }
    }
}

/// Position of index `i` once `0..n` is sorted by `before`.
pub open spec fn rank_in(before: spec_fn(int, int) -> bool, n: int, i: int) -> nat {
    count_before(before, i, n)
}

proof fn lemma_count_bound(before: spec_fn(int, int) -> bool, n: int, i: int, m: int)
    requires
        0 <= m <= n,
        strict_total_order(before, n),
    ensures
        count_before(before, i, m) <= m,
        0 <= i < m ==> count_before(before, i, m) <= m - 1,
    decreases m,
{
    if m > 0 {
        lemma_count_bound(before, n, i, m - 1);
    }
}

proof fn lemma_count_dominates(before: spec_fn(int, int) -> bool, n: int, i: int, j: int, m: int)
    requires
        0 <= m <= n,
        0 <= i < n,
        0 <= j < n,
        strict_total_order(before, n),
        before(j, i),
    ensures
        count_before(before, i, m) >= count_before(before, j, m) + if 0 <= j < m { 1int } else { 0int },
    decreases m,
{
    if m > 0 {
        lemma_count_dominates(before, n, i, j, m - 1);
        let x = m - 1;
        if before(x, j) {
            assert(before(x, i));
        }
    }
}

/// Ranks lie below `n` and no two indices share one.
pub proof fn lemma_rank_injective(before: spec_fn(int, int) -> bool, n: int, i: int, j: int)
    requires
        strict_total_order(before, n),
        0 <= i < n,
        0 <= j < n,
    ensures
        rank_in(before, n, i) < n,
        i != j ==> rank_in(before, n, i) != rank_in(before, n, j),
{
    lemma_count_bound(before, n, i, n);
    if i != j {
        if before(j, i) {
            lemma_count_dominates(before, n, i, j, n);
        } else {
            assert(before(i, j));
            lemma_count_dominates(before, n, j, i, n);
        }
    }
}

/// Every position `k < n` is the rank of some index.
pub proof fn lemma_rank_onto(before: spec_fn(int, int) -> bool, n: int, k: int)
    requires
        strict_total_order(before, n),
        0 <= k < n,
    ensures
        exists|i: int| 0 <= i < n && rank_in(before, n, i) == k,
{
    let x = set_int_range(0, n);
    let f = |i: int| rank_in(before, n, i) as int;
    lemma_int_range(0, n);
    assert(vstd::relations::injective_on(f, x)) by {
        assert forall|a: int, b: int| x.contains(a) && x.contains(b) && #[trigger] f(a) == #[trigger] f(b)
            implies a == b by {
            lemma_rank_injective(before, n, a, b);
        }
    }
    let y = x.map(f);
    lemma_map_size(x, y, f);
    assert(y.subset_of(x)) by {
        assert forall|r: int| y.contains(r) implies x.contains(r) by {
            let a = choose|a: int| x.contains(a) && f(a) == r;
            lemma_rank_injective(before, n, a, a);
        }
    }
    lemma_subset_equality(y, x);
    assert(x.contains(k));
    assert(y.contains(k));
    let a = choose|a: int| x.contains(a) && f(a) == k;
    assert(0 <= a < n && rank_in(before, n, a) == k);
}

/// Candidate `j` comes before candidate `i` in a stable sort by
/// descending score.
pub open spec fn precedes(s: Seq<i32>, j: int, i: int) -> bool {
    s[j] > s[i] || (s[j] == s[i] && j < i)
}

/// Position of candidate `i` once the scores are stably sorted in
/// descending order.
pub open spec fn stable_rank(s: Seq<i32>, i: int) -> nat {
    rank_in(|j: int, k: int| precedes(s, j, k), s.len() as int, i)
}

proof fn lemma_precedes_total(s: Seq<i32>)
    ensures
        strict_total_order(|j: int, k: int| precedes(s, j, k), s.len() as int),
{
}

/// The candidate at position `k` of the scores stably sorted in
/// descending order.
pub fn select_ranked(scores: &Vec<i32>, k: usize) -> (i: usize)
    requires
        k < scores.len(),
    ensures
        i < scores.len(),
        stable_rank(scores@, i as int) == k,
{
    let ghost before = |j: int, m: int| precedes(scores@, j, m);
    let ghost n = scores@.len() as int;
    proof {
        lemma_precedes_total(scores@);
        lemma_rank_onto(before, n, k as int);
    }
    let mut i: usize = 0;
    while i < scores.len()
        invariant
            before == (|j: int, m: int| precedes(scores@, j, m)),
            n == scores@.len(),
            strict_total_order(before, n),
            k < scores.len(),
            i <= scores.len(),
            forall|j: int| 0 <= j < i ==> rank_in(before, n, j) != k,
            exists|j: int| 0 <= j < n && rank_in(before, n, j) == k,
        decreases scores.len() - i,
    {
        let mut count: usize = 0;
        let mut j: usize = 0;
        while j < scores.len()
            invariant
                before == (|j: int, m: int| precedes(scores@, j, m)),
                n == scores@.len(),
                strict_total_order(before, n),
                i < scores.len(),
                j <= scores.len(),
                count == count_before(before, i as int, j as int),
            decreases scores.len() - j,
        {
            proof {
                lemma_count_bound(before, n, i as int, j as int);
            }
            if scores[j] > scores[i] || (scores[j] == scores[i] && j < i) {
                count = count + 1;
            }
            j = j + 1;
        }
        if count == k {
            return i;
        }
        i = i + 1;
    }
    proof {
        let j = choose|j: int| 0 <= j < n && rank_in(before, n, j) == k;
        assert(false);
    }
    0
}

/// Candidate `j` comes before candidate `i` when ranking by descending
/// score, then by ascending grid position.
pub open spec fn key_precedes(c: Seq<(GridPos, i32)>, j: int, i: int) -> bool {
    c[j].1 > c[i].1 || (c[j].1 == c[i].1 && pos_lt(c[j].0, c[i].0))
}

/// Position of candidate `i` once the candidates are sorted by descending
/// score, then ascending position.
pub open spec fn keyed_rank(c: Seq<(GridPos, i32)>, i: int) -> nat {
    rank_in(|j: int, k: int| key_precedes(c, j, k), c.len() as int, i)
}

/// No two candidates share a position.
pub open spec fn distinct_positions(c: Seq<(GridPos, i32)>) -> bool {
    forall|i: int, j: int| 0 <= i < c.len() && 0 <= j < c.len() && i != j ==> c[i].0 != c[j].0
}

proof fn lemma_key_precedes_total(c: Seq<(GridPos, i32)>)
    requires
        distinct_positions(c),
    ensures
        strict_total_order(|j: int, k: int| key_precedes(c, j, k), c.len() as int),
{
}

/// The candidate at position `k` once the candidates are sorted by
/// descending score, then ascending position.
pub fn select_keyed(cands: &Vec<(GridPos, i32)>, k: usize) -> (i: usize)
    requires
        k < cands.len(),
        distinct_positions(cands@),
    ensures
        i < cands.len(),
        keyed_rank(cands@, i as int) == k,
{
    let ghost before = |j: int, m: int| key_precedes(cands@, j, m);
    let ghost n = cands@.len() as int;
    proof {
        lemma_key_precedes_total(cands@);
        lemma_rank_onto(before, n, k as int);
    }
    let mut i: usize = 0;
    while i < cands.len()
        invariant
            before == (|j: int, m: int| key_precedes(cands@, j, m)),
            n == cands@.len(),
            strict_total_order(before, n),
            k < cands.len(),
            i <= cands.len(),
            forall|j: int| 0 <= j < i ==> rank_in(before, n, j) != k,
            exists|j: int| 0 <= j < n && rank_in(before, n, j) == k,
        decreases cands.len() - i,
    {
        let mut count: usize = 0;
        let mut j: usize = 0;
        while j < cands.len()
            invariant
                before == (|j: int, m: int| key_precedes(cands@, j, m)),
                n == cands@.len(),
                strict_total_order(before, n),
                i < cands.len(),
                j <= cands.len(),
                count == count_before(before, i as int, j as int),
            decreases cands.len() - j,
        {
            proof {
                lemma_count_bound(before, n, i as int, j as int);
            }
            let (pj, sj) = cands[j];
            let (pi, si) = cands[i];
            if sj > si || (sj == si && pos_less(pj, pi)) {
                count = count + 1;
            }
            j = j + 1;
        }
        if count == k {
            return i;
        }
        i = i + 1;
    }
    proof {
        let j = choose|j: int| 0 <= j < n && rank_in(before, n, j) == k;
        assert(false);
    }
    0
}

/// In a stable sort by descending score, a higher score, or an equal
/// score earlier in the list, comes first.
pub proof fn lemma_stable_rank_order(s: Seq<i32>, i: int, j: int)
    requires
        0 <= i < s.len(),
        0 <= j < s.len(),
        s[j] > s[i] || (s[j] == s[i] && j < i),
    ensures
        stable_rank(s, j) < stable_rank(s, i),
{
    lemma_precedes_total(s);
    lemma_count_dominates(|a: int, b: int| precedes(s, a, b), s.len() as int, i, j, s.len() as int);
}

/// In a sort by descending score then ascending position, a higher
/// score, or an equal score at a smaller position, comes first.
pub proof fn lemma_keyed_rank_order(c: Seq<(GridPos, i32)>, i: int, j: int)
    requires
        distinct_positions(c),
        0 <= i < c.len(),
        0 <= j < c.len(),
        c[j].1 > c[i].1 || (c[j].1 == c[i].1 && pos_lt(c[j].0, c[i].0)),
    ensures
        keyed_rank(c, j) < keyed_rank(c, i),
{
    lemma_key_precedes_total(c);
    lemma_count_dominates(|a: int, b: int| key_precedes(c, a, b), c.len() as int, i, j, c.len() as int);
}

} // verus!
