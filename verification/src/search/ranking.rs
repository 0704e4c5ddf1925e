//! Ranking hits by score. Scores are floating point where they are
//! computed; ranking sees each as an unsigned key that orders the same
//! way, and keeps the best `limit` positions, highest key first, earlier
//! positions first among equal keys (a stable sort, then a cut).
use vstd::prelude::*;

verus! {

/// Position `a` ranks before position `b`: a higher key, or an equal key
/// and an earlier position.
pub open spec fn ranks_before(keys: Seq<u64>, a: int, b: int) -> bool {
    keys[a] > keys[b] || (keys[a] == keys[b] && a < b)
}

/// `r` is the ranking of `keys` cut to `limit`: the first
/// `min(limit, keys.len())` positions in ranking order, every position
/// left out ranking after every position kept.
pub open spec fn is_ranking(keys: Seq<u64>, r: Seq<int>, limit: int) -> bool {
    &&& r.len() == (if limit < keys.len() { limit } else { keys.len() as int })
    &&& forall|i: int| 0 <= i < r.len() ==> 0 <= #[trigger] r[i] < keys.len()
    &&& forall|i: int, j: int| 0 <= i < j < r.len() ==> ranks_before(keys, r[i], r[j])
    &&& forall|i: int, x: int|
        #![trigger r[i], r.contains(x)]
        0 <= i < r.len() && 0 <= x < keys.len() && !r.contains(x) ==> ranks_before(keys, r[i], x)
}

/// A ranking cut to `limit` is unique: two of them agree.
pub proof fn lemma_ranking_unique(keys: Seq<u64>, r1: Seq<int>, r2: Seq<int>, limit: int)
    requires
        0 <= limit,
        is_ranking(keys, r1, limit),
        is_ranking(keys, r2, limit),
    ensures
        r1 == r2,
{
    assert forall|k: int| 0 <= k < r1.len() implies r1[k] == r2[k] by {
        lemma_ranking_prefix_agrees(keys, r1, r2, limit, k);
    }
    assert(r1 =~= r2);
}

proof fn lemma_ranking_prefix_agrees(keys: Seq<u64>, r1: Seq<int>, r2: Seq<int>, limit: int, k: int)
    requires
        0 <= limit,
        is_ranking(keys, r1, limit),
        is_ranking(keys, r2, limit),
        0 <= k < r1.len(),
    ensures
        r1[k] == r2[k],
    decreases k,
{
    if k > 0 {
        lemma_ranking_prefix_agrees(keys, r1, r2, limit, k - 1);
    }
    assert forall|m: int| 0 <= m < k implies r1[m] == r2[m] by {
        if m < k {
            lemma_ranking_prefix_agrees(keys, r1, r2, limit, m);
        }
    }
    let a = r1[k];
    let b = r2[k];
    if a != b {
        // `b` is not among the first `k` of `r1` (those are `r2`'s, and
        // `r2` has no repeats), so it is later in `r1` or left out: either
        // way `a` ranks before `b`; symmetrically `b` ranks before `a`.
        assert(ranks_before(keys, a, b)) by {
            if r1.contains(b) {
                let j = choose|j: int| 0 <= j < r1.len() && r1[j] == b;
                if j < k {
                    assert(r2[j] == b);
                    assert(ranks_before(keys, r2[j], r2[k]));
                } else {
                    assert(j != k);
                }
            }
        }
        assert(ranks_before(keys, b, a)) by {
            if r2.contains(a) {
                let j = choose|j: int| 0 <= j < r2.len() && r2[j] == a;
                if j < k {
                    assert(r1[j] == a);
                    assert(ranks_before(keys, r1[j], r1[k]));
                } else {
                    assert(j != k);
                }
            }
        }
    }
}

/// A repeat-free sequence of positions below `n` that is shorter than `n`
/// misses one of them.
proof fn lemma_missing_position(r: Seq<int>, n: int)
    requires
        r.no_duplicates(),
        forall|i: int| 0 <= i < r.len() ==> 0 <= #[trigger] r[i] < n,
        r.len() < n,
    ensures
        exists|x: int| 0 <= x < n && !r.contains(x),
{
    vstd::set_lib::lemma_int_range(0, n);
    r.unique_seq_to_set();
    if forall|x: int| 0 <= x < n ==> r.contains(x) {
        assert(vstd::set_lib::set_int_range(0, n).subset_of(r.to_set()));
        vstd::set_lib::lemma_len_subset(vstd::set_lib::set_int_range(0, n), r.to_set());
    }
}

/// The positions of the `limit` highest keys, highest first; among equal
/// keys the earlier position comes first.
pub fn rank_by_key(keys: &Vec<u64>, limit: usize) -> (r: Vec<usize>)
    ensures
        is_ranking(keys@, r@.map_values(|i: usize| i as int), limit as int),
{
    let n = keys.len();
    let target = if limit < n {
        limit
    } else {
        n
    };
    let mut taken: Vec<bool> = Vec::new();
    let mut t: usize = 0;
    while t < n
        invariant
            t <= n,
            n == keys.len(),
            taken.len() == t,
            forall|x: int| 0 <= x < t ==> !(#[trigger] taken@[x]),
        decreases n - t,
    {
        taken.push(false);
        t += 1;
    }
    let mut r: Vec<usize> = Vec::new();
    let ghost mut rv: Seq<int> = seq![];
    while r.len() < target
        invariant
            target <= n,
            n == keys.len(),
            target == (if limit < n { limit } else { n }),
            taken.len() == n,
            rv == r@.map_values(|i: usize| i as int),
            r.len() <= target,
            forall|x: int| 0 <= x < n ==> (#[trigger] taken@[x] <==> rv.contains(x)),
            forall|i: int| 0 <= i < rv.len() ==> 0 <= #[trigger] rv[i] < n,
            forall|i: int, j: int| 0 <= i < j < rv.len() ==> ranks_before(keys@, rv[i], rv[j]),
            forall|i: int, x: int|
                #![trigger rv[i], rv.contains(x)]
                0 <= i < rv.len() && 0 <= x < n && !rv.contains(x) ==> ranks_before(keys@, rv[i], x),
        decreases target - r.len(),
    {
        proof {
            assert(rv.no_duplicates()) by {
                assert forall|i: int, j: int| 0 <= i < rv.len() && 0 <= j < rv.len() && i != j implies rv[i]
                    != rv[j] by {
                    if i < j {
                        assert(ranks_before(keys@, rv[i], rv[j]));
                    } else {
                        assert(ranks_before(keys@, rv[j], rv[i]));
                    }
                }
            }
            lemma_missing_position(rv, n as int);
        }
        let mut best: usize = n;
        let mut x: usize = 0;
        while x < n
            invariant
                x <= n,
                n == keys.len(),
                taken.len() == n,
                best == n || (best < x && !taken@[best as int]),
                forall|y: int| 0 <= y < x && !taken@[y] ==> best < n && (y == best || ranks_before(keys@, best as int, y)),
            decreases n - x,
        {
            if !taken[x] && (best == n || keys[x] > keys[best]) {
                best = x;
            }
            x += 1;
        }
        proof {
            let w = choose|w: int| 0 <= w < n && !rv.contains(w);
            assert(!taken@[w]);
        }
        assert(best < n);
        let ghost before = rv;
        r.push(best);
        taken.set(best, true);
        proof {
            rv = rv.push(best as int);
            assert(rv == r@.map_values(|i: usize| i as int));
            assert forall|y: int| 0 <= y < n implies (#[trigger] taken@[y] <==> rv.contains(y)) by {
                if y == best as int {
                    assert(rv[rv.len() - 1] == y);
                } else {
                    if rv.contains(y) {
                        let j = choose|j: int| 0 <= j < rv.len() && rv[j] == y;
                        assert(before[j] == y);
                    }
                    if before.contains(y) {
                        let j = choose|j: int| 0 <= j < before.len() && before[j] == y;
                        assert(rv[j] == y);
                    }
                }
            }
            assert forall|i: int, j: int| 0 <= i < j < rv.len() implies ranks_before(keys@, rv[i], rv[j]) by {
                if j < rv.len() - 1 {
                    assert(rv[i] == before[i] && rv[j] == before[j]);
                } else {
                    assert(rv[i] == before[i]);
                    assert(!before.contains(best as int));
                }
            }
            assert forall|i: int, y: int|
                #![trigger rv[i], rv.contains(y)]
                0 <= i < rv.len() && 0 <= y < n && !rv.contains(y) implies ranks_before(keys@, rv[i], y) by {
                assert(!taken@[y]);
                assert(y != best as int);
                if i < rv.len() - 1 {
                    assert(rv[i] == before[i]);
                    assert(!before.contains(y)) by {
                        if before.contains(y) {
                            let j = choose|j: int| 0 <= j < before.len() && before[j] == y;
                            assert(rv[j] == y);
                        }
                    }
                } else {
                    assert(rv[i] == best as int);
                }
            }
        }
    }
    r
}

} // verus!
