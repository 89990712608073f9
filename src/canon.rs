//! Canonical numbering of class representatives: equal representatives get
//! equal numbers, and new ones get 0, 1, 2, ... in the order first seen.
use vstd::prelude::*;

verus! {

/// How many of the first `i` elements of `s` occur there for the first time.
pub open spec fn fresh_count(s: Seq<u64>, i: int) -> nat
    decreases i,
{
    if i <= 0 {
        0
    } else {
        fresh_count(s, i - 1) + if s.subrange(0, i - 1).contains(s[i - 1]) {
            0nat
        } else {
            1nat
        }
    }
}

/// Numbers a sequence of representatives (already resolved to their canonical
/// class): positions holding the same representative get the same number, and
/// the first occurrence of each new representative gets the count of distinct
/// representatives before it.
pub fn canonicalize(reps: &Vec<u64>) -> (r: Vec<usize>)
    ensures
        r@.len() == reps@.len(),
        forall|i: int, j: int|
            0 <= i < r@.len() && 0 <= j < r@.len() ==> (#[trigger] r@[i] == #[trigger] r@[j]
                <==> reps@[i] == reps@[j]),
        forall|i: int|
            0 <= i < r@.len() && !reps@.subrange(0, i).contains(reps@[i]) ==> #[trigger] r@[i]
                == fresh_count(reps@, i),
{
    let mut seen: Vec<u64> = Vec::new();
    let mut r: Vec<usize> = Vec::new();
    let mut i: usize = 0;
    while i < reps.len()
        invariant
            i <= reps@.len(),
            r@.len() == i,
            seen@.len() == fresh_count(reps@, i as int),
            forall|k: int| 0 <= k < i ==> #[trigger] r@[k] < seen@.len() && seen@[r@[k] as int] == reps@[k],
            forall|a: int, b: int| 0 <= a < b < seen@.len() ==> #[trigger] seen@[a] != #[trigger] seen@[b],
            forall|v: u64| seen@.contains(v) <==> reps@.subrange(0, i as int).contains(v),
            forall|k: int|
                0 <= k < i && !reps@.subrange(0, k).contains(reps@[k]) ==> #[trigger] r@[k]
                    == fresh_count(reps@, k),
        decreases reps@.len() - i,
    {
        let x = reps[i];
        let ghost pre = reps@.subrange(0, i as int);
        assert(reps@.subrange(0, i + 1) =~= pre.push(x));
        let mut k: usize = 0;
        while k < seen.len()
            invariant
                k <= seen@.len(),
                forall|j: int| 0 <= j < k ==> #[trigger] seen@[j] != x,
            ensures
                k <= seen@.len(),
                forall|j: int| 0 <= j < k ==> #[trigger] seen@[j] != x,
                k < seen@.len() ==> seen@[k as int] == x,
            decreases seen@.len() - k,
        {
            if seen[k] == x {
                break;
            }
            k = k + 1;
        }
        if k < seen.len() {
            r.push(k);
            proof {
                assert(seen@.contains(x));
                assert(pre.contains(x));
            }
        } else {
            let ghost old_seen = seen@;
            proof {
                assert(!old_seen.contains(x));
                assert(!pre.contains(x));
            }
            r.push(seen.len());
            seen.push(x);
            proof {
                let q = reps@.subrange(0, i + 1);
                assert(q =~= pre.push(x));
                assert forall|v: u64| seen@.contains(v) <==> q.contains(v) by {
                    if v == x {
                        assert(q[i as int] == x);
                        assert(seen@[old_seen.len() as int] == x);
                    } else {
                        if seen@.contains(v) {
                            let j = choose|j: int| 0 <= j < seen@.len() && seen@[j] == v;
                            assert(old_seen[j] == v);
                            assert(old_seen.contains(v));
                            assert(pre.contains(v));
                            let m = choose|m: int| 0 <= m < pre.len() && pre[m] == v;
                            assert(q[m] == v);
                        }
                        if q.contains(v) {
                            let j = choose|j: int| 0 <= j < q.len() && #[trigger] q[j] == v;
                            assert(pre[j] == v);
                            assert(pre.contains(v));
                            assert(old_seen.contains(v));
                            let m = choose|m: int| 0 <= m < old_seen.len() && old_seen[m] == v;
                            assert(seen@[m] == v);
                        }
                    }
                }
            }
        }
        proof {
            assert(fresh_count(reps@, i + 1) == fresh_count(reps@, i as int) + if pre.contains(x) {
                0nat
            } else {
                1nat
            });
        }
        i = i + 1;
    }
    proof {
        assert forall|a: int, b: int| 0 <= a < r@.len() && 0 <= b < r@.len() implies (#[trigger] r@[a]
            == #[trigger] r@[b] <==> reps@[a] == reps@[b]) by {
            if r@[a] != r@[b] && reps@[a] == reps@[b] {
                assert(seen@[r@[a] as int] != seen@[r@[b] as int] || r@[a] == r@[b]);
            }
        }
    }
    r
}

} // verus!
