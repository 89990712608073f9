//! Depth-first walks over a graph given by its edge function, with a stack of
//! nodes still to visit and a mark for each visited node: what is reached, and
//! why marking each node when it is first taken off the stack covers exactly
//! the nodes reached from the roots.
use vstd::prelude::*;

verus! {

/// Every edge from one of the first `n` nodes leads to one of them.
pub open spec fn edges_valid(edges: spec_fn(usize) -> Seq<usize>, n: nat) -> bool {
    forall|c: usize, j: int| c < n && 0 <= j < edges(c).len() ==> #[trigger] edges(c)[j] < n
}

/// `p` starts at a root and follows edges.
pub open spec fn is_path(edges: spec_fn(usize) -> Seq<usize>, roots: Set<usize>, p: Seq<usize>) -> bool {
    &&& p.len() > 0
    &&& roots.contains(p[0])
    &&& forall|i: int| #![trigger p[i]] 0 <= i < p.len() - 1 ==> edges(p[i]).contains(p[i + 1])
}

/// Node `c` is reached from `roots` along edges.
pub open spec fn reaches(edges: spec_fn(usize) -> Seq<usize>, roots: Set<usize>, c: usize) -> bool {
    exists|p: Seq<usize>| #[trigger] is_path(edges, roots, p) && p.last() == c
}

/// Number of unmarked nodes.
pub open spec fn count_false(s: Seq<bool>) -> nat
    decreases s.len(),
{
    if s.len() == 0 {
        0
    } else {
        count_false(s.drop_last()) + if s.last() {
            0nat
        } else {
            1nat
        }
    }
}

pub proof fn lemma_count_false_set(s: Seq<bool>, i: int)
    requires
        0 <= i < s.len(),
        !s[i],
    ensures
        count_false(s.update(i, true)) + 1 == count_false(s),
    decreases s.len(),
{
    if i < s.len() - 1 {
        lemma_count_false_set(s.drop_last(), i);
        assert(s.update(i, true).drop_last() =~= s.drop_last().update(i, true));
    } else {
        assert(s.update(i, true).drop_last() =~= s.drop_last());
    }
}

/// A path extended by one edge.
pub proof fn lemma_path_step(edges: spec_fn(usize) -> Seq<usize>, roots: Set<usize>, c: usize, e: usize)
    requires
        reaches(edges, roots, c),
        edges(c).contains(e),
    ensures
        reaches(edges, roots, e),
{
    let p = choose|p: Seq<usize>| #[trigger] is_path(edges, roots, p) && p.last() == c;
    let q = p.push(e);
    assert forall|i: int| #![trigger q[i]] 0 <= i < q.len() - 1 implies edges(q[i]).contains(
        q[i + 1],
    ) by {
        if i < p.len() - 1 {
            assert(q[i] == p[i] && q[i + 1] == p[i + 1]);
            assert(edges(p[i]).contains(p[i + 1]));
        }
    }
    assert(is_path(edges, roots, q));
}

pub proof fn lemma_root_reaches(edges: spec_fn(usize) -> Seq<usize>, roots: Seq<usize>, r: usize)
    requires
        roots.contains(r),
    ensures
        reaches(edges, roots.to_set(), r),
{
    let p = seq![r];
    assert(is_path(edges, roots.to_set(), p));
}

/// Every node on a path lies in any marked set that holds the roots and is
/// closed under the edges.
proof fn lemma_path_closed(
    edges: spec_fn(usize) -> Seq<usize>,
    roots: Seq<usize>,
    done: Seq<bool>,
    p: Seq<usize>,
    i: int,
)
    requires
        edges_valid(edges, done.len()),
        forall|k: int| 0 <= k < roots.len() ==> #[trigger] roots[k] < done.len() && done[roots[k] as int],
        forall|c: int, j: int|
            0 <= c < done.len() && done[c] && 0 <= j < edges(c as usize).len()
                ==> #[trigger] done[edges(c as usize)[j] as int],
        is_path(edges, roots.to_set(), p),
        0 <= i < p.len(),
    ensures
        p[i] < done.len() && done[p[i] as int],
    decreases i,
{
    if i > 0 {
        lemma_path_closed(edges, roots, done, p, i - 1);
        let prev = p[i - 1];
        assert(edges(prev).contains(p[i]));
        let es = edges(prev);
        let j = choose|j: int| 0 <= j < es.len() && #[trigger] es[j] == p[i];
        assert(edges(prev)[j] < done.len());
        assert(done[edges((prev as int) as usize)[j] as int]);
    } else {
        assert(roots.contains(p[0]));
    }
}

/// `x` is marked or still waits on the stack.
pub open spec fn covered(done: Seq<bool>, stack: Seq<usize>, x: usize) -> bool {
    done[x as int] || stack.contains(x)
}

/// Every root, and every node that a marked node leads to, is covered.
pub open spec fn frontier(
    edges: spec_fn(usize) -> Seq<usize>,
    roots: Seq<usize>,
    done: Seq<bool>,
    stack: Seq<usize>,
) -> bool {
    &&& forall|i: int| 0 <= i < roots.len() ==> #[trigger] covered(done, stack, roots[i])
    &&& forall|c: int, j: int|
        0 <= c < done.len() && done[c] && 0 <= j < edges(c as usize).len() ==> #[trigger] covered(
            done,
            stack,
            edges(c as usize)[j],
        )
}

/// Pushes the nodes of `next` that are not marked.
pub fn push_unmarked(stack: &mut Vec<usize>, done: &Vec<bool>, next: &Vec<usize>)
    requires
        forall|j: int| 0 <= j < next@.len() ==> #[trigger] next@[j] < done@.len(),
    ensures
        forall|x: usize| old(stack)@.contains(x) ==> #[trigger] final(stack)@.contains(x),
        forall|j: int| 0 <= j < next@.len() ==> #[trigger] covered(done@, final(stack)@, next@[j]),
        forall|i: int|
            0 <= i < final(stack)@.len() ==> old(stack)@.contains(#[trigger] final(stack)@[i])
                || next@.contains(final(stack)@[i]),
{
    let ghost s0 = stack@;
    let mut k: usize = 0;
    while k < next.len()
        invariant
            k <= next@.len(),
            forall|j: int| 0 <= j < next@.len() ==> #[trigger] next@[j] < done@.len(),
            s0.len() <= stack@.len(),
            forall|i: int| 0 <= i < s0.len() ==> #[trigger] stack@[i] == s0[i],
            forall|j: int| 0 <= j < k ==> #[trigger] covered(done@, stack@, next@[j]),
            forall|i: int|
                0 <= i < stack@.len() ==> s0.contains(#[trigger] stack@[i]) || next@.contains(
                    stack@[i],
                ),
        decreases next@.len() - k,
    {
        let ghost before = stack@;
        if !done[next[k]] {
            stack.push(next[k]);
            proof {
                assert(stack@[before.len() as int] == next@[k as int]);
                assert forall|j: int| 0 <= j < k implies #[trigger] covered(
                    done@,
                    stack@,
                    next@[j],
                ) by {
                    assert(covered(done@, before, next@[j]));
                    if !done@[next@[j] as int] {
                        let i = choose|i: int| 0 <= i < before.len() && before[i] == next@[j];
                        assert(stack@[i] == next@[j]);
                    }
                }
                assert forall|i: int| 0 <= i < stack@.len() implies s0.contains(
                    #[trigger] stack@[i],
                ) || next@.contains(stack@[i]) by {
                    if i < before.len() {
                        assert(stack@[i] == before[i]);
                    }
                }
            }
        }
        k = k + 1;
    }
    assert forall|x: usize| s0.contains(x) implies #[trigger] stack@.contains(x) by {
        let i = choose|i: int| 0 <= i < s0.len() && s0[i] == x;
        assert(stack@[i] == x);
    }
}

proof fn lemma_covered_pop(done: Seq<bool>, s: Seq<usize>, c: usize, x: usize)
    requires
        covered(done, s.push(c), x),
        done[c as int],
    ensures
        covered(done, s, x),
{
    if !done[x as int] {
        let k = choose|k: int| 0 <= k < s.push(c).len() && s.push(c)[k] == x;
        assert(k < s.len());
        assert(s[k] == x);
    }
}

/// Popping a marked node keeps the frontier.
pub proof fn lemma_frontier_pop_marked(
    edges: spec_fn(usize) -> Seq<usize>,
    roots: Seq<usize>,
    done: Seq<bool>,
    s: Seq<usize>,
    c: usize,
)
    requires
        frontier(edges, roots, done, s.push(c)),
        c < done.len(),
        done[c as int],
    ensures
        frontier(edges, roots, done, s),
{
    assert forall|i: int| 0 <= i < roots.len() implies #[trigger] covered(done, s, roots[i]) by {
        assert(covered(done, s.push(c), roots[i]));
        lemma_covered_pop(done, s, c, roots[i]);
    }
    assert forall|x: int, j: int|
        0 <= x < done.len() && done[x] && 0 <= j < edges(x as usize).len() implies #[trigger] covered(
        done,
        s,
        edges(x as usize)[j],
    ) by {
        assert(covered(done, s.push(c), edges(x as usize)[j]));
        lemma_covered_pop(done, s, c, edges(x as usize)[j]);
    }
}

proof fn lemma_covered_visit(done: Seq<bool>, s: Seq<usize>, c: usize, x: usize, t: Seq<usize>)
    requires
        covered(done, s.push(c), x),
        c < done.len(),
        x < done.len(),
        forall|y: usize| s.contains(y) ==> #[trigger] t.contains(y),
    ensures
        covered(done.update(c as int, true), t, x),
{
    if x != c && !done[x as int] {
        let k = choose|k: int| 0 <= k < s.push(c).len() && s.push(c)[k] == x;
        assert(k < s.len());
        assert(s[k] == x);
        assert(s.contains(x));
    }
}

/// Marking a popped node and pushing the unmarked nodes it leads to keeps the
/// frontier.
pub proof fn lemma_frontier_visit(
    edges: spec_fn(usize) -> Seq<usize>,
    roots: Seq<usize>,
    done: Seq<bool>,
    s: Seq<usize>,
    c: usize,
    t: Seq<usize>,
)
    requires
        edges_valid(edges, done.len()),
        forall|k: int| 0 <= k < roots.len() ==> #[trigger] roots[k] < done.len(),
        frontier(edges, roots, done, s.push(c)),
        c < done.len(),
        forall|y: usize| s.contains(y) ==> #[trigger] t.contains(y),
        forall|j: int|
            0 <= j < edges(c).len() ==> #[trigger] covered(
                done.update(c as int, true),
                t,
                edges(c)[j],
            ),
    ensures
        frontier(edges, roots, done.update(c as int, true), t),
{
    let d2 = done.update(c as int, true);
    assert forall|i: int| 0 <= i < roots.len() implies #[trigger] covered(d2, t, roots[i]) by {
        assert(covered(done, s.push(c), roots[i]));
        lemma_covered_visit(done, s, c, roots[i], t);
    }
    assert forall|x: int, j: int|
        0 <= x < d2.len() && d2[x] && 0 <= j < edges(x as usize).len() implies #[trigger] covered(
        d2,
        t,
        edges(x as usize)[j],
    ) by {
        if x != c {
            assert(edges(x as usize)[j] < done.len());
            assert(covered(done, s.push(c), edges(x as usize)[j]));
            lemma_covered_visit(done, s, c, edges(x as usize)[j], t);
        } else {
            assert(covered(d2, t, edges(c)[j]));
        }
    }
}

/// With an empty stack the marked nodes are exactly the reached ones.
pub proof fn lemma_marked_is_reached(
    edges: spec_fn(usize) -> Seq<usize>,
    roots: Seq<usize>,
    done: Seq<bool>,
)
    requires
        edges_valid(edges, done.len()),
        forall|k: int| 0 <= k < roots.len() ==> #[trigger] roots[k] < done.len(),
        frontier(edges, roots, done, Seq::empty()),
    ensures
        forall|c: usize| c < done.len() && reaches(edges, roots.to_set(), c) ==> #[trigger] done[c as int],
{
    let e = Seq::<usize>::empty();
    assert forall|k: int| 0 <= k < roots.len() implies #[trigger] roots[k] < done.len()
        && done[roots[k] as int] by {
        assert(covered(done, e, roots[k]));
    }
    assert forall|c: int, j: int|
        0 <= c < done.len() && done[c] && 0 <= j < edges(c as usize).len() implies #[trigger] done[edges(
        c as usize,
    )[j] as int] by {
        assert(covered(done, e, edges(c as usize)[j]));
    }
    assert forall|c: usize| c < done.len() && reaches(edges, roots.to_set(), c) implies #[trigger] done[c as int] by {
        let p = choose|p: Seq<usize>| #[trigger] is_path(edges, roots.to_set(), p) && p.last() == c;
        lemma_path_closed(edges, roots, done, p, p.len() - 1);
    }
}

} // verus!
