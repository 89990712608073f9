//! Properties that relate several results of the library, proved from the
//! contracts of the functions involved.
use vstd::prelude::*;
use crate::canon::fresh_count;
use crate::graph::Graph;
use crate::lower::{lowers, reachable, Netlist, WireDef};
use crate::rules::{arity_patterns, patterns_below, rule_list};
use crate::shape::{class_shape, Shape};
use crate::verilog::instance_name;

verus! {

proof fn lemma_fresh_count_monotone(s: Seq<u64>, i: int, j: int)
    requires
        0 <= i <= j,
    ensures
        fresh_count(s, i) <= fresh_count(s, j),
    decreases j - i,
{
    if i < j {
        lemma_fresh_count_monotone(s, i, j - 1);
    }
}

/// Canonical numbering starts at zero and hands out strictly larger numbers to
/// representatives first seen later.
pub proof fn canonical_numbers_increase(reps: Seq<u64>, i: int, j: int)
    requires
        0 <= i < j < reps.len(),
        !reps.subrange(0, i).contains(reps[i]),
        !reps.subrange(0, j).contains(reps[j]),
    ensures
        fresh_count(reps, 0) == 0,
        fresh_count(reps, i) < fresh_count(reps, j),
{
    assert(fresh_count(reps, i + 1) == fresh_count(reps, i) + 1);
    lemma_fresh_count_monotone(reps, i + 1, j);
}

pub open spec fn pow2(n: nat) -> nat
    decreases n,
{
    if n == 0 {
        1
    } else {
        2 * pow2((n - 1) as nat)
    }
}

/// There are `2^n` hole patterns of length `n`, each of length `n`, and every
/// boolean sequence of length `n` is one of them.
pub proof fn hole_patterns_complete(n: nat)
    ensures
        arity_patterns(n).len() == pow2(n),
        forall|m: int| 0 <= m < arity_patterns(n).len() ==> (#[trigger] arity_patterns(n)[m]).len() == n,
        forall|h: Seq<bool>| h.len() == n ==> #[trigger] arity_patterns(n).contains(h),
    decreases n,
{
    if n > 0 {
        let k = (n - 1) as nat;
        hole_patterns_complete(k);
        let p = arity_patterns(k);
        assert forall|m: int| 0 <= m < arity_patterns(n).len() implies (#[trigger] arity_patterns(
            n,
        )[m]).len() == n by {
            assert(arity_patterns(n)[m] == p[m / 2].push(m % 2 == 0));
            assert(p[m / 2].len() == k);
        }
        assert forall|h: Seq<bool>| h.len() == n implies #[trigger] arity_patterns(n).contains(h) by {
            let front = h.drop_last();
            assert(p.contains(front));
            let q = choose|q: int| 0 <= q < p.len() && p[q] == front;
            let m = if h.last() {
                2 * q
            } else {
                2 * q + 1
            };
            assert(arity_patterns(n)[m] == p[q].push(m % 2 == 0));
            assert(arity_patterns(n)[m] =~= h);
        }
    } else {
        assert forall|h: Seq<bool>| h.len() == n implies #[trigger] arity_patterns(n).contains(h) by {
            assert(arity_patterns(n)[0] =~= h);
        }
    }
}

/// The patterns of all lengths below `n` number `2^n - 1`.
pub proof fn patterns_below_count(n: nat)
    ensures
        patterns_below(n).len() + 1 == pow2(n),
    decreases n,
{
    if n > 0 {
        patterns_below_count((n - 1) as nat);
        hole_patterns_complete((n - 1) as nat);
    }
}

/// The ruleset up to arity `k` has `2^(k+1)` rules: the variable rule and
/// one per hole pattern; up to arity three that makes sixteen.
pub proof fn rule_count(ruleset: Seq<char>, k: nat)
    ensures
        rule_list(ruleset, k).len() == pow2(k + 1),
        rule_list(ruleset, 3).len() == 16,
{
    patterns_below_count(k + 1);
    patterns_below_count(4);
    assert(pow2(4) == 16) by {
        assert(pow2(0) == 1);
        assert(pow2(1) == 2);
        assert(pow2(2) == 4);
        assert(pow2(3) == 8);
    }
}

/// A reached register, whatever cycle runs through it, is declared by exactly
/// one wire, initialised to its initial value, and updated from its data
/// input by exactly one clocked block.
pub proof fn register_lowered_once(
    g: &Graph,
    choices: Seq<usize>,
    roots: Set<usize>,
    n: Netlist,
    c: usize,
)
    requires
        lowers(g, choices, roots, n),
        c < g.class_names@.len(),
        reachable(g, choices, roots, c),
        class_shape(g, choices, c as int) is Register,
    ensures
        exists|i: int|
            0 <= i < n.wires@.len() && #[trigger] n.wires@[i].class == c && n.wires@[i].def
                == WireDef::Init(class_shape(g, choices, c as int)->Register_init) && forall|j: int|
                0 <= j < n.wires@.len() && #[trigger] n.wires@[j].class == c ==> j == i,
        exists|i: int|
            0 <= i < n.registers@.len() && #[trigger] n.registers@[i].class == c
                && n.registers@[i].d == class_shape(g, choices, c as int)->Register_d && forall|
                j: int,
            |
                0 <= j < n.registers@.len() && #[trigger] n.registers@[j].class == c ==> j == i,
{
    let s = class_shape(g, choices, c as int);
    assert(s.declares_wire());
    let i = choose|i: int| 0 <= i < n.wires@.len() && #[trigger] n.wires@[i].class == c;
    assert(crate::lower::def_matches(n.wires@[i].def, s));
    assert forall|j: int| 0 <= j < n.wires@.len() && #[trigger] n.wires@[j].class == c implies j
        == i by {
        if j < i {
            assert(n.wires@[j].class != n.wires@[i].class);
        } else if j > i {
            assert(n.wires@[i].class != n.wires@[j].class);
        }
    }
    let r = choose|r: int| 0 <= r < n.registers@.len() && #[trigger] n.registers@[r].class == c;
    assert forall|j: int| 0 <= j < n.registers@.len() && #[trigger] n.registers@[j].class == c
        implies j == r by {
        if j < r {
            assert(n.registers@[j].class != n.registers@[r].class);
        } else if j > r {
            assert(n.registers@[r].class != n.registers@[j].class);
        }
    }
    assert(n.wires@[i].def == WireDef::Init(s->Register_init));
}

/// The record of the instance that reached output `c` reads.
proof fn lemma_record_of(g: &Graph, choices: Seq<usize>, roots: Set<usize>, n: Netlist, c: usize) -> (k: int)
    requires
        lowers(g, choices, roots, n),
        c < g.class_names@.len(),
        reachable(g, choices, roots, c),
        class_shape(g, choices, c as int) is Output,
    ensures
        0 <= k < n.instances@.len(),
        n.instances@[k].class == class_shape(g, choices, c as int)->Output_instance,
        exists|b: int|
            0 <= b < n.instances@[k].outputs@.len() && #[trigger] n.instances@[k].outputs@[b].wire
                == c,
{
    let is = n.instances@;
    let (k, b) = choose|k: int, b: int|
        0 <= k < is.len() && 0 <= b < is[k].outputs@.len() && #[trigger] is[k].outputs@[b].wire == c;
    assert(class_shape(g, choices, c as int) == Shape::Output {
        instance: is[k].class,
        port: is[k].outputs@[b].port@,
        module: is[k].module@,
    });
    k
}

/// Two reached outputs of one instance class share a single instance record,
/// which binds both of them.
pub proof fn shared_instance_lowered_once(
    g: &Graph,
    choices: Seq<usize>,
    roots: Set<usize>,
    n: Netlist,
    c1: usize,
    c2: usize,
)
    requires
        lowers(g, choices, roots, n),
        c1 < g.class_names@.len(),
        c2 < g.class_names@.len(),
        reachable(g, choices, roots, c1),
        reachable(g, choices, roots, c2),
        class_shape(g, choices, c1 as int) is Output,
        class_shape(g, choices, c2 as int) is Output,
        class_shape(g, choices, c1 as int)->Output_instance == class_shape(
            g,
            choices,
            c2 as int,
        )->Output_instance,
    ensures
        exists|k: int|
            0 <= k < n.instances@.len() && #[trigger] n.instances@[k].class == class_shape(
                g,
                choices,
                c1 as int,
            )->Output_instance && (exists|b: int|
                0 <= b < n.instances@[k].outputs@.len() && #[trigger] n.instances@[k].outputs@[b].wire
                    == c1) && (exists|b: int|
                0 <= b < n.instances@[k].outputs@.len() && #[trigger] n.instances@[k].outputs@[b].wire
                    == c2) && forall|l: int|
                0 <= l < n.instances@.len() && #[trigger] n.instances@[l].class
                    == n.instances@[k].class ==> l == k,
{
    let is = n.instances@;
    let k1 = lemma_record_of(g, choices, roots, n, c1);
    let k2 = lemma_record_of(g, choices, roots, n, c2);
    if k1 < k2 {
        assert(is[k1].class != is[k2].class);
    } else if k2 < k1 {
        assert(is[k2].class != is[k1].class);
    }
    assert forall|l: int| 0 <= l < is.len() && #[trigger] is[l].class == is[k1].class implies l
        == k1 by {
        if l < k1 {
            assert(is[l].class != is[k1].class);
        } else if l > k1 {
            assert(is[k1].class != is[l].class);
        }
    }
}

/// Reached outputs of two different instance classes belong to two different
/// instance records, and the two instances get different names.
pub proof fn distinct_instances_lowered_apart(
    g: &Graph,
    choices: Seq<usize>,
    roots: Set<usize>,
    n: Netlist,
    c1: usize,
    c2: usize,
)
    requires
        g.wf(),
        g.valid_choices(choices),
        lowers(g, choices, roots, n),
        c1 < g.class_names@.len(),
        c2 < g.class_names@.len(),
        reachable(g, choices, roots, c1),
        reachable(g, choices, roots, c2),
        class_shape(g, choices, c1 as int) is Output,
        class_shape(g, choices, c2 as int) is Output,
        class_shape(g, choices, c1 as int)->Output_instance != class_shape(
            g,
            choices,
            c2 as int,
        )->Output_instance,
    ensures
        exists|k1: int, k2: int|
            0 <= k1 < n.instances@.len() && 0 <= k2 < n.instances@.len() && k1 != k2
                && #[trigger] n.instances@[k1].class == class_shape(g, choices, c1 as int)->Output_instance
                && #[trigger] n.instances@[k2].class == class_shape(g, choices, c2 as int)->Output_instance,
        instance_name(g, class_shape(g, choices, c1 as int)->Output_instance) != instance_name(
            g,
            class_shape(g, choices, c2 as int)->Output_instance,
        ),
{
    let k1 = lemma_record_of(g, choices, roots, n, c1);
    let k2 = lemma_record_of(g, choices, roots, n, c2);
    let i1 = class_shape(g, choices, c1 as int)->Output_instance;
    let i2 = class_shape(g, choices, c2 as int)->Output_instance;
    assert(i1 < g.class_names@.len() && i2 < g.class_names@.len());
    let p = "module_"@;
    if instance_name(g, i1) == instance_name(g, i2) {
        assert((p + g.class_names@[i1 as int]@).skip(p.len() as int) =~= g.class_names@[i1 as int]@);
        assert((p + g.class_names@[i2 as int]@).skip(p.len() as int) =~= g.class_names@[i2 as int]@);
        if i1 < i2 {
            assert(g.class_names@[i1 as int]@ != g.class_names@[i2 as int]@);
        } else {
            assert(g.class_names@[i2 as int]@ != g.class_names@[i1 as int]@);
        }
    }
}

} // verus!
