//! Module-enumeration rewrites: for each operator arity and each choice of
//! which arguments become holes, a rule that restates an operator application
//! as an abstract module applied to a canonically numbered argument list.
use vstd::prelude::*;
use crate::text::{nat_text, push_nat};

verus! {

/// Text of argument `i` in one of three places of a rule, where `hole` says
/// whether the argument becomes a hole:
/// 0 — the matched operator's argument pattern;
/// 1 — the new template's argument;
/// 2 — the argument's contribution to the new argument list.
pub open spec fn piece(place: int, i: int, hole: bool) -> Seq<char> {
    if place == 0 {
        if hole {
            "expr"@ + nat_text(i as nat)
        } else {
            "(apply (MakeModule graph"@ + nat_text(i as nat) + " _) args"@ + nat_text(i as nat)
                + ")"@
        }
    } else if place == 1 {
        if hole {
            "(Hole)"@
        } else {
            "graph"@ + nat_text(i as nat)
        }
    } else {
        if hole {
            "(vec-of expr"@ + nat_text(i as nat) + ")"@
        } else {
            "args"@ + nat_text(i as nat)
        }
    }
}

/// The pieces of all arguments of `holes` in one place, separated by spaces.
pub open spec fn joined(place: int, holes: Seq<bool>) -> Seq<char>
    decreases holes.len(),
{
    if holes.len() == 0 {
        Seq::empty()
    } else if holes.len() == 1 {
        piece(place, 0, holes[0])
    } else {
        joined(place, holes.drop_last()) + " "@ + piece(
            place,
            holes.len() - 1,
            holes.last(),
        )
    }
}

/// The new argument list: the concatenation, in order, of each hole's
/// expression and each non-hole's inherited arguments.
pub open spec fn args_list_text(holes: Seq<bool>) -> Seq<char> {
    "(vec-append (vec-pop (vec-of (Var \"unused\" 0))) "@ + joined(2, holes) + ")"@
}

/// The rule for one hole pattern, tagged with `ruleset` when there is one.
pub open spec fn rewrite_text(holes: Seq<bool>, ruleset: Option<Seq<char>>) -> Seq<char> {
    let arity = nat_text(holes.len());
    let lhs = "(Op"@ + arity + " op "@ + joined(0, holes) + ")"@;
    let args = args_list_text(holes);
    let rhs = "(apply (MakeModule (Op"@ + arity + "_ op "@ + joined(1, holes)
        + ") (debruijnify "@ + args + ")) "@ + args + ")"@;
    let flag = match ruleset {
        Some(r) => ":ruleset "@ + r + "\n"@,
        None => Seq::empty(),
    };
    "(rewrite\n  "@ + lhs + "\n  "@ + rhs + "\n"@ + flag + ")"@
}

fn push_piece(out: &mut String, place: u8, i: usize, hole: bool)
    ensures
        final(out)@ == old(out)@ + piece(place as int, i as int, hole),
{
    if place == 0 {
        if hole {
            out.append("expr");
            push_nat(out, i as u64);
        } else {
            out.append("(apply (MakeModule graph");
            push_nat(out, i as u64);
            out.append(" _) args");
            push_nat(out, i as u64);
            out.append(")");
        }
    } else if place == 1 {
        if hole {
            out.append("(Hole)");
        } else {
            out.append("graph");
            push_nat(out, i as u64);
        }
    } else {
        if hole {
            out.append("(vec-of expr");
            push_nat(out, i as u64);
            out.append(")");
        } else {
            out.append("args");
            push_nat(out, i as u64);
        }
    }
    assert(out@ =~= old(out)@ + piece(place as int, i as int, hole));
}

fn push_joined(out: &mut String, place: u8, holes: &[bool])
    ensures
        final(out)@ == old(out)@ + joined(place as int, holes@),
{
    let ghost head = out@;
    let mut k: usize = 0;
    while k < holes.len()
        invariant
            k <= holes@.len(),
            out@ == head + joined(place as int, holes@.subrange(0, k as int)),
        decreases holes@.len() - k,
    {
        if k > 0 {
            out.append(" ");
        }
        push_piece(out, place, k, holes[k]);
        proof {
            let p = holes@.subrange(0, k + 1);
            assert(p.drop_last() =~= holes@.subrange(0, k as int));
            assert(out@ =~= head + joined(place as int, p));
        }
        k = k + 1;
    }
    assert(holes@.subrange(0, holes@.len() as int) =~= holes@);
}

fn push_args_list(out: &mut String, holes: &[bool])
    ensures
        final(out)@ == old(out)@ + args_list_text(holes@),
{
    out.append("(vec-append (vec-pop (vec-of (Var \"unused\" 0))) ");
    push_joined(out, 2, holes);
    out.append(")");
    assert(out@ =~= old(out)@ + args_list_text(holes@));
}

/// Generates the module-enumeration rewrite for one hole pattern.
///
/// `hole_indicator[i]` says whether argument `i` of the operator is an
/// opaque expression that becomes a `(Hole)` of the new template; otherwise
/// the argument must already be a module application, whose template is kept
/// in place and whose arguments are passed on.
pub fn generate_module_enumeration_rewrite(hole_indicator: &[bool], ruleset: Option<&str>) -> (r:
    String)
    ensures
        r@ == rewrite_text(
            hole_indicator@,
            match ruleset {
                Some(s) => Some(s@),
                None => None,
            },
        ),
{
    let arity = hole_indicator.len();
    let mut out = String::new();
    out.append("(rewrite\n  ");
    let ghost h0 = out@;
    out.append("(Op");
    push_nat(&mut out, arity as u64);
    out.append(" op ");
    push_joined(&mut out, 0, hole_indicator);
    out.append(")");
    let ghost h1 = out@;
    assert(h1 =~= h0 + ("(Op"@ + nat_text(arity as nat) + " op "@ + joined(0, hole_indicator@)
        + ")"@));
    out.append("\n  ");
    let ghost h2 = out@;
    out.append("(apply (MakeModule (Op");
    push_nat(&mut out, arity as u64);
    out.append("_ op ");
    push_joined(&mut out, 1, hole_indicator);
    out.append(") (debruijnify ");
    push_args_list(&mut out, hole_indicator);
    out.append(")) ");
    push_args_list(&mut out, hole_indicator);
    out.append(")");
    let ghost args = args_list_text(hole_indicator@);
    assert(out@ =~= h2 + ("(apply (MakeModule (Op"@ + nat_text(arity as nat) + "_ op "@ + joined(
        1,
        hole_indicator@,
    ) + ") (debruijnify "@ + args + ")) "@ + args + ")"@));
    out.append("\n");
    let ghost h3 = out@;
    match ruleset {
        Some(name) => {
            out.append(":ruleset ");
            out.append(name);
            out.append("\n");
        },
        None => {},
    }
    out.append(")");
    assert(out@ =~= rewrite_text(
        hole_indicator@,
        match ruleset {
            Some(s) => Some(s@),
            None => None,
        },
    ));
    out
}

/// All hole patterns of length `n`: pattern `m` is pattern `m / 2` of length
/// `n - 1` followed by `m` being even, so `true` comes before `false` at every
/// position.
pub open spec fn arity_patterns(n: nat) -> Seq<Seq<bool>>
    decreases n,
{
    if n == 0 {
        seq![Seq::empty()]
    } else {
        let p = arity_patterns((n - 1) as nat);
        Seq::new(2 * p.len(), |m: int| p[m / 2].push(m % 2 == 0))
    }
}

/// The patterns of all lengths below `n`, shortest first.
pub open spec fn patterns_below(n: nat) -> Seq<Seq<bool>>
    decreases n,
{
    if n == 0 {
        Seq::empty()
    } else {
        patterns_below((n - 1) as nat) + arity_patterns((n - 1) as nat)
    }
}

/// The rule that turns a variable into the identity module applied to it.
pub open spec fn variable_rule(ruleset: Seq<char>) -> Seq<char> {
    "(rewrite (Var name bw) (apply (MakeModule (Hole) (vec-of 0)) (vec-of (Var_ name bw))) :ruleset "@
        + ruleset + ")"@
}

/// The variable rule, then one rule per hole pattern up to `max_arity`.
pub open spec fn rule_list(ruleset: Seq<char>, max_arity: nat) -> Seq<Seq<char>> {
    seq![variable_rule(ruleset)] + patterns_below(max_arity + 1).map_values(
        |h: Seq<bool>| rewrite_text(h, Some(ruleset)),
    )
}

/// Texts separated by line breaks.
pub open spec fn lines(rs: Seq<Seq<char>>) -> Seq<char>
    decreases rs.len(),
{
    if rs.len() == 0 {
        Seq::empty()
    } else if rs.len() == 1 {
        rs[0]
    } else {
        lines(rs.drop_last()) + "\n"@ + rs.last()
    }
}

/// The ruleset declaration and all rules up to arity three.
pub open spec fn enumeration_text(ruleset: Seq<char>) -> Seq<char> {
    "\n(ruleset "@ + ruleset + ")\n"@ + lines(rule_list(ruleset, 3))
}

fn extended(p: &Vec<bool>, b: bool) -> (r: Vec<bool>)
    ensures
        r@ == p@.push(b),
{
    let mut r: Vec<bool> = Vec::new();
    let mut k: usize = 0;
    while k < p.len()
        invariant
            k <= p@.len(),
            r@ == p@.subrange(0, k as int),
        decreases p@.len() - k,
    {
        r.push(p[k]);
        k = k + 1;
        assert(r@ =~= p@.subrange(0, k as int));
    }
    r.push(b);
    assert(r@ =~= p@.push(b));
    r
}

/// The patterns one position longer than `ps`, in the order of [`arity_patterns`].
fn next_patterns(ps: &Vec<Vec<bool>>) -> (r: Vec<Vec<bool>>)
    ensures
        r@.len() == 2 * ps@.len(),
        forall|m: int| 0 <= m < r@.len() ==> #[trigger] r@[m]@ == ps@[m / 2]@.push(m % 2 == 0),
{
    let mut r: Vec<Vec<bool>> = Vec::new();
    let mut q: usize = 0;
    while q < ps.len()
        invariant
            q <= ps@.len(),
            r@.len() == 2 * q,
            forall|m: int| 0 <= m < r@.len() ==> #[trigger] r@[m]@ == ps@[m / 2]@.push(m % 2 == 0),
        decreases ps@.len() - q,
    {
        r.push(extended(&ps[q], true));
        r.push(extended(&ps[q], false));
        q = q + 1;
    }
    r
}

/// The variable rule followed by one rewrite for every hole pattern of every
/// length up to `max_arity`, tagged with `ruleset`.
pub fn module_enumeration_rules(ruleset: &str, max_arity: usize) -> (r: Vec<String>)
    ensures
        r@.len() == rule_list(ruleset@, max_arity as nat).len(),
        forall|k: int| 0 <= k < r@.len() ==> #[trigger] r@[k]@ == rule_list(ruleset@, max_arity as nat)[k],
{
    let mut r: Vec<String> = Vec::new();
    let mut v = String::new();
    v.append("(rewrite (Var name bw) (apply (MakeModule (Hole) (vec-of 0)) (vec-of (Var_ name bw))) :ruleset ");
    v.append(ruleset);
    v.append(")");
    assert(v@ =~= variable_rule(ruleset@));
    r.push(v);
    let mut ps: Vec<Vec<bool>> = Vec::new();
    ps.push(Vec::new());
    assert(ps@[0]@ =~= Seq::<bool>::empty());
    let mut n: usize = 0;
    loop
        invariant_except_break
            r@.len() == 1 + patterns_below(n as nat).len(),
            r@[0]@ == variable_rule(ruleset@),
            forall|k: int|
                0 <= k < patterns_below(n as nat).len() ==> #[trigger] r@[k + 1]@ == rewrite_text(
                    patterns_below(n as nat)[k],
                    Some(ruleset@),
                ),
        invariant
            n <= max_arity,
            ps@.len() == arity_patterns(n as nat).len(),
            forall|m: int| 0 <= m < ps@.len() ==> #[trigger] ps@[m]@ == arity_patterns(n as nat)[m],
            r@[0]@ == variable_rule(ruleset@),
        ensures
            r@.len() == 1 + patterns_below((max_arity + 1) as nat).len(),
            r@[0]@ == variable_rule(ruleset@),
            forall|k: int|
                0 <= k < patterns_below((max_arity + 1) as nat).len() ==> #[trigger] r@[k + 1]@
                    == rewrite_text(patterns_below((max_arity + 1) as nat)[k], Some(ruleset@)),
        decreases max_arity - n,
    {
        let ghost base = r@.len();
        let mut j: usize = 0;
        while j < ps.len()
            invariant
                j <= ps@.len(),
                ps@.len() == arity_patterns(n as nat).len(),
                forall|m: int| 0 <= m < ps@.len() ==> #[trigger] ps@[m]@ == arity_patterns(n as nat)[m],
                base == 1 + patterns_below(n as nat).len(),
                r@.len() == base + j,
                r@[0]@ == variable_rule(ruleset@),
                forall|k: int|
                    0 <= k < patterns_below(n as nat).len() ==> #[trigger] r@[k + 1]@ == rewrite_text(
                        patterns_below(n as nat)[k],
                        Some(ruleset@),
                    ),
                forall|k: int|
                    0 <= k < j ==> #[trigger] r@[base + k]@ == rewrite_text(
                        arity_patterns(n as nat)[k],
                        Some(ruleset@),
                    ),
            decreases ps@.len() - j,
        {
            let rule = generate_module_enumeration_rewrite(ps[j].as_slice(), Some(ruleset));
            r.push(rule);
            j = j + 1;
        }
        proof {
            let pb = patterns_below(n as nat);
            let ap = arity_patterns(n as nat);
            assert(patterns_below((n + 1) as nat) =~= pb + ap);
            assert(r@.len() == 1 + patterns_below((n + 1) as nat).len());
            assert forall|k: int| 0 <= k < patterns_below((n + 1) as nat).len() implies #[trigger] r@[k
                + 1]@ == rewrite_text(patterns_below((n + 1) as nat)[k], Some(ruleset@)) by {
                if k >= pb.len() {
                    assert(r@[base + (k - pb.len())]@ == rewrite_text(ap[k - pb.len()], Some(ruleset@)));
                }
            }
        }
        if n == max_arity {
            break;
        }
        ps = next_patterns(&ps);
        n = n + 1;
        proof {
            assert forall|m: int| 0 <= m < ps@.len() implies #[trigger] ps@[m]@ == arity_patterns(
                n as nat,
            )[m] by {
            }
        }
    }
    proof {
        let rl = rule_list(ruleset@, max_arity as nat);
        assert forall|k: int| 0 <= k < r@.len() implies #[trigger] r@[k]@ == rl[k] by {
            if k > 0 {
                assert(r@[(k - 1) + 1]@ == rewrite_text(
                    patterns_below((max_arity + 1) as nat)[k - 1],
                    Some(ruleset@),
                ));
            }
        }
    }
    r
}

/// The texts of `rules`, one per line.
fn join_lines(out: &mut String, rules: &Vec<String>, texts: Ghost<Seq<Seq<char>>>)
    requires
        rules@.len() == texts@.len(),
        forall|i: int| 0 <= i < rules@.len() ==> #[trigger] rules@[i]@ == texts@[i],
    ensures
        final(out)@ == old(out)@ + lines(texts@),
{
    let ghost head = out@;
    let ghost rl = texts@;
    let mut k: usize = 0;
    while k < rules.len()
        invariant
            k <= rules@.len(),
            rules@.len() == rl.len(),
            forall|i: int| 0 <= i < rules@.len() ==> #[trigger] rules@[i]@ == rl[i],
            out@ == head + lines(rl.subrange(0, k as int)),
        decreases rules@.len() - k,
    {
        if k > 0 {
            out.append("\n");
        }
        out.append(rules[k].as_str());
        proof {
            let p = rl.subrange(0, k + 1);
            assert(p.drop_last() =~= rl.subrange(0, k as int));
            assert(out@ =~= head + lines(p));
        }
        k = k + 1;
    }
    assert(rl.subrange(0, rl.len() as int) =~= rl);
}

/// Generates the module-enumeration ruleset: its declaration, the variable
/// rule, and one rewrite for each hole pattern of each arity from zero to
/// three, one rule per line.
pub fn generate_module_enumeration_rewrites(enumeration_ruleset_name: &str) -> (r: String)
    ensures
        r@ == enumeration_text(enumeration_ruleset_name@),
{
    let rules = module_enumeration_rules(enumeration_ruleset_name, 3);
    let mut out = String::new();
    out.append("\n(ruleset ");
    out.append(enumeration_ruleset_name);
    out.append(")\n");
    join_lines(&mut out, &rules, Ghost(rule_list(enumeration_ruleset_name@, 3)));
    assert(out@ =~= enumeration_text(enumeration_ruleset_name@));
    out
}

} // verus!
