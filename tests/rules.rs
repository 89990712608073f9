use churchroad::text::{parse_i64, push_int, strip_quotes};
use churchroad::{
    canonicalize, generate_module_enumeration_rewrite, generate_module_enumeration_rewrites,
    module_enumeration_rules,
};

#[test]
fn rewrite_for_hole_pattern_true_false_true() {
    assert_eq!(
        generate_module_enumeration_rewrite(&[true, false, true], None),
        "(rewrite
  (Op3 op expr0 (apply (MakeModule graph1 _) args1) expr2)
  (apply (MakeModule (Op3_ op (Hole) graph1 (Hole)) (debruijnify (vec-append (vec-pop (vec-of (Var \"unused\" 0))) (vec-of expr0) args1 (vec-of expr2)))) (vec-append (vec-pop (vec-of (Var \"unused\" 0))) (vec-of expr0) args1 (vec-of expr2)))
)"
    );
}

#[test]
fn rewrite_for_nullary_operator_with_ruleset() {
    assert_eq!(
        generate_module_enumeration_rewrite(&[], Some("r")),
        "(rewrite
  (Op0 op )
  (apply (MakeModule (Op0_ op ) (debruijnify (vec-append (vec-pop (vec-of (Var \"unused\" 0))) ))) (vec-append (vec-pop (vec-of (Var \"unused\" 0))) ))
:ruleset r
)"
    );
}

#[test]
fn rewrite_for_two_inherited_arguments() {
    assert_eq!(
        generate_module_enumeration_rewrite(&[false, false], Some("e")),
        "(rewrite
  (Op2 op (apply (MakeModule graph0 _) args0) (apply (MakeModule graph1 _) args1))
  (apply (MakeModule (Op2_ op graph0 graph1) (debruijnify (vec-append (vec-pop (vec-of (Var \"unused\" 0))) args0 args1))) (vec-append (vec-pop (vec-of (Var \"unused\" 0))) args0 args1))
:ruleset e
)"
    );
}

#[test]
fn sixteen_rules_up_to_arity_three() {
    let rules = module_enumeration_rules("enumerate-modules", 3);
    assert_eq!(rules.len(), 16);
    assert_eq!(
        rules[0],
        "(rewrite (Var name bw) (apply (MakeModule (Hole) (vec-of 0)) (vec-of (Var_ name bw))) :ruleset enumerate-modules)"
    );
    assert_eq!(rules[1], generate_module_enumeration_rewrite(&[], Some("enumerate-modules")));
    assert_eq!(rules[3], generate_module_enumeration_rewrite(&[false], Some("enumerate-modules")));
    assert_eq!(
        rules[10],
        generate_module_enumeration_rewrite(&[true, false, true], Some("enumerate-modules"))
    );
    assert_eq!(
        rules[15],
        generate_module_enumeration_rewrite(&[false, false, false], Some("enumerate-modules"))
    );
    assert_eq!(module_enumeration_rules("x", 4).len(), 32);
    assert_eq!(module_enumeration_rules("x", 0).len(), 2);
}

#[test]
fn enumeration_text_is_stable() {
    let a = generate_module_enumeration_rewrites("enumerate-modules");
    let b = generate_module_enumeration_rewrites("enumerate-modules");
    assert_eq!(a, b);
    assert!(a.starts_with(
        "\n(ruleset enumerate-modules)\n(rewrite (Var name bw) (apply (MakeModule (Hole) (vec-of 0)) (vec-of (Var_ name bw))) :ruleset enumerate-modules)\n(rewrite\n  (Op0 op )"
    ));
    assert!(a.ends_with(":ruleset enumerate-modules\n)"));
    assert_eq!(a.matches("(rewrite").count(), 16);
    let joined = module_enumeration_rules("enumerate-modules", 3).join("\n");
    assert_eq!(a, format!("\n(ruleset enumerate-modules)\n{}", joined));
}

#[test]
fn canonical_numbering_example() {
    let (a, b, c) = (17u64, 4u64, 90u64);
    assert_eq!(canonicalize(&vec![a, b, a, c, b]), vec![0, 1, 0, 2, 1]);
    assert_eq!(canonicalize(&vec![]), Vec::<usize>::new());
    assert_eq!(canonicalize(&vec![5, 5, 5]), vec![0, 0, 0]);
    assert_eq!(canonicalize(&vec![3, 2, 1]), vec![0, 1, 2]);
}

#[test]
fn integer_literals() {
    assert_eq!(parse_i64("42"), Some(42));
    assert_eq!(parse_i64("-7"), Some(-7));
    assert_eq!(parse_i64("+3"), Some(3));
    assert_eq!(parse_i64("007"), Some(7));
    assert_eq!(parse_i64(""), None);
    assert_eq!(parse_i64("-"), None);
    assert_eq!(parse_i64("1a"), None);
    assert_eq!(parse_i64(" 1"), None);
    assert_eq!(parse_i64("9223372036854775807"), Some(i64::MAX));
    assert_eq!(parse_i64("9223372036854775808"), None);
    assert_eq!(parse_i64("-9223372036854775808"), Some(i64::MIN));
    assert_eq!(parse_i64("-9223372036854775809"), None);
    assert_eq!(parse_i64("99999999999999999999999"), None);
}

#[test]
fn integer_text() {
    let mut s = String::from("v=");
    push_int(&mut s, -120);
    assert_eq!(s, "v=-120");
    let mut t = String::new();
    push_int(&mut t, i64::MIN);
    assert_eq!(t, "-9223372036854775808");
    let mut u = String::new();
    push_int(&mut u, 0);
    assert_eq!(u, "0");
}

#[test]
fn quoted_text() {
    assert_eq!(strip_quotes("\"out\""), Some("out".to_string()));
    assert_eq!(strip_quotes("\"\""), Some(String::new()));
    assert_eq!(strip_quotes("\""), None);
    assert_eq!(strip_quotes("out"), None);
}
