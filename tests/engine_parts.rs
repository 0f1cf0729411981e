use act_logically::engine::delta::{make_delta_program, DeltaRule};
use act_logically::engine::query::pattern_match;
use act_logically::engine::storage::RelationStorage;
use act_logically::engine::stratify::{is_recursive, sort_program, split_program};
use act_logically::syntax::{Atom, Program, QueryBuilder, Rule, Term, TypedValue};

fn rule(head: (&str, &[&str]), body: &[(&str, &[&str])]) -> Rule {
    let atom = |(name, vars): (&str, &[&str])| Atom::new(name, vars.iter().map(|v| Term::var(v)).collect());
    Rule::new(atom(head), body.iter().map(|a| atom(*a)).collect())
}

fn pairs(rules: &[DeltaRule]) -> Vec<(usize, Option<usize>)> {
    rules.iter().map(|d| (d.rule, d.delta)).collect()
}

fn chain_program() -> Program {
    Program::from_rules(vec![
        rule(("tc", &["x", "y"]), &[("e", &["x", "y"])]),
        rule(("tc", &["x", "z"]), &[("e", &["x", "y"]), ("tc", &["y", "z"])]),
        rule(("d", &["x"]), &[("c", &["x"])]),
        rule(("c", &["x"]), &[("b", &["x"])]),
    ])
}

#[test]
fn delta_program_has_one_rule_per_body_position() {
    let p = chain_program();
    let d = make_delta_program(&p, true);
    assert_eq!(pairs(&d), vec![(0, Some(0)), (1, Some(0)), (2, Some(0)), (3, Some(0)), (3, Some(1))]);
}

#[test]
fn seed_rewrite_keeps_bodiless_rules() {
    let p = Program::from_rules(vec![Rule::new(Atom::new("fact", vec![Term::text("a")]), vec![])]);
    assert_eq!(pairs(&make_delta_program(&p, true)), vec![(0, None)]);
    assert!(make_delta_program(&p, false).is_empty());
}

#[test]
fn recursion_is_found_through_cycles() {
    let p = chain_program();
    assert!(is_recursive(&p, &"tc".to_string()));
    assert!(!is_recursive(&p, &"e".to_string()));
    assert!(!is_recursive(&p, &"c".to_string()));
    let cycle = Program::from_rules(vec![
        rule(("a", &["x"]), &[("b", &["x"])]),
        rule(("b", &["x"]), &[("a", &["x"])]),
    ]);
    assert!(is_recursive(&cycle, &"a".to_string()));
    assert!(is_recursive(&cycle, &"b".to_string()));
}

#[test]
fn split_parts_rules_by_recursive_head() {
    let p = chain_program();
    let (nonrec, rec) = split_program(&p, make_delta_program(&p, true));
    // Sorted by head: c(x), d(x), tc(x, y), tc(x, z).
    assert_eq!(pairs(&nonrec), vec![(0, Some(0)), (1, Some(0))]);
    assert_eq!(pairs(&rec), vec![(2, Some(0)), (3, Some(0)), (3, Some(1))]);
}

#[test]
fn sort_puts_producers_first() {
    let p = chain_program();
    let (nonrec, _) = split_program(&p, make_delta_program(&p, true));
    let sorted = sort_program(&p, nonrec).unwrap();
    assert_eq!(pairs(&sorted), vec![(0, Some(0)), (1, Some(0))]);
}

#[test]
fn sort_reports_a_cycle() {
    let cycle = Program::from_rules(vec![
        rule(("a", &["x"]), &[("b", &["x"])]),
        rule(("b", &["x"]), &[("a", &["x"])]),
    ]);
    let d = make_delta_program(&cycle, true);
    assert!(sort_program(&cycle, d).is_err());
}

#[test]
fn pattern_match_compares_position_by_position() {
    let mut b = QueryBuilder::new("r");
    b.with_constant(TypedValue::Int(1));
    b.with_any();
    let q = b.build();
    assert!(pattern_match(&q, &vec![TypedValue::Int(1), TypedValue::Bool(true)]));
    assert!(!pattern_match(&q, &vec![TypedValue::Int(2), TypedValue::Bool(true)]));
    assert!(!pattern_match(&q, &vec![TypedValue::Str("1".to_string()), TypedValue::Bool(true)]));
    assert!(!pattern_match(&q, &vec![TypedValue::Int(1)]));
}

#[test]
fn storage_insert_reports_new_facts() {
    let mut s = RelationStorage::new();
    assert!(s.insert_fact("r", vec![TypedValue::Int(1)], true));
    assert!(!s.insert_fact("r", vec![TypedValue::Int(1)], true));
    assert!(s.contains("r", &vec![TypedValue::Int(1)]));
    assert!(!s.contains("r", &vec![TypedValue::Int(2)]));
    assert!(!s.contains("q", &vec![TypedValue::Int(1)]));
    assert!(!s.is_empty());
    s.clear_deltas();
    assert!(s.contains("r", &vec![TypedValue::Int(1)]));
    s.clear_all();
    assert!(s.is_empty());
}

#[test]
fn sort_reverses_name_order_when_dependencies_ask() {
    let p = Program::from_rules(vec![
        rule(("b", &["x"]), &[("c", &["x"])]),
        rule(("a", &["x"]), &[("b", &["x"])]),
    ]);
    assert_eq!(p.inner[0].head.symbol, "a");
    let (nonrec, _) = split_program(&p, make_delta_program(&p, true));
    assert_eq!(pairs(&nonrec), vec![(0, Some(0)), (1, Some(0))]);
    let sorted = sort_program(&p, nonrec).unwrap();
    assert_eq!(pairs(&sorted), vec![(1, Some(0)), (0, Some(0))]);
}
