use act_logically::engine::datalog::MicroRuntime;
use act_logically::engine::semi_naive::EvalError;
use act_logically::syntax::{
    AnonymousGroundAtom, Atom, Program, Query, QueryBuilder, Rule, SkolemFunctions, Term, TypedValue,
};
use std::collections::HashSet;

fn s(x: &str) -> TypedValue {
    TypedValue::Str(x.to_string())
}

fn fact(xs: &[&str]) -> AnonymousGroundAtom {
    xs.iter().map(|x| s(x)).collect()
}

fn atom(symbol: &str, terms: Vec<Term>) -> Atom {
    Atom::new(symbol, terms)
}

fn v(name: &str) -> Term {
    Term::var(name)
}

fn tc_program() -> Program {
    Program::from_rules(vec![
        Rule::new(atom("tc", vec![v("x"), v("y")]), vec![atom("e", vec![v("x"), v("y")])]),
        Rule::new(
            atom("tc", vec![v("x"), v("z")]),
            vec![atom("e", vec![v("x"), v("y")]), atom("tc", vec![v("y"), v("z")])],
        ),
    ])
}

fn query_of<'a>(relation: &'a str, constants: &[Option<&str>]) -> Query<'a> {
    let mut builder = QueryBuilder::new(relation);
    for c in constants {
        match c {
            None => builder.with_any(),
            Some(x) => builder.with_constant(s(x)),
        }
    }
    builder.build()
}

fn answer(runtime: &MicroRuntime, q: &Query) -> HashSet<AnonymousGroundAtom> {
    runtime.query(q).unwrap().into_iter().collect()
}

fn set_of(facts: &[&[&str]]) -> HashSet<AnonymousGroundAtom> {
    facts.iter().map(|f| fact(f)).collect()
}

#[test]
fn integration_test_stupid() {
    let program = Program::from_rules(vec![
        Rule::new(
            atom("ENV", vec![v("x"), v("y")]),
            vec![atom("INPUTS", vec![Term::text("env"), v("x"), v("y")])],
        ),
        Rule::new(atom("FENV", vec![v("x")]), vec![atom("ENV", vec![v("x"), v("y")])]),
    ]);

    let mut micro_runtime = MicroRuntime::new(program).unwrap();
    micro_runtime.insert("INPUTS", vec![s("env"), s("a"), s("b")]);

    micro_runtime.poll().unwrap();
    let q = query_of("FENV", &[None]);
    let actual_answer = answer(&micro_runtime, &q);

    let expected_answer: HashSet<AnonymousGroundAtom> = vec![vec![s("a")]].into_iter().collect();

    assert_eq!(expected_answer, actual_answer)
}

#[test]
fn integration_test_insertions_only() {
    let mut runtime = MicroRuntime::new(tc_program()).unwrap();
    vec![
        vec![s("a"), s("b")],
        vec![s("b"), s("c")],
        vec![s("c"), s("d")],
    ]
    .into_iter()
    .for_each(|edge| {
        runtime.insert("e", edge);
    });

    runtime.poll().unwrap();

    let all = query_of("tc", &[None, None]);
    let all_from_a = query_of("tc", &[Some("a"), None]);

    let actual_all = answer(&runtime, &all);
    let expected_all = set_of(&[
        &["a", "b"],
        &["b", "c"],
        &["c", "d"],
        &["a", "c"],
        &["b", "d"],
        &["a", "d"],
    ]);
    assert_eq!(expected_all, actual_all);

    let actual_all_from_a = answer(&runtime, &all_from_a);
    let expected_all_from_a = set_of(&[&["a", "b"], &["a", "c"], &["a", "d"]]);
    assert_eq!(expected_all_from_a, actual_all_from_a);

    expected_all.iter().for_each(|fact| {
        assert!(runtime.contains("tc", fact).unwrap());
    });

    expected_all_from_a.iter().for_each(|fact| {
        assert!(runtime.contains("tc", fact).unwrap());
    });

    runtime.insert("e", vec![s("d"), s("e")]);
    assert!(!runtime.safe());
    runtime.poll().unwrap();
    assert!(runtime.safe());

    let actual_all_after_update = answer(&runtime, &all);
    let expected_all_after_update = set_of(&[
        &["a", "b"],
        &["b", "c"],
        &["c", "d"],
        &["a", "c"],
        &["b", "d"],
        &["a", "d"],
        &["d", "e"],
        &["c", "e"],
        &["b", "e"],
        &["a", "e"],
    ]);
    assert_eq!(expected_all_after_update, actual_all_after_update);

    let actual_all_from_a_after_update = answer(&runtime, &all_from_a);
    let expected_all_from_a_after_update = set_of(&[&["a", "b"], &["a", "c"], &["a", "d"], &["a", "e"]]);
    assert_eq!(expected_all_from_a_after_update, actual_all_from_a_after_update);
}

#[test]
fn incremental_update_adds_exactly_four_pairs() {
    let mut runtime = MicroRuntime::new(tc_program()).unwrap();
    for edge in [["a", "b"], ["b", "c"], ["c", "d"]] {
        runtime.insert("e", fact(&edge));
    }
    runtime.poll().unwrap();
    let all = query_of("tc", &[None, None]);
    let before = runtime.query(&all).unwrap();
    assert_eq!(before.len(), 6);

    runtime.insert("e", fact(&["d", "e"]));
    runtime.poll().unwrap();
    let after = runtime.query(&all).unwrap();
    assert_eq!(after.len(), 10);
    let before: HashSet<_> = before.into_iter().collect();
    let after: HashSet<_> = after.into_iter().collect();
    let added: HashSet<_> = after.difference(&before).cloned().collect();
    assert_eq!(added, set_of(&[&["d", "e"], &["c", "e"], &["b", "e"], &["a", "e"]]));
}

#[test]
fn inserting_a_fact_twice_keeps_one_copy() {
    let mut runtime = MicroRuntime::new(tc_program()).unwrap();
    assert!(runtime.insert("e", fact(&["a", "b"])));
    assert!(!runtime.insert("e", fact(&["a", "b"])));
    runtime.poll().unwrap();
    let edges = runtime.query(&query_of("e", &[None, None])).unwrap();
    assert_eq!(edges, vec![fact(&["a", "b"])]);
    let paths = runtime.query(&query_of("tc", &[None, None])).unwrap();
    assert_eq!(paths, vec![fact(&["a", "b"])]);
}

#[test]
fn inserting_a_processed_fact_again_adds_nothing() {
    let mut runtime = MicroRuntime::new(tc_program()).unwrap();
    runtime.insert("e", fact(&["a", "b"]));
    runtime.poll().unwrap();
    runtime.insert("e", fact(&["a", "b"]));
    runtime.poll().unwrap();
    assert_eq!(runtime.query(&query_of("e", &[None, None])).unwrap().len(), 1);
    assert_eq!(runtime.query(&query_of("tc", &[None, None])).unwrap().len(), 1);
}

#[test]
fn reads_fail_between_insert_and_poll() {
    let mut runtime = MicroRuntime::new(tc_program()).unwrap();
    assert!(runtime.safe());
    runtime.insert("e", fact(&["a", "b"]));
    assert!(!runtime.safe());
    assert!(runtime.query(&query_of("tc", &[None, None])).is_err());
    assert!(runtime.contains("e", &fact(&["a", "b"])).is_err());
    runtime.poll().unwrap();
    assert!(runtime.safe());
    assert!(runtime.contains("e", &fact(&["a", "b"])).unwrap());
    assert!(runtime.contains("tc", &fact(&["a", "b"])).unwrap());
    assert!(!runtime.contains("tc", &fact(&["b", "a"])).unwrap());
}

#[test]
fn pattern_with_leading_constant_selects_first_column() {
    let mut runtime = MicroRuntime::new(tc_program()).unwrap();
    for edge in [["a", "b"], ["b", "c"], ["c", "d"]] {
        runtime.insert("e", fact(&edge));
    }
    runtime.poll().unwrap();
    let from_b = answer(&runtime, &query_of("tc", &[Some("b"), None]));
    assert_eq!(from_b, set_of(&[&["b", "c"], &["b", "d"]]));
    let to_d = answer(&runtime, &query_of("tc", &[None, Some("d")]));
    assert_eq!(to_d, set_of(&[&["a", "d"], &["b", "d"], &["c", "d"]]));
    let exact = answer(&runtime, &query_of("tc", &[Some("a"), Some("d")]));
    assert_eq!(exact, set_of(&[&["a", "d"]]));
}

#[test]
fn query_of_another_arity_matches_nothing() {
    let mut runtime = MicroRuntime::new(tc_program()).unwrap();
    runtime.insert("e", fact(&["a", "b"]));
    runtime.poll().unwrap();
    assert!(runtime.query(&query_of("tc", &[None])).unwrap().is_empty());
    assert!(runtime.query(&query_of("tc", &[None, None, None])).unwrap().is_empty());
}

#[test]
fn unknown_relation_is_empty() {
    let runtime = MicroRuntime::new(tc_program()).unwrap();
    assert!(runtime.query(&query_of("nowhere", &[None])).unwrap().is_empty());
    assert!(!runtime.contains("nowhere", &fact(&["a"])).unwrap());
}

#[test]
fn facts_of_a_relation_outside_the_program_are_kept() {
    let mut runtime = MicroRuntime::new(tc_program()).unwrap();
    runtime.insert("other", vec![TypedValue::Int(7), TypedValue::Bool(true)]);
    runtime.poll().unwrap();
    let q = query_of("other", &[None, None]);
    assert_eq!(runtime.query(&q).unwrap(), vec![vec![TypedValue::Int(7), TypedValue::Bool(true)]]);
}

#[test]
fn acyclic_program_runs_no_recursive_round() {
    let program = Program::from_rules(vec![
        Rule::new(atom("b", vec![v("x")]), vec![atom("a", vec![v("x")])]),
        Rule::new(atom("c", vec![v("x")]), vec![atom("b", vec![v("x")])]),
    ]);
    let mut runtime = MicroRuntime::new(program).unwrap();
    runtime.insert("a", fact(&["1"]));
    assert_eq!(runtime.poll().unwrap(), 0);
    assert_eq!(answer(&runtime, &query_of("c", &[None])), set_of(&[&["1"]]));
}

#[test]
fn nonrecursive_rules_run_in_dependency_order() {
    let program = Program::from_rules(vec![
        Rule::new(atom("d", vec![v("x")]), vec![atom("c", vec![v("x")])]),
        Rule::new(atom("c", vec![v("x")]), vec![atom("b", vec![v("x")])]),
        Rule::new(atom("b", vec![v("x")]), vec![atom("a", vec![v("x")])]),
    ]);
    let mut runtime = MicroRuntime::new(program).unwrap();
    runtime.insert("a", fact(&["1"]));
    assert_eq!(runtime.poll().unwrap(), 0);
    assert_eq!(answer(&runtime, &query_of("d", &[None])), set_of(&[&["1"]]));
}

#[test]
fn transitive_closure_takes_four_rounds() {
    let mut runtime = MicroRuntime::new(tc_program()).unwrap();
    for edge in [["a", "b"], ["b", "c"], ["c", "d"]] {
        runtime.insert("e", fact(&edge));
    }
    assert_eq!(runtime.poll().unwrap(), 4);
    assert_eq!(runtime.poll().unwrap(), 0);
}

#[test]
fn projection_yields_one_fact_per_source_fact() {
    let program = Program::from_rules(vec![Rule::new(
        atom("swapped", vec![v("y"), v("x")]),
        vec![atom("pair", vec![v("x"), v("y")])],
    )]);
    let mut runtime = MicroRuntime::new(program).unwrap();
    runtime.insert("pair", fact(&["a", "b"]));
    runtime.insert("pair", fact(&["c", "d"]));
    runtime.insert("pair", fact(&["e", "f"]));
    runtime.poll().unwrap();
    let out = runtime.query(&query_of("swapped", &[None, None])).unwrap();
    assert_eq!(out.len(), 3);
    let out: HashSet<_> = out.into_iter().collect();
    assert_eq!(out, set_of(&[&["b", "a"], &["d", "c"], &["f", "e"]]));
}

#[test]
fn self_join_on_repeated_variable() {
    let program = Program::from_rules(vec![Rule::new(
        atom("loop", vec![v("x")]),
        vec![atom("e", vec![v("x"), v("x")])],
    )]);
    let mut runtime = MicroRuntime::new(program).unwrap();
    runtime.insert("e", fact(&["a", "a"]));
    runtime.insert("e", fact(&["a", "b"]));
    runtime.poll().unwrap();
    assert_eq!(answer(&runtime, &query_of("loop", &[None])), set_of(&[&["a"]]));
}

#[test]
fn unbound_head_variable_is_rejected() {
    let program = Program::from_rules(vec![Rule::new(
        atom("bad", vec![v("z")]),
        vec![atom("e", vec![v("x"), v("y")])],
    )]);
    assert!(MicroRuntime::new(program).is_err());
}

#[test]
fn head_safety_check_sees_every_body_atom() {
    let safe = Rule::new(
        atom("h", vec![v("x"), v("z")]),
        vec![atom("a", vec![v("x")]), atom("b", vec![v("y"), v("z")])],
    );
    assert!(safe.is_head_safe());
    let unsafe_rule = Rule::new(atom("h", vec![v("w")]), vec![atom("a", vec![v("x")])]);
    assert!(!unsafe_rule.is_head_safe());
}

struct Joiner;

impl SkolemFunctions for Joiner {
    fn apply(&self, name: &String, args: &Vec<TypedValue>) -> Option<TypedValue> {
        if name != "f" || args.len() != 2 {
            return None;
        }
        match (&args[0], &args[1]) {
            (TypedValue::Str(x), TypedValue::Str(y)) => Some(TypedValue::Str(format!("{}={}", x, y))),
            _ => None,
        }
    }
}

fn skolem_program() -> Program {
    Program::from_rules(vec![
        Rule::new(
            atom("ENV", vec![v("x"), v("y")]),
            vec![atom("INPUTS", vec![Term::text("env"), v("x"), v("y")])],
        ),
        Rule::new(
            atom("FENV", vec![Term::skolem("f", vec!["x".to_string(), "y".to_string()])]),
            vec![atom("ENV", vec![v("x"), v("y")])],
        ),
    ])
}

#[test]
fn value_inventing_term_computes_head_value() {
    let mut runtime = MicroRuntime::new(skolem_program()).unwrap();
    runtime.insert("INPUTS", vec![s("env"), s("a"), s("b")]);
    runtime.poll_with(&Joiner).unwrap();
    assert_eq!(answer(&runtime, &query_of("FENV", &[None])), set_of(&[&["a=b"]]));
}

#[test]
fn value_inventing_term_without_its_function_fails() {
    let mut runtime = MicroRuntime::new(skolem_program()).unwrap();
    runtime.insert("INPUTS", vec![s("env"), s("a"), s("b")]);
    assert!(matches!(runtime.poll(), Err(EvalError::Rule(_))));
    assert!(runtime.safe());
}

#[test]
fn constant_in_body_filters_facts() {
    let mut runtime = MicroRuntime::new(skolem_program()).unwrap();
    runtime.insert("INPUTS", vec![s("env"), s("a"), s("b")]);
    runtime.insert("INPUTS", vec![s("other"), s("c"), s("d")]);
    runtime.poll_with(&Joiner).unwrap();
    assert_eq!(answer(&runtime, &query_of("ENV", &[None, None])), set_of(&[&["a", "b"]]));
}

#[test]
fn program_ids_follow_positions() {
    let p = tc_program();
    assert_eq!(p.inner.len(), 2);
    assert_eq!(p.inner[0].id, 0);
    assert_eq!(p.inner[1].id, 1);
    assert_eq!(p.inner[1].body.len(), 2);
}

#[test]
fn query_builder_collects_matchers() {
    let mut b = QueryBuilder::new("r");
    b.with_any();
    b.with_constant(TypedValue::Int(3));
    let q = b.build();
    assert_eq!(q.symbol, "r");
    assert_eq!(q.matchers.len(), 2);
}

#[test]
fn poll_without_insertions_is_a_no_op() {
    let mut runtime = MicroRuntime::new(tc_program()).unwrap();
    assert_eq!(runtime.poll().unwrap(), 0);
    assert!(runtime.query(&query_of("tc", &[None, None])).unwrap().is_empty());
}

#[test]
fn integer_and_boolean_values_join() {
    let program = Program::from_rules(vec![Rule::new(
        atom("both", vec![v("x"), v("b")]),
        vec![atom("n", vec![v("x")]), atom("flag", vec![v("x"), v("b")])],
    )]);
    let mut runtime = MicroRuntime::new(program).unwrap();
    runtime.insert("n", vec![TypedValue::Int(1)]);
    runtime.insert("n", vec![TypedValue::Int(2)]);
    runtime.insert("flag", vec![TypedValue::Int(2), TypedValue::Bool(false)]);
    runtime.poll().unwrap();
    let out = runtime.query(&query_of("both", &[None, None])).unwrap();
    assert_eq!(out, vec![vec![TypedValue::Int(2), TypedValue::Bool(false)]]);
}

#[test]
fn nonrecursive_rule_over_recursive_relation_sees_every_fact() {
    let program = Program::from_rules(vec![
        Rule::new(atom("tc", vec![v("x"), v("y")]), vec![atom("e", vec![v("x"), v("y")])]),
        Rule::new(
            atom("tc", vec![v("x"), v("z")]),
            vec![atom("e", vec![v("x"), v("y")]), atom("tc", vec![v("y"), v("z")])],
        ),
        Rule::new(atom("reach", vec![v("x")]), vec![atom("tc", vec![Term::text("a"), v("x")])]),
    ]);
    let mut runtime = MicroRuntime::new(program).unwrap();
    for edge in [["a", "b"], ["b", "c"], ["c", "d"]] {
        runtime.insert("e", fact(&edge));
    }
    runtime.poll().unwrap();
    assert_eq!(answer(&runtime, &query_of("reach", &[None])), set_of(&[&["b"], &["c"], &["d"]]));
    runtime.insert("e", fact(&["d", "e"]));
    runtime.poll().unwrap();
    assert_eq!(answer(&runtime, &query_of("reach", &[None])), set_of(&[&["b"], &["c"], &["d"], &["e"]]));
}

#[test]
fn batches_end_where_one_batch_does() {
    let edges = [["a", "b"], ["b", "c"], ["c", "a"], ["c", "d"]];
    let mut one = MicroRuntime::new(tc_program()).unwrap();
    for edge in edges {
        one.insert("e", fact(&edge));
    }
    one.poll().unwrap();
    let mut many = MicroRuntime::new(tc_program()).unwrap();
    for edge in edges.iter().rev() {
        many.insert("e", fact(edge));
        many.poll().unwrap();
    }
    let all = query_of("tc", &[None, None]);
    assert_eq!(answer(&one, &all), answer(&many, &all));
    assert_eq!(answer(&one, &all).len(), 12);
}

#[test]
fn program_drops_duplicate_rules() {
    let r = || Rule::new(atom("tc", vec![v("x"), v("y")]), vec![atom("e", vec![v("x"), v("y")])]);
    let other = Rule::new(atom("tc", vec![v("y"), v("x")]), vec![atom("e", vec![v("x"), v("y")])]);
    let p = Program::from_rules(vec![r(), other, r()]);
    assert_eq!(p.inner.len(), 2);
    assert_eq!(p.inner[0].id, 0);
    assert_eq!(p.inner[1].id, 1);
    assert_eq!(p.inner[1].head.terms[0], v("y"));
}

#[test]
fn program_is_independent_of_rule_order() {
    let rules = || {
        vec![
            Rule::new(atom("tc", vec![v("x"), v("z")]), vec![atom("e", vec![v("x"), v("y")]), atom("tc", vec![v("y"), v("z")])]),
            Rule::new(atom("tc", vec![v("x"), v("y")]), vec![atom("e", vec![v("x"), v("y")])]),
            Rule::new(atom("b", vec![v("x")]), vec![atom("a", vec![v("x")])]),
        ]
    };
    let forward = Program::from_rules(rules());
    let mut reversed_rules = rules();
    reversed_rules.reverse();
    let backward = Program::from_rules(reversed_rules);
    assert_eq!(forward, backward);
    assert_eq!(Program::from_rules(forward.inner.clone()), forward);
    assert_eq!(forward.inner[0].head.symbol, "b");
}
