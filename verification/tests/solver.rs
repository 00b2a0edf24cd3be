use logicdb::backtracking::{
    BacktrackingQuery, InnerBacktrackingQueryIter, InnerFactPossibilitiesIter, PossibleBindings,
};
use logicdb::database::{DBValue, Database};
use logicdb::num::BigSigned;
use logicdb::unification::{
    chain_hashmap, lax_unify, unify_compare, unify_pattern_match, unify_wrap, Bindings, Constraint,
    EqOp, GlobPosition, Value,
};

const FUEL: u64 = 16;

fn num(n: u64) -> DBValue {
    DBValue::Number(BigSigned::from_u64(n))
}

fn txt(s: &str) -> DBValue {
    DBValue::Text(s.to_string())
}

fn rel(s: &str) -> DBValue {
    DBValue::RelationID(s.to_string())
}

fn lit(d: DBValue) -> Value {
    Value::Literal(d)
}

fn var(s: &str) -> Value {
    Value::Variable(s.to_string())
}

fn glob(explicit: Vec<Value>, position: GlobPosition) -> Value {
    Value::PatternMatch { explicit_values: explicit, is_glob: true, glob_position: position }
}

fn expect_text(env: &Bindings, name: &str, want: &str) {
    match env.get(&name.to_string()) {
        Some(Value::Literal(DBValue::Text(s))) => assert_eq!(s, want),
        other => panic!("{} should be bound to text {:?}, got {:?}", name, want, other),
    }
}

fn expect_num(env: &Bindings, name: &str, want: u64) {
    match env.get(&name.to_string()) {
        Some(Value::Literal(d)) => assert!(d.eq_value(&num(want))),
        other => panic!("{} should be bound to {}, got {:?}", name, want, other),
    }
}

fn parent_db() -> Database {
    let mut db = Database::new();
    db.insert_fact(vec![txt("alice"), rel("parent"), txt("bob")]);
    db.insert_fact(vec![txt("alice"), rel("parent"), txt("carol")]);
    db
}

#[test]
fn fact_lookup_yields_bindings_in_insertion_order() {
    let db = parent_db();
    let query = vec![Constraint::Relation("PARENT".to_string(), vec![var("X"), var("Y")])];
    let mut it = BacktrackingQuery::new(&query, &db, &Bindings::new(), FUEL).unwrap();
    let first = it.next().unwrap();
    expect_text(&first, "X", "alice");
    expect_text(&first, "Y", "bob");
    let second = it.next().unwrap();
    expect_text(&second, "X", "alice");
    expect_text(&second, "Y", "carol");
    assert!(it.next().is_none());
}

#[test]
fn conjunction_shares_variables() {
    let db = parent_db();
    let query = vec![Constraint::Intersections(vec![
        Constraint::Relation("PARENT".to_string(), vec![var("X"), lit(txt("bob"))]),
        Constraint::Relation("PARENT".to_string(), vec![var("X"), lit(txt("carol"))]),
    ])];
    let mut it = BacktrackingQuery::new(&query, &db, &Bindings::new(), FUEL).unwrap();
    let only = it.next().unwrap();
    expect_text(&only, "X", "alice");
    assert!(it.next().is_none());
}

#[test]
fn negation_succeeds_on_absent_fact_and_fails_on_present() {
    let mut db = Database::new();
    db.insert_fact(vec![txt("a"), rel("p")]);
    let absent = vec![Constraint::Not(Box::new(Constraint::Relation(
        "P".to_string(),
        vec![lit(txt("b"))],
    )))];
    let mut it = BacktrackingQuery::new(&absent, &db, &Bindings::new(), FUEL).unwrap();
    let env = it.next().unwrap();
    assert_eq!(env.size(), 0);
    assert!(it.next().is_none());

    let present = vec![Constraint::Not(Box::new(Constraint::Relation(
        "P".to_string(),
        vec![lit(txt("a"))],
    )))];
    let mut it = BacktrackingQuery::new(&present, &db, &Bindings::new(), FUEL).unwrap();
    assert!(it.next().is_none());
}

#[test]
fn comparison_with_unbound_variable_passes_then_binds() {
    let db = Database::new();
    let query = vec![Constraint::Intersections(vec![
        Constraint::Comparison(EqOp::LessThan, var("X"), lit(num(5))),
        Constraint::Unification(vec![var("X")], vec![lit(num(3))]),
    ])];
    let mut it = BacktrackingQuery::new(&query, &db, &Bindings::new(), FUEL).unwrap();
    let only = it.next().unwrap();
    expect_num(&only, "X", 3);
    assert!(it.next().is_none());
}

#[test]
fn glob_head_binds_leading_elements() {
    let list = lit(DBValue::List(vec![num(1), num(2), num(3)]));
    let pattern = glob(vec![var("A"), var("B")], GlobPosition::Head);
    let result = lax_unify(&vec![list], &vec![pattern], Bindings::new());
    let env = result.expect("head glob should unify");
    expect_num(&env, "A", 1);
    expect_num(&env, "B", 2);
}

#[test]
fn glob_tail_walks_the_reversed_tail() {
    let list = lit(DBValue::List(vec![num(1), num(2), num(3)]));
    let pattern = glob(vec![var("A"), var("B")], GlobPosition::Tail);
    let result = lax_unify(&vec![list], &vec![pattern], Bindings::new());
    let env = result.expect("tail glob should unify");
    expect_num(&env, "A", 3);
    expect_num(&env, "B", 2);
}

#[test]
fn glob_middle_finds_a_window_and_keeps_the_last_success() {
    let list = vec![num(1), num(2), num(3)];
    let pattern = vec![lit(num(2)), var("X")];
    let env = unify_pattern_match(&list, &pattern, &true, &GlobPosition::Middle, Bindings::new())
        .expect("a window should match");
    expect_num(&env, "X", 3);

    // two windows match; the last one tried wins
    let list = vec![num(1), num(2), num(1), num(3)];
    let pattern = vec![lit(num(1)), var("X")];
    let env = unify_pattern_match(&list, &pattern, &true, &GlobPosition::Middle, Bindings::new())
        .expect("a window should match");
    expect_num(&env, "X", 3);
}

#[test]
fn glob_middle_without_match_reports_failure() {
    let list = vec![num(1), num(2), num(3), num(4)];
    let pattern = vec![lit(num(9)), var("X")];
    let result =
        unify_pattern_match(&list, &pattern, &true, &GlobPosition::Middle, Bindings::new());
    match result {
        Err(partial) => {
            // the first pair of every window fails, so nothing is bound
            assert_eq!(partial.size(), 0);
        }
        Ok(_) => panic!("no window can match a leading 9"),
    }
}

#[test]
fn relation_names_are_matched_case_insensitively() {
    let mut db = Database::new();
    db.insert_fact(vec![txt("alice"), rel("parent"), txt("bob")]);
    let constraint =
        Constraint::new_relation(vec![var("X"), lit(rel("PaRenT")), var("Y")]).unwrap();
    let query = vec![constraint];
    let mut it = BacktrackingQuery::new(&query, &db, &Bindings::new(), FUEL).unwrap();
    let only = it.next().unwrap();
    expect_text(&only, "X", "alice");
    expect_text(&only, "Y", "bob");
    assert!(it.next().is_none());
}

#[test]
fn new_relation_rejects_malformed_tuples() {
    assert!(Constraint::new_relation(vec![var("X")]).is_err());
    assert!(Constraint::new_relation(vec![var("X"), lit(txt("p")), var("Y")]).is_err());
    match Constraint::new_relation(vec![var("X"), lit(rel("foo")), var("Y")]) {
        Ok(Constraint::Relation(id, args)) => {
            assert_eq!(id, "FOO");
            assert_eq!(args.len(), 2);
        }
        other => panic!("expected a relation, got {:?}", other),
    }
}

#[test]
fn rules_expand_through_the_driver() {
    let mut db = Database::new();
    db.insert_fact(vec![txt("alice"), rel("parent"), txt("bob")]);
    db.insert_fact(vec![txt("bob"), rel("parent"), txt("carol")]);
    db.insert_rule(
        "grandparent".to_string(),
        vec![var("G"), var("C")],
        vec![
            Constraint::Relation("PARENT".to_string(), vec![var("G"), var("M")]),
            Constraint::Relation("PARENT".to_string(), vec![var("M"), var("C")]),
        ],
    );
    let query = vec![Constraint::Relation("GRANDPARENT".to_string(), vec![var("A"), var("B")])];
    let mut it = BacktrackingQuery::new(&query, &db, &Bindings::new(), FUEL).unwrap();
    let only = it.next().unwrap();
    // the query variables are linked to the rule parameters, which hold the names
    match only.get(&"A".to_string()) {
        Some(Value::Variable(p)) => match only.get(&p) {
            Some(Value::Literal(DBValue::Text(s))) => assert_eq!(s, "alice"),
            other => panic!("rule parameter should resolve to alice, got {:?}", other),
        },
        other => panic!("A should chain to a rule parameter, got {:?}", other),
    }
    assert!(it.next().is_none());
}

#[test]
fn recursive_rule_runs_out_of_fuel() {
    let mut db = Database::new();
    db.insert_rule(
        "p".to_string(),
        vec![var("X")],
        vec![Constraint::Relation("P".to_string(), vec![var("X")])],
    );
    let query = vec![Constraint::Relation("P".to_string(), vec![lit(num(1))])];
    assert!(BacktrackingQuery::new(&query, &db, &Bindings::new(), FUEL).is_none());
}

#[test]
fn alternatives_of_one_matches_the_single_constraint() {
    let db = parent_db();
    let inner = Constraint::Relation("PARENT".to_string(), vec![var("X"), lit(txt("bob"))]);
    let wrapped = Constraint::Alternatives(vec![Constraint::Relation(
        "PARENT".to_string(),
        vec![var("X"), lit(txt("bob"))],
    )]);
    let mut a = PossibleBindings::new(&inner, &db, &Bindings::new(), FUEL).unwrap();
    let mut b = PossibleBindings::new(&wrapped, &db, &Bindings::new(), FUEL).unwrap();
    loop {
        match (a.next(), b.next()) {
            (None, None) => break,
            (Some(Ok(e1)), Some(Ok(e2))) => {
                assert_eq!(e1.size(), e2.size());
            }
            (Some(Err(e1)), Some(Err(e2))) => {
                assert_eq!(e1.size(), e2.size());
            }
            other => panic!("streams diverge: {:?}", other.0.is_some()),
        }
    }
}

#[test]
fn intersections_of_one_keeps_only_successes() {
    let db = parent_db();
    // against the two stored facts, one unification fails and one succeeds
    let inner = Constraint::Relation("PARENT".to_string(), vec![var("X"), lit(txt("carol"))]);
    let mut direct = PossibleBindings::new(&inner, &db, &Bindings::new(), FUEL).unwrap();
    // the direct stream reports the failure as an Err item
    assert!(matches!(direct.next(), Some(Err(_))));
    assert!(matches!(direct.next(), Some(Ok(_))));
    assert!(direct.next().is_none());

    let wrapped = Constraint::Intersections(vec![Constraint::Relation(
        "PARENT".to_string(),
        vec![var("X"), lit(txt("carol"))],
    )]);
    let mut once = PossibleBindings::new(&wrapped, &db, &Bindings::new(), FUEL).unwrap();
    match once.next() {
        Some(Ok(env)) => expect_text(&env, "X", "alice"),
        other => panic!("expected one success, got {:?}", other.is_some()),
    }
    assert!(once.next().is_none());
}

#[test]
fn double_negation_keeps_successes_exactly() {
    let mut db = Database::new();
    db.insert_fact(vec![txt("a"), rel("p")]);
    let inner = Constraint::Relation("P".to_string(), vec![lit(txt("a"))]);
    let doubled = Constraint::Not(Box::new(Constraint::Not(Box::new(Constraint::Relation(
        "P".to_string(),
        vec![lit(txt("a"))],
    )))));
    let mut plain = PossibleBindings::new(&inner, &db, &Bindings::new(), FUEL).unwrap();
    let mut twice = PossibleBindings::new(&doubled, &db, &Bindings::new(), FUEL).unwrap();
    let mut plain_oks = 0;
    while let Some(item) = plain.next() {
        if item.is_ok() {
            plain_oks += 1;
        }
    }
    let mut twice_oks = 0;
    while let Some(item) = twice.next() {
        if item.is_ok() {
            twice_oks += 1;
        }
    }
    assert_eq!(plain_oks, 1);
    assert_eq!(twice_oks, plain_oks);
}

#[test]
fn unify_leaves_the_caller_environment_alone() {
    let mut env = Bindings::new();
    env.insert("Z".to_string(), lit(num(9)));
    let before = env.size();
    let r1 = unify_wrap(&vec![var("A")], &vec![lit(num(1))], &env);
    let r2 = unify_wrap(&vec![var("B")], &vec![lit(num(2))], &env);
    assert!(r1.is_some());
    assert!(r2.is_some());
    // each branch sees only its own extension
    expect_num(&r1.unwrap(), "A", 1);
    expect_num(&r2.unwrap(), "B", 2);
    assert_eq!(env.size(), before);
    expect_num(&env, "Z", 9);
}

#[test]
fn chain_hashmap_prefers_the_second_map() {
    let mut a = Bindings::new();
    a.insert("X".to_string(), lit(num(1)));
    a.insert("W".to_string(), lit(num(7)));
    let mut b = Bindings::new();
    b.insert("X".to_string(), lit(num(2)));
    b.insert("Y".to_string(), lit(num(3)));
    let merged = chain_hashmap(a, b);
    assert_eq!(merged.size(), 3);
    expect_num(&merged, "X", 2);
    expect_num(&merged, "Y", 3);
    expect_num(&merged, "W", 7);
}

#[test]
fn comparisons_follow_the_value_order() {
    let env = Bindings::new();
    assert!(unify_compare(&EqOp::LessThan, &lit(num(3)), &lit(num(5)), &env));
    assert!(!unify_compare(&EqOp::GreaterThan, &lit(num(3)), &lit(num(5)), &env));
    assert!(unify_compare(&EqOp::LessThanOrEqualTo, &lit(num(3)), &lit(num(3)), &env));
    assert!(unify_compare(&EqOp::GreaterThanOrEqualTo, &lit(num(3)), &lit(num(3)), &env));
    assert!(unify_compare(&EqOp::EqualTo, &lit(rel("a")), &lit(rel("A")), &env));
    // no order is defined on relation identifiers
    assert!(!unify_compare(&EqOp::LessThanOrEqualTo, &lit(rel("a")), &lit(rel("a")), &env));
    // an unbound variable satisfies any comparison
    assert!(unify_compare(&EqOp::GreaterThan, &var("X"), &lit(num(1)), &env));
    // a bound variable is resolved through the environment
    let mut bound = Bindings::new();
    bound.insert("X".to_string(), lit(num(9)));
    assert!(unify_compare(&EqOp::GreaterThan, &var("X"), &lit(num(1)), &bound));
    assert!(!unify_compare(&EqOp::LessThan, &var("X"), &lit(num(1)), &bound));
}

#[test]
fn fact_iterator_reports_failures_and_successes_in_order() {
    let mut db = Database::new();
    db.insert_fact(vec![txt("s"), rel("p"), num(1)]);
    db.insert_fact(vec![txt("s"), rel("p"), num(2)]);
    let mut it = InnerFactPossibilitiesIter::new(
        "P".to_string(),
        vec![lit(txt("s")), lit(num(2))],
        &db,
        &Bindings::new(),
    );
    assert!(matches!(it.next(), Some(Err(_))));
    assert!(matches!(it.next(), Some(Ok(_))));
    assert!(it.next().is_none());
}

#[test]
fn rule_iterator_walks_the_rule_solutions() {
    let mut db = Database::new();
    db.insert_fact(vec![txt("alice"), rel("parent"), txt("bob")]);
    let body = vec![Constraint::Relation("PARENT".to_string(), vec![var("X"), var("Y")])];
    let params = vec![var("X"), var("Y")];
    let mut it = InnerBacktrackingQueryIter::new(
        "PARENT".to_string(),
        vec![var("A"), var("B")],
        &db,
        &Bindings::new(),
        &body,
        &params,
        FUEL,
    )
    .unwrap();
    assert!(matches!(it.next(), Some(Ok(_))));
    assert!(it.next().is_none());
}

#[test]
fn prepared_possibilities_are_yielded_as_successes() {
    let mut env = Bindings::new();
    env.insert("X".to_string(), lit(num(1)));
    let mut it = PossibleBindings::new_with_bindings(vec![env, Bindings::new()]);
    match it.next() {
        Some(Ok(e)) => expect_num(&e, "X", 1),
        other => panic!("expected a success, got {:?}", other.is_some()),
    }
    match it.next() {
        Some(Ok(e)) => assert_eq!(e.size(), 0),
        other => panic!("expected a success, got {:?}", other.is_some()),
    }
    assert!(it.next().is_none());
}

#[test]
fn lockstep_unification_ignores_extra_elements() {
    let env = lax_unify(
        &vec![var("X")],
        &vec![lit(num(1)), lit(num(2))],
        Bindings::new(),
    )
    .expect("excess on the right is ignored");
    expect_num(&env, "X", 1);
    assert_eq!(env.size(), 1);
}

#[test]
fn variable_chains_resolve_through_the_environment() {
    // X -> Y, then unifying X with a literal binds the end of the chain
    let env = lax_unify(&vec![var("X")], &vec![var("Y")], Bindings::new()).unwrap();
    let env = lax_unify(&vec![var("X")], &vec![lit(num(4))], env).unwrap();
    expect_num(&env, "Y", 4);
    match env.get(&"X".to_string()) {
        Some(Value::Variable(n)) => assert_eq!(n, "Y"),
        other => panic!("X should still point at Y, got {:?}", other),
    }
}
