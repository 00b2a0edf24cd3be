//! Laws of the engine, stated and proved over the spec-level models.

use vstd::prelude::*;

verus! {

use crate::backtracking::{spec_possible, spec_alt, spec_backtrack, spec_chain, swap_stream,
    spec_fact_stream, lemma_fact_stream, lits_of, StreamModel};
use crate::unification::{ConModel, EnvModel, ValModel, Resolution, spec_unify, spec_unify_seq,
    spec_unify_pair, spec_bind_lit, spec_resolve, env_fuel, env_le, lemma_bind_sound,
    lemma_pair_grows, lemma_resolve_stable, lemma_unify_seq_grows};
use crate::database::{DbModel, DbTerm, term_eq, term_cmp, spec_fact_list};
use crate::num::Order;
use crate::text::{lemma_chars_cmp_equal, upper_of};

/// Where an order is defined at all, it reports `Equal` exactly on pairs
/// that are equal under the database equality.
pub proof fn ordered_equal_coincides_with_equality(a: DbTerm, b: DbTerm)
    ensures
        term_cmp(a, b) == Some(Order::Equal) ==> term_eq(a, b),
        term_eq(a, b) && term_cmp(a, b) is Some ==> term_cmp(a, b) == Some(Order::Equal),
{
    match (a, b) {
        (DbTerm::Text(s1), DbTerm::Text(s2)) => {
            lemma_chars_cmp_equal(s1, s2);
        },
        _ => {},
    }
}

/// A `Number` equals a `Float` with the same integer part and a zero
/// fractional part, in both directions, and the two are ordered equal.
pub proof fn number_equals_float_with_zero_fraction(n: int)
    ensures
        term_eq(DbTerm::Number(n), DbTerm::Float(n, 0)),
        term_eq(DbTerm::Float(n, 0), DbTerm::Number(n)),
        term_cmp(DbTerm::Number(n), DbTerm::Float(n, 0)) == Some(Order::Equal),
        term_cmp(DbTerm::Float(n, 0), DbTerm::Number(n)) == Some(Order::Equal),
{
}

/// Relation identifiers are equal exactly when they agree after case
/// folding.
pub proof fn relation_id_equality_is_case_insensitive(r1: Seq<char>, r2: Seq<char>)
    ensures
        term_eq(DbTerm::Rel(r1), DbTerm::Rel(r2)) <==> upper_of(r1) == upper_of(r2),
{
}

/// A fact inserted under one spelling of a relation name is visible to a
/// query that uses any other spelling with the same case folding: it is the
/// last stored fact, and the query's possibility stream ends with the
/// unification against it.
pub proof fn inserted_fact_queried_case_insensitive(
    db: DbModel,
    id1: Seq<char>,
    id2: Seq<char>,
    fact: Seq<DbTerm>,
    tokens: Seq<ValModel>,
    env: EnvModel,
)
    requires
        upper_of(id1) == upper_of(id2),
    ensures
        ({
            let facts2 = db.facts.insert(
                upper_of(id1),
                spec_fact_list(db.facts, upper_of(id1)).push(fact),
            );
            let visible = spec_fact_list(facts2, upper_of(id2));
            &&& visible.len() == spec_fact_list(db.facts, upper_of(id1)).len() + 1
            &&& visible.last() == fact
            &&& spec_fact_stream(visible, tokens, env).last() == spec_unify(
                tokens,
                lits_of(fact),
                env,
            )
        }),
{
    let facts2 = db.facts.insert(
        upper_of(id1),
        spec_fact_list(db.facts, upper_of(id1)).push(fact),
    );
    let visible = spec_fact_list(facts2, upper_of(id2));
    lemma_fact_stream(visible, tokens, env);
    assert(visible[visible.len() - 1] == fact);
}

/// A disjunction of a single constraint yields exactly the same possibility
/// sequence as the constraint itself, at every fuel.
pub proof fn alternatives_of_one(c: ConModel, db: DbModel, env: EnvModel, fuel: nat)
    ensures
        spec_possible(ConModel::Alt(seq![c]), db, env, fuel) == spec_possible(c, db, env, fuel),
{
    let single = seq![c];
    assert(single[0] == c);
    assert(single.drop_first() =~= Seq::<ConModel>::empty());
    match spec_possible(c, db, env, fuel) {
        Some(s1) => {
            assert(spec_alt(Seq::<ConModel>::empty(), db, env, fuel) == Some(
                Seq::<Result<EnvModel, EnvModel>>::empty(),
            ));
            assert(s1 + Seq::<Result<EnvModel, EnvModel>>::empty() =~= s1);
            assert(spec_alt(single, db, env, fuel) == Some(s1));
        },
        None => {
            assert(spec_alt(single, db, env, fuel) is None);
        },
    }
}

/// The successful environments of a possibility stream, in order.
pub open spec fn successes(s: StreamModel) -> Seq<EnvModel>
    decreases s.len(),
{
    if s.len() == 0 {
        Seq::empty()
    } else {
        (match s[0] {
            Result::Ok(e) => seq![e],
            Result::Err(_) => Seq::empty(),
        }) + successes(s.drop_first())
    }
}

/// The driver over no remaining constraints keeps exactly the successes of
/// a stream, in order.
proof fn lemma_chain_of_none(items: StreamModel, db: DbModel, fuel: nat)
    ensures
        spec_chain(items, Seq::empty(), db, fuel) == Some(successes(items)),
    decreases items.len(),
{
    if items.len() == 0 {
        assert(spec_chain(items, Seq::empty(), db, fuel) == Some(Seq::<EnvModel>::empty()));
    } else {
        lemma_chain_of_none(items.drop_first(), db, fuel);
        match items[0] {
            Result::Ok(e) => {
                assert(spec_backtrack(Seq::empty(), db, e, fuel) == Some(seq![e]));
            },
            Result::Err(_) => {},
        }
    }
}

/// A conjunction of a single constraint yields exactly the successes of the
/// constraint's own sequence, each as a success; failure items are dropped.
pub proof fn intersections_of_one(c: ConModel, db: DbModel, env: EnvModel, fuel: nat)
    ensures
        spec_possible(ConModel::Inter(seq![c]), db, env, fuel) == (match spec_possible(
            c,
            db,
            env,
            fuel,
        ) {
            Some(s) => Some(
                successes(s).map(|i: int, e: EnvModel| Result::<EnvModel, EnvModel>::Ok(e)),
            ),
            None => None,
        }),
{
    let single = seq![c];
    assert(single[0] == c);
    assert(single.drop_first() =~= Seq::<ConModel>::empty());
    match spec_possible(c, db, env, fuel) {
        Some(s) => {
            lemma_chain_of_none(s, db, fuel);
            assert(spec_backtrack(single, db, env, fuel) == Some(successes(s)));
        },
        None => {
            assert(spec_backtrack(single, db, env, fuel) is None);
        },
    }
}

/// When the constraint's sequence has no failure items, a conjunction of
/// that single constraint yields exactly the same sequence.
pub proof fn intersections_of_one_without_failures(
    c: ConModel,
    db: DbModel,
    env: EnvModel,
    fuel: nat,
)
    ensures
        match spec_possible(c, db, env, fuel) {
            Some(s) => (forall|i: int| 0 <= i < s.len() ==> (#[trigger] s[i]) is Ok)
                ==> spec_possible(ConModel::Inter(seq![c]), db, env, fuel) == Some(s),
            None => spec_possible(ConModel::Inter(seq![c]), db, env, fuel) is None,
        },
{
    intersections_of_one(c, db, env, fuel);
    match spec_possible(c, db, env, fuel) {
        Some(s) => {
            if forall|i: int| 0 <= i < s.len() ==> (#[trigger] s[i]) is Ok {
                lemma_successes_of_all_ok(s);
            }
        },
        None => {},
    }
}

/// Wrapping the successes of an all-success stream back up restores it.
proof fn lemma_successes_of_all_ok(s: StreamModel)
    requires
        forall|i: int| 0 <= i < s.len() ==> (#[trigger] s[i]) is Ok,
    ensures
        successes(s).map(|i: int, e: EnvModel| Result::<EnvModel, EnvModel>::Ok(e)) == s,
    decreases s.len(),
{
    let f = |i: int, e: EnvModel| Result::<EnvModel, EnvModel>::Ok(e);
    if s.len() == 0 {
        assert(successes(s).map(f) =~= s);
    } else {
        assert forall|i: int| 0 <= i < s.drop_first().len() implies (
        #[trigger] s.drop_first()[i]) is Ok by {
            assert(s.drop_first()[i] == s[i + 1]);
        }
        lemma_successes_of_all_ok(s.drop_first());
        let e0 = s[0]->Ok_0;
        assert(successes(s) =~= seq![e0] + successes(s.drop_first()));
        assert forall|i: int| 0 <= i < s.len() implies successes(s).map(f)[i] == s[i] by {
            if i == 0 {
                assert(successes(s)[0] == e0);
            } else {
                assert(successes(s)[i] == successes(s.drop_first())[i - 1]);
                assert(successes(s.drop_first()).map(f)[i - 1] == s.drop_first()[i - 1]);
            }
        }
        assert(successes(s).map(f) =~= s);
    }
}

/// The driver over a single unification constraint yields exactly the
/// environment under which the unification succeeds, and nothing on
/// failure; so every binding it outputs satisfies the constraint.
pub proof fn driver_of_unification_is_sound(
    l: Seq<ValModel>,
    r: Seq<ValModel>,
    db: DbModel,
    env: EnvModel,
    fuel: nat,
)
    ensures
        spec_backtrack(seq![ConModel::Unif(l, r)], db, env, fuel) == Some(
            match spec_unify(l, r, env) {
                Result::Ok(e) => seq![e],
                Result::Err(_) => Seq::<EnvModel>::empty(),
            },
        ),
{
    let single = seq![ConModel::Unif(l, r)];
    assert(single[0] == ConModel::Unif(l, r));
    assert(single.drop_first() =~= Seq::<ConModel>::empty());
    match spec_unify(l, r, env) {
        Result::Ok(e) => {
            let stream = seq![Result::<EnvModel, EnvModel>::Ok(e)];
            assert(stream.drop_first() =~= Seq::<Result<EnvModel, EnvModel>>::empty());
            assert(spec_backtrack(Seq::empty(), db, e, fuel) == Some(seq![e]));
            assert(spec_chain(stream, Seq::empty(), db, fuel) == Some(seq![e] + Seq::<
                EnvModel,
            >::empty()));
            assert(seq![e] + Seq::<EnvModel>::empty() =~= seq![e]);
        },
        Result::Err(_) => {
            assert(spec_chain(Seq::empty(), Seq::empty(), db, fuel) == Some(
                Seq::<EnvModel>::empty(),
            ));
        },
    }
}

/// The driver over a single comparison constraint yields the seed
/// environment exactly when the comparison holds under it, and nothing
/// otherwise; so every binding it outputs satisfies the constraint.
pub proof fn driver_of_comparison_is_sound(
    op: crate::unification::EqOp,
    a: ValModel,
    b: ValModel,
    db: DbModel,
    env: EnvModel,
    fuel: nat,
)
    ensures
        spec_backtrack(seq![ConModel::Cmp(op, a, b)], db, env, fuel) == Some(
            if crate::unification::spec_compare(op, a, b, env, crate::unification::cmp_fuel(env)) {
                seq![env]
            } else {
                Seq::<EnvModel>::empty()
            },
        ),
{
    let single = seq![ConModel::Cmp(op, a, b)];
    assert(single[0] == ConModel::Cmp(op, a, b));
    assert(single.drop_first() =~= Seq::<ConModel>::empty());
    if crate::unification::spec_compare(op, a, b, env, crate::unification::cmp_fuel(env)) {
        let stream = seq![Result::<EnvModel, EnvModel>::Ok(env)];
        assert(stream.drop_first() =~= Seq::<Result<EnvModel, EnvModel>>::empty());
        assert(spec_backtrack(Seq::empty(), db, env, fuel) == Some(seq![env]));
        assert(spec_chain(stream, Seq::empty(), db, fuel) == Some(seq![env] + Seq::<
            EnvModel,
        >::empty()));
        assert(seq![env] + Seq::<EnvModel>::empty() =~= seq![env]);
    } else {
        assert(spec_chain(Seq::empty(), Seq::empty(), db, fuel) == Some(Seq::<EnvModel>::empty()));
    }
}

/// Where both sides of a successfully unified pair of sequences hold
/// ground literals, the two literals are equal under the database
/// equality, whatever else the sequences hold.
pub proof fn unify_ok_ground_positions_equal(
    av: Seq<ValModel>,
    bv: Seq<ValModel>,
    env: EnvModel,
    i: int,
)
    requires
        spec_unify(av, bv, env) is Ok,
        0 <= i < av.len(),
        i < bv.len(),
        av[i] is Lit,
        bv[i] is Lit,
    ensures
        term_eq(av[i]->Lit_0, bv[i]->Lit_0),
{
    lemma_unify_seq_ground(av, bv, 0, env, i);
}

/// Inductive core of `unify_ok_ground_positions_equal`, walking the
/// lockstep unification from position `j`.
proof fn lemma_unify_seq_ground(av: Seq<ValModel>, bv: Seq<ValModel>, j: int, env: EnvModel, i: int)
    requires
        spec_unify_seq(av, bv, j, env) is Ok,
        0 <= j <= i < av.len(),
        i < bv.len(),
        av[i] is Lit,
        bv[i] is Lit,
    ensures
        term_eq(av[i]->Lit_0, bv[i]->Lit_0),
    decreases i - j,
{
    match spec_unify_pair(av[j], bv[j], env) {
        Result::Ok(e2) => {
            if j < i {
                lemma_unify_seq_ground(av, bv, j + 1, e2, i);
            }
        },
        Result::Err(_) => {},
    }
}

/// Unifying an unbound variable with a literal binds exactly that variable
/// to that literal, and the variable thereafter resolves to the literal.
pub proof fn unbound_variable_binds_to_literal(x: Seq<char>, y: DbTerm, env: EnvModel)
    requires
        !env.contains_key(x),
    ensures
        spec_bind_lit(x, y, env) == Result::<EnvModel, EnvModel>::Ok(
            env.insert(x, ValModel::Lit(y)),
        ),
        spec_resolve(
            env.insert(x, ValModel::Lit(y)),
            x,
            env_fuel(env.insert(x, ValModel::Lit(y))),
        ) == Resolution::Bound(ValModel::Lit(y)),
{
    assert(spec_resolve(env, x, env_fuel(env)) == Resolution::Free(x));
}

/// What substituting the result environment into one position of a
/// unified pair must yield: equal literals at ground positions; at a
/// variable-against-literal position, the variable's binding chain ends at
/// a bound value, equal to the literal whenever it is itself a literal
/// (it is a pattern exactly when the pair was matched through one).
pub open spec fn position_sound(l: ValModel, r: ValModel, e2: EnvModel) -> bool {
    match (l, r) {
        (ValModel::Lit(x), ValModel::Lit(y)) => term_eq(x, y),
        (ValModel::Var(x), ValModel::Lit(y)) => match spec_resolve(e2, x, env_fuel(e2)) {
            Resolution::Bound(m) => match m {
                ValModel::Lit(vx) => term_eq(vx, y),
                _ => true,
            },
            _ => false,
        },
        (ValModel::Lit(x), ValModel::Var(y)) => match spec_resolve(e2, y, env_fuel(e2)) {
            Resolution::Bound(m) => match m {
                ValModel::Lit(vy) => term_eq(vy, x),
                _ => true,
            },
            _ => false,
        },
        _ => true,
    }
}

/// Soundness of a successful unification at every position, for sequences
/// without variable-variable pairs: substituting the result environment
/// into the two sides makes them agree, in the sense of `position_sound`.
/// A variable-variable pair may rebind an already bound variable and break
/// an earlier position, so those inputs are excluded.
pub proof fn unify_ok_positions_sound(av: Seq<ValModel>, bv: Seq<ValModel>, env: EnvModel, i: int)
    requires
        env.dom().finite(),
        spec_unify(av, bv, env) is Ok,
        forall|k: int| 0 <= k < av.len() && k < bv.len() ==> !((#[trigger] av[k]) is Var
            && bv[k] is Var),
        0 <= i < av.len(),
        i < bv.len(),
    ensures
        match spec_unify(av, bv, env) {
            Result::Ok(e2) => position_sound(av[i], bv[i], e2),
            Result::Err(_) => true,
        },
{
    lemma_unify_sound_from(av, bv, 0, env, i);
}

/// Inductive core of `unify_ok_positions_sound`: walk the lockstep
/// unification up to the position of interest, then carry its claim
/// through the growth of the environment over the remaining positions.
proof fn lemma_unify_sound_from(av: Seq<ValModel>, bv: Seq<ValModel>, j: int, env: EnvModel, i: int)
    requires
        env.dom().finite(),
        spec_unify_seq(av, bv, j, env) is Ok,
        forall|k: int| 0 <= k < av.len() && k < bv.len() ==> !((#[trigger] av[k]) is Var
            && bv[k] is Var),
        0 <= j <= i < av.len(),
        i < bv.len(),
    ensures
        match spec_unify_seq(av, bv, j, env) {
            Result::Ok(e2) => position_sound(av[i], bv[i], e2),
            Result::Err(_) => true,
        },
    decreases i - j,
{
    match spec_unify_pair(av[j], bv[j], env) {
        Result::Ok(e1) => {
            lemma_pair_grows(av[j], bv[j], env);
            if j < i {
                lemma_unify_sound_from(av, bv, j + 1, e1, i);
            } else {
                lemma_unify_seq_grows(av, bv, j + 1, e1);
                match spec_unify_seq(av, bv, j + 1, e1) {
                    Result::Ok(e2) => {
                        match (av[i], bv[i]) {
                            (ValModel::Var(x), ValModel::Lit(y)) => {
                                lemma_bind_sound(x, y, env);
                                lemma_resolve_stable(e1, e2, x);
                            },
                            (ValModel::Lit(x), ValModel::Var(y)) => {
                                lemma_bind_sound(y, x, env);
                                lemma_resolve_stable(e1, e2, y);
                            },
                            _ => {},
                        }
                    },
                    Result::Err(_) => {},
                }
            }
        },
        Result::Err(_) => {},
    }
}

/// Position soundness survives any extension of the environment.
proof fn lemma_position_sound_stable(lv: ValModel, rv: ValModel, small: EnvModel, big: EnvModel)
    requires
        position_sound(lv, rv, small),
        env_le(small, big),
        small.dom().finite(),
        big.dom().finite(),
    ensures
        position_sound(lv, rv, big),
{
    match (lv, rv) {
        (ValModel::Var(x), ValModel::Lit(_)) => {
            lemma_resolve_stable(small, big, x);
        },
        (ValModel::Lit(_), ValModel::Var(y)) => {
            lemma_resolve_stable(small, big, y);
        },
        _ => {},
    }
}

/// A unification constraint whose two sides pair no variable against a
/// variable.
pub open spec fn unif_without_var_var(c: ConModel) -> bool {
    &&& c is Unif
    &&& forall|k: int|
        0 <= k < c->Unif_0.len() && k < c->Unif_1.len() ==> !((#[trigger] c->Unif_0[k]) is Var
            && c->Unif_1[k] is Var)
}

/// Driver soundness for a conjunction of unification constraints: every
/// binding the driver outputs extends the seed environment and, at every
/// position of every constraint in the list, satisfies that constraint in
/// the sense of `position_sound`.  Variable-variable pairs are excluded:
/// they may rebind a variable and break an earlier constraint.
pub proof fn driver_of_unifications_is_sound(
    cs: Seq<ConModel>,
    db: DbModel,
    env: EnvModel,
    fuel: nat,
)
    requires
        env.dom().finite(),
        forall|c: int| 0 <= c < cs.len() ==> unif_without_var_var(#[trigger] cs[c]),
    ensures
        match spec_backtrack(cs, db, env, fuel) {
            Some(sols) => forall|s: int|
                0 <= s < sols.len() ==> env_le(env, #[trigger] sols[s]) && sols[
                    s
                ].dom().finite() && (forall|c: int, p: int|
                    0 <= c < cs.len() && 0 <= p < cs[c]->Unif_0.len() && p < cs[
                        c
                    ]->Unif_1.len() ==> position_sound(
                        #[trigger] cs[c]->Unif_0[p],
                        #[trigger] cs[c]->Unif_1[p],
                        sols[s],
                    )),
            None => true,
        },
    decreases cs.len(),
{
    if cs.len() == 0 {
        assert(spec_backtrack(cs, db, env, fuel) == Some(seq![env]));
    } else {
        let l = cs[0]->Unif_0;
        let r = cs[0]->Unif_1;
        let rest = cs.drop_first();
        assert forall|c: int| 0 <= c < rest.len() implies unif_without_var_var(
            #[trigger] rest[c],
        ) by {
            assert(rest[c] == cs[c + 1]);
        }
        match spec_unify(l, r, env) {
            Result::Ok(e1) => {
                let stream = seq![Result::<EnvModel, EnvModel>::Ok(e1)];
                assert(stream.drop_first() =~= Seq::<Result<EnvModel, EnvModel>>::empty());
                lemma_unify_seq_grows(l, r, 0, env);
                driver_of_unifications_is_sound(rest, db, e1, fuel);
                match spec_backtrack(rest, db, e1, fuel) {
                    Some(inner) => {
                        assert(spec_chain(
                            Seq::<Result<EnvModel, EnvModel>>::empty(),
                            rest,
                            db,
                            fuel,
                        ) == Some(Seq::<EnvModel>::empty()));
                        assert(inner + Seq::<EnvModel>::empty() =~= inner);
                        assert(spec_backtrack(cs, db, env, fuel) == Some(inner));
                        assert forall|s: int| 0 <= s < inner.len() implies env_le(
                            env,
                            #[trigger] inner[s],
                        ) && inner[s].dom().finite() && (forall|c: int, p: int|
                            0 <= c < cs.len() && 0 <= p < cs[c]->Unif_0.len() && p < cs[
                                c
                            ]->Unif_1.len() ==> position_sound(
                                #[trigger] cs[c]->Unif_0[p],
                                #[trigger] cs[c]->Unif_1[p],
                                inner[s],
                            )) by {
                            assert forall|c: int, p: int|
                                0 <= c < cs.len() && 0 <= p < cs[c]->Unif_0.len() && p < cs[
                                    c
                                ]->Unif_1.len() implies position_sound(
                                #[trigger] cs[c]->Unif_0[p],
                                #[trigger] cs[c]->Unif_1[p],
                                inner[s],
                            ) by {
                                if c == 0 {
                                    unify_ok_positions_sound(l, r, env, p);
                                    lemma_position_sound_stable(l[p], r[p], e1, inner[s]);
                                } else {
                                    assert(rest[c - 1] == cs[c]);
                                }
                            }
                        }
                    },
                    None => {},
                }
            },
            Result::Err(_) => {
                assert(spec_backtrack(cs, db, env, fuel) == Some(Seq::<EnvModel>::empty()));
            },
        }
    }
}

/// Whether a possibility stream contains at least one success.
pub open spec fn has_success(s: StreamModel) -> bool {
    exists|i: int| 0 <= i < s.len() && (#[trigger] s[i]) is Ok
}

/// Double negation restores a constraint's possibility sequence exactly; in
/// particular `Not(Not(c))` has a success precisely when `c` has one.
pub proof fn double_negation(c: ConModel, db: DbModel, env: EnvModel, fuel: nat)
    ensures
        spec_possible(
            ConModel::Neg(Box::new(ConModel::Neg(Box::new(c)))),
            db,
            env,
            fuel,
        ) == spec_possible(c, db, env, fuel),
        match (spec_possible(
            ConModel::Neg(Box::new(ConModel::Neg(Box::new(c)))),
            db,
            env,
            fuel,
        ), spec_possible(c, db, env, fuel)) {
            (Some(s2), Some(s1)) => has_success(s2) <==> has_success(s1),
            (None, None) => true,
            _ => false,
        },
{
    match spec_possible(c, db, env, fuel) {
        Some(s) => {
            assert forall|i: int| 0 <= i < s.len() implies swap_stream(swap_stream(s))[i] == s[i]
                by {}
            assert(swap_stream(swap_stream(s)) =~= s);
            assert(spec_possible(ConModel::Neg(Box::new(c)), db, env, fuel) == Some(
                swap_stream(s),
            ));
        },
        None => {
            assert(spec_possible(ConModel::Neg(Box::new(c)), db, env, fuel) is None);
        },
    }
}

} // verus!
