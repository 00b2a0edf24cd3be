//! The per-constraint enumerator and the backtracking driver.
//!
//! A constraint's possibilities form an ordered sequence of `Ok` (satisfying
//! extension) and `Err` (negated success) environments; the driver composes
//! a conjunction of constraints by depth-first, left-to-right enumeration.
//! Recursive rules can diverge, so evaluation carries explicit fuel, spent
//! only on rule expansion; `None` means the fuel ran out.

use vstd::prelude::*;

verus! {

use crate::database::{Database, DbModel, DbTerm, DBValue, dbv_model, dbv_model_seq,
    fact_list_model, lemma_dbv_model_seq, lemma_fact_list_model};
use crate::unification::{Bindings, ConModel, Constraint, EnvModel, ValModel, Value, RelationID,
    spec_unify, spec_compare, cmp_fuel, val_model, val_model_seq, con_model, con_model_seq,
    lemma_val_model_seq, lemma_con_model_seq, con_wf, cons_wf, vals_wf, val_wf, res_model, res_wf,
    lax_unify_wrap, unify_wrap, unify_compare};

broadcast use vstd::std_specs::vec::group_vec_axioms;

/// The possibilities of one constraint: `Ok` for satisfying extensions,
/// `Err` for negated successes.
pub type StreamModel = Seq<Result<EnvModel, EnvModel>>;

// ------------------------------------------------------------------
// Termination measures over constraint models.
// ------------------------------------------------------------------
/// Size of a constraint model.
pub open spec fn c_size(c: ConModel) -> nat
    decreases c, 1int,
{
    match c {
        ConModel::Rel(_, _) => 1,
        ConModel::Unif(_, _) => 1,
        ConModel::Cmp(_, _, _) => 1,
        ConModel::Neg(inner) => (1 + c_size(*inner)) as nat,
        ConModel::Alt(cs) => (2 + csl_size(cs)) as nat,
        ConModel::Inter(cs) => (2 + csl_size(cs)) as nat,
    }
}

/// Size of a sequence of constraint models.
pub open spec fn csl_size(s: Seq<ConModel>) -> nat
    decreases s, 0int,
{
    if s.len() == 0 {
        0
    } else {
        (1 + c_size(s[0]) + csl_size(s.drop_first())) as nat
    }
}

// ------------------------------------------------------------------
// The enumerator and the driver, as spec functions.
// ------------------------------------------------------------------
/// The literals of a ground fact tuple, as values.
pub open spec fn lits_of(ts: Seq<DbTerm>) -> Seq<ValModel> {
    Seq::new(ts.len(), |i: int| ValModel::Lit(ts[i]))
}

/// Unify the query tokens against each stored fact, in insertion order.
pub open spec fn spec_fact_stream(
    facts: Seq<Seq<DbTerm>>,
    tokens: Seq<ValModel>,
    env: EnvModel,
) -> StreamModel
    decreases facts.len(),
{
    if facts.len() == 0 {
        Seq::empty()
    } else {
        seq![spec_unify(tokens, lits_of(facts[0]), env)] + spec_fact_stream(
            facts.drop_first(),
            tokens,
            env,
        )
    }
}

/// `spec_fact_stream` maps unification over the facts, index by index.
pub proof fn lemma_fact_stream(facts: Seq<Seq<DbTerm>>, tokens: Seq<ValModel>, env: EnvModel)
    ensures
        spec_fact_stream(facts, tokens, env).len() == facts.len(),
        forall|i: int| 0 <= i < facts.len() ==> spec_fact_stream(facts, tokens, env)[i]
            == spec_unify(tokens, lits_of(#[trigger] facts[i]), env),
    decreases facts.len(),
{
    if facts.len() > 0 {
        lemma_fact_stream(facts.drop_first(), tokens, env);
        assert forall|i: int| 0 <= i < facts.len() implies spec_fact_stream(facts, tokens, env)[i]
            == spec_unify(tokens, lits_of(#[trigger] facts[i]), env) by {
            if i > 0 {
                assert(spec_fact_stream(facts, tokens, env)[i] == spec_fact_stream(
                    facts.drop_first(),
                    tokens,
                    env,
                )[i - 1]);
                assert(facts.drop_first()[i - 1] == facts[i]);
            }
        }
    }
}

/// Swap the `Ok` and `Err` tags of every item.
pub open spec fn swap_stream(s: StreamModel) -> StreamModel {
    s.map(
        |i: int, r: Result<EnvModel, EnvModel>|
            match r {
                Result::Ok(e) => Result::<EnvModel, EnvModel>::Err(e),
                Result::Err(e) => Result::<EnvModel, EnvModel>::Ok(e),
            },
    )
}

/// The possibilities of one constraint under an environment; `None` means
/// the fuel ran out inside a rule expansion.
pub open spec fn spec_possible(c: ConModel, db: DbModel, env: EnvModel, fuel: nat) -> Option<
    StreamModel,
>
    decreases fuel, c_size(c), 0int, 0int,
{
    match c {
        ConModel::Rel(id, tokens) => {
            let facts = if db.facts.contains_key(id) {
                db.facts[id]
            } else {
                Seq::empty()
            };
            let fstream = spec_fact_stream(facts, tokens, env);
            if db.rules.contains_key(id) {
                match spec_unify(tokens, db.rules[id].0, env) {
                    Result::Ok(e2) => if fuel == 0 {
                        None
                    } else {
                        match spec_backtrack(db.rules[id].1, db, e2, (fuel - 1) as nat) {
                            None => None,
                            Some(envs) => Some(
                                fstream + envs.map(
                                    |i: int, e: EnvModel| Result::<EnvModel, EnvModel>::Ok(e),
                                ),
                            ),
                        }
                    },
                    Result::Err(_) => Some(fstream),
                }
            } else {
                Some(fstream)
            }
        },
        ConModel::Unif(l, r) => match spec_unify(l, r, env) {
            Result::Ok(e) => Some(seq![Result::<EnvModel, EnvModel>::Ok(e)]),
            Result::Err(_) => Some(Seq::empty()),
        },
        ConModel::Cmp(op, a, b) => if spec_compare(op, a, b, env, cmp_fuel(env)) {
            Some(seq![Result::<EnvModel, EnvModel>::Ok(env)])
        } else {
            Some(Seq::empty())
        },
        ConModel::Neg(inner) => match spec_possible(*inner, db, env, fuel) {
            None => None,
            Some(s) => Some(swap_stream(s)),
        },
        ConModel::Alt(cs) => spec_alt(cs, db, env, fuel),
        ConModel::Inter(cs) => match spec_backtrack(cs, db, env, fuel) {
            None => None,
            Some(envs) => Some(
                envs.map(|i: int, e: EnvModel| Result::<EnvModel, EnvModel>::Ok(e)),
            ),
        },
    }
}

/// Concatenate the possibility streams of the alternatives, in order.
pub open spec fn spec_alt(cs: Seq<ConModel>, db: DbModel, env: EnvModel, fuel: nat) -> Option<
    StreamModel,
>
    decreases fuel, (1 + csl_size(cs)) as nat, 0int, 0int,
{
    if cs.len() == 0 {
        Some(Seq::empty())
    } else {
        match spec_possible(cs[0], db, env, fuel) {
            None => None,
            Some(s1) => match spec_alt(cs.drop_first(), db, env, fuel) {
                None => None,
                Some(s2) => Some(s1 + s2),
            },
        }
    }
}

/// The backtracking driver: the ordered joint solutions of a conjunction of
/// constraints, seeded with `env`.
pub open spec fn spec_backtrack(cs: Seq<ConModel>, db: DbModel, env: EnvModel, fuel: nat) -> Option<
    Seq<EnvModel>,
>
    decreases fuel, (1 + csl_size(cs)) as nat, 1int, 0int,
{
    if cs.len() == 0 {
        Some(seq![env])
    } else {
        match spec_possible(cs[0], db, env, fuel) {
            None => None,
            Some(stream) => spec_chain(stream, cs.drop_first(), db, fuel),
        }
    }
}

/// Feed each `Ok` environment of `items` into the remaining constraints and
/// concatenate the solutions; `Err` items are discarded.
pub open spec fn spec_chain(
    items: StreamModel,
    rest: Seq<ConModel>,
    db: DbModel,
    fuel: nat,
) -> Option<Seq<EnvModel>>
    decreases fuel, (2 + csl_size(rest)) as nat, 0int, items.len(),
{
    if items.len() == 0 {
        Some(Seq::empty())
    } else {
        let first = match items[0] {
            Result::Ok(e) => spec_backtrack(rest, db, e, fuel),
            Result::Err(_) => Some(Seq::empty()),
        };
        match first {
            None => None,
            Some(s1) => match spec_chain(items.drop_first(), rest, db, fuel) {
                None => None,
                Some(s2) => Some(s1 + s2),
            },
        }
    }
}

// ------------------------------------------------------------------
// Executable enumerator and driver, mirroring the spec functions.
// ------------------------------------------------------------------
/// The models of a vector of possibility items.
pub open spec fn stream_model(s: Seq<Result<Bindings, Bindings>>) -> StreamModel
    decreases s.len(),
{
    if s.len() == 0 {
        Seq::empty()
    } else {
        seq![res_model(s[0])] + stream_model(s.drop_first())
    }
}

/// `stream_model` maps `res_model` over the vector, index by index.
pub proof fn lemma_stream_model(s: Seq<Result<Bindings, Bindings>>)
    ensures
        stream_model(s).len() == s.len(),
        forall|i: int| 0 <= i < s.len() ==> stream_model(s)[i] == res_model(#[trigger] s[i]),
    decreases s.len(),
{
    if s.len() > 0 {
        lemma_stream_model(s.drop_first());
        assert forall|i: int| 0 <= i < s.len() implies stream_model(s)[i] == res_model(
            #[trigger] s[i],
        ) by {
            if i > 0 {
                assert(stream_model(s)[i] == stream_model(s.drop_first())[i - 1]);
                assert(s.drop_first()[i - 1] == s[i]);
            }
        }
    }
}

/// Every item's environments are well-formed.
pub open spec fn stream_wf(s: Seq<Result<Bindings, Bindings>>) -> bool {
    forall|i: int| 0 <= i < s.len() ==> res_wf(#[trigger] s[i])
}

/// The models of a vector of environments.
pub open spec fn envs_model(s: Seq<Bindings>) -> Seq<EnvModel>
    decreases s.len(),
{
    if s.len() == 0 {
        Seq::empty()
    } else {
        seq![s[0].model()] + envs_model(s.drop_first())
    }
}

/// `envs_model` maps the model over the vector, index by index.
pub proof fn lemma_envs_model(s: Seq<Bindings>)
    ensures
        envs_model(s).len() == s.len(),
        forall|i: int| 0 <= i < s.len() ==> envs_model(s)[i] == (#[trigger] s[i]).model(),
    decreases s.len(),
{
    if s.len() > 0 {
        lemma_envs_model(s.drop_first());
        assert forall|i: int| 0 <= i < s.len() implies envs_model(s)[i] == (
        #[trigger] s[i]).model() by {
            if i > 0 {
                assert(envs_model(s)[i] == envs_model(s.drop_first())[i - 1]);
                assert(s.drop_first()[i - 1] == s[i]);
            }
        }
    }
}

/// Every environment is well-formed.
pub open spec fn envs_wf(s: Seq<Bindings>) -> bool {
    forall|i: int| 0 <= i < s.len() ==> (#[trigger] s[i]).wf()
}

/// Wrap the values of a fact tuple as literals.
#[verifier::loop_isolation(false)]
fn fact_lits(fact: &Vec<DBValue>) -> (r: Vec<Value>)
    requires
        crate::unification::dbvs_wf(fact@),
    ensures
        val_model_seq(r@) == lits_of(dbv_model_seq(fact@)),
        vals_wf(r@),
{
    let mut out: Vec<Value> = Vec::new();
    let mut i: usize = 0;
    proof {
        lemma_dbv_model_seq(fact@);
    }
    while i < fact.len()
        invariant
            i <= fact.len(),
            out@.len() == i,
            forall|j: int| 0 <= j < i ==> val_model(#[trigger] out@[j]) == ValModel::Lit(
                dbv_model(fact@[j]),
            ) && val_wf(out@[j]),
        decreases fact.len() - i,
    {
        out.push(Value::Literal(fact[i].duplicate()));
        i = i + 1;
    }
    proof {
        lemma_val_model_seq(out@);
        let m = dbv_model_seq(fact@);
        assert forall|j: int| 0 <= j < out@.len() implies val_model_seq(out@)[j] == lits_of(m)[j]
            by {
            assert(val_model(out@[j]) == ValModel::Lit(dbv_model(fact@[j])));
        }
        assert(val_model_seq(out@) =~= lits_of(m));
    }
    out
}

/// The possibilities of one constraint; `None` when the fuel ran out.
#[verifier::rlimit(60)]
pub fn possible_bindings(c: &Constraint, db: &Database, env: &Bindings, fuel: u64) -> (r: Option<
    Vec<Result<Bindings, Bindings>>,
>)
    requires
        con_wf(*c),
        db.wf(),
        env.wf(),
    ensures
        match r {
            Option::Some(v) => spec_possible(con_model(*c), db.model(), env.model(), fuel as nat)
                == Some(stream_model(v@)) && stream_wf(v@),
            Option::None => spec_possible(con_model(*c), db.model(), env.model(), fuel as nat)
                is None,
        },
    decreases fuel, c_size(con_model(*c)), 0int, 0int,
{
    match c {
        Constraint::Relation(id, tokens) => {
            let ghost tokens_m = val_model_seq(tokens@);
            let ghost env_m = env.model();
            let ghost facts_m = if db.model().facts.contains_key(id@) {
                db.model().facts[id@]
            } else {
                Seq::<Seq<DbTerm>>::empty()
            };
            let mut out: Vec<Result<Bindings, Bindings>> = Vec::new();
            match db.facts_of(id) {
                Some(facts) => {
                    proof {
                        lemma_fact_list_model(facts@);
                        assert(facts_m == fact_list_model(facts@));
                        assert(facts_m.len() == facts@.len());
                    }
                    let mut i: usize = 0;
                    #[verifier::loop_isolation(false)]
                    while i < facts.len()
                        invariant
                            i <= facts.len(),
                            out@.len() == i,
                            forall|j: int| 0 <= j < i ==> res_model(#[trigger] out@[j])
                                == spec_unify(tokens_m, lits_of(facts_m[j]), env_m) && res_wf(
                                out@[j],
                            ),
                        decreases facts.len() - i,
                    {
                        let lits = fact_lits(&facts[i]);
                        let item = lax_unify_wrap(tokens, &lits, env);
                        out.push(item);
                        i = i + 1;
                    }
                },
                None => {
                    proof {
                        assert(facts_m.len() == 0);
                    }
                },
            }
            proof {
                lemma_stream_model(out@);
                lemma_fact_stream(facts_m, tokens_m, env_m);
                assert forall|j: int| 0 <= j < out@.len() implies stream_model(out@)[j]
                    == spec_fact_stream(facts_m, tokens_m, env_m)[j] by {
                    assert(res_model(out@[j]) == spec_unify(tokens_m, lits_of(facts_m[j]), env_m));
                }
                assert(stream_model(out@) =~= spec_fact_stream(facts_m, tokens_m, env_m));
                assert(stream_wf(out@));
            }
            match db.rule_of(id) {
                Some(rule) => {
                    match unify_wrap(tokens, &rule.0, env) {
                        Some(e2) => {
                            if fuel == 0 {
                                return None;
                            }
                            proof {
                                assert(con_model_seq(rule.1@).skip(0) =~= con_model_seq(rule.1@));
                            }
                            match backtrack_go(&rule.1, 0, db, &e2, fuel - 1) {
                                None => None,
                                Some(envs) => {
                                    let ghost base = out@;
                                    let mut k: usize = 0;
                                    proof {
                                        lemma_envs_model(envs@);
                                    }
                                    #[verifier::loop_isolation(false)]
                                    while k < envs.len()
                                        invariant
                                            k <= envs.len(),
                                            out@.len() == base.len() + k,
                                            out@.take(base.len() as int) == base,
                                            envs_wf(envs@),
                                            forall|j: int| 0 <= j < k ==> res_model(
                                                #[trigger] out@[base.len() + j],
                                            ) == Result::<EnvModel, EnvModel>::Ok(
                                                envs_model(envs@)[j],
                                            ) && res_wf(out@[base.len() + j]),
                                        decreases envs.len() - k,
                                    {
                                        let ghost pre = out@;
                                        out.push(Ok(envs[k].duplicate()));
                                        proof {
                                            assert(out@.take(base.len() as int) =~= pre.take(
                                                base.len() as int,
                                            ));
                                        }
                                        k = k + 1;
                                    }
                                    proof {
                                        lemma_stream_model(out@);
                                        let tail = envs_model(envs@).map(
                                            |i: int, e: EnvModel|
                                                Result::<EnvModel, EnvModel>::Ok(e),
                                        );
                                        assert forall|j: int|
                                            0 <= j < out@.len() implies stream_model(out@)[j] == (
                                        spec_fact_stream(facts_m, tokens_m, env_m) + tail)[j] by {
                                            if j < base.len() {
                                                assert(out@[j] == out@.take(
                                                    base.len() as int,
                                                )[j]);
                                                assert(out@[j] == base[j]);
                                                assert(stream_model(out@)[j] == res_model(
                                                    out@[j],
                                                ));
                                            } else {
                                                let t = j - base.len();
                                                assert(res_model(out@[base.len() + t])
                                                    == Result::<EnvModel, EnvModel>::Ok(
                                                    envs_model(envs@)[t],
                                                ));
                                                assert(tail[t]
                                                    == Result::<EnvModel, EnvModel>::Ok(
                                                    envs_model(envs@)[t],
                                                ));
                                            }
                                        }
                                        assert(stream_model(out@) =~= spec_fact_stream(
                                            facts_m,
                                            tokens_m,
                                            env_m,
                                        ) + tail);
                                        assert forall|j: int|
                                            0 <= j < out@.len() implies res_wf(
                                            #[trigger] out@[j],
                                        ) by {
                                            if j < base.len() {
                                                assert(out@[j] == out@.take(
                                                    base.len() as int,
                                                )[j]);
                                                assert(out@[j] == base[j]);
                                            } else {
                                                let t = j - base.len();
                                                assert(res_wf(out@[base.len() + t]));
                                            }
                                        }
                                    }
                                    Some(out)
                                },
                            }
                        },
                        None => Some(out),
                    }
                },
                None => Some(out),
            }
        },
        Constraint::Unification(avs, bvs) => {
            match unify_wrap(avs, bvs, env) {
                Some(e) => {
                    let v = vec![Result::<Bindings, Bindings>::Ok(e)];
                    proof {
                        assert(v@.drop_first() =~= Seq::<Result<Bindings, Bindings>>::empty());
                        assert(stream_model(Seq::<Result<Bindings, Bindings>>::empty())
                            =~= Seq::<Result<EnvModel, EnvModel>>::empty());
                        assert(stream_model(v@) =~= seq![res_model(v@[0])]);
                        assert(stream_wf(v@));
                    }
                    Some(v)
                },
                None => {
                    let v: Vec<Result<Bindings, Bindings>> = Vec::new();
                    Some(v)
                },
            }
        },
        Constraint::Comparison(op, a, b) => {
            if unify_compare(op, a, b, env) {
                let v = vec![Result::<Bindings, Bindings>::Ok(env.duplicate())];
                proof {
                    assert(v@.drop_first() =~= Seq::<Result<Bindings, Bindings>>::empty());
                    assert(stream_model(Seq::<Result<Bindings, Bindings>>::empty())
                        =~= Seq::<Result<EnvModel, EnvModel>>::empty());
                    assert(stream_model(v@) =~= seq![res_model(v@[0])]);
                    assert(stream_wf(v@));
                }
                Some(v)
            } else {
                let v: Vec<Result<Bindings, Bindings>> = Vec::new();
                Some(v)
            }
        },
        Constraint::Not(inner) => {
            match possible_bindings(inner, db, env, fuel) {
                None => None,
                Some(items) => {
                    let mut out: Vec<Result<Bindings, Bindings>> = Vec::new();
                    let mut k: usize = 0;
                    proof {
                        lemma_stream_model(items@);
                    }
                    #[verifier::loop_isolation(false)]
                    while k < items.len()
                        invariant
                            k <= items.len(),
                            out@.len() == k,
                            stream_wf(items@),
                            forall|j: int| 0 <= j < k ==> res_model(#[trigger] out@[j])
                                == swap_stream(stream_model(items@))[j] && res_wf(out@[j]),
                        decreases items.len() - k,
                    {
                        let flipped = match &items[k] {
                            Ok(e) => Result::<Bindings, Bindings>::Err(e.duplicate()),
                            Err(e) => Result::<Bindings, Bindings>::Ok(e.duplicate()),
                        };
                        out.push(flipped);
                        k = k + 1;
                    }
                    proof {
                        lemma_stream_model(out@);
                        assert forall|j: int| 0 <= j < out@.len() implies stream_model(out@)[j]
                            == swap_stream(stream_model(items@))[j] by {
                            assert(res_model(out@[j]) == swap_stream(stream_model(items@))[j]);
                        }
                        assert(stream_model(out@) =~= swap_stream(stream_model(items@)));
                        assert(stream_wf(out@));
                    }
                    Some(out)
                },
            }
        },
        Constraint::Alternatives(cs) => {
            proof {
                assert(con_model_seq(cs@).skip(0) =~= con_model_seq(cs@));
            }
            alt_go(cs, 0, db, env, fuel)
        },
        Constraint::Intersections(cs) => {
            proof {
                assert(con_model_seq(cs@).skip(0) =~= con_model_seq(cs@));
            }
            match backtrack_go(cs, 0, db, env, fuel) {
                None => None,
                Some(envs) => {
                    let mut out: Vec<Result<Bindings, Bindings>> = Vec::new();
                    let mut k: usize = 0;
                    proof {
                        lemma_envs_model(envs@);
                    }
                    #[verifier::loop_isolation(false)]
                    while k < envs.len()
                        invariant
                            k <= envs.len(),
                            out@.len() == k,
                            envs_wf(envs@),
                            forall|j: int| 0 <= j < k ==> res_model(#[trigger] out@[j])
                                == Result::<EnvModel, EnvModel>::Ok(envs_model(envs@)[j])
                                && res_wf(out@[j]),
                        decreases envs.len() - k,
                    {
                        out.push(Ok(envs[k].duplicate()));
                        k = k + 1;
                    }
                    proof {
                        lemma_stream_model(out@);
                        let mapped = envs_model(envs@).map(
                            |i: int, e: EnvModel| Result::<EnvModel, EnvModel>::Ok(e),
                        );
                        assert forall|j: int| 0 <= j < out@.len() implies stream_model(out@)[j]
                            == mapped[j] by {
                            assert(res_model(out@[j]) == Result::<EnvModel, EnvModel>::Ok(
                                envs_model(envs@)[j],
                            ));
                        }
                        assert(stream_model(out@) =~= mapped);
                        assert(stream_wf(out@));
                    }
                    Some(out)
                },
            }
        },
    }
}

/// Concatenate the possibility streams of `cs[i..]`.
fn alt_go(cs: &Vec<Constraint>, i: usize, db: &Database, env: &Bindings, fuel: u64) -> (r: Option<
    Vec<Result<Bindings, Bindings>>,
>)
    requires
        i <= cs@.len(),
        cons_wf(cs@),
        db.wf(),
        env.wf(),
    ensures
        match r {
            Option::Some(v) => spec_alt(
                con_model_seq(cs@).skip(i as int),
                db.model(),
                env.model(),
                fuel as nat,
            ) == Some(stream_model(v@)) && stream_wf(v@),
            Option::None => spec_alt(
                con_model_seq(cs@).skip(i as int),
                db.model(),
                env.model(),
                fuel as nat,
            ) is None,
        },
    decreases fuel, (1 + csl_size(con_model_seq(cs@).skip(i as int))) as nat, 0int,
        cs@.len() - i,
{
    proof {
        lemma_con_model_seq(cs@);
    }
    let ghost tail = con_model_seq(cs@).skip(i as int);
    if i >= cs.len() {
        proof {
            assert(tail =~= Seq::<ConModel>::empty());
        }
        let v: Vec<Result<Bindings, Bindings>> = Vec::new();
        Some(v)
    } else {
        proof {
            assert(tail[0] == con_model(cs@[i as int]));
            assert(tail.drop_first() =~= con_model_seq(cs@).skip(i + 1));
        }
        match possible_bindings(&cs[i], db, env, fuel) {
            None => None,
            Some(mut s1) => {
                match alt_go(cs, i + 1, db, env, fuel) {
                    None => None,
                    Some(s2) => {
                        let ghost m1 = s1@;
                        let ghost m2 = s2@;
                        let mut s2 = s2;
                        proof {
                            lemma_stream_model(m1);
                            lemma_stream_model(m2);
                            assert(s2@ =~= m2.skip(0));
                        }
                        #[verifier::loop_isolation(false)]
                        while s2.len() > 0
                            invariant
                                s2@.len() <= m2.len(),
                                s2@ == m2.skip(m2.len() - s2@.len()),
                                s1@.len() == m1.len() + (m2.len() - s2@.len()),
                                s1@.take(m1.len() as int) == m1,
                                stream_wf(m1),
                                stream_wf(m2),
                                forall|j: int| 0 <= j < m2.len() - s2@.len()
                                    ==> #[trigger] s1@[m1.len() + j] == m2[j],
                            decreases s2@.len(),
                        {
                            let ghost k = m2.len() - s2@.len();
                            let ghost pre = s1@;
                            let item = s2.remove(0);
                            proof {
                                assert(m2.skip(k as int)[0] == m2[k as int]);
                                assert(m2.skip(k as int).remove(0) =~= m2.skip(k + 1));
                            }
                            s1.push(item);
                            proof {
                                assert(s1@.take(m1.len() as int) =~= pre.take(m1.len() as int));
                            }
                        }
                        proof {
                            lemma_stream_model(s1@);
                            assert forall|j: int| 0 <= j < s1@.len() implies #[trigger] stream_model(
                                s1@,
                            )[j] == (stream_model(m1) + stream_model(m2))[j] by {
                                if j < m1.len() {
                                    assert(s1@[j] == s1@.take(m1.len() as int)[j]);
                                    assert(s1@[j] == m1[j]);
                                    assert(stream_model(m1)[j] == res_model(m1[j]));
                                } else {
                                    let t = j - m1.len();
                                    assert(s1@[m1.len() + t] == m2[t]);
                                    assert(stream_model(m2)[t] == res_model(m2[t]));
                                }
                                assert(stream_model(s1@)[j] == res_model(s1@[j]));
                            }
                            assert forall|j: int| 0 <= j < s1@.len() implies res_wf(
                                #[trigger] s1@[j],
                            ) by {
                                if j < m1.len() {
                                    assert(s1@[j] == s1@.take(m1.len() as int)[j]);
                                    assert(s1@[j] == m1[j]);
                                } else {
                                    let t = j - m1.len();
                                    assert(s1@[m1.len() + t] == m2[t]);
                                }
                            }
                            assert(stream_model(s1@) =~= stream_model(m1) + stream_model(m2));
                        }
                        Some(s1)
                    },
                }
            },
        }
    }
}

/// The driver over `cs[idx..]`, seeded with `env`.
pub fn backtrack_go(
    cs: &Vec<Constraint>,
    idx: usize,
    db: &Database,
    env: &Bindings,
    fuel: u64,
) -> (r: Option<Vec<Bindings>>)
    requires
        idx <= cs@.len(),
        cons_wf(cs@),
        db.wf(),
        env.wf(),
    ensures
        match r {
            Option::Some(v) => spec_backtrack(
                con_model_seq(cs@).skip(idx as int),
                db.model(),
                env.model(),
                fuel as nat,
            ) == Some(envs_model(v@)) && envs_wf(v@),
            Option::None => spec_backtrack(
                con_model_seq(cs@).skip(idx as int),
                db.model(),
                env.model(),
                fuel as nat,
            ) is None,
        },
    decreases fuel, (1 + csl_size(con_model_seq(cs@).skip(idx as int))) as nat, 1int, 0int,
{
    proof {
        lemma_con_model_seq(cs@);
    }
    let ghost tail = con_model_seq(cs@).skip(idx as int);
    if idx >= cs.len() {
        proof {
            assert(tail =~= Seq::<ConModel>::empty());
        }
        let v = vec![env.duplicate()];
        proof {
            assert(v@.drop_first() =~= Seq::<Bindings>::empty());
            assert(envs_model(Seq::<Bindings>::empty()) =~= Seq::<EnvModel>::empty());
            assert(envs_model(v@) =~= seq![env.model()]);
        }
        Some(v)
    } else {
        proof {
            assert(tail[0] == con_model(cs@[idx as int]));
            assert(tail.drop_first() =~= con_model_seq(cs@).skip(idx + 1));
        }
        match possible_bindings(&cs[idx], db, env, fuel) {
            None => None,
            Some(stream) => {
                proof {
                    lemma_stream_model(stream@);
                    assert(stream_model(stream@).skip(0) =~= stream_model(stream@));
                }
                chain_go(&stream, 0, cs, idx + 1, db, fuel)
            },
        }
    }
}

/// Feed each `Ok` environment of `items[k..]` into `cs[idx..]`.
fn chain_go(
    items: &Vec<Result<Bindings, Bindings>>,
    k: usize,
    cs: &Vec<Constraint>,
    idx: usize,
    db: &Database,
    fuel: u64,
) -> (r: Option<Vec<Bindings>>)
    requires
        k <= items@.len(),
        idx <= cs@.len(),
        stream_wf(items@),
        cons_wf(cs@),
        db.wf(),
    ensures
        match r {
            Option::Some(v) => spec_chain(
                stream_model(items@).skip(k as int),
                con_model_seq(cs@).skip(idx as int),
                db.model(),
                fuel as nat,
            ) == Some(envs_model(v@)) && envs_wf(v@),
            Option::None => spec_chain(
                stream_model(items@).skip(k as int),
                con_model_seq(cs@).skip(idx as int),
                db.model(),
                fuel as nat,
            ) is None,
        },
    decreases fuel, (2 + csl_size(con_model_seq(cs@).skip(idx as int))) as nat, 0int,
        items@.len() - k,
{
    proof {
        lemma_stream_model(items@);
    }
    let ghost left = stream_model(items@).skip(k as int);
    if k >= items.len() {
        proof {
            assert(left =~= Seq::<Result<EnvModel, EnvModel>>::empty());
        }
        let v: Vec<Bindings> = Vec::new();
        Some(v)
    } else {
        proof {
            assert(left[0] == res_model(items@[k as int]));
            assert(left.drop_first() =~= stream_model(items@).skip(k + 1));
        }
        let first: Option<Vec<Bindings>> = match &items[k] {
            Ok(e) => backtrack_go(cs, idx, db, e, fuel),
            Err(_) => {
                let v: Vec<Bindings> = Vec::new();
                Some(v)
            },
        };
        match first {
            None => None,
            Some(mut s1) => {
                match chain_go(items, k + 1, cs, idx, db, fuel) {
                    None => None,
                    Some(s2) => {
                        let ghost m1 = s1@;
                        let ghost m2 = s2@;
                        let mut s2 = s2;
                        proof {
                            lemma_envs_model(m1);
                            lemma_envs_model(m2);
                            assert(s2@ =~= m2.skip(0));
                        }
                        #[verifier::loop_isolation(false)]
                        while s2.len() > 0
                            invariant
                                s2@.len() <= m2.len(),
                                s2@ == m2.skip(m2.len() - s2@.len()),
                                s1@.len() == m1.len() + (m2.len() - s2@.len()),
                                s1@.take(m1.len() as int) == m1,
                                envs_wf(m1),
                                envs_wf(m2),
                                forall|t: int| 0 <= t < m2.len() - s2@.len()
                                    ==> #[trigger] s1@[m1.len() + t] == m2[t],
                            decreases s2@.len(),
                        {
                            let ghost k = m2.len() - s2@.len();
                            let ghost pre = s1@;
                            let item = s2.remove(0);
                            proof {
                                assert(m2.skip(k as int)[0] == m2[k as int]);
                                assert(m2.skip(k as int).remove(0) =~= m2.skip(k + 1));
                            }
                            s1.push(item);
                            proof {
                                assert(s1@.take(m1.len() as int) =~= pre.take(m1.len() as int));
                            }
                        }
                        proof {
                            lemma_envs_model(s1@);
                            assert forall|t: int| 0 <= t < s1@.len() implies #[trigger] envs_model(
                                s1@,
                            )[t] == (envs_model(m1) + envs_model(m2))[t] by {
                                if t < m1.len() {
                                    assert(s1@[t] == s1@.take(m1.len() as int)[t]);
                                    assert(s1@[t] == m1[t]);
                                    assert(envs_model(m1)[t] == m1[t].model());
                                } else {
                                    let u = t - m1.len();
                                    assert(s1@[m1.len() + u] == m2[u]);
                                    assert(envs_model(m2)[u] == m2[u].model());
                                }
                                assert(envs_model(s1@)[t] == s1@[t].model());
                            }
                            assert forall|t: int| 0 <= t < s1@.len() implies (
                            #[trigger] s1@[t]).wf() by {
                                if t < m1.len() {
                                    assert(s1@[t] == s1@.take(m1.len() as int)[t]);
                                    assert(s1@[t] == m1[t]);
                                } else {
                                    let u = t - m1.len();
                                    assert(s1@[m1.len() + u] == m2[u]);
                                }
                            }
                            assert(envs_model(s1@) =~= envs_model(m1) + envs_model(m2));
                        }
                        Some(s1)
                    },
                }
            },
        }
    }
}

// ------------------------------------------------------------------
// Resumable cursors over computed possibility streams.
// ------------------------------------------------------------------
/// Copy one possibility item.
fn dup_res(r: &Result<Bindings, Bindings>) -> (out: Result<Bindings, Bindings>)
    requires
        res_wf(*r),
    ensures
        res_model(out) == res_model(*r),
        res_wf(out),
{
    match r {
        Ok(e) => Ok(e.duplicate()),
        Err(e) => Err(e.duplicate()),
    }
}

/// The fact-derived possibilities of one relation, in insertion order.
fn fact_stream_exec(id: &String, tokens: &Vec<Value>, db: &Database, env: &Bindings) -> (out: Vec<
    Result<Bindings, Bindings>,
>)
    requires
        vals_wf(tokens@),
        db.wf(),
        env.wf(),
    ensures
        stream_model(out@) == spec_fact_stream(
            crate::database::spec_fact_list(db.model().facts, id@),
            val_model_seq(tokens@),
            env.model(),
        ),
        stream_wf(out@),
{
    let ghost tokens_m = val_model_seq(tokens@);
    let ghost env_m = env.model();
    let ghost facts_m = crate::database::spec_fact_list(db.model().facts, id@);
    let mut out: Vec<Result<Bindings, Bindings>> = Vec::new();
    match db.facts_of(id) {
        Some(facts) => {
            proof {
                lemma_fact_list_model(facts@);
                assert(facts_m == fact_list_model(facts@));
                assert(facts_m.len() == facts@.len());
            }
            let mut i: usize = 0;
            #[verifier::loop_isolation(false)]
            while i < facts.len()
                invariant
                    i <= facts.len(),
                    out@.len() == i,
                    forall|j: int| 0 <= j < i ==> res_model(#[trigger] out@[j]) == spec_unify(
                        tokens_m,
                        lits_of(facts_m[j]),
                        env_m,
                    ) && res_wf(out@[j]),
                decreases facts.len() - i,
            {
                let lits = fact_lits(&facts[i]);
                let item = lax_unify_wrap(tokens, &lits, env);
                out.push(item);
                i = i + 1;
            }
        },
        None => {
            proof {
                assert(facts_m.len() == 0);
            }
        },
    }
    proof {
        lemma_stream_model(out@);
        lemma_fact_stream(facts_m, tokens_m, env_m);
        assert forall|j: int| 0 <= j < out@.len() implies stream_model(out@)[j]
            == spec_fact_stream(facts_m, tokens_m, env_m)[j] by {
            assert(res_model(out@[j]) == spec_unify(tokens_m, lits_of(facts_m[j]), env_m));
        }
        assert(stream_model(out@) =~= spec_fact_stream(facts_m, tokens_m, env_m));
        assert(stream_wf(out@));
    }
    out
}

/// A resumable cursor over the fact-derived possibilities of one relation.
pub struct InnerFactPossibilitiesIter {
    pub id: RelationID,
    pub tokens: Vec<Value>,
    pub bindings: Bindings,
    items: Vec<Result<Bindings, Bindings>>,
    index: usize,
}

impl InnerFactPossibilitiesIter {
    /// The whole stream this cursor walks.
    pub closed spec fn stream(&self) -> StreamModel {
        stream_model(self.items@)
    }

    /// How many items have been handed out.
    pub closed spec fn pos(&self) -> int {
        self.index as int
    }

    pub closed spec fn wf(&self) -> bool {
        self.index <= self.items@.len() && stream_wf(self.items@)
    }

    pub fn new(id: RelationID, tokens: Vec<Value>, database: &Database, bindings: &Bindings) -> (r:
        InnerFactPossibilitiesIter)
        requires
            vals_wf(tokens@),
            database.wf(),
            bindings.wf(),
        ensures
            r.stream() == spec_fact_stream(
                crate::database::spec_fact_list(database.model().facts, id@),
                val_model_seq(tokens@),
                bindings.model(),
            ),
            r.pos() == 0,
            r.wf(),
    {
        let items = fact_stream_exec(&id, &tokens, database, bindings);
        InnerFactPossibilitiesIter { id, tokens, bindings: bindings.duplicate(), items, index: 0 }
    }

    /// The next possibility, if any is left.
    pub fn next(&mut self) -> (r: Option<Result<Bindings, Bindings>>)
        requires
            old(self).wf(),
        ensures
            final(self).wf(),
            final(self).stream() == old(self).stream(),
            match r {
                Option::Some(item) => old(self).pos() < old(self).stream().len() && res_model(item)
                    == old(self).stream()[old(self).pos()] && res_wf(item) && final(self).pos()
                    == old(self).pos() + 1,
                Option::None => old(self).pos() >= old(self).stream().len() && final(self).pos()
                    == old(self).pos(),
            },
    {
        proof {
            lemma_stream_model(self.items@);
        }
        if self.index < self.items.len() {
            let item = dup_res(&self.items[self.index]);
            self.index = self.index + 1;
            Some(item)
        } else {
            None
        }
    }
}

/// A resumable cursor over the solutions a rule contributes to a relation:
/// the query tokens are unified with the rule's parameters, and the rule
/// body is driven with the resulting environment.
pub struct InnerBacktrackingQueryIter {
    pub id: RelationID,
    pub tokens: Vec<Value>,
    pub bindings: Bindings,
    items: Vec<Result<Bindings, Bindings>>,
    index: usize,
}

impl InnerBacktrackingQueryIter {
    pub closed spec fn stream(&self) -> StreamModel {
        stream_model(self.items@)
    }

    pub closed spec fn pos(&self) -> int {
        self.index as int
    }

    pub closed spec fn wf(&self) -> bool {
        self.index <= self.items@.len() && stream_wf(self.items@)
    }

    /// `None` when the fuel ran out while expanding the rule body.
    pub fn new(
        id: RelationID,
        tokens: Vec<Value>,
        database: &Database,
        bindings: &Bindings,
        constraints: &Vec<Constraint>,
        params: &Vec<Value>,
        fuel: u64,
    ) -> (r: Option<InnerBacktrackingQueryIter>)
        requires
            vals_wf(tokens@),
            vals_wf(params@),
            cons_wf(constraints@),
            database.wf(),
            bindings.wf(),
        ensures
            match r {
                Option::Some(it) => it.pos() == 0 && it.wf() && match spec_unify(
                    val_model_seq(tokens@),
                    val_model_seq(params@),
                    bindings.model(),
                ) {
                    Result::Ok(e2) => spec_backtrack(
                        con_model_seq(constraints@),
                        database.model(),
                        e2,
                        fuel as nat,
                    ) matches Some(envs) && it.stream() == envs.map(
                        |i: int, e: EnvModel| Result::<EnvModel, EnvModel>::Ok(e),
                    ),
                    Result::Err(_) => it.stream() == Seq::<Result<EnvModel, EnvModel>>::empty(),
                },
                Option::None => match spec_unify(
                    val_model_seq(tokens@),
                    val_model_seq(params@),
                    bindings.model(),
                ) {
                    Result::Ok(e2) => spec_backtrack(
                        con_model_seq(constraints@),
                        database.model(),
                        e2,
                        fuel as nat,
                    ) is None,
                    Result::Err(_) => false,
                },
            },
    {
        let mut items: Vec<Result<Bindings, Bindings>> = Vec::new();
        match unify_wrap(&tokens, params, bindings) {
            Some(e2) => {
                proof {
                    assert(con_model_seq(constraints@).skip(0) =~= con_model_seq(constraints@));
                }
                match backtrack_go(constraints, 0, database, &e2, fuel) {
                    None => {
                        return None;
                    },
                    Some(envs) => {
                        let mut k: usize = 0;
                        proof {
                            lemma_envs_model(envs@);
                        }
                        #[verifier::loop_isolation(false)]
                        while k < envs.len()
                            invariant
                                k <= envs.len(),
                                items@.len() == k,
                                envs_wf(envs@),
                                forall|j: int| 0 <= j < k ==> res_model(#[trigger] items@[j])
                                    == Result::<EnvModel, EnvModel>::Ok(envs_model(envs@)[j])
                                    && res_wf(items@[j]),
                            decreases envs.len() - k,
                        {
                            items.push(Ok(envs[k].duplicate()));
                            k = k + 1;
                        }
                        proof {
                            lemma_stream_model(items@);
                            let mapped = envs_model(envs@).map(
                                |i: int, e: EnvModel| Result::<EnvModel, EnvModel>::Ok(e),
                            );
                            assert forall|j: int| 0 <= j < items@.len() implies stream_model(
                                items@,
                            )[j] == mapped[j] by {
                                assert(res_model(items@[j]) == Result::<EnvModel, EnvModel>::Ok(
                                    envs_model(envs@)[j],
                                ));
                            }
                            assert(stream_model(items@) =~= mapped);
                        }
                    },
                }
            },
            None => {},
        }
        Some(
            InnerBacktrackingQueryIter {
                id,
                tokens,
                bindings: bindings.duplicate(),
                items,
                index: 0,
            },
        )
    }

    /// The next solution, if any is left.
    pub fn next(&mut self) -> (r: Option<Result<Bindings, Bindings>>)
        requires
            old(self).wf(),
        ensures
            final(self).wf(),
            final(self).stream() == old(self).stream(),
            match r {
                Option::Some(item) => old(self).pos() < old(self).stream().len() && res_model(item)
                    == old(self).stream()[old(self).pos()] && res_wf(item) && final(self).pos()
                    == old(self).pos() + 1,
                Option::None => old(self).pos() >= old(self).stream().len() && final(self).pos()
                    == old(self).pos(),
            },
    {
        proof {
            lemma_stream_model(self.items@);
        }
        if self.index < self.items.len() {
            let item = dup_res(&self.items[self.index]);
            self.index = self.index + 1;
            Some(item)
        } else {
            None
        }
    }
}

/// A resumable cursor over the possibilities of one constraint.
pub struct PossibleBindings {
    items: Vec<Result<Bindings, Bindings>>,
    index: usize,
}

impl PossibleBindings {
    pub closed spec fn stream(&self) -> StreamModel {
        stream_model(self.items@)
    }

    pub closed spec fn pos(&self) -> int {
        self.index as int
    }

    pub closed spec fn wf(&self) -> bool {
        self.index <= self.items@.len() && stream_wf(self.items@)
    }

    /// `None` when the fuel ran out inside a rule expansion.
    pub fn new(constraint: &Constraint, database: &Database, bindings: &Bindings, fuel: u64) -> (r:
        Option<PossibleBindings>)
        requires
            con_wf(*constraint),
            database.wf(),
            bindings.wf(),
        ensures
            match r {
                Option::Some(it) => spec_possible(
                    con_model(*constraint),
                    database.model(),
                    bindings.model(),
                    fuel as nat,
                ) == Some(it.stream()) && it.pos() == 0 && it.wf(),
                Option::None => spec_possible(
                    con_model(*constraint),
                    database.model(),
                    bindings.model(),
                    fuel as nat,
                ) is None,
            },
    {
        match possible_bindings(constraint, database, bindings, fuel) {
            Some(items) => Some(PossibleBindings { items, index: 0 }),
            None => None,
        }
    }

    /// A cursor over an already-known list of environments, each yielded as
    /// a success.
    pub fn new_with_bindings(possibilities: Vec<Bindings>) -> (r: PossibleBindings)
        requires
            envs_wf(possibilities@),
        ensures
            r.stream() == envs_model(possibilities@).map(
                |i: int, e: EnvModel| Result::<EnvModel, EnvModel>::Ok(e),
            ),
            r.pos() == 0,
            r.wf(),
    {
        let mut items: Vec<Result<Bindings, Bindings>> = Vec::new();
        let mut k: usize = 0;
        proof {
            lemma_envs_model(possibilities@);
        }
        #[verifier::loop_isolation(false)]
        while k < possibilities.len()
            invariant
                k <= possibilities.len(),
                items@.len() == k,
                envs_wf(possibilities@),
                forall|j: int| 0 <= j < k ==> res_model(#[trigger] items@[j])
                    == Result::<EnvModel, EnvModel>::Ok(envs_model(possibilities@)[j]) && res_wf(
                    items@[j],
                ),
            decreases possibilities.len() - k,
        {
            items.push(Ok(possibilities[k].duplicate()));
            k = k + 1;
        }
        proof {
            lemma_stream_model(items@);
            let mapped = envs_model(possibilities@).map(
                |i: int, e: EnvModel| Result::<EnvModel, EnvModel>::Ok(e),
            );
            assert forall|j: int| 0 <= j < items@.len() implies stream_model(items@)[j]
                == mapped[j] by {
                assert(res_model(items@[j]) == Result::<EnvModel, EnvModel>::Ok(
                    envs_model(possibilities@)[j],
                ));
            }
            assert(stream_model(items@) =~= mapped);
        }
        PossibleBindings { items, index: 0 }
    }

    /// The next possibility, if any is left.
    pub fn next(&mut self) -> (r: Option<Result<Bindings, Bindings>>)
        requires
            old(self).wf(),
        ensures
            final(self).wf(),
            final(self).stream() == old(self).stream(),
            match r {
                Option::Some(item) => old(self).pos() < old(self).stream().len() && res_model(item)
                    == old(self).stream()[old(self).pos()] && res_wf(item) && final(self).pos()
                    == old(self).pos() + 1,
                Option::None => old(self).pos() >= old(self).stream().len() && final(self).pos()
                    == old(self).pos(),
            },
    {
        proof {
            lemma_stream_model(self.items@);
        }
        if self.index < self.items.len() {
            let item = dup_res(&self.items[self.index]);
            self.index = self.index + 1;
            Some(item)
        } else {
            None
        }
    }
}

/// A resumable cursor over the joint solutions of a conjunction of
/// constraints.
pub struct BacktrackingQuery {
    results: Vec<Bindings>,
    index: usize,
}

impl BacktrackingQuery {
    /// The ordered solutions this cursor walks.
    pub closed spec fn solutions(&self) -> Seq<EnvModel> {
        envs_model(self.results@)
    }

    pub closed spec fn pos(&self) -> int {
        self.index as int
    }

    pub closed spec fn wf(&self) -> bool {
        self.index <= self.results@.len() && envs_wf(self.results@)
    }

    /// `None` when the fuel ran out inside a rule expansion.
    pub fn new(constraints: &Vec<Constraint>, database: &Database, bindings: &Bindings, fuel: u64)
        -> (r: Option<BacktrackingQuery>)
        requires
            cons_wf(constraints@),
            database.wf(),
            bindings.wf(),
        ensures
            match r {
                Option::Some(it) => spec_backtrack(
                    con_model_seq(constraints@),
                    database.model(),
                    bindings.model(),
                    fuel as nat,
                ) == Some(it.solutions()) && it.pos() == 0 && it.wf(),
                Option::None => spec_backtrack(
                    con_model_seq(constraints@),
                    database.model(),
                    bindings.model(),
                    fuel as nat,
                ) is None,
            },
    {
        proof {
            assert(con_model_seq(constraints@).skip(0) =~= con_model_seq(constraints@));
        }
        match backtrack_go(constraints, 0, database, bindings, fuel) {
            Some(results) => Some(BacktrackingQuery { results, index: 0 }),
            None => None,
        }
    }

    /// The next solution, if any is left.
    pub fn next(&mut self) -> (r: Option<Bindings>)
        requires
            old(self).wf(),
        ensures
            final(self).wf(),
            final(self).solutions() == old(self).solutions(),
            match r {
                Option::Some(env) => old(self).pos() < old(self).solutions().len() && env.model()
                    == old(self).solutions()[old(self).pos()] && env.wf() && final(self).pos()
                    == old(self).pos() + 1,
                Option::None => old(self).pos() >= old(self).solutions().len() && final(self).pos()
                    == old(self).pos(),
            },
    {
        proof {
            lemma_envs_model(self.results@);
        }
        if self.index < self.results.len() {
            let env = self.results[self.index].duplicate();
            self.index = self.index + 1;
            Some(env)
        } else {
            None
        }
    }
}

} // verus!
