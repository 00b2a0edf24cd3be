//! The query-language value universe, binding environments, and the
//! unification procedure.
//!
//! Contracts are stated over mathematical models: a `Value` is modelled by a
//! `ValModel` (numbers as unbounded integers, strings as character
//! sequences), an environment by a `Map` from variable name to `ValModel`.
//! The unifier itself is specified by the spec functions `spec_unify` and
//! friends, which the executable code mirrors exactly.
//!
//! Variable bindings can chain (`X` bound to `Y`, `Y` bound to a literal);
//! chains are walked with fuel that suffices for every acyclic chain, so a
//! cyclic chain makes the affected unification or comparison fail rather
//! than loop.

use vstd::prelude::*;

verus! {

use crate::database::{DBValue, DbTerm, dbv_model, dbv_model_seq, dbv_wf, lemma_dbv_model_seq,
    term_eq, term_cmp};
use crate::num::Order;

broadcast use vstd::std_specs::vec::group_vec_axioms;

/// Where the wildcard segment of a list pattern sits.
#[derive(Clone, Copy, Debug, PartialEq, Eq, Structural)]
pub enum GlobPosition {
    Head,
    Tail,
    Middle,
}

/// A query-language value: a ground literal, a variable, or a list pattern.
#[derive(Debug)]
pub enum Value {
    Literal(DBValue),
    Variable(String),
    PatternMatch { explicit_values: Vec<Value>, is_glob: bool, glob_position: GlobPosition },
}

/// A relation name.
pub type RelationID = String;

/// The comparison operators of the constraint language.
#[derive(Clone, Copy, Debug, PartialEq, Eq, Structural)]
pub enum EqOp {
    GreaterThan,
    EqualTo,
    LessThan,
    LessThanOrEqualTo,
    GreaterThanOrEqualTo,
}

/// A constraint over query-language values.
#[derive(Debug)]
pub enum Constraint {
    Relation(RelationID, Vec<Value>),
    Unification(Vec<Value>, Vec<Value>),
    Comparison(EqOp, Value, Value),
    Not(Box<Constraint>),
    Alternatives(Vec<Constraint>),
    Intersections(Vec<Constraint>),
}

/// The mathematical model of a `Value`.
pub enum ValModel {
    Lit(DbTerm),
    Var(Seq<char>),
    Pattern { explicit: Seq<ValModel>, is_glob: bool, pos: GlobPosition },
}

/// The model of an environment: variable name to value model.
pub type EnvModel = Map<Seq<char>, ValModel>;

/// The model of a `Value`.
pub open spec fn val_model(v: Value) -> ValModel
    decreases v, 1int,
{
    match v {
        Value::Literal(d) => ValModel::Lit(dbv_model(d)),
        Value::Variable(n) => ValModel::Var(n@),
        Value::PatternMatch { explicit_values, is_glob, glob_position } => ValModel::Pattern {
            explicit: val_model_seq(explicit_values@),
            is_glob: is_glob,
            pos: glob_position,
        },
    }
}

/// The models of a sequence of values, in order.
pub open spec fn val_model_seq(s: Seq<Value>) -> Seq<ValModel>
    decreases s, 0int,
{
    if s.len() == 0 {
        Seq::empty()
    } else {
        seq![val_model(s[0])] + val_model_seq(s.drop_first())
    }
}

/// `val_model_seq` maps the model over the sequence, index by index.
pub proof fn lemma_val_model_seq(s: Seq<Value>)
    ensures
        val_model_seq(s).len() == s.len(),
        forall|i: int| 0 <= i < s.len() ==> val_model_seq(s)[i] == val_model(#[trigger] s[i]),
    decreases s.len(),
{
    if s.len() > 0 {
        lemma_val_model_seq(s.drop_first());
        assert forall|i: int| 0 <= i < s.len() implies val_model_seq(s)[i] == val_model(
            #[trigger] s[i],
        ) by {
            if i > 0 {
                assert(val_model_seq(s)[i] == val_model_seq(s.drop_first())[i - 1]);
                assert(s.drop_first()[i - 1] == s[i]);
            }
        }
    }
}

/// Well-formedness of a value: all numbers in canonical form.
pub open spec fn val_wf(v: Value) -> bool
    decreases v,
{
    match v {
        Value::Literal(d) => dbv_wf(d),
        Value::Variable(_) => true,
        Value::PatternMatch { explicit_values, .. } => forall|i: int|
            0 <= i < explicit_values@.len() ==> val_wf(#[trigger] explicit_values@[i]),
    }
}

impl Value {
    /// A deep copy whose model is the same.
    #[verifier::loop_isolation(false)]
    pub fn duplicate(&self) -> (r: Value)
        ensures
            val_model(r) == val_model(*self),
            val_wf(*self) ==> val_wf(r),
        decreases *self,
    {
        match self {
            Value::Literal(d) => Value::Literal(d.duplicate()),
            Value::Variable(n) => Value::Variable(n.clone()),
            Value::PatternMatch { explicit_values, is_glob, glob_position } => {
                let mut out: Vec<Value> = Vec::new();
                let mut i: usize = 0;
                while i < explicit_values.len()
                    invariant
                        i <= explicit_values.len(),
                        out@.len() == i,
                        forall|j: int| 0 <= j < i ==> val_model(#[trigger] out@[j]) == val_model(
                            explicit_values@[j],
                        ) && (val_wf(explicit_values@[j]) ==> val_wf(out@[j])),
                    decreases explicit_values.len() - i,
                {
                    let d = explicit_values[i].duplicate();
                    out.push(d);
                    i = i + 1;
                }
                let r = Value::PatternMatch {
                    explicit_values: out,
                    is_glob: *is_glob,
                    glob_position: *glob_position,
                };
                proof {
                    lemma_val_model_seq(explicit_values@);
                    lemma_val_model_seq(out@);
                    assert forall|j: int| 0 <= j < out@.len() implies val_model_seq(out@)[j]
                        == val_model_seq(explicit_values@)[j] by {
                        assert(val_model(out@[j]) == val_model(explicit_values@[j]));
                    }
                    assert(val_model_seq(out@) =~= val_model_seq(explicit_values@));
                    if val_wf(*self) {
                        assert(forall|j: int|
                            0 <= j < out@.len() ==> val_wf(#[trigger] out@[j]));
                    }
                }
                r
            },
        }
    }
}

/// A binding environment: a map from variable name to `Value`, kept as an
/// association vector with unique keys.
#[derive(Debug)]
pub struct Bindings {
    entries: Vec<(String, Value)>,
}

/// The map modelled by an association sequence; a later entry overrides an
/// earlier one with the same key.
pub open spec fn bindings_map(s: Seq<(String, Value)>) -> EnvModel
    decreases s.len(),
{
    if s.len() == 0 {
        Map::empty()
    } else {
        bindings_map(s.drop_last()).insert(s.last().0@, val_model(s.last().1))
    }
}

/// A key is in the map exactly when some entry carries it.
pub proof fn lemma_bindings_map_dom(s: Seq<(String, Value)>, k: Seq<char>)
    ensures
        bindings_map(s).contains_key(k) <==> exists|i: int| 0 <= i < s.len() && (#[trigger] s[i]).0@
            == k,
    decreases s.len(),
{
    if s.len() > 0 {
        lemma_bindings_map_dom(s.drop_last(), k);
        if s.last().0@ == k {
            assert(s[s.len() - 1].0@ == k);
        } else if bindings_map(s).contains_key(k) {
            let i = choose|i: int| 0 <= i < s.drop_last().len() && (#[trigger] s.drop_last()[i]).0@
                == k;
            assert(s[i].0@ == k);
        } else {
            assert forall|i: int| 0 <= i < s.len() implies (#[trigger] s[i]).0@ != k by {
                if i < s.len() - 1 {
                    assert(s.drop_last()[i] == s[i]);
                }
            }
        }
    }
}

impl Bindings {
    /// The environment this value models.
    pub closed spec fn model(&self) -> EnvModel {
        bindings_map(self.entries@)
    }

    /// Unique keys, and every stored value well-formed.
    pub closed spec fn wf(&self) -> bool {
        &&& forall|i: int, j: int|
            0 <= i < j < self.entries@.len() ==> (#[trigger] self.entries@[i]).0@ != (
            #[trigger] self.entries@[j]).0@
        &&& forall|i: int| 0 <= i < self.entries@.len() ==> val_wf(
            (#[trigger] self.entries@[i]).1,
        )
    }

    /// The empty environment.
    pub fn new() -> (r: Bindings)
        ensures
            r.model() == EnvModel::empty(),
            r.wf(),
    {
        Bindings { entries: Vec::new() }
    }

    /// How many variables are bound.
    #[verifier::loop_isolation(false)]
    pub fn size(&self) -> (r: usize)
        requires
            self.wf(),
        ensures
            r == self.model().dom().len(),
    {
        proof {
            lemma_bindings_len(self.entries@);
        }
        self.entries.len()
    }

    /// Look up a variable; the returned value is a copy.
    pub fn get(&self, name: &String) -> (r: Option<Value>)
        requires
            self.wf(),
        ensures
            match r {
                Option::Some(v) => self.model().contains_key(name@) && val_model(v) == self.model()[
                    name@
                ] && val_wf(v),
                Option::None => !self.model().contains_key(name@),
            },
    {
        let n = self.entries.len();
        proof {
            assert(self.entries@.take(n as int) =~= self.entries@);
        }
        self.get_up_to(n, name)
    }

    /// Look up among the first `i` entries, last match winning.
    fn get_up_to(&self, i: usize, name: &String) -> (r: Option<Value>)
        requires
            self.wf(),
            i <= self.entries@.len(),
        ensures
            match r {
                Option::Some(v) => {
                    &&& bindings_map(self.entries@.take(i as int)).contains_key(name@)
                    &&& val_model(v) == bindings_map(self.entries@.take(i as int))[name@]
                    &&& val_wf(v)
                },
                Option::None => !bindings_map(self.entries@.take(i as int)).contains_key(name@),
            },
        decreases i,
    {
        if i == 0 {
            proof {
                assert(self.entries@.take(0) =~= Seq::<(String, Value)>::empty());
            }
            None
        } else {
            let entry = &self.entries[i - 1];
            proof {
                let t = self.entries@.take(i as int);
                assert(t.drop_last() =~= self.entries@.take(i as int - 1));
                assert(t.last() == self.entries@[i as int - 1]);
            }
            if entry.0.eq(name) {
                Some(entry.1.duplicate())
            } else {
                self.get_up_to(i - 1, name)
            }
        }
    }

    /// Bind a variable, replacing any earlier binding for the same name.
    pub fn insert(&mut self, name: String, v: Value)
        requires
            old(self).wf(),
            val_wf(v),
        ensures
            final(self).wf(),
            final(self).model() == old(self).model().insert(name@, val_model(v)),
    {
        let position = self.find_key(&name);
        match position {
            Some(i) => {
                let ghost s0 = self.entries@;
                self.entries.remove(i);
                proof {
                    lemma_bindings_map_remove(s0, i as int);
                    assert forall|a: int, b: int|
                        0 <= a < b < self.entries@.len() implies (#[trigger] self.entries@[a]).0@
                        != (#[trigger] self.entries@[b]).0@ by {
                        let a0 = if a < i as int { a } else { a + 1 };
                        let b0 = if b < i as int { b } else { b + 1 };
                        assert(self.entries@[a] == s0[a0] && self.entries@[b] == s0[b0]);
                    }
                    assert forall|a: int| 0 <= a < self.entries@.len() implies val_wf(
                        (#[trigger] self.entries@[a]).1,
                    ) by {
                        let a0 = if a < i as int { a } else { a + 1 };
                        assert(self.entries@[a] == s0[a0]);
                    }
                    assert forall|a: int| 0 <= a < self.entries@.len() implies (
                    #[trigger] self.entries@[a]).0@ != name@ by {
                        let a0 = if a < i as int { a } else { a + 1 };
                        assert(self.entries@[a] == s0[a0]);
                    }
                }
                let ghost s1 = self.entries@;
                self.entries.push((name, v));
                proof {
                    assert(self.entries@.drop_last() =~= s1);
                    assert(bindings_map(self.entries@) =~= old(self).model().insert(
                        name@,
                        val_model(v),
                    ));
                }
            },
            None => {
                let ghost s1 = self.entries@;
                self.entries.push((name, v));
                proof {
                    assert(self.entries@.drop_last() =~= s1);
                }
            },
        }
    }

    /// The index of the entry carrying `name`, if any.
    fn find_key(&self, name: &String) -> (r: Option<usize>)
        ensures
            match r {
                Option::Some(i) => i < self.entries@.len() && self.entries@[i as int].0@ == name@,
                Option::None => forall|i: int|
                    0 <= i < self.entries@.len() ==> (#[trigger] self.entries@[i]).0@ != name@,
            },
    {
        let mut i: usize = 0;
        #[verifier::loop_isolation(false)]
        while i < self.entries.len()
            invariant
                i <= self.entries@.len(),
                forall|j: int| 0 <= j < i ==> (#[trigger] self.entries@[j]).0@ != name@,
            decreases self.entries@.len() - i,
        {
            if self.entries[i].0.eq(name) {
                return Some(i);
            }
            i = i + 1;
        }
        None
    }

    /// A deep copy with the same model.
    #[verifier::loop_isolation(false)]
    pub fn duplicate(&self) -> (r: Bindings)
        requires
            self.wf(),
        ensures
            r.model() == self.model(),
            r.wf(),
    {
        let mut out: Vec<(String, Value)> = Vec::new();
        let mut i: usize = 0;
        while i < self.entries.len()
            invariant
                i <= self.entries@.len(),
                out@.len() == i,
                forall|j: int| 0 <= j < i ==> (#[trigger] out@[j]).0@ == self.entries@[j].0@
                    && val_model(out@[j].1) == val_model(self.entries@[j].1) && val_wf(out@[j].1),
            decreases self.entries@.len() - i,
        {
            let entry = &self.entries[i];
            let k = entry.0.clone();
            let v = entry.1.duplicate();
            out.push((k, v));
            i = i + 1;
        }
        let r = Bindings { entries: out };
        proof {
            lemma_bindings_map_congruent(out@, self.entries@);
        }
        r
    }
}

/// Unique keys make the map's domain as large as the entry list.
proof fn lemma_bindings_len(s: Seq<(String, Value)>)
    requires
        forall|i: int, j: int| 0 <= i < j < s.len() ==> (#[trigger] s[i]).0@ != (#[trigger] s[j]).0@,
    ensures
        bindings_map(s).dom().len() == s.len(),
        bindings_map(s).dom().finite(),
    decreases s.len(),
{
    if s.len() > 0 {
        let d = s.drop_last();
        lemma_bindings_len(d);
        lemma_bindings_map_dom(d, s.last().0@);
        assert forall|i: int| 0 <= i < d.len() implies (#[trigger] d[i]).0@ != s.last().0@ by {
            assert(d[i] == s[i]);
            assert(s.last() == s[s.len() - 1]);
        }
        assert(!bindings_map(d).contains_key(s.last().0@));
        assert(bindings_map(s).dom() =~= bindings_map(d).dom().insert(s.last().0@));
    } else {
        assert(bindings_map(s).dom() =~= Set::<Seq<char>>::empty());
    }
}

/// Removing the unique entry for a key removes that key from the map.
proof fn lemma_bindings_map_remove(s: Seq<(String, Value)>, i: int)
    requires
        forall|a: int, b: int| 0 <= a < b < s.len() ==> (#[trigger] s[a]).0@ != (#[trigger] s[b]).0@,
        0 <= i < s.len(),
    ensures
        bindings_map(s.remove(i)) == bindings_map(s).remove(s[i].0@),
    decreases s.len(),
{
    let k = s[i].0@;
    if i == s.len() - 1 {
        assert(s.remove(i) =~= s.drop_last());
        lemma_bindings_map_dom(s.drop_last(), k);
        assert forall|a: int| 0 <= a < s.drop_last().len() implies (#[trigger] s.drop_last()[a]).0@
            != k by {
            assert(s.drop_last()[a] == s[a]);
        }
        assert(!bindings_map(s.drop_last()).contains_key(k));
        assert(bindings_map(s.drop_last()) =~= bindings_map(s).remove(k));
    } else {
        let d = s.drop_last();
        assert forall|a: int, b: int| 0 <= a < b < d.len() implies (#[trigger] d[a]).0@ != (
        #[trigger] d[b]).0@ by {
            assert(d[a] == s[a] && d[b] == s[b]);
        }
        lemma_bindings_map_remove(d, i);
        assert(s.remove(i).drop_last() =~= d.remove(i));
        assert(s.remove(i).last() == s.last());
        assert(bindings_map(s.remove(i)) == bindings_map(d.remove(i)).insert(
            s.last().0@,
            val_model(s.last().1),
        ));
        assert(s.last() == s[s.len() - 1] && d[i] == s[i]);
        assert(k != s.last().0@);
        assert(bindings_map(d.remove(i)).insert(s.last().0@, val_model(s.last().1)) =~= bindings_map(
            d,
        ).insert(s.last().0@, val_model(s.last().1)).remove(k));
    }
}

/// Entrywise-equal association lists model the same map.
proof fn lemma_bindings_map_congruent(s1: Seq<(String, Value)>, s2: Seq<(String, Value)>)
    requires
        s1.len() == s2.len(),
        forall|i: int| 0 <= i < s1.len() ==> (#[trigger] s1[i]).0@ == (#[trigger] s2[i]).0@
            && val_model(s1[i].1) == val_model(s2[i].1),
    ensures
        bindings_map(s1) == bindings_map(s2),
    decreases s1.len(),
{
    if s1.len() > 0 {
        assert forall|i: int| 0 <= i < s1.drop_last().len() implies (
        #[trigger] s1.drop_last()[i]).0@ == (#[trigger] s2.drop_last()[i]).0@ && val_model(
            s1.drop_last()[i].1,
        ) == val_model(s2.drop_last()[i].1) by {
            assert(s1.drop_last()[i] == s1[i] && s2.drop_last()[i] == s2[i]);
        }
        lemma_bindings_map_congruent(s1.drop_last(), s2.drop_last());
        assert(s1.last() == s1[s1.len() - 1] && s2.last() == s2[s2.len() - 1]);
        assert(bindings_map(s1) =~= bindings_map(s2));
    } else {
        assert(bindings_map(s1) =~= bindings_map(s2));
    }
}

/// Merge two environments; on a shared key the second one wins.
#[verifier::loop_isolation(false)]
pub fn chain_hashmap(a: Bindings, b: Bindings) -> (r: Bindings)
    requires
        a.wf(),
        b.wf(),
    ensures
        r.wf(),
        r.model() == a.model().union_prefer_right(b.model()),
{
    let mut out = a;
    let mut i: usize = 0;
    let ghost bs = b.entries@;
    proof {
        assert(bindings_map(bs.take(0)) =~= Map::empty());
        assert(out.model().union_prefer_right(Map::empty()) =~= out.model());
    }
    while i < b.entries.len()
        invariant
            i <= bs.len(),
            b.entries@ == bs,
            b.wf(),
            out.wf(),
            out.model() == a.model().union_prefer_right(bindings_map(bs.take(i as int))),
        decreases bs.len() - i,
    {
        let entry = &b.entries[i];
        let k = entry.0.clone();
        let v = entry.1.duplicate();
        out.insert(k, v);
        proof {
            let t1 = bs.take(i + 1);
            assert(t1.drop_last() =~= bs.take(i as int));
            assert(t1.last() == bs[i as int]);
            assert(a.model().union_prefer_right(bindings_map(t1)) =~= a.model().union_prefer_right(
                bindings_map(bs.take(i as int)),
            ).insert(bs[i as int].0@, val_model(bs[i as int].1)));
        }
        i = i + 1;
    }
    proof {
        assert(bs.take(bs.len() as int) =~= bs);
    }
    out
}

// ------------------------------------------------------------------
// Structural sizes, used as termination measures for the unifier.
// ------------------------------------------------------------------
/// Size of a term.
pub open spec fn tsize(t: DbTerm) -> nat
    decreases t, 1int,
{
    match t {
        DbTerm::List(s) => (1 + lsize(s)) as nat,
        _ => 1,
    }
}

/// Size of a term sequence; each element is charged two extra units so that
/// a literal built from an element is strictly smaller than the sequence.
pub open spec fn lsize(s: Seq<DbTerm>) -> nat
    decreases s, 0int,
{
    if s.len() == 0 {
        0
    } else {
        (2 + tsize(s[0]) + lsize(s.drop_first())) as nat
    }
}

/// Size of a value model.
pub open spec fn vsize(v: ValModel) -> nat
    decreases v, 1int,
{
    match v {
        ValModel::Lit(t) => (1 + tsize(t)) as nat,
        ValModel::Var(_) => 1,
        ValModel::Pattern { explicit, .. } => (1 + vssize(explicit)) as nat,
    }
}

/// Size of a sequence of value models.
pub open spec fn vssize(s: Seq<ValModel>) -> nat
    decreases s, 0int,
{
    if s.len() == 0 {
        0
    } else {
        (1 + vsize(s[0]) + vssize(s.drop_first())) as nat
    }
}

proof fn lemma_lsize_el(s: Seq<DbTerm>, i: int)
    requires
        0 <= i < s.len(),
    ensures
        2 + tsize(s[i]) <= lsize(s),
    decreases s.len(),
{
    if i > 0 {
        lemma_lsize_el(s.drop_first(), i - 1);
        assert(s.drop_first()[i - 1] == s[i]);
    }
}

proof fn lemma_vssize_el(s: Seq<ValModel>, i: int)
    requires
        0 <= i < s.len(),
    ensures
        1 + vsize(s[i]) <= vssize(s),
    decreases s.len(),
{
    if i > 0 {
        lemma_vssize_el(s.drop_first(), i - 1);
        assert(s.drop_first()[i - 1] == s[i]);
    }
}

proof fn lemma_lsize_take(s: Seq<DbTerm>, n: int)
    requires
        0 <= n <= s.len(),
    ensures
        lsize(s.take(n)) <= lsize(s),
    decreases s.len(),
{
    if n == 0 {
        assert(s.take(0) =~= Seq::<DbTerm>::empty());
    } else {
        lemma_lsize_take(s.drop_first(), n - 1);
        assert(s.take(n).drop_first() =~= s.drop_first().take(n - 1));
        assert(s.take(n)[0] == s[0]);
    }
}

proof fn lemma_lsize_skip(s: Seq<DbTerm>, n: int)
    requires
        0 <= n <= s.len(),
    ensures
        lsize(s.skip(n)) <= lsize(s),
    decreases n,
{
    if n == 0 {
        assert(s.skip(0) =~= s);
    } else {
        lemma_lsize_skip(s.drop_first(), n - 1);
        assert(s.skip(n) =~= s.drop_first().skip(n - 1));
    }
}

proof fn lemma_lsize_subrange(s: Seq<DbTerm>, a: int, b: int)
    requires
        0 <= a <= b <= s.len(),
    ensures
        lsize(s.subrange(a, b)) <= lsize(s),
{
    assert(s.subrange(a, b) =~= s.skip(a).take(b - a));
    lemma_lsize_skip(s, a);
    lemma_lsize_take(s.skip(a), b - a);
}

proof fn lemma_lsize_last(s: Seq<DbTerm>)
    requires
        s.len() > 0,
    ensures
        lsize(s) == 2 + tsize(s.last()) + lsize(s.drop_last()),
    decreases s.len(),
{
    if s.len() == 1 {
        assert(s.drop_last() =~= Seq::<DbTerm>::empty());
        assert(s.drop_first() =~= Seq::<DbTerm>::empty());
        assert(s.last() == s[0]);
    } else {
        let df = s.drop_first();
        lemma_lsize_last(df);
        assert(df.last() == s.last());
        assert(df.drop_last() =~= s.drop_last().drop_first());
        assert(s.drop_last()[0] == s[0]);
    }
}

proof fn lemma_lsize_reverse(s: Seq<DbTerm>)
    ensures
        s.reverse().len() == s.len(),
        lsize(s.reverse()) == lsize(s),
    decreases s.len(),
{
    if s.len() == 0 {
        assert(s.reverse() =~= Seq::<DbTerm>::empty());
    } else {
        lemma_lsize_reverse(s.drop_last());
        assert(s.reverse()[0] == s.last());
        assert(s.reverse().drop_first() =~= s.drop_last().reverse());
        lemma_lsize_last(s);
    }
}

// ------------------------------------------------------------------
// Variable resolution through binding chains.
// ------------------------------------------------------------------
/// Where a chain of variable bindings ends.
pub enum Resolution {
    /// The chain ends at this unbound variable name.
    Free(Seq<char>),
    /// The chain ends at this non-variable value.
    Bound(ValModel),
    /// The fuel ran out: the chain is cyclic.
    Stuck,
}

/// Fuel that suffices for every acyclic chain in `env`.
pub open spec fn env_fuel(env: EnvModel) -> nat {
    env.dom().len() + 1
}

/// Follow the chain of variable bindings starting at `name`.
pub open spec fn spec_resolve(env: EnvModel, name: Seq<char>, fuel: nat) -> Resolution
    decreases fuel,
{
    if !env.contains_key(name) {
        Resolution::Free(name)
    } else {
        match env[name] {
            ValModel::Var(n2) => if fuel == 0 {
                Resolution::Stuck
            } else {
                spec_resolve(env, n2, (fuel - 1) as nat)
            },
            m => Resolution::Bound(m),
        }
    }
}

// ------------------------------------------------------------------
// The unifier, as spec functions.  The executable code mirrors these
// exactly; the `Err` payload is the partially extended environment.
// ------------------------------------------------------------------
/// Termination measure of a pair: the size of the literal side.
pub open spec fn pair_size(l: ValModel, r: ValModel) -> nat {
    match r {
        ValModel::Lit(_) => vsize(r),
        _ => vsize(l),
    }
}

/// Unify one pair of values under an environment.
pub open spec fn spec_unify_pair(l: ValModel, r: ValModel, env: EnvModel) -> Result<
    EnvModel,
    EnvModel,
>
    decreases pair_size(l, r), 3int, 0int,
{
    match (l, r) {
        (ValModel::Lit(x), ValModel::Lit(y)) => if term_eq(x, y) {
            Result::Ok(env)
        } else {
            Result::Err(env)
        },
        (ValModel::Var(x), ValModel::Lit(y)) => spec_bind_lit(x, y, env),
        (ValModel::Lit(x), ValModel::Var(y)) => spec_bind_lit(y, x, env),
        (ValModel::Var(a), ValModel::Var(b)) => Result::Ok(env.insert(a, ValModel::Var(b))),
        (ValModel::Lit(x), ValModel::Pattern { explicit, is_glob, pos }) => match x {
            DbTerm::List(xs) => spec_pm(xs, explicit, is_glob, pos, env),
            _ => Result::Err(env),
        },
        (ValModel::Pattern { explicit, is_glob, pos }, ValModel::Lit(y)) => match y {
            DbTerm::List(xs) => spec_pm(xs, explicit, is_glob, pos, env),
            _ => Result::Err(env),
        },
        _ => Result::Err(env),
    }
}

/// Unify the variable `x` with the literal `y`: walk `x`'s binding chain
/// and bind its free end, or check the bound value against `y`.
pub open spec fn spec_bind_lit(x: Seq<char>, y: DbTerm, env: EnvModel) -> Result<
    EnvModel,
    EnvModel,
>
    decreases (1 + tsize(y)) as nat, 2int, 0int,
{
    match spec_resolve(env, x, env_fuel(env)) {
        Resolution::Free(w) => Result::Ok(env.insert(w, ValModel::Lit(y))),
        Resolution::Bound(m) => match m {
            ValModel::Lit(vx) => if term_eq(vx, y) {
                Result::Ok(env)
            } else {
                Result::Err(env)
            },
            ValModel::Pattern { explicit, is_glob, pos } => match y {
                DbTerm::List(ys) => spec_pm(ys, explicit, is_glob, pos, env),
                _ => Result::Err(env),
            },
            ValModel::Var(_) => Result::Err(env),
        },
        Resolution::Stuck => Result::Err(env),
    }
}

/// Match a ground list `xs` against a pattern.
pub open spec fn spec_pm(
    xs: Seq<DbTerm>,
    explicit: Seq<ValModel>,
    is_glob: bool,
    pos: GlobPosition,
    env: EnvModel,
) -> Result<EnvModel, EnvModel>
    decreases (1 + lsize(xs)) as nat, 2int, 0int,
    via spec_pm_dec
{
    if !is_glob {
        spec_pm_walk(explicit, xs, 0, env)
    } else {
        let n = if explicit.len() <= xs.len() {
            explicit.len() as int
        } else {
            xs.len() as int
        };
        match pos {
            GlobPosition::Head => spec_pm_walk(explicit, xs.take(n), 0, env),
            GlobPosition::Tail => spec_pm_walk(explicit, xs.reverse().take(n), 0, env),
            GlobPosition::Middle => spec_pm_middle(xs, explicit, 0, env, Result::Err(Map::empty())),
        }
    }
}

#[via_fn]
proof fn spec_pm_dec(
    xs: Seq<DbTerm>,
    explicit: Seq<ValModel>,
    is_glob: bool,
    pos: GlobPosition,
    env: EnvModel,
) {
    let n = if explicit.len() <= xs.len() {
        explicit.len() as int
    } else {
        xs.len() as int
    };
    lemma_lsize_take(xs, n);
    lemma_lsize_reverse(xs);
    lemma_lsize_take(xs.reverse(), n);
}

/// Unify `explicit` pairwise against the literals of `lits`, in lockstep up
/// to the shorter length; the first failure aborts with the partial
/// environment.
pub open spec fn spec_pm_walk(
    explicit: Seq<ValModel>,
    lits: Seq<DbTerm>,
    j: int,
    env: EnvModel,
) -> Result<EnvModel, EnvModel>
    decreases lsize(lits), 1int, explicit.len() + lits.len() - j,
    via spec_pm_walk_dec
{
    if j < 0 || j >= explicit.len() || j >= lits.len() {
        Result::Ok(env)
    } else {
        match spec_unify_pair(explicit[j], ValModel::Lit(lits[j]), env) {
            Result::Ok(e2) => spec_pm_walk(explicit, lits, j + 1, e2),
            Result::Err(e) => Result::Err(e),
        }
    }
}

#[via_fn]
proof fn spec_pm_walk_dec(explicit: Seq<ValModel>, lits: Seq<DbTerm>, j: int, env: EnvModel) {
    if 0 <= j && j < explicit.len() && j < lits.len() {
        lemma_lsize_el(lits, j);
    }
}

/// Keep the better of the accumulator and a fresh `Middle` attempt: any
/// success wins (the last one tried is kept), and among failures the one
/// with the larger partial environment is kept.
pub open spec fn middle_pick(
    acc: Result<EnvModel, EnvModel>,
    attempt: Result<EnvModel, EnvModel>,
) -> Result<EnvModel, EnvModel> {
    match attempt {
        Result::Ok(e) => Result::Ok(e),
        Result::Err(p) => match acc {
            Result::Ok(_) => acc,
            Result::Err(q) => if p.dom().len() > q.dom().len() {
                Result::Err(p)
            } else {
                acc
            },
        },
    }
}

/// Try the pattern at every start position of `xs`; out-of-range windows
/// are skipped as failed attempts.
pub open spec fn spec_pm_middle(
    xs: Seq<DbTerm>,
    explicit: Seq<ValModel>,
    i: int,
    env: EnvModel,
    acc: Result<EnvModel, EnvModel>,
) -> Result<EnvModel, EnvModel>
    decreases (1 + lsize(xs)) as nat, 1int, xs.len() + 1 - i,
    via spec_pm_middle_dec
{
    if i < 0 || i > xs.len() {
        acc
    } else {
        let acc2 = if i + explicit.len() <= xs.len() {
            middle_pick(
                acc,
                spec_pm_walk(explicit, xs.subrange(i, i + explicit.len() as int), 0, env),
            )
        } else {
            acc
        };
        spec_pm_middle(xs, explicit, i + 1, env, acc2)
    }
}

#[via_fn]
proof fn spec_pm_middle_dec(
    xs: Seq<DbTerm>,
    explicit: Seq<ValModel>,
    i: int,
    env: EnvModel,
    acc: Result<EnvModel, EnvModel>,
) {
    if 0 <= i && i + explicit.len() <= xs.len() {
        lemma_lsize_subrange(xs, i, i + explicit.len() as int);
    }
}

/// Unify two value sequences pairwise, in lockstep up to the shorter
/// length; excess elements on either side are ignored.
pub open spec fn spec_unify_seq(
    av: Seq<ValModel>,
    bv: Seq<ValModel>,
    i: int,
    env: EnvModel,
) -> Result<EnvModel, EnvModel>
    decreases (1 + vssize(av) + vssize(bv)) as nat, 3int, av.len() + bv.len() - i,
    via spec_unify_seq_dec
{
    if i < 0 || i >= av.len() || i >= bv.len() {
        Result::Ok(env)
    } else {
        match spec_unify_pair(av[i], bv[i], env) {
            Result::Ok(e2) => spec_unify_seq(av, bv, i + 1, e2),
            Result::Err(e) => Result::Err(e),
        }
    }
}

#[via_fn]
proof fn spec_unify_seq_dec(av: Seq<ValModel>, bv: Seq<ValModel>, i: int, env: EnvModel) {
    if 0 <= i && i < av.len() && i < bv.len() {
        lemma_vssize_el(av, i);
        lemma_vssize_el(bv, i);
    }
}

/// Unify two value sequences under an environment.
pub open spec fn spec_unify(av: Seq<ValModel>, bv: Seq<ValModel>, env: EnvModel) -> Result<
    EnvModel,
    EnvModel,
> {
    spec_unify_seq(av, bv, 0, env)
}

// ------------------------------------------------------------------
// Comparison.
// ------------------------------------------------------------------
/// Decide a comparison of two ground terms.
pub open spec fn cmp_decide(op: EqOp, x: DbTerm, y: DbTerm) -> bool {
    match op {
        EqOp::GreaterThan => term_cmp(x, y) == Some(Order::Greater),
        EqOp::EqualTo => term_eq(x, y),
        EqOp::LessThan => term_cmp(x, y) == Some(Order::Less),
        EqOp::LessThanOrEqualTo => term_cmp(x, y) == Some(Order::Less) || term_cmp(x, y) == Some(
            Order::Equal,
        ),
        EqOp::GreaterThanOrEqualTo => term_cmp(x, y) == Some(Order::Greater) || term_cmp(x, y)
            == Some(Order::Equal),
    }
}

/// Fuel that suffices for every pair of acyclic chains in `env`.
pub open spec fn cmp_fuel(env: EnvModel) -> nat {
    2 * env.dom().len() + 2
}

/// Compare two values under an environment.  An unbound variable satisfies
/// any comparison; a pattern satisfies none; a cyclic chain satisfies none.
pub open spec fn spec_compare(op: EqOp, a: ValModel, b: ValModel, env: EnvModel, fuel: nat) -> bool
    decreases fuel,
{
    match (a, b) {
        (ValModel::Lit(x), ValModel::Lit(y)) => cmp_decide(op, x, y),
        (ValModel::Var(x), ValModel::Lit(_)) => if !env.contains_key(x) {
            true
        } else if fuel == 0 {
            false
        } else {
            spec_compare(op, env[x], b, env, (fuel - 1) as nat)
        },
        (ValModel::Lit(_), ValModel::Var(y)) => if !env.contains_key(y) {
            true
        } else if fuel == 0 {
            false
        } else {
            spec_compare(op, a, env[y], env, (fuel - 1) as nat)
        },
        (ValModel::Var(x), ValModel::Var(y)) => if env.contains_key(x) && env.contains_key(y) {
            if fuel == 0 {
                false
            } else {
                spec_compare(op, env[x], env[y], env, (fuel - 1) as nat)
            }
        } else {
            true
        },
        _ => false,
    }
}

// ------------------------------------------------------------------
// Stability of binding chains, and growth of the environment during
// unification.  Outside variable-variable pairs, the unifier only ever
// binds a previously unbound variable, so every link it relied on is still
// in place in the final environment.
// ------------------------------------------------------------------
/// `b` extends `a`: every binding of `a` is a binding of `b`.
pub open spec fn env_le(a: EnvModel, b: EnvModel) -> bool {
    forall|k: Seq<char>| #[trigger] a.contains_key(k) ==> b.contains_key(k) && a[k] == b[k]
}

/// `env_le` is transitive.
pub proof fn lemma_env_le_trans(a: EnvModel, b: EnvModel, c: EnvModel)
    requires
        env_le(a, b),
        env_le(b, c),
    ensures
        env_le(a, c),
{
}

/// A chain that ends at an unbound variable ends at a variable the
/// environment does not contain.
proof fn lemma_resolve_free_unbound(env: EnvModel, x: Seq<char>, fuel: nat)
    ensures
        match spec_resolve(env, x, fuel) {
            Resolution::Free(w) => !env.contains_key(w),
            _ => true,
        },
    decreases fuel,
{
    if env.contains_key(x) {
        match env[x] {
            ValModel::Var(n2) => {
                if fuel > 0 {
                    lemma_resolve_free_unbound(env, n2, (fuel - 1) as nat);
                }
            },
            _ => {},
        }
    }
}

/// More fuel never changes a resolution that did not get stuck.
proof fn lemma_resolve_fuel_monotone(env: EnvModel, x: Seq<char>, f1: nat, f2: nat)
    requires
        !(spec_resolve(env, x, f1) is Stuck),
        f1 <= f2,
    ensures
        spec_resolve(env, x, f2) == spec_resolve(env, x, f1),
    decreases f1,
{
    if env.contains_key(x) {
        match env[x] {
            ValModel::Var(n2) => {
                lemma_resolve_fuel_monotone(env, n2, (f1 - 1) as nat, (f2 - 1) as nat);
            },
            _ => {},
        }
    }
}

/// A chain that ends at a value resolves the same way in any extension of
/// the environment, at the same fuel.
proof fn lemma_resolve_in_extension(env: EnvModel, big: EnvModel, x: Seq<char>, fuel: nat)
    requires
        env_le(env, big),
        spec_resolve(env, x, fuel) is Bound,
    ensures
        spec_resolve(big, x, fuel) == spec_resolve(env, x, fuel),
    decreases fuel,
{
    match env[x] {
        ValModel::Var(n2) => {
            lemma_resolve_in_extension(env, big, n2, (fuel - 1) as nat);
        },
        _ => {},
    }
}

/// Binding the unbound end of a chain makes the chain's start resolve to
/// the bound value, with one more unit of fuel.
proof fn lemma_resolve_after_bind(env: EnvModel, x: Seq<char>, w: Seq<char>, m: ValModel, fuel: nat)
    requires
        spec_resolve(env, x, fuel) == Resolution::Free(w),
        !(m is Var),
    ensures
        spec_resolve(env.insert(w, m), x, (fuel + 1) as nat) == Resolution::Bound(m),
    decreases fuel,
{
    lemma_resolve_free_unbound(env, x, fuel);
    if env.contains_key(x) {
        match env[x] {
            ValModel::Var(n2) => {
                lemma_resolve_after_bind(env, n2, w, m, (fuel - 1) as nat);
            },
            _ => {},
        }
    }
}

/// A successful unification of one pair extends the environment, provided
/// the pair is not two variables (that arm may rebind a variable).
pub proof fn lemma_pair_grows(l: ValModel, r: ValModel, env: EnvModel)
    requires
        !(l is Var && r is Var),
        spec_unify_pair(l, r, env) is Ok,
    ensures
        match spec_unify_pair(l, r, env) {
            Result::Ok(e2) => env_le(env, e2) && (env.dom().finite() ==> e2.dom().finite()),
            Result::Err(_) => true,
        },
    decreases pair_size(l, r), 3int, 1int,
{
    match (l, r) {
        (ValModel::Var(x), ValModel::Lit(y)) => {
            lemma_bind_grows(x, y, env);
        },
        (ValModel::Lit(x), ValModel::Var(y)) => {
            lemma_bind_grows(y, x, env);
        },
        (ValModel::Lit(x), ValModel::Pattern { explicit, is_glob, pos }) => {
            match x {
                DbTerm::List(xs) => {
                    lemma_pm_grows(xs, explicit, is_glob, pos, env);
                },
                _ => {},
            }
        },
        (ValModel::Pattern { explicit, is_glob, pos }, ValModel::Lit(y)) => {
            match y {
                DbTerm::List(xs) => {
                    lemma_pm_grows(xs, explicit, is_glob, pos, env);
                },
                _ => {},
            }
        },
        _ => {},
    }
}

/// A successful unification of a variable with a literal extends the
/// environment: it binds only the unbound end of the chain.
proof fn lemma_bind_grows(x: Seq<char>, y: DbTerm, env: EnvModel)
    requires
        spec_bind_lit(x, y, env) is Ok,
    ensures
        match spec_bind_lit(x, y, env) {
            Result::Ok(e2) => env_le(env, e2) && (env.dom().finite() ==> e2.dom().finite()),
            Result::Err(_) => true,
        },
    decreases (1 + tsize(y)) as nat, 2int, 1int,
{
    match spec_resolve(env, x, env_fuel(env)) {
        Resolution::Free(w) => {
            lemma_resolve_free_unbound(env, x, env_fuel(env));
        },
        Resolution::Bound(m) => {
            match m {
                ValModel::Pattern { explicit, is_glob, pos } => {
                    match y {
                        DbTerm::List(ys) => {
                            lemma_pm_grows(ys, explicit, is_glob, pos, env);
                        },
                        _ => {},
                    }
                },
                _ => {},
            }
        },
        Resolution::Stuck => {},
    }
}

/// A successful pattern match extends the environment.
proof fn lemma_pm_grows(
    xs: Seq<DbTerm>,
    explicit: Seq<ValModel>,
    is_glob: bool,
    pos: GlobPosition,
    env: EnvModel,
)
    requires
        spec_pm(xs, explicit, is_glob, pos, env) is Ok,
    ensures
        match spec_pm(xs, explicit, is_glob, pos, env) {
            Result::Ok(e2) => env_le(env, e2) && (env.dom().finite() ==> e2.dom().finite()),
            Result::Err(_) => true,
        },
    decreases (1 + lsize(xs)) as nat, 2int, 1int,
{
    let n = if explicit.len() <= xs.len() {
        explicit.len() as int
    } else {
        xs.len() as int
    };
    if !is_glob {
        lemma_walk_grows(explicit, xs, 0, env);
    } else {
        match pos {
            GlobPosition::Head => {
                lemma_lsize_take(xs, n);
                lemma_walk_grows(explicit, xs.take(n), 0, env);
            },
            GlobPosition::Tail => {
                lemma_lsize_reverse(xs);
                lemma_lsize_take(xs.reverse(), n);
                lemma_walk_grows(explicit, xs.reverse().take(n), 0, env);
            },
            GlobPosition::Middle => {
                lemma_middle_grows(xs, explicit, 0, env, Result::Err(Map::empty()));
            },
        }
    }
}

/// A successful lockstep walk against literals extends the environment.
proof fn lemma_walk_grows(explicit: Seq<ValModel>, lits: Seq<DbTerm>, j: int, env: EnvModel)
    requires
        spec_pm_walk(explicit, lits, j, env) is Ok,
    ensures
        match spec_pm_walk(explicit, lits, j, env) {
            Result::Ok(e2) => env_le(env, e2) && (env.dom().finite() ==> e2.dom().finite()),
            Result::Err(_) => true,
        },
    decreases lsize(lits), 1int, explicit.len() + lits.len() - j,
{
    if !(j < 0 || j >= explicit.len() || j >= lits.len()) {
        lemma_lsize_el(lits, j);
        match spec_unify_pair(explicit[j], ValModel::Lit(lits[j]), env) {
            Result::Ok(e2) => {
                lemma_pair_grows(explicit[j], ValModel::Lit(lits[j]), env);
                lemma_walk_grows(explicit, lits, j + 1, e2);
            },
            Result::Err(_) => {},
        }
    }
}

/// A successful `Middle` search extends the environment, provided the
/// accumulated candidate already does.
proof fn lemma_middle_grows(
    xs: Seq<DbTerm>,
    explicit: Seq<ValModel>,
    i: int,
    env: EnvModel,
    acc: Result<EnvModel, EnvModel>,
)
    requires
        spec_pm_middle(xs, explicit, i, env, acc) is Ok,
        match acc {
            Result::Ok(e) => env_le(env, e) && (env.dom().finite() ==> e.dom().finite()),
            Result::Err(_) => true,
        },
    ensures
        match spec_pm_middle(xs, explicit, i, env, acc) {
            Result::Ok(e2) => env_le(env, e2) && (env.dom().finite() ==> e2.dom().finite()),
            Result::Err(_) => true,
        },
    decreases (1 + lsize(xs)) as nat, 1int, xs.len() + 1 - i,
{
    if !(i < 0 || i > xs.len()) {
        let acc2 = if i + explicit.len() <= xs.len() {
            let attempt = spec_pm_walk(explicit, xs.subrange(i, i + explicit.len() as int), 0, env);
            if attempt is Ok {
                lemma_lsize_subrange(xs, i, i + explicit.len() as int);
                lemma_walk_grows(explicit, xs.subrange(i, i + explicit.len() as int), 0, env);
            }
            middle_pick(acc, attempt)
        } else {
            acc
        };
        lemma_middle_grows(xs, explicit, i + 1, env, acc2);
    }
}

/// A resolution that ends at a bound value survives any extension of the
/// environment, when both environments bind finitely many variables.
pub proof fn lemma_resolve_stable(env: EnvModel, big: EnvModel, x: Seq<char>)
    requires
        env_le(env, big),
        env.dom().finite(),
        big.dom().finite(),
        spec_resolve(env, x, env_fuel(env)) is Bound,
    ensures
        spec_resolve(big, x, env_fuel(big)) == spec_resolve(env, x, env_fuel(env)),
{
    lemma_resolve_in_extension(env, big, x, env_fuel(env));
    assert(env.dom().subset_of(big.dom()));
    vstd::set_lib::lemma_len_subset(env.dom(), big.dom());
    lemma_resolve_fuel_monotone(big, x, env_fuel(env), env_fuel(big));
}

/// After a successful variable-literal unification, the variable resolves
/// in the resulting environment to a bound value; where that value is a
/// literal, it is equal to the unified literal.
pub proof fn lemma_bind_sound(x: Seq<char>, y: DbTerm, env: EnvModel)
    requires
        env.dom().finite(),
        spec_bind_lit(x, y, env) is Ok,
    ensures
        match spec_bind_lit(x, y, env) {
            Result::Ok(e1) => {
                &&& env_le(env, e1)
                &&& e1.dom().finite()
                &&& match spec_resolve(e1, x, env_fuel(e1)) {
                    Resolution::Bound(m) => match m {
                        ValModel::Lit(vx) => term_eq(vx, y),
                        _ => true,
                    },
                    _ => false,
                }
            },
            Result::Err(_) => true,
        },
{
    lemma_bind_grows(x, y, env);
    match spec_resolve(env, x, env_fuel(env)) {
        Resolution::Free(w) => {
            lemma_resolve_free_unbound(env, x, env_fuel(env));
            let e1 = env.insert(w, ValModel::Lit(y));
            lemma_resolve_after_bind(env, x, w, ValModel::Lit(y), env_fuel(env));
            assert(e1.dom() =~= env.dom().insert(w));
            assert(env_fuel(e1) == env_fuel(env) + 1);
            crate::database::lemma_term_eq_reflexive(y);
        },
        Resolution::Bound(m) => {
            match spec_bind_lit(x, y, env) {
                Result::Ok(e1) => {
                    lemma_resolve_stable(env, e1, x);
                },
                Result::Err(_) => {},
            }
        },
        Resolution::Stuck => {},
    }
}

/// A successful lockstep unification of two sequences without
/// variable-variable pairs extends the environment.
pub proof fn lemma_unify_seq_grows(av: Seq<ValModel>, bv: Seq<ValModel>, j: int, env: EnvModel)
    requires
        spec_unify_seq(av, bv, j, env) is Ok,
        forall|k: int| 0 <= k < av.len() && k < bv.len() ==> !((#[trigger] av[k]) is Var
            && bv[k] is Var),
    ensures
        match spec_unify_seq(av, bv, j, env) {
            Result::Ok(e2) => env_le(env, e2) && (env.dom().finite() ==> e2.dom().finite()),
            Result::Err(_) => true,
        },
    decreases (1 + vssize(av) + vssize(bv)) as nat, 3int, av.len() + bv.len() - j,
{
    if !(j < 0 || j >= av.len() || j >= bv.len()) {
        lemma_vssize_el(av, j);
        lemma_vssize_el(bv, j);
        match spec_unify_pair(av[j], bv[j], env) {
            Result::Ok(e2) => {
                lemma_pair_grows(av[j], bv[j], env);
                lemma_unify_seq_grows(av, bv, j + 1, e2);
            },
            Result::Err(_) => {},
        }
    }
}

// ------------------------------------------------------------------
// Executable unifier, mirroring the spec functions exactly.
// ------------------------------------------------------------------
/// Every value of a sequence is well-formed.
pub open spec fn dbvs_wf(s: Seq<DBValue>) -> bool {
    forall|i: int| 0 <= i < s.len() ==> dbv_wf(#[trigger] s[i])
}

/// Every value of a sequence is well-formed.
pub open spec fn vals_wf(s: Seq<Value>) -> bool {
    forall|i: int| 0 <= i < s.len() ==> val_wf(#[trigger] s[i])
}

/// The models of a unification result.
pub open spec fn res_model(r: Result<Bindings, Bindings>) -> Result<EnvModel, EnvModel> {
    match r {
        Result::Ok(b) => Result::Ok(b.model()),
        Result::Err(b) => Result::Err(b.model()),
    }
}

/// Both arms of a unification result are well-formed environments.
pub open spec fn res_wf(r: Result<Bindings, Bindings>) -> bool {
    match r {
        Result::Ok(b) => b.wf(),
        Result::Err(b) => b.wf(),
    }
}

/// Where a chain of variable bindings ends, as runtime data.
enum ResolveEnd {
    Free(String),
    Bound(Value),
    Cycle,
}

/// Follow the chain of variable bindings starting at `name`.
fn resolve_go(env: &Bindings, name: &String, fuel: u128) -> (r: ResolveEnd)
    requires
        env.wf(),
    ensures
        match r {
            ResolveEnd::Free(w) => spec_resolve(env.model(), name@, fuel as nat)
                == Resolution::Free(w@),
            ResolveEnd::Bound(v) => spec_resolve(env.model(), name@, fuel as nat)
                == Resolution::Bound(val_model(v)) && val_wf(v),
            ResolveEnd::Cycle => spec_resolve(env.model(), name@, fuel as nat)
                == Resolution::Stuck,
        },
    decreases fuel,
{
    match env.get(name) {
        None => ResolveEnd::Free(name.clone()),
        Some(v) => match v {
            Value::Variable(n2) => if fuel == 0 {
                ResolveEnd::Cycle
            } else {
                resolve_go(env, &n2, fuel - 1)
            },
            other => ResolveEnd::Bound(other),
        },
    }
}

/// Resolve with enough fuel for every acyclic chain in `env`.
fn resolve(env: &Bindings, name: &String) -> (r: ResolveEnd)
    requires
        env.wf(),
    ensures
        match r {
            ResolveEnd::Free(w) => spec_resolve(env.model(), name@, env_fuel(env.model()))
                == Resolution::Free(w@),
            ResolveEnd::Bound(v) => spec_resolve(env.model(), name@, env_fuel(env.model()))
                == Resolution::Bound(val_model(v)) && val_wf(v),
            ResolveEnd::Cycle => spec_resolve(env.model(), name@, env_fuel(env.model()))
                == Resolution::Stuck,
        },
{
    let fuel: u128 = env.size() as u128 + 1;
    resolve_go(env, name, fuel)
}

/// Unify one pair of values.
fn unify_pair(l: &Value, r: &Value, env: Bindings) -> (res: Result<Bindings, Bindings>)
    requires
        val_wf(*l),
        val_wf(*r),
        env.wf(),
    ensures
        res_model(res) == spec_unify_pair(val_model(*l), val_model(*r), env.model()),
        res_wf(res),
    decreases pair_size(val_model(*l), val_model(*r)), 3int, 0int,
{
    match (l, r) {
        (Value::Literal(x), Value::Literal(y)) => if x.eq_value(y) {
            Ok(env)
        } else {
            Err(env)
        },
        (Value::Variable(x), Value::Literal(y)) => bind_lit(x, y, env),
        (Value::Literal(x), Value::Variable(y)) => bind_lit(y, x, env),
        (Value::Variable(a), Value::Variable(b)) => {
            let mut env = env;
            env.insert(a.clone(), Value::Variable(b.clone()));
            Ok(env)
        },
        (Value::Literal(x), Value::PatternMatch { explicit_values, is_glob, glob_position }) => {
            match x {
                DBValue::List(xs) => unify_pattern_match(
                    xs,
                    explicit_values,
                    is_glob,
                    glob_position,
                    env,
                ),
                _ => Err(env),
            }
        },
        (Value::PatternMatch { explicit_values, is_glob, glob_position }, Value::Literal(y)) => {
            match y {
                DBValue::List(xs) => unify_pattern_match(
                    xs,
                    explicit_values,
                    is_glob,
                    glob_position,
                    env,
                ),
                _ => Err(env),
            }
        },
        _ => Err(env),
    }
}

/// Unify the variable `x` with the literal `y`.
fn bind_lit(x: &String, y: &DBValue, env: Bindings) -> (res: Result<Bindings, Bindings>)
    requires
        dbv_wf(*y),
        env.wf(),
    ensures
        res_model(res) == spec_bind_lit(x@, dbv_model(*y), env.model()),
        res_wf(res),
    decreases (1 + tsize(dbv_model(*y))) as nat, 2int, 0int,
{
    match resolve(&env, x) {
        ResolveEnd::Free(w) => {
            let mut env = env;
            env.insert(w, Value::Literal(y.duplicate()));
            Ok(env)
        },
        ResolveEnd::Bound(v) => match v {
            Value::Literal(vx) => if vx.eq_value(y) {
                Ok(env)
            } else {
                Err(env)
            },
            Value::PatternMatch { explicit_values, is_glob, glob_position } => match y {
                DBValue::List(ys) => unify_pattern_match(
                    ys,
                    &explicit_values,
                    &is_glob,
                    &glob_position,
                    env,
                ),
                _ => Err(env),
            },
            Value::Variable(_) => Err(env),
        },
        ResolveEnd::Cycle => Err(env),
    }
}

/// Copy the first `k` values of a list.
#[verifier::loop_isolation(false)]
fn copy_prefix(list: &Vec<DBValue>, k: usize) -> (r: Vec<DBValue>)
    requires
        k <= list.len(),
        dbvs_wf(list@),
    ensures
        dbv_model_seq(r@) == dbv_model_seq(list@).take(k as int),
        dbvs_wf(r@),
{
    let mut out: Vec<DBValue> = Vec::new();
    let mut i: usize = 0;
    while i < k
        invariant
            i <= k,
            out@.len() == i,
            forall|j: int| 0 <= j < i ==> dbv_model(#[trigger] out@[j]) == dbv_model(list@[j])
                && dbv_wf(out@[j]),
        decreases k - i,
    {
        out.push(list[i].duplicate());
        i = i + 1;
    }
    proof {
        lemma_dbv_model_seq(out@);
        lemma_dbv_model_seq(list@);
        assert forall|j: int| 0 <= j < k implies dbv_model_seq(out@)[j] == dbv_model_seq(
            list@,
        ).take(k as int)[j] by {
            assert(dbv_model_seq(out@)[j] == dbv_model(out@[j]));
            assert(dbv_model_seq(list@)[j] == dbv_model(list@[j]));
        }
        assert(dbv_model_seq(out@) =~= dbv_model_seq(list@).take(k as int));
    }
    out
}

/// Copy the first `k` values of the reversed list.
#[verifier::loop_isolation(false)]
fn copy_rev_prefix(list: &Vec<DBValue>, k: usize) -> (r: Vec<DBValue>)
    requires
        k <= list.len(),
        dbvs_wf(list@),
    ensures
        dbv_model_seq(r@) == dbv_model_seq(list@).reverse().take(k as int),
        dbvs_wf(r@),
{
    let mut out: Vec<DBValue> = Vec::new();
    let mut i: usize = 0;
    while i < k
        invariant
            i <= k,
            out@.len() == i,
            forall|j: int| 0 <= j < i ==> dbv_model(#[trigger] out@[j]) == dbv_model(
                list@[list@.len() - 1 - j],
            ) && dbv_wf(out@[j]),
        decreases k - i,
    {
        out.push(list[list.len() - 1 - i].duplicate());
        i = i + 1;
    }
    proof {
        lemma_dbv_model_seq(out@);
        lemma_dbv_model_seq(list@);
        let m = dbv_model_seq(list@);
        assert(m.reverse().len() == m.len());
        assert forall|j: int| 0 <= j < k implies dbv_model_seq(out@)[j] == m.reverse().take(
            k as int,
        )[j] by {
            assert(dbv_model_seq(out@)[j] == dbv_model(out@[j]));
            assert(m.reverse()[j] == m[m.len() - 1 - j]);
            assert(m[m.len() - 1 - j] == dbv_model(list@[list@.len() - 1 - j]));
        }
        assert(dbv_model_seq(out@) =~= m.reverse().take(k as int));
    }
    out
}

/// Copy the window `[a, b)` of a list.
#[verifier::loop_isolation(false)]
fn copy_range(list: &Vec<DBValue>, a: usize, b: usize) -> (r: Vec<DBValue>)
    requires
        a <= b <= list.len(),
        dbvs_wf(list@),
    ensures
        dbv_model_seq(r@) == dbv_model_seq(list@).subrange(a as int, b as int),
        dbvs_wf(r@),
{
    let mut out: Vec<DBValue> = Vec::new();
    let mut i: usize = a;
    while i < b
        invariant
            a <= i <= b,
            out@.len() == i - a,
            forall|j: int| 0 <= j < i - a ==> dbv_model(#[trigger] out@[j]) == dbv_model(
                list@[a + j],
            ) && dbv_wf(out@[j]),
        decreases b - i,
    {
        out.push(list[i].duplicate());
        i = i + 1;
    }
    proof {
        lemma_dbv_model_seq(out@);
        lemma_dbv_model_seq(list@);
        let m = dbv_model_seq(list@);
        assert forall|j: int| 0 <= j < b - a implies dbv_model_seq(out@)[j] == m.subrange(
            a as int,
            b as int,
        )[j] by {
            assert(dbv_model_seq(out@)[j] == dbv_model(out@[j]));
            assert(m.subrange(a as int, b as int)[j] == m[a + j]);
            assert(m[a + j] == dbv_model(list@[a + j]));
        }
        assert(dbv_model_seq(out@) =~= m.subrange(a as int, b as int));
    }
    out
}

/// Unify `explicit` pairwise against the literals of `lits` from index `j`.
fn pm_walk(explicit: &Vec<Value>, lits: &Vec<DBValue>, j: usize, env: Bindings) -> (res: Result<
    Bindings,
    Bindings,
>)
    requires
        vals_wf(explicit@),
        dbvs_wf(lits@),
        env.wf(),
    ensures
        res_model(res) == spec_pm_walk(
            val_model_seq(explicit@),
            dbv_model_seq(lits@),
            j as int,
            env.model(),
        ),
        res_wf(res),
    decreases lsize(dbv_model_seq(lits@)), 1int, explicit@.len() + lits@.len() - j,
{
    proof {
        lemma_val_model_seq(explicit@);
        lemma_dbv_model_seq(lits@);
    }
    if j >= explicit.len() || j >= lits.len() {
        Ok(env)
    } else {
        let lit = Value::Literal(lits[j].duplicate());
        proof {
            lemma_lsize_el(dbv_model_seq(lits@), j as int);
        }
        match unify_pair(&explicit[j], &lit, env) {
            Ok(e2) => pm_walk(explicit, lits, j + 1, e2),
            Err(e) => Err(e),
        }
    }
}

/// Keep the better of the accumulator and a fresh `Middle` attempt.
fn pick_better(acc: Result<Bindings, Bindings>, attempt: Result<Bindings, Bindings>) -> (r: Result<
    Bindings,
    Bindings,
>)
    requires
        res_wf(acc),
        res_wf(attempt),
    ensures
        res_model(r) == middle_pick(res_model(acc), res_model(attempt)),
        res_wf(r),
{
    match attempt {
        Ok(e) => Ok(e),
        Err(p) => match acc {
            Ok(q) => Ok(q),
            Err(q) => if p.size() > q.size() {
                Err(p)
            } else {
                Err(q)
            },
        },
    }
}

/// Try the pattern at every start position of `list` from `i` upward.
fn pm_middle(
    list: &Vec<DBValue>,
    explicit: &Vec<Value>,
    i: u128,
    env: &Bindings,
    acc: Result<Bindings, Bindings>,
) -> (res: Result<Bindings, Bindings>)
    requires
        dbvs_wf(list@),
        vals_wf(explicit@),
        env.wf(),
        res_wf(acc),
    ensures
        res_model(res) == spec_pm_middle(
            dbv_model_seq(list@),
            val_model_seq(explicit@),
            i as int,
            env.model(),
            res_model(acc),
        ),
        res_wf(res),
    decreases (1 + lsize(dbv_model_seq(list@))) as nat, 1int, list@.len() + 1 - i,
{
    proof {
        lemma_dbv_model_seq(list@);
        lemma_val_model_seq(explicit@);
    }
    if i > list.len() as u128 {
        acc
    } else {
        let iu = i as usize;
        let acc2 = if explicit.len() <= list.len() - iu {
            let lits = copy_range(list, iu, iu + explicit.len());
            proof {
                lemma_lsize_subrange(dbv_model_seq(list@), i as int, i + explicit@.len() as int);
            }
            let attempt = pm_walk(explicit, &lits, 0, env.duplicate());
            pick_better(acc, attempt)
        } else {
            acc
        };
        pm_middle(list, explicit, i + 1, env, acc2)
    }
}

/// Match a ground list against a pattern: pairwise when not a glob, else
/// against the head, the reversed tail, or the best window in the middle.
pub fn unify_pattern_match(
    list: &Vec<DBValue>,
    explicit_values: &Vec<Value>,
    is_glob: &bool,
    glob_position: &GlobPosition,
    new_bindings: Bindings,
) -> (res: Result<Bindings, Bindings>)
    requires
        dbvs_wf(list@),
        vals_wf(explicit_values@),
        new_bindings.wf(),
    ensures
        res_model(res) == spec_pm(
            dbv_model_seq(list@),
            val_model_seq(explicit_values@),
            *is_glob,
            *glob_position,
            new_bindings.model(),
        ),
        res_wf(res),
    decreases (1 + lsize(dbv_model_seq(list@))) as nat, 2int, 0int,
{
    proof {
        lemma_dbv_model_seq(list@);
        lemma_val_model_seq(explicit_values@);
    }
    if !*is_glob {
        pm_walk(explicit_values, list, 0, new_bindings)
    } else {
        let n = if explicit_values.len() <= list.len() {
            explicit_values.len()
        } else {
            list.len()
        };
        match glob_position {
            GlobPosition::Head => {
                let lits = copy_prefix(list, n);
                proof {
                    lemma_lsize_take(dbv_model_seq(list@), n as int);
                }
                pm_walk(explicit_values, &lits, 0, new_bindings)
            },
            GlobPosition::Tail => {
                let lits = copy_rev_prefix(list, n);
                proof {
                    lemma_lsize_reverse(dbv_model_seq(list@));
                    lemma_lsize_take(dbv_model_seq(list@).reverse(), n as int);
                }
                pm_walk(explicit_values, &lits, 0, new_bindings)
            },
            GlobPosition::Middle => pm_middle(
                list,
                explicit_values,
                0u128,
                &new_bindings,
                Err(Bindings::new()),
            ),
        }
    }
}

/// Unify two value sequences pairwise from index `i`.
fn unify_seq(av: &Vec<Value>, bv: &Vec<Value>, i: usize, env: Bindings) -> (res: Result<
    Bindings,
    Bindings,
>)
    requires
        vals_wf(av@),
        vals_wf(bv@),
        env.wf(),
    ensures
        res_model(res) == spec_unify_seq(
            val_model_seq(av@),
            val_model_seq(bv@),
            i as int,
            env.model(),
        ),
        res_wf(res),
    decreases (1 + vssize(val_model_seq(av@)) + vssize(val_model_seq(bv@))) as nat,
        3int,
        av@.len() + bv@.len() - i,
{
    proof {
        lemma_val_model_seq(av@);
        lemma_val_model_seq(bv@);
    }
    if i >= av.len() || i >= bv.len() {
        Ok(env)
    } else {
        proof {
            lemma_vssize_el(val_model_seq(av@), i as int);
            lemma_vssize_el(val_model_seq(bv@), i as int);
        }
        match unify_pair(&av[i], &bv[i], env) {
            Ok(e2) => unify_seq(av, bv, i + 1, e2),
            Err(e) => Err(e),
        }
    }
}

/// Unify two value sequences in lockstep up to the shorter length.  `Ok`
/// carries the extended environment, `Err` the partial environment at the
/// first failure.
pub fn lax_unify(av: &Vec<Value>, bv: &Vec<Value>, bindings: Bindings) -> (res: Result<
    Bindings,
    Bindings,
>)
    requires
        vals_wf(av@),
        vals_wf(bv@),
        bindings.wf(),
    ensures
        res_model(res) == spec_unify(val_model_seq(av@), val_model_seq(bv@), bindings.model()),
        res_wf(res),
{
    unify_seq(av, bv, 0, bindings)
}

/// Unify without touching the caller's environment; `None` on failure.
pub fn unify_wrap(av: &Vec<Value>, bv: &Vec<Value>, bindings: &Bindings) -> (r: Option<Bindings>)
    requires
        vals_wf(av@),
        vals_wf(bv@),
        bindings.wf(),
    ensures
        match r {
            Option::Some(e) => spec_unify(val_model_seq(av@), val_model_seq(bv@), bindings.model())
                == Result::<EnvModel, EnvModel>::Ok(e.model()) && e.wf(),
            Option::None => spec_unify(val_model_seq(av@), val_model_seq(bv@), bindings.model())
                is Err,
        },
{
    match lax_unify(av, bv, bindings.duplicate()) {
        Ok(e) => Some(e),
        Err(_) => None,
    }
}

/// Unify without touching the caller's environment, keeping the partial
/// environment of a failure.
pub fn lax_unify_wrap(av: &Vec<Value>, bv: &Vec<Value>, bindings: &Bindings) -> (res: Result<
    Bindings,
    Bindings,
>)
    requires
        vals_wf(av@),
        vals_wf(bv@),
        bindings.wf(),
    ensures
        res_model(res) == spec_unify(val_model_seq(av@), val_model_seq(bv@), bindings.model()),
        res_wf(res),
{
    lax_unify(av, bv, bindings.duplicate())
}

/// Decide a comparison of two ground values.
fn compare_decide(op: &EqOp, x: &DBValue, y: &DBValue) -> (r: bool)
    requires
        dbv_wf(*x),
        dbv_wf(*y),
    ensures
        r == cmp_decide(*op, dbv_model(*x), dbv_model(*y)),
{
    match op {
        EqOp::GreaterThan => matches!(x.partial_cmp(y), Some(Order::Greater)),
        EqOp::EqualTo => x.eq_value(y),
        EqOp::LessThan => matches!(x.partial_cmp(y), Some(Order::Less)),
        EqOp::LessThanOrEqualTo => matches!(
            x.partial_cmp(y),
            Some(Order::Less) | Some(Order::Equal)
        ),
        EqOp::GreaterThanOrEqualTo => matches!(
            x.partial_cmp(y),
            Some(Order::Greater) | Some(Order::Equal)
        ),
    }
}

/// Compare two values under an environment, with explicit fuel.
fn compare_go(op: &EqOp, a: &Value, b: &Value, env: &Bindings, fuel: u128) -> (r: bool)
    requires
        val_wf(*a),
        val_wf(*b),
        env.wf(),
    ensures
        r == spec_compare(*op, val_model(*a), val_model(*b), env.model(), fuel as nat),
    decreases fuel,
{
    match (a, b) {
        (Value::Literal(x), Value::Literal(y)) => compare_decide(op, x, y),
        (Value::Variable(x), Value::Literal(_)) => match env.get(x) {
            None => true,
            Some(vx) => if fuel == 0 {
                false
            } else {
                compare_go(op, &vx, b, env, fuel - 1)
            },
        },
        (Value::Literal(_), Value::Variable(y)) => match env.get(y) {
            None => true,
            Some(vy) => if fuel == 0 {
                false
            } else {
                compare_go(op, a, &vy, env, fuel - 1)
            },
        },
        (Value::Variable(x), Value::Variable(y)) => match (env.get(x), env.get(y)) {
            (Some(vx), Some(vy)) => if fuel == 0 {
                false
            } else {
                compare_go(op, &vx, &vy, env, fuel - 1)
            },
            _ => true,
        },
        _ => false,
    }
}

// ------------------------------------------------------------------
// Constraint models and the relation constructor.
// ------------------------------------------------------------------
/// The mathematical model of a `Constraint`.
pub enum ConModel {
    Rel(Seq<char>, Seq<ValModel>),
    Unif(Seq<ValModel>, Seq<ValModel>),
    Cmp(EqOp, ValModel, ValModel),
    Neg(Box<ConModel>),
    Alt(Seq<ConModel>),
    Inter(Seq<ConModel>),
}

/// The model of a constraint.
pub open spec fn con_model(c: Constraint) -> ConModel
    decreases c, 1int,
{
    match c {
        Constraint::Relation(id, vs) => ConModel::Rel(id@, val_model_seq(vs@)),
        Constraint::Unification(l, r) => ConModel::Unif(val_model_seq(l@), val_model_seq(r@)),
        Constraint::Comparison(op, a, b) => ConModel::Cmp(op, val_model(a), val_model(b)),
        Constraint::Not(inner) => ConModel::Neg(Box::new(con_model(*inner))),
        Constraint::Alternatives(cs) => ConModel::Alt(con_model_seq(cs@)),
        Constraint::Intersections(cs) => ConModel::Inter(con_model_seq(cs@)),
    }
}

/// The models of a sequence of constraints, in order.
pub open spec fn con_model_seq(s: Seq<Constraint>) -> Seq<ConModel>
    decreases s, 0int,
{
    if s.len() == 0 {
        Seq::empty()
    } else {
        seq![con_model(s[0])] + con_model_seq(s.drop_first())
    }
}

/// `con_model_seq` maps the model over the sequence, index by index.
pub proof fn lemma_con_model_seq(s: Seq<Constraint>)
    ensures
        con_model_seq(s).len() == s.len(),
        forall|i: int| 0 <= i < s.len() ==> con_model_seq(s)[i] == con_model(#[trigger] s[i]),
    decreases s.len(),
{
    if s.len() > 0 {
        lemma_con_model_seq(s.drop_first());
        assert forall|i: int| 0 <= i < s.len() implies con_model_seq(s)[i] == con_model(
            #[trigger] s[i],
        ) by {
            if i > 0 {
                assert(con_model_seq(s)[i] == con_model_seq(s.drop_first())[i - 1]);
                assert(s.drop_first()[i - 1] == s[i]);
            }
        }
    }
}

/// Well-formedness of a constraint: every value in it is well-formed.
pub open spec fn con_wf(c: Constraint) -> bool
    decreases c,
{
    match c {
        Constraint::Relation(_, vs) => forall|i: int|
            0 <= i < vs@.len() ==> val_wf(#[trigger] vs@[i]),
        Constraint::Unification(l, r) => (forall|i: int|
            0 <= i < l@.len() ==> val_wf(#[trigger] l@[i])) && (forall|i: int|
            0 <= i < r@.len() ==> val_wf(#[trigger] r@[i])),
        Constraint::Comparison(_, a, b) => val_wf(a) && val_wf(b),
        Constraint::Not(inner) => con_wf(*inner),
        Constraint::Alternatives(cs) => forall|i: int|
            0 <= i < cs@.len() ==> con_wf(#[trigger] cs@[i]),
        Constraint::Intersections(cs) => forall|i: int|
            0 <= i < cs@.len() ==> con_wf(#[trigger] cs@[i]),
    }
}

/// Every constraint of a sequence is well-formed.
pub open spec fn cons_wf(s: Seq<Constraint>) -> bool {
    forall|i: int| 0 <= i < s.len() ==> con_wf(#[trigger] s[i])
}

/// What `new_relation` builds: the relation id is taken from index 1, which
/// must hold a `RelationID` literal, stored upper-cased, with that slot
/// removed from the argument list.
pub open spec fn spec_new_relation(vs: Seq<Value>) -> Option<ConModel> {
    if vs.len() < 2 {
        None
    } else {
        match vs[1] {
            Value::Literal(d) => match d {
                DBValue::RelationID(rel) => Some(
                    ConModel::Rel(
                        crate::text::upper_of(rel@),
                        val_model_seq(vs.remove(1)),
                    ),
                ),
                _ => None,
            },
            _ => None,
        }
    }
}

impl Constraint {
    /// Build a `Relation` constraint from a raw value tuple; rejected when
    /// the tuple is too short or its second slot is not a relation id.
    pub fn new_relation(vs: Vec<Value>) -> (r: Result<Constraint, String>)
        requires
            vals_wf(vs@),
        ensures
            match r {
                Result::Ok(c) => spec_new_relation(vs@) == Some(con_model(c)) && con_wf(c),
                Result::Err(_) => spec_new_relation(vs@) is None,
            },
    {
        if vs.len() < 2 {
            return Err(String::from_str(
                "Not enough terms in relation to construct a meaningful relation. ",
            ));
        }
        let ok = matches!(&vs[1], Value::Literal(DBValue::RelationID(_)));
        if !ok {
            return Err(String::from_str(
                "Expected second term in relation to be a valid relation ID",
            ));
        }
        let mut vs = vs;
        let v1 = vs.remove(1);
        match v1 {
            Value::Literal(d) => match d {
                DBValue::RelationID(rel) => {
                    let id = crate::text::to_upper(&rel);
                    let c = Constraint::Relation(id, vs);
                    Ok(c)
                },
                _ => {
                    proof {
                        assert(false);
                    }
                    Err(String::new())
                },
            },
            _ => {
                proof {
                    assert(false);
                }
                Err(String::new())
            },
        }
    }
}

/// Compare two values under an environment.  An unbound variable satisfies
/// any comparison.
pub fn unify_compare(op: &EqOp, a: &Value, b: &Value, bindings: &Bindings) -> (r: bool)
    requires
        val_wf(*a),
        val_wf(*b),
        bindings.wf(),
    ensures
        r == spec_compare(
            *op,
            val_model(*a),
            val_model(*b),
            bindings.model(),
            cmp_fuel(bindings.model()),
        ),
{
    let fuel: u128 = 2 * (bindings.size() as u128) + 2;
    compare_go(op, a, b, bindings, fuel)
}

} // verus!
