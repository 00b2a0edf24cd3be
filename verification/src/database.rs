//! The ground value universe and the fact/rule store.
//!
//! `DBValue` is the tagged variant of values a database holds.  Its
//! mathematical model is `DbTerm`, in which numbers are unbounded integers
//! and strings are character sequences.  Equality identifies `Number(n)`
//! with `Float(n, 0)` and compares relation identifiers case-insensitively;
//! ordering is total within `Text`, `Number` and `Float` and undefined for
//! every other pair of tags.

use vstd::prelude::*;

verus! {

use crate::num::{BigSigned, BigUnsigned, Order};
use crate::text::{chars_cmp, string_cmp, to_upper, upper_eq, upper_of};

broadcast use vstd::std_specs::vec::group_vec_axioms;

/// A ground database value.
#[derive(Debug)]
pub enum DBValue {
    Text(String),
    Number(BigSigned),
    /// A decimal pair: integer part and nonnegative fractional part.
    Float(BigSigned, BigUnsigned),
    /// A relation name, compared case-insensitively.
    RelationID(String),
    List(Vec<DBValue>),
}

/// The mathematical model of a `DBValue`.
pub enum DbTerm {
    Text(Seq<char>),
    Number(int),
    Float(int, nat),
    Rel(Seq<char>),
    List(Seq<DbTerm>),
}

/// Well-formedness: all numbers are in canonical limb form.
pub open spec fn dbv_wf(d: DBValue) -> bool
    decreases d,
{
    match d {
        DBValue::Text(_) => true,
        DBValue::Number(n) => n.wf(),
        DBValue::Float(i, f) => i.wf() && f.wf(),
        DBValue::RelationID(_) => true,
        DBValue::List(xs) => forall|i: int| 0 <= i < xs@.len() ==> dbv_wf(#[trigger] xs@[i]),
    }
}

/// The model of a value.
pub open spec fn dbv_model(d: DBValue) -> DbTerm
    decreases d, 1int,
{
    match d {
        DBValue::Text(s) => DbTerm::Text(s@),
        DBValue::Number(n) => DbTerm::Number(n.val()),
        DBValue::Float(i, f) => DbTerm::Float(i.val(), f.val()),
        DBValue::RelationID(s) => DbTerm::Rel(s@),
        DBValue::List(xs) => DbTerm::List(dbv_model_seq(xs@)),
    }
}

/// The models of a sequence of values, in order.
pub open spec fn dbv_model_seq(s: Seq<DBValue>) -> Seq<DbTerm>
    decreases s, 0int,
{
    if s.len() == 0 {
        Seq::empty()
    } else {
        seq![dbv_model(s[0])] + dbv_model_seq(s.drop_first())
    }
}

/// `dbv_model_seq` maps the model over the sequence, index by index.
pub proof fn lemma_dbv_model_seq(s: Seq<DBValue>)
    ensures
        dbv_model_seq(s).len() == s.len(),
        forall|i: int| 0 <= i < s.len() ==> dbv_model_seq(s)[i] == dbv_model(#[trigger] s[i]),
    decreases s.len(),
{
    if s.len() > 0 {
        lemma_dbv_model_seq(s.drop_first());
        assert forall|i: int| 0 <= i < s.len() implies dbv_model_seq(s)[i] == dbv_model(
            #[trigger] s[i],
        ) by {
            if i > 0 {
                assert(dbv_model_seq(s)[i] == dbv_model_seq(s.drop_first())[i - 1]);
                assert(s.drop_first()[i - 1] == s[i]);
            }
        }
    }
}

/// Equality of models: structural within a tag, `Number(n) == Float(n, 0)`,
/// relation identifiers case-insensitive, all other cross-tag pairs unequal.
pub open spec fn term_eq(a: DbTerm, b: DbTerm) -> bool
    decreases a,
{
    match (a, b) {
        (DbTerm::Text(s1), DbTerm::Text(s2)) => s1 == s2,
        (DbTerm::Number(n1), DbTerm::Number(n2)) => n1 == n2,
        (DbTerm::Number(n1), DbTerm::Float(i2, f2)) => f2 == 0 && n1 == i2,
        (DbTerm::Float(i1, f1), DbTerm::Number(n2)) => f1 == 0 && i1 == n2,
        (DbTerm::Float(i1, f1), DbTerm::Float(i2, f2)) => i1 == i2 && f1 == f2,
        (DbTerm::Rel(r1), DbTerm::Rel(r2)) => upper_of(r1) == upper_of(r2),
        (DbTerm::List(s1), DbTerm::List(s2)) => s1.len() == s2.len() && (forall|i: int|
            0 <= i < s1.len() ==> term_eq(#[trigger] s1[i], #[trigger] s2[i])),
        _ => false,
    }
}

/// The database equality is reflexive.
pub proof fn lemma_term_eq_reflexive(t: DbTerm)
    ensures
        term_eq(t, t),
    decreases t,
{
    match t {
        DbTerm::List(s) => {
            assert forall|i: int| 0 <= i < s.len() implies term_eq(#[trigger] s[i], s[i]) by {
                lemma_term_eq_reflexive(s[i]);
            }
        },
        _ => {},
    }
}

/// Total order of two integers.
pub open spec fn int_cmp(a: int, b: int) -> Order {
    if a < b {
        Order::Less
    } else if a == b {
        Order::Equal
    } else {
        Order::Greater
    }
}

/// Partial order of models: total within `Text`, `Number` and `Float`
/// (integer part first, then fractional part), undefined otherwise.
pub open spec fn term_cmp(a: DbTerm, b: DbTerm) -> Option<Order> {
    match (a, b) {
        (DbTerm::Text(s1), DbTerm::Text(s2)) => Some(chars_cmp(s1, s2)),
        (DbTerm::Number(n1), DbTerm::Number(n2)) => Some(int_cmp(n1, n2)),
        (DbTerm::Number(n1), DbTerm::Float(i2, f2)) => Some(
            if n1 == i2 {
                int_cmp(0, f2 as int)
            } else {
                int_cmp(n1, i2)
            },
        ),
        (DbTerm::Float(i1, f1), DbTerm::Number(n2)) => Some(
            if i1 == n2 {
                int_cmp(f1 as int, 0)
            } else {
                int_cmp(i1, n2)
            },
        ),
        (DbTerm::Float(i1, f1), DbTerm::Float(i2, f2)) => Some(
            if i1 == i2 {
                int_cmp(f1 as int, f2 as int)
            } else {
                int_cmp(i1, i2)
            },
        ),
        _ => None,
    }
}

impl DBValue {
    /// Equality per the database semantics.
    #[verifier::loop_isolation(false)]
    pub fn eq_value(&self, other: &DBValue) -> (r: bool)
        requires
            dbv_wf(*self),
            dbv_wf(*other),
        ensures
            r == term_eq(dbv_model(*self), dbv_model(*other)),
        decreases *self,
    {
        match (self, other) {
            (DBValue::Text(s1), DBValue::Text(s2)) => s1.eq(s2),
            (DBValue::Number(n1), DBValue::Number(n2)) => matches!(
                n1.cmp_with(n2),
                Order::Equal
            ),
            (DBValue::Number(n1), DBValue::Float(i2, f2)) => f2.is_zero() && matches!(
                n1.cmp_with(i2),
                Order::Equal
            ),
            (DBValue::Float(i1, f1), DBValue::Number(n2)) => f1.is_zero() && matches!(
                i1.cmp_with(n2),
                Order::Equal
            ),
            (DBValue::Float(i1, f1), DBValue::Float(i2, f2)) => matches!(
                i1.cmp_with(i2),
                Order::Equal
            ) && matches!(f1.cmp_with(f2), Order::Equal),
            (DBValue::RelationID(r1), DBValue::RelationID(r2)) => upper_eq(r1, r2),
            (DBValue::List(xs), DBValue::List(ys)) => {
                proof {
                    lemma_dbv_model_seq(xs@);
                    lemma_dbv_model_seq(ys@);
                }
                let ghost m1 = dbv_model_seq(xs@);
                let ghost m2 = dbv_model_seq(ys@);
                if xs.len() != ys.len() {
                    return false;
                }
                let mut i: usize = 0;
                while i < xs.len()
                    invariant
                        i <= xs.len(),
                        forall|j: int| 0 <= j < i ==> term_eq(#[trigger] m1[j], #[trigger] m2[j]),
                    decreases xs.len() - i,
                {
                    if !xs[i].eq_value(&ys[i]) {
                        proof {
                            assert(!term_eq(m1[i as int], m2[i as int]));
                        }
                        return false;
                    }
                    i = i + 1;
                }
                proof {
                    assert(m1.len() == m2.len());
                    assert(term_eq(dbv_model(*self), dbv_model(*other)));
                }
                true
            },
            _ => false,
        }
    }

    /// Partial order per the database semantics; `None` where the order
    /// is undefined.
    pub fn partial_cmp(&self, other: &DBValue) -> (r: Option<Order>)
        requires
            dbv_wf(*self),
            dbv_wf(*other),
        ensures
            r == term_cmp(dbv_model(*self), dbv_model(*other)),
    {
        match (self, other) {
            (DBValue::Text(s1), DBValue::Text(s2)) => Some(string_cmp(s1, s2)),
            (DBValue::Number(n1), DBValue::Number(n2)) => Some(n1.cmp_with(n2)),
            (DBValue::Number(n1), DBValue::Float(i2, f2)) => {
                match n1.cmp_with(i2) {
                    Order::Equal => {
                        if f2.is_zero() {
                            Some(Order::Equal)
                        } else {
                            Some(Order::Less)
                        }
                    },
                    o => Some(o),
                }
            },
            (DBValue::Float(i1, f1), DBValue::Number(n2)) => {
                match i1.cmp_with(n2) {
                    Order::Equal => {
                        if f1.is_zero() {
                            Some(Order::Equal)
                        } else {
                            Some(Order::Greater)
                        }
                    },
                    o => Some(o),
                }
            },
            (DBValue::Float(i1, f1), DBValue::Float(i2, f2)) => {
                match i1.cmp_with(i2) {
                    Order::Equal => Some(f1.cmp_with(f2)),
                    o => Some(o),
                }
            },
            _ => None,
        }
    }

    /// A deep copy whose model is the same.
    #[verifier::loop_isolation(false)]
    pub fn duplicate(&self) -> (r: DBValue)
        ensures
            dbv_model(r) == dbv_model(*self),
            dbv_wf(*self) ==> dbv_wf(r),
        decreases *self,
    {
        match self {
            DBValue::Text(s) => DBValue::Text(s.clone()),
            DBValue::Number(n) => DBValue::Number(n.duplicate()),
            DBValue::Float(i, f) => DBValue::Float(i.duplicate(), f.duplicate()),
            DBValue::RelationID(s) => DBValue::RelationID(s.clone()),
            DBValue::List(xs) => {
                let mut out: Vec<DBValue> = Vec::new();
                let mut i: usize = 0;
                while i < xs.len()
                    invariant
                        i <= xs.len(),
                        out@.len() == i,
                        forall|j: int| 0 <= j < i ==> dbv_model(#[trigger] out@[j]) == dbv_model(
                            xs@[j],
                        ) && (dbv_wf(xs@[j]) ==> dbv_wf(out@[j])),
                    decreases xs.len() - i,
                {
                    let d = xs[i].duplicate();
                    out.push(d);
                    i = i + 1;
                }
                let r = DBValue::List(out);
                proof {
                    lemma_dbv_model_seq(xs@);
                    lemma_dbv_model_seq(out@);
                    assert forall|j: int| 0 <= j < out@.len() implies dbv_model_seq(out@)[j]
                        == dbv_model_seq(xs@)[j] by {
                        assert(dbv_model(out@[j]) == dbv_model(xs@[j]));
                    }
                    assert(dbv_model_seq(out@) =~= dbv_model_seq(xs@));
                    if dbv_wf(*self) {
                        assert(forall|j: int|
                            0 <= j < out@.len() ==> dbv_wf(#[trigger] out@[j]));
                    }
                }
                r
            },
        }
    }
}

// ------------------------------------------------------------------
// The fact/rule store.
// ------------------------------------------------------------------
use crate::unification::{Constraint, Value, RelationID, ValModel, ConModel, val_model_seq,
    con_model_seq, vals_wf, cons_wf, dbvs_wf};

/// The models of a list of fact tuples.
pub open spec fn fact_list_model(s: Seq<Vec<DBValue>>) -> Seq<Seq<DbTerm>>
    decreases s.len(),
{
    if s.len() == 0 {
        Seq::empty()
    } else {
        seq![dbv_model_seq(s[0]@)] + fact_list_model(s.drop_first())
    }
}

/// `fact_list_model` maps the model over the list, index by index.
pub proof fn lemma_fact_list_model(s: Seq<Vec<DBValue>>)
    ensures
        fact_list_model(s).len() == s.len(),
        forall|i: int| 0 <= i < s.len() ==> fact_list_model(s)[i] == dbv_model_seq(
            (#[trigger] s[i])@,
        ),
    decreases s.len(),
{
    if s.len() > 0 {
        lemma_fact_list_model(s.drop_first());
        assert forall|i: int| 0 <= i < s.len() implies fact_list_model(s)[i] == dbv_model_seq(
            (#[trigger] s[i])@,
        ) by {
            if i > 0 {
                assert(fact_list_model(s)[i] == fact_list_model(s.drop_first())[i - 1]);
                assert(s.drop_first()[i - 1] == s[i]);
            }
        }
    }
}

/// All values in all tuples of a fact list are well-formed.
pub open spec fn fact_list_wf(s: Seq<Vec<DBValue>>) -> bool {
    forall|i: int| 0 <= i < s.len() ==> dbvs_wf((#[trigger] s[i])@)
}

/// The map modelled by the fact table; a later entry overrides an earlier
/// one with the same key.
pub open spec fn facts_map(s: Seq<(String, Vec<Vec<DBValue>>)>) -> Map<Seq<char>, Seq<Seq<DbTerm>>>
    decreases s.len(),
{
    if s.len() == 0 {
        Map::empty()
    } else {
        facts_map(s.drop_last()).insert(s.last().0@, fact_list_model(s.last().1@))
    }
}

/// The map modelled by the rule table.
pub open spec fn rules_map(s: Seq<(String, (Vec<Value>, Vec<Constraint>))>) -> Map<
    Seq<char>,
    (Seq<ValModel>, Seq<ConModel>),
>
    decreases s.len(),
{
    if s.len() == 0 {
        Map::empty()
    } else {
        rules_map(s.drop_last()).insert(
            s.last().0@,
            (val_model_seq(s.last().1.0@), con_model_seq(s.last().1.1@)),
        )
    }
}

/// The model of a database: its fact table and its rule table.
pub struct DbModel {
    pub facts: Map<Seq<char>, Seq<Seq<DbTerm>>>,
    pub rules: Map<Seq<char>, (Seq<ValModel>, Seq<ConModel>)>,
}

/// A fact store and a rule store, keyed by upper-cased relation name.
#[derive(Debug)]
pub struct Database {
    facts: Vec<(String, Vec<Vec<DBValue>>)>,
    rules: Vec<(String, (Vec<Value>, Vec<Constraint>))>,
}

impl Database {
    /// The model of this database.
    pub closed spec fn model(&self) -> DbModel {
        DbModel { facts: facts_map(self.facts@), rules: rules_map(self.rules@) }
    }

    /// Everything stored is well-formed.
    pub closed spec fn wf(&self) -> bool {
        &&& forall|i: int| 0 <= i < self.facts@.len() ==> fact_list_wf(
            (#[trigger] self.facts@[i]).1@,
        )
        &&& forall|i: int| 0 <= i < self.rules@.len() ==> vals_wf(
            (#[trigger] self.rules@[i]).1.0@,
        ) && cons_wf(self.rules@[i].1.1@)
    }

    /// An empty database.
    pub fn new() -> (r: Database)
        ensures
            r.wf(),
            r.model().facts == Map::<Seq<char>, Seq<Seq<DbTerm>>>::empty(),
            r.model().rules == Map::<Seq<char>, (Seq<ValModel>, Seq<ConModel>)>::empty(),
    {
        Database { facts: Vec::new(), rules: Vec::new() }
    }

    /// Store a rule under its upper-cased name, replacing any earlier rule
    /// with the same name.
    pub fn insert_rule(&mut self, id: RelationID, args: Vec<Value>, constraints: Vec<Constraint>)
        requires
            old(self).wf(),
            vals_wf(args@),
            cons_wf(constraints@),
        ensures
            final(self).wf(),
            final(self).model().facts == old(self).model().facts,
            final(self).model().rules == old(self).model().rules.insert(
                upper_of(id@),
                (val_model_seq(args@), con_model_seq(constraints@)),
            ),
    {
        let key = to_upper(&id);
        let ghost s0 = self.rules@;
        self.rules.push((key, (args, constraints)));
        proof {
            assert(self.rules@.drop_last() =~= s0);
        }
    }

    /// Store a fact: its second slot must be the relation id, which is
    /// removed; the rest is appended to that relation's fact list.
    pub fn insert_fact(&mut self, vs: Vec<DBValue>)
        requires
            old(self).wf(),
            vs@.len() >= 2,
            vs@[1] is RelationID,
            dbvs_wf(vs@),
        ensures
            final(self).wf(),
            final(self).model().rules == old(self).model().rules,
            final(self).model().facts == old(self).model().facts.insert(
                upper_of(vs@[1]->RelationID_0@),
                spec_fact_list(old(self).model().facts, upper_of(vs@[1]->RelationID_0@)).push(
                    dbv_model_seq(vs@.remove(1)),
                ),
            ),
    {
        let ghost vs0 = vs@;
        let rel = match &vs[1] {
            DBValue::RelationID(r) => to_upper(r),
            _ => {
                proof {
                    assert(false);
                }
                String::new()
            },
        };
        let mut rest = vs;
        let _removed = rest.remove(1);
        let ghost key = upper_of(vs0[1]->RelationID_0@);
        let ghost old_list = spec_fact_list(old(self).model().facts, key);
        let mut list: Vec<Vec<DBValue>>;
        let found = self.facts_of(&rel);
        match found {
            Some(existing) => {
                list = duplicate_fact_list(existing);
            },
            None => {
                list = Vec::new();
                proof {
                    assert(fact_list_model(list@) =~= old_list);
                }
            },
        }
        let ghost l0 = list@;
        let ghost rest0 = rest@;
        list.push(rest);
        proof {
            assert(rel@ == key);
            assert(fact_list_model(l0) == old_list);
            lemma_fact_list_model(list@);
            lemma_fact_list_model(l0);
            let target = old_list.push(dbv_model_seq(vs0.remove(1)));
            assert forall|j: int| 0 <= j < list@.len() implies fact_list_model(list@)[j]
                == target[j] by {
                if j < list@.len() - 1 {
                    assert(list@[j] == l0[j]);
                    assert(fact_list_model(l0)[j] == dbv_model_seq(l0[j]@));
                } else {
                    assert(list@[j]@ == rest0);
                }
            }
            assert(fact_list_model(list@) =~= target);
        }
        let ghost s0 = self.facts@;
        self.facts.push((rel, list));
        proof {
            assert(self.facts@.drop_last() =~= s0);
        }
    }

    /// The stored fact list of a relation, if any.
    pub fn facts_of(&self, id: &String) -> (r: Option<&Vec<Vec<DBValue>>>)
        requires
            self.wf(),
        ensures
            match r {
                Option::Some(v) => self.model().facts.contains_key(id@) && fact_list_model(v@)
                    == self.model().facts[id@] && fact_list_wf(v@),
                Option::None => !self.model().facts.contains_key(id@),
            },
    {
        let n = self.facts.len();
        proof {
            assert(self.facts@.take(n as int) =~= self.facts@);
        }
        self.facts_up_to(n, id)
    }

    fn facts_up_to(&self, i: usize, id: &String) -> (r: Option<&Vec<Vec<DBValue>>>)
        requires
            self.wf(),
            i <= self.facts@.len(),
        ensures
            match r {
                Option::Some(v) => {
                    &&& facts_map(self.facts@.take(i as int)).contains_key(id@)
                    &&& fact_list_model(v@) == facts_map(self.facts@.take(i as int))[id@]
                    &&& fact_list_wf(v@)
                },
                Option::None => !facts_map(self.facts@.take(i as int)).contains_key(id@),
            },
        decreases i,
    {
        if i == 0 {
            proof {
                assert(self.facts@.take(0) =~= Seq::<(String, Vec<Vec<DBValue>>)>::empty());
            }
            None
        } else {
            let entry = &self.facts[i - 1];
            proof {
                let t = self.facts@.take(i as int);
                assert(t.drop_last() =~= self.facts@.take(i as int - 1));
                assert(t.last() == self.facts@[i as int - 1]);
            }
            if entry.0.eq(id) {
                Some(&entry.1)
            } else {
                self.facts_up_to(i - 1, id)
            }
        }
    }

    /// The stored rule of a relation, if any: its parameters and its body.
    pub fn rule_of(&self, id: &String) -> (r: Option<&(Vec<Value>, Vec<Constraint>)>)
        requires
            self.wf(),
        ensures
            match r {
                Option::Some(v) => self.model().rules.contains_key(id@) && (
                val_model_seq(v.0@),
                con_model_seq(v.1@),
                ) == self.model().rules[id@] && vals_wf(v.0@) && cons_wf(v.1@),
                Option::None => !self.model().rules.contains_key(id@),
            },
    {
        let n = self.rules.len();
        proof {
            assert(self.rules@.take(n as int) =~= self.rules@);
        }
        self.rules_up_to(n, id)
    }

    fn rules_up_to(&self, i: usize, id: &String) -> (r: Option<&(Vec<Value>, Vec<Constraint>)>)
        requires
            self.wf(),
            i <= self.rules@.len(),
        ensures
            match r {
                Option::Some(v) => {
                    &&& rules_map(self.rules@.take(i as int)).contains_key(id@)
                    &&& (val_model_seq(v.0@), con_model_seq(v.1@)) == rules_map(
                        self.rules@.take(i as int),
                    )[id@]
                    &&& vals_wf(v.0@) && cons_wf(v.1@)
                },
                Option::None => !rules_map(self.rules@.take(i as int)).contains_key(id@),
            },
        decreases i,
    {
        if i == 0 {
            proof {
                assert(self.rules@.take(0) =~= Seq::<(String, (Vec<Value>, Vec<Constraint>))>::empty());
            }
            None
        } else {
            let entry = &self.rules[i - 1];
            proof {
                let t = self.rules@.take(i as int);
                assert(t.drop_last() =~= self.rules@.take(i as int - 1));
                assert(t.last() == self.rules@[i as int - 1]);
            }
            if entry.0.eq(id) {
                Some(&entry.1)
            } else {
                self.rules_up_to(i - 1, id)
            }
        }
    }
}

/// The fact list stored under a key, or empty where none is.
pub open spec fn spec_fact_list(facts: Map<Seq<char>, Seq<Seq<DbTerm>>>, key: Seq<char>) -> Seq<
    Seq<DbTerm>,
> {
    if facts.contains_key(key) {
        facts[key]
    } else {
        Seq::empty()
    }
}

/// Copy a fact list, preserving models and well-formedness.
#[verifier::loop_isolation(false)]
fn duplicate_fact_list(s: &Vec<Vec<DBValue>>) -> (r: Vec<Vec<DBValue>>)
    requires
        fact_list_wf(s@),
    ensures
        fact_list_model(r@) == fact_list_model(s@),
        fact_list_wf(r@),
{
    let mut out: Vec<Vec<DBValue>> = Vec::new();
    let mut i: usize = 0;
    while i < s.len()
        invariant
            i <= s.len(),
            out@.len() == i,
            forall|j: int| 0 <= j < i ==> dbv_model_seq((#[trigger] out@[j])@) == dbv_model_seq(
                s@[j]@,
            ) && dbvs_wf(out@[j]@),
        decreases s.len() - i,
    {
        let tuple = &s[i];
        let mut copy: Vec<DBValue> = Vec::new();
        let mut j: usize = 0;
        while j < tuple.len()
            invariant
                j <= tuple.len(),
                copy@.len() == j,
                forall|m: int| 0 <= m < j ==> dbv_model(#[trigger] copy@[m]) == dbv_model(
                    tuple@[m],
                ) && dbv_wf(copy@[m]),
            decreases tuple.len() - j,
        {
            copy.push(tuple[j].duplicate());
            j = j + 1;
        }
        proof {
            lemma_dbv_model_seq(copy@);
            lemma_dbv_model_seq(tuple@);
            assert forall|m: int| 0 <= m < copy@.len() implies dbv_model_seq(copy@)[m]
                == dbv_model_seq(tuple@)[m] by {
                assert(dbv_model(copy@[m]) == dbv_model(tuple@[m]));
            }
            assert(dbv_model_seq(copy@) =~= dbv_model_seq(tuple@));
        }
        out.push(copy);
        i = i + 1;
    }
    proof {
        lemma_fact_list_model(out@);
        lemma_fact_list_model(s@);
        assert forall|j: int| 0 <= j < out@.len() implies fact_list_model(out@)[j]
            == fact_list_model(s@)[j] by {
            assert(dbv_model_seq(out@[j]@) == dbv_model_seq(s@[j]@));
        }
        assert(fact_list_model(out@) =~= fact_list_model(s@));
    }
    out
}

} // verus!
