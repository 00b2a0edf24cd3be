//! Arbitrary-precision integers, modelled as little-endian limb vectors.
//!
//! The query engine never does arithmetic on numbers: it only compares them.
//! A `BigUnsigned` is a sequence of base-2^32 limbs, least significant first,
//! with no trailing zero limb; a `BigSigned` adds a sign.  The mathematical
//! value of either is given by a spec function, and comparison is proved to
//! agree with the order of those values.

use vstd::prelude::*;
use vstd::arithmetic::power2::*;

verus! {

/// Outcome of a total comparison.
#[derive(Clone, Copy, Debug, PartialEq, Eq, Structural)]
pub enum Order {
    Less,
    Equal,
    Greater,
}

/// An unsigned arbitrary-precision integer: little-endian base-2^32 limbs,
/// no trailing zero limb.
#[derive(Debug)]
pub struct BigUnsigned {
    pub limbs: Vec<u32>,
}

/// A signed arbitrary-precision integer in sign-magnitude form.
/// A negative zero is not representable.
#[derive(Debug)]
pub struct BigSigned {
    pub negative: bool,
    pub magnitude: BigUnsigned,
}

/// Mathematical value of a little-endian limb sequence.
pub open spec fn limbs_val(s: Seq<u32>) -> nat
    decreases s.len(),
{
    if s.len() == 0 {
        0
    } else {
        (s[0] + 0x1_0000_0000 * limbs_val(s.drop_first())) as nat
    }
}

/// Canonical form: the most significant limb, if any, is nonzero.
pub open spec fn limbs_wf(s: Seq<u32>) -> bool {
    s.len() == 0 || s[s.len() - 1] != 0
}

impl BigUnsigned {
    pub open spec fn wf(&self) -> bool {
        limbs_wf(self.limbs@)
    }

    pub open spec fn val(&self) -> nat {
        limbs_val(self.limbs@)
    }

    /// The canonical representation of a `u64`.
    pub fn from_u64(n: u64) -> (r: BigUnsigned)
        ensures
            r.wf(),
            r.val() == n,
    {
        let mut limbs: Vec<u32> = Vec::new();
        if n == 0 {
            proof {
                assert(limbs_val(limbs@) == 0);
            }
        } else if n < 0x1_0000_0000 {
            limbs.push(n as u32);
            proof {
                assert(limbs_val(Seq::<u32>::empty()) == 0);
                assert(limbs@.drop_first() =~= Seq::<u32>::empty());
                assert(limbs_val(limbs@) == n);
            }
        } else {
            let lo: u32 = (n % 0x1_0000_0000) as u32;
            let hi: u32 = (n / 0x1_0000_0000) as u32;
            limbs.push(lo);
            limbs.push(hi);
            proof {
                let s = limbs@;
                assert(limbs_val(Seq::<u32>::empty()) == 0);
                assert(s.drop_first().drop_first() =~= Seq::<u32>::empty());
                assert(limbs_val(s.drop_first()) == hi);
                assert(limbs_val(s) == lo + 0x1_0000_0000 * (hi as nat));
                assert(n == 0x1_0000_0000 * (n as nat / 0x1_0000_0000) + n as nat % 0x1_0000_0000)
                    by (nonlinear_arith);
            }
        }
        BigUnsigned { limbs }
    }

    /// Copy, preserving the value exactly.
    #[verifier::loop_isolation(false)]
    pub fn duplicate(&self) -> (r: BigUnsigned)
        ensures
            r.limbs@ == self.limbs@,
    {
        let mut limbs: Vec<u32> = Vec::new();
        let mut i: usize = 0;
        while i < self.limbs.len()
            invariant
                i <= self.limbs.len(),
                limbs@ == self.limbs@.subrange(0, i as int),
            decreases self.limbs.len() - i,
        {
            limbs.push(self.limbs[i]);
            i = i + 1;
            proof {
                assert(limbs@ =~= self.limbs@.subrange(0, i as int));
            }
        }
        proof {
            assert(limbs@ =~= self.limbs@);
        }
        BigUnsigned { limbs }
    }

    /// Compare by mathematical value.
    #[verifier::loop_isolation(false)]
    pub fn cmp_with(&self, other: &BigUnsigned) -> (r: Order)
        requires
            self.wf(),
            other.wf(),
        ensures
            r == Order::Less <==> self.val() < other.val(),
            r == Order::Greater <==> self.val() > other.val(),
            r == Order::Equal <==> self.val() == other.val(),
    {
        let a = &self.limbs;
        let b = &other.limbs;
        if a.len() < b.len() {
            proof {
                lemma_shorter_limbs_smaller(a@, b@);
            }
            Order::Less
        } else if a.len() > b.len() {
            proof {
                lemma_shorter_limbs_smaller(b@, a@);
            }
            Order::Greater
        } else {
            let mut i: usize = a.len();
            loop
                invariant
                    a@.len() == b@.len(),
                    i <= a.len(),
                    forall|j: int| i <= j < a@.len() ==> a@[j] == b@[j],
                decreases i,
            {
                if i == 0 {
                    proof {
                        assert(a@ =~= b@);
                    }
                    return Order::Equal;
                }
                i = i - 1;
                if a[i] < b[i] {
                    proof {
                        lemma_limbs_differ_at(a@, b@, i as int);
                    }
                    return Order::Less;
                }
                if a[i] > b[i] {
                    proof {
                        lemma_limbs_differ_at(b@, a@, i as int);
                    }
                    return Order::Greater;
                }
            }
        }
    }

    pub fn is_zero(&self) -> (r: bool)
        requires
            self.wf(),
        ensures
            r <==> self.val() == 0,
    {
        proof {
            if self.limbs@.len() > 0 {
                lemma_limbs_lower_bound(self.limbs@);
                lemma_pow2_pos(32 * (self.limbs@.len() - 1) as nat);
            }
        }
        self.limbs.len() == 0
    }
}

impl BigSigned {
    pub open spec fn wf(&self) -> bool {
        &&& self.magnitude.wf()
        &&& (self.negative ==> self.magnitude.limbs@.len() > 0)
    }

    pub open spec fn val(&self) -> int {
        if self.negative {
            -(self.magnitude.val() as int)
        } else {
            self.magnitude.val() as int
        }
    }

    /// A nonnegative value.
    pub fn from_u64(n: u64) -> (r: BigSigned)
        ensures
            r.wf(),
            r.val() == n,
    {
        BigSigned { negative: false, magnitude: BigUnsigned::from_u64(n) }
    }

    /// The value `-n`; `n` must be positive so that no negative zero arises.
    pub fn neg_from_u64(n: u64) -> (r: BigSigned)
        requires
            n > 0,
        ensures
            r.wf(),
            r.val() == -(n as int),
    {
        let magnitude = BigUnsigned::from_u64(n);
        proof {
            if magnitude.limbs@.len() == 0 {
                assert(magnitude.val() == 0);
            }
        }
        BigSigned { negative: true, magnitude }
    }

    pub fn duplicate(&self) -> (r: BigSigned)
        ensures
            r.negative == self.negative,
            r.magnitude.limbs@ == self.magnitude.limbs@,
    {
        BigSigned { negative: self.negative, magnitude: self.magnitude.duplicate() }
    }

    /// Compare by mathematical value.
    pub fn cmp_with(&self, other: &BigSigned) -> (r: Order)
        requires
            self.wf(),
            other.wf(),
        ensures
            r == Order::Less <==> self.val() < other.val(),
            r == Order::Greater <==> self.val() > other.val(),
            r == Order::Equal <==> self.val() == other.val(),
    {
        proof {
            if self.negative {
                lemma_limbs_lower_bound(self.magnitude.limbs@);
                lemma_pow2_pos(32 * (self.magnitude.limbs@.len() - 1) as nat);
            }
            if other.negative {
                lemma_limbs_lower_bound(other.magnitude.limbs@);
                lemma_pow2_pos(32 * (other.magnitude.limbs@.len() - 1) as nat);
            }
        }
        if self.negative && !other.negative {
            Order::Less
        } else if !self.negative && other.negative {
            Order::Greater
        } else if !self.negative {
            self.magnitude.cmp_with(&other.magnitude)
        } else {
            match self.magnitude.cmp_with(&other.magnitude) {
                Order::Less => Order::Greater,
                Order::Equal => Order::Equal,
                Order::Greater => Order::Less,
            }
        }
    }
}

/// Every limb sequence is bounded by 2^(32 len).
pub proof fn lemma_limbs_upper_bound(s: Seq<u32>)
    ensures
        limbs_val(s) < pow2(32 * s.len()),
    decreases s.len(),
{
    if s.len() == 0 {
        lemma2_to64();
        assert(pow2(0) == 1);
    } else {
        let rest = s.drop_first();
        lemma_limbs_upper_bound(rest);
        lemma_pow2_adds(32, 32 * rest.len());
        lemma2_to64();
        assert(pow2(32) == 0x1_0000_0000);
        assert(limbs_val(s) == s[0] + 0x1_0000_0000 * limbs_val(rest));
        assert(0x1_0000_0000 * limbs_val(rest) <= 0x1_0000_0000 * (pow2(32 * rest.len()) - 1))
            by (nonlinear_arith)
            requires
                limbs_val(rest) <= pow2(32 * rest.len()) - 1,
        ;
        assert(32 * s.len() == 32 + 32 * rest.len());
    }
}

/// A canonical nonempty limb sequence reaches 2^(32 (len - 1)).
pub proof fn lemma_limbs_lower_bound(s: Seq<u32>)
    requires
        s.len() > 0,
        s[s.len() - 1] != 0,
    ensures
        limbs_val(s) >= pow2(32 * (s.len() - 1) as nat),
    decreases s.len(),
{
    let rest = s.drop_first();
    if s.len() == 1 {
        lemma2_to64();
        assert(pow2(0) == 1);
        assert(limbs_val(s) == s[0] + 0x1_0000_0000 * limbs_val(rest));
    } else {
        assert(rest[rest.len() - 1] == s[s.len() - 1]);
        lemma_limbs_lower_bound(rest);
        lemma_pow2_adds(32, 32 * (rest.len() - 1) as nat);
        lemma2_to64();
        assert(pow2(32) == 0x1_0000_0000);
        assert(0x1_0000_0000 * limbs_val(rest) >= 0x1_0000_0000 * pow2(32 * (rest.len() - 1) as nat))
            by (nonlinear_arith)
            requires
                limbs_val(rest) >= pow2(32 * (rest.len() - 1) as nat),
        ;
        assert(32 * (s.len() - 1) as nat == 32 + 32 * (rest.len() - 1) as nat);
    }
}

/// In canonical form, fewer limbs means a smaller value.
proof fn lemma_shorter_limbs_smaller(a: Seq<u32>, b: Seq<u32>)
    requires
        limbs_wf(a),
        limbs_wf(b),
        a.len() < b.len(),
    ensures
        limbs_val(a) < limbs_val(b),
{
    lemma_limbs_upper_bound(a);
    lemma_limbs_lower_bound(b);
    if 32 * a.len() < 32 * (b.len() - 1) as nat {
        lemma_pow2_strictly_increases(32 * a.len(), 32 * (b.len() - 1) as nat);
    }
}

/// The value splits at any index: low part plus 2^(32 i) times the high part.
proof fn lemma_limbs_split(s: Seq<u32>, i: int)
    requires
        0 <= i <= s.len(),
    ensures
        limbs_val(s) == limbs_val(s.take(i)) + pow2(32 * i as nat) * limbs_val(s.skip(i)),
    decreases i,
{
    if i == 0 {
        lemma2_to64();
        assert(limbs_val(Seq::<u32>::empty()) == 0);
        assert(s.take(0) =~= Seq::<u32>::empty());
        assert(s.skip(0) =~= s);
        assert(pow2(0) == 1);
    } else {
        let rest = s.drop_first();
        lemma_limbs_split(rest, i - 1);
        lemma_pow2_adds(32, 32 * (i - 1) as nat);
        lemma2_to64();
        assert(s.take(i).drop_first() =~= rest.take(i - 1));
        assert(s.skip(i) =~= rest.skip(i - 1));
        assert(limbs_val(s.take(i)) == s[0] + 0x1_0000_0000 * limbs_val(rest.take(i - 1)));
        let p = pow2(32 * (i - 1) as nat);
        let hv = limbs_val(rest.skip(i - 1));
        assert(limbs_val(rest) == limbs_val(rest.take(i - 1)) + p * hv);
        assert(0x1_0000_0000 * (limbs_val(rest.take(i - 1)) + p * hv) == 0x1_0000_0000 * limbs_val(
            rest.take(i - 1),
        ) + (0x1_0000_0000 * p) * hv) by (nonlinear_arith);
        assert(pow2(32 * i as nat) == 0x1_0000_0000 * p);
    }
}

/// Equal-length sequences that agree above index `i` are ordered by limb `i`.
proof fn lemma_limbs_differ_at(a: Seq<u32>, b: Seq<u32>, i: int)
    requires
        a.len() == b.len(),
        0 <= i < a.len(),
        a[i] < b[i],
        forall|j: int| i < j < a.len() ==> a[j] == b[j],
    ensures
        limbs_val(a) < limbs_val(b),
{
    lemma_limbs_split(a, i);
    lemma_limbs_split(b, i);
    let p = pow2(32 * i as nat);
    lemma_pow2_pos(32 * i as nat);
    lemma_limbs_upper_bound(a.take(i));
    lemma_limbs_upper_bound(b.take(i));
    assert(pow2(32 * a.take(i).len()) == p);
    assert(a.skip(i).drop_first() =~= b.skip(i).drop_first());
    assert(limbs_val(a.skip(i)) == a[i] + 0x1_0000_0000 * limbs_val(a.skip(i).drop_first()));
    assert(limbs_val(b.skip(i)) == b[i] + 0x1_0000_0000 * limbs_val(b.skip(i).drop_first()));
    let la = limbs_val(a.skip(i));
    let lb = limbs_val(b.skip(i));
    assert(la + 1 <= lb);
    assert(limbs_val(a.take(i)) + p * la < p * (la + 1)) by (nonlinear_arith)
        requires
            limbs_val(a.take(i)) < p,
            0 < p,
    ;
    assert(p * (la + 1) <= p * lb) by (nonlinear_arith)
        requires
            la + 1 <= lb,
            0 < p,
    ;
}

} // verus!
