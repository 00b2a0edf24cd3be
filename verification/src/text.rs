//! Character-level text helpers: Unicode case folding for relation
//! identifiers and lexicographic comparison of strings by code point.

use vstd::prelude::*;

verus! {

use crate::num::Order;

/// The Unicode upper-casing of a character sequence.  Its full definition
/// would be the Unicode case-mapping tables; contracts speak of it only by
/// name, through the wrapper below.
pub uninterp spec fn upper_of(s: Seq<char>) -> Seq<char>;

/// Relies on `str::to_uppercase`: the result is the Unicode uppercase
/// equivalent of the string, a function of its characters alone.
#[verifier::external_body]
pub fn to_upper(s: &String) -> (r: String)
    ensures
        r@ == upper_of(s@),
{
    s.to_uppercase()
}

/// Whether two strings are equal after Unicode case folding.
pub fn upper_eq(a: &String, b: &String) -> (r: bool)
    ensures
        r == (upper_of(a@) == upper_of(b@)),
{
    let ua = to_upper(a);
    let ub = to_upper(b);
    ua == ub
}

/// Lexicographic order of character sequences by code point; a proper
/// prefix precedes the longer sequence.
pub open spec fn chars_cmp(a: Seq<char>, b: Seq<char>) -> Order
    decreases a.len(),
{
    if a.len() == 0 && b.len() == 0 {
        Order::Equal
    } else if a.len() == 0 {
        Order::Less
    } else if b.len() == 0 {
        Order::Greater
    } else if (a[0] as u32) < (b[0] as u32) {
        Order::Less
    } else if (a[0] as u32) > (b[0] as u32) {
        Order::Greater
    } else {
        chars_cmp(a.drop_first(), b.drop_first())
    }
}

/// `chars_cmp` reports `Equal` exactly on equal sequences.
pub proof fn lemma_chars_cmp_equal(a: Seq<char>, b: Seq<char>)
    ensures
        chars_cmp(a, b) == Order::Equal <==> a == b,
    decreases a.len(),
{
    if a.len() == 0 && b.len() == 0 {
        assert(a =~= b);
    } else if a.len() == 0 || b.len() == 0 {
        assert(a != b);
    } else {
        lemma_chars_cmp_equal(a.drop_first(), b.drop_first());
        if a[0] as u32 == b[0] as u32 {
            vstd::utf8::char_u32_cast(a[0], a[0] as u32);
            vstd::utf8::char_u32_cast(b[0], b[0] as u32);
            assert(a[0] == b[0]);
            if a.drop_first() == b.drop_first() {
                assert forall|i: int| 0 <= i < a.len() implies a[i] == b[i] by {
                    if i > 0 {
                        assert(a[i] == a.drop_first()[i - 1]);
                        assert(b[i] == b.drop_first()[i - 1]);
                    }
                }
                assert(a =~= b);
            } else {
                assert(a != b);
            }
        } else {
            assert(a != b);
        }
    }
}

/// Compare two strings lexicographically by code point.
#[verifier::loop_isolation(false)]
pub fn string_cmp(a: &String, b: &String) -> (r: Order)
    ensures
        r == chars_cmp(a@, b@),
{
    let sa = a.as_str();
    let sb = b.as_str();
    let la = sa.unicode_len();
    let lb = sb.unicode_len();
    let mut i: usize = 0;
    proof {
        assert(a@.skip(0) =~= a@);
        assert(b@.skip(0) =~= b@);
    }
    loop
        invariant
            i <= la,
            i <= lb,
            la == a@.len(),
            lb == b@.len(),
            chars_cmp(a@, b@) == chars_cmp(a@.skip(i as int), b@.skip(i as int)),
        decreases la - i,
    {
        let ghost ra = a@.skip(i as int);
        let ghost rb = b@.skip(i as int);
        if i == la || i == lb {
            proof {
                assert(ra.len() == 0 ==> chars_cmp(ra, rb) == (if rb.len() == 0 {
                    Order::Equal
                } else {
                    Order::Less
                }));
            }
            if la == lb {
                return Order::Equal;
            } else if i == la {
                return Order::Less;
            } else {
                return Order::Greater;
            }
        }
        let ca = sa.get_char(i);
        let cb = sb.get_char(i);
        proof {
            assert(ra[0] == a@[i as int]);
            assert(rb[0] == b@[i as int]);
        }
        if (ca as u32) < (cb as u32) {
            return Order::Less;
        }
        if (ca as u32) > (cb as u32) {
            return Order::Greater;
        }
        proof {
            assert(ra.drop_first() =~= a@.skip(i + 1));
            assert(rb.drop_first() =~= b@.skip(i + 1));
        }
        i = i + 1;
    }
}

} // verus!
