use logicdb::database::DBValue;
use logicdb::num::{BigSigned, BigUnsigned, Order};

fn num(n: u64) -> DBValue {
    DBValue::Number(BigSigned::from_u64(n))
}

fn neg(n: u64) -> DBValue {
    DBValue::Number(BigSigned::neg_from_u64(n))
}

fn float(i: u64, f: u64) -> DBValue {
    DBValue::Float(BigSigned::from_u64(i), BigUnsigned::from_u64(f))
}

fn txt(s: &str) -> DBValue {
    DBValue::Text(s.to_string())
}

fn rel(s: &str) -> DBValue {
    DBValue::RelationID(s.to_string())
}

#[test]
fn number_equals_float_with_zero_fraction() {
    assert!(num(3).eq_value(&float(3, 0)));
    assert!(float(3, 0).eq_value(&num(3)));
    assert_eq!(num(3).partial_cmp(&float(3, 0)), Some(Order::Equal));
    assert_eq!(float(3, 0).partial_cmp(&num(3)), Some(Order::Equal));
}

#[test]
fn number_differs_from_float_with_fraction() {
    assert!(!num(3).eq_value(&float(3, 5)));
    assert_eq!(num(3).partial_cmp(&float(3, 5)), Some(Order::Less));
    assert_eq!(float(3, 5).partial_cmp(&num(3)), Some(Order::Greater));
}

#[test]
fn float_ordering_is_integer_part_then_fraction() {
    assert_eq!(float(1, 9).partial_cmp(&float(2, 0)), Some(Order::Less));
    assert_eq!(float(2, 1).partial_cmp(&float(2, 3)), Some(Order::Less));
    assert_eq!(float(2, 3).partial_cmp(&float(2, 3)), Some(Order::Equal));
}

#[test]
fn text_ordering_is_lexicographic() {
    assert_eq!(txt("apple").partial_cmp(&txt("banana")), Some(Order::Less));
    assert_eq!(txt("banana").partial_cmp(&txt("apple")), Some(Order::Greater));
    assert_eq!(txt("apple").partial_cmp(&txt("apple")), Some(Order::Equal));
    assert_eq!(txt("app").partial_cmp(&txt("apple")), Some(Order::Less));
}

#[test]
fn relation_ids_compare_case_insensitively() {
    assert!(rel("parent").eq_value(&rel("PARENT")));
    assert!(rel("PaReNt").eq_value(&rel("pArEnT")));
    assert!(!rel("parent").eq_value(&rel("child")));
    // no ordering is defined on relation identifiers
    assert_eq!(rel("a").partial_cmp(&rel("a")), None);
}

#[test]
fn cross_tag_values_are_unequal_and_unordered() {
    assert!(!txt("3").eq_value(&num(3)));
    assert_eq!(txt("3").partial_cmp(&num(3)), None);
    assert!(!rel("a").eq_value(&txt("a")));
    let l = DBValue::List(vec![num(1)]);
    assert!(!l.eq_value(&num(1)));
    assert_eq!(l.partial_cmp(&l), None);
}

#[test]
fn list_equality_is_structural() {
    let a = DBValue::List(vec![num(1), txt("x")]);
    let b = DBValue::List(vec![float(1, 0), txt("x")]);
    let c = DBValue::List(vec![num(1), txt("y")]);
    let d = DBValue::List(vec![num(1)]);
    assert!(a.eq_value(&b));
    assert!(!a.eq_value(&c));
    assert!(!a.eq_value(&d));
}

#[test]
fn big_numbers_have_canonical_limbs() {
    assert!(BigSigned::from_u64(0).magnitude.limbs.is_empty());
    assert_eq!(BigSigned::from_u64(7).magnitude.limbs, vec![7]);
    assert_eq!(BigSigned::from_u64((1u64 << 32) + 2).magnitude.limbs, vec![2, 1]);
}

#[test]
fn big_number_comparison_crosses_limb_boundaries() {
    let big = 1u64 << 40;
    assert_eq!(num(big).partial_cmp(&num(big + 1)), Some(Order::Less));
    assert_eq!(num(big + 1).partial_cmp(&num(big)), Some(Order::Greater));
    assert_eq!(num(big).partial_cmp(&num(5)), Some(Order::Greater));
    assert_eq!(num(5).partial_cmp(&num(big)), Some(Order::Less));
}

#[test]
fn negative_numbers_order_below_positive() {
    assert_eq!(neg(5).partial_cmp(&num(3)), Some(Order::Less));
    assert_eq!(num(3).partial_cmp(&neg(5)), Some(Order::Greater));
    assert_eq!(neg(5).partial_cmp(&neg(3)), Some(Order::Less));
    assert_eq!(neg(3).partial_cmp(&neg(5)), Some(Order::Greater));
    assert!(neg(4).eq_value(&neg(4)));
    assert!(!neg(4).eq_value(&num(4)));
}
