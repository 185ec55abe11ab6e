use jset::difference;
use jset::fold_difference;
use jset::fold_intersect;
use jset::fold_union;
use jset::intersect;
use jset::union;
use jset::value_eq;
use jset::Number;
use jset::Value;

fn s(x: &str) -> Value {
    Value::Str(x.to_string())
}

fn n(x: u64) -> Value {
    Value::Num(Number::Uint(x))
}

fn arr(xs: Vec<Value>) -> Value {
    Value::Arr(xs)
}

fn obj(entries: Vec<(&str, Value)>) -> Value {
    Value::Obj(entries.into_iter().map(|(k, v)| (k.to_string(), v)).collect())
}

#[test]
fn fold_intersect_empty_fails() {
    assert_eq!(None, fold_intersect(&vec![]));
}

#[test]
fn fold_union_empty_fails() {
    assert_eq!(None, fold_union(&vec![]));
}

#[test]
fn fold_difference_empty_fails() {
    assert_eq!(None, fold_difference(&vec![]));
}

#[test]
fn fold_intersect_single_value_unchanged() {
    let v = obj(vec![("a", arr(vec![n(1), n(2)]))]);
    assert_eq!(Some(obj(vec![("a", arr(vec![n(1), n(2)]))])), fold_intersect(&vec![v]));
}

#[test]
fn fold_union_single_value_unchanged() {
    let v = arr(vec![s("x")]);
    assert_eq!(Some(arr(vec![s("x")])), fold_union(&vec![v]));
}

#[test]
fn fold_difference_single_value_unchanged() {
    let v = n(7);
    assert_eq!(Some(n(7)), fold_difference(&vec![v]));
}

#[test]
fn fold_intersect_three_objects() {
    let a = obj(vec![("a", n(1)), ("b", n(2)), ("c", n(3))]);
    let bb = obj(vec![("a", n(1)), ("b", n(2))]);
    let c = obj(vec![("b", n(2)), ("c", n(3))]);
    assert_eq!(Some(obj(vec![("b", n(2))])), fold_intersect(&vec![a, bb, c]));
}

#[test]
fn fold_intersect_short_circuits() {
    let vs = vec![n(1), n(2), n(1)];
    assert_eq!(None, fold_intersect(&vs));
}

#[test]
fn fold_union_overrides_left_to_right() {
    let a = obj(vec![("a", n(1))]);
    let bb = obj(vec![("a", n(2)), ("b", n(5))]);
    let c = obj(vec![("a", n(3))]);
    assert_eq!(Some(obj(vec![("a", n(3)), ("b", n(5))])), fold_union(&vec![a, bb, c]));
}

#[test]
fn fold_difference_subtracts_in_turn() {
    let a = obj(vec![("a", n(1)), ("b", n(2)), ("c", n(3))]);
    let bb = obj(vec![("a", n(1))]);
    let c = obj(vec![("b", n(2))]);
    assert_eq!(Some(obj(vec![("c", n(3))])), fold_difference(&vec![a, bb, c]));
}

#[test]
fn union_right_bias_on_conflicting_numbers() {
    let a = obj(vec![("a", n(1))]);
    let bb = obj(vec![("a", n(2))]);
    assert_eq!(Some(obj(vec![("a", n(2))])), union(&a, &bb));
}

#[test]
fn intersect_scalar_type_mismatch_fails() {
    assert_eq!(None, intersect(&n(1), &s("a")));
}

#[test]
fn intersect_object_array_mismatch_fails() {
    let a = obj(vec![("a", n(1))]);
    let bb = arr(vec![n(1)]);
    assert_eq!(None, intersect(&a, &bb));
    assert_eq!(None, union(&a, &bb));
}

#[test]
fn intersect_self_returns_self() {
    let v = obj(vec![("a", arr(vec![n(1), obj(vec![("b", s("c"))])])), ("d", Value::Null)]);
    let w = obj(vec![("a", arr(vec![n(1), obj(vec![("b", s("c"))])])), ("d", Value::Null)]);
    assert_eq!(Some(w), intersect(&v, &v));
}

#[test]
fn union_self_returns_self() {
    let v = obj(vec![("a", arr(vec![n(1), n(2)])), ("b", Value::Bool(false))]);
    let w = obj(vec![("a", arr(vec![n(1), n(2)])), ("b", Value::Bool(false))]);
    assert_eq!(Some(w), union(&v, &v));
}

#[test]
fn difference_self_scalar_object_is_empty() {
    let v = obj(vec![("a", n(1)), ("b", s("x"))]);
    assert_eq!(Some(obj(vec![])), difference(&v, &v));
}

#[test]
fn difference_self_array_is_empty() {
    let v = arr(vec![n(1), obj(vec![("a", s("b"))])]);
    assert_eq!(Some(arr(vec![])), difference(&v, &v));
}

#[test]
fn difference_self_nested_object_keeps_emptied_keys() {
    // an object-valued key differences to an empty object instead of
    // cancelling, so the key survives
    let v = obj(vec![("a", obj(vec![("b", n(1))]))]);
    assert_eq!(Some(obj(vec![("a", obj(vec![]))])), difference(&v, &v));
}

#[test]
fn intersect_commutes_on_objects() {
    let a = obj(vec![("a", n(1)), ("b", n(2))]);
    let bb = obj(vec![("b", n(2)), ("c", n(3))]);
    let r1 = intersect(&a, &bb).unwrap();
    let r2 = intersect(&bb, &a).unwrap();
    assert!(value_eq(&r1, &r2));
    assert_eq!(obj(vec![("b", n(2))]), r1);
}

#[test]
fn value_eq_ignores_object_entry_order() {
    let a = obj(vec![("a", n(1)), ("b", n(2))]);
    let bb = obj(vec![("b", n(2)), ("a", n(1))]);
    assert!(value_eq(&a, &bb));
    assert!(a != bb);
}

#[test]
fn value_eq_arrays_are_order_sensitive() {
    let a = arr(vec![n(1), n(2)]);
    let bb = arr(vec![n(2), n(1)]);
    assert!(!value_eq(&a, &bb));
}

#[test]
fn numbers_compare_by_representation() {
    let neg = Value::Num(Number::Int(-3));
    let neg2 = Value::Num(Number::Int(-3));
    assert_eq!(Some(neg2), intersect(&neg, &neg));
    let f = Value::Num(Number::FloatBits((1.5f64).to_bits()));
    let g = Value::Num(Number::FloatBits((2.5f64).to_bits()));
    assert_eq!(None, intersect(&f, &g));
    let f2 = Value::Num(Number::FloatBits((1.5f64).to_bits()));
    assert_eq!(Some(f2), union(&f, &f));
}

#[test]
fn array_intersection_keeps_duplicates() {
    let a = arr(vec![s("a"), s("a"), s("b")]);
    let bb = arr(vec![s("a")]);
    assert_eq!(Some(arr(vec![s("a"), s("a")])), intersect(&a, &bb));
}

#[test]
fn union_array_membership_sees_earlier_additions() {
    let a = arr(vec![s("a")]);
    let bb = arr(vec![s("b"), s("b")]);
    assert_eq!(Some(arr(vec![s("a"), s("b")])), union(&a, &bb));
}
