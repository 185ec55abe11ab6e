use jset::difference;
use jset::intersect;
use jset::union;
use jset::Number;
use jset::Value;

fn s(x: &str) -> Value {
    Value::Str(x.to_string())
}

fn n(x: u64) -> Value {
    Value::Num(Number::Uint(x))
}

fn b(x: bool) -> Value {
    Value::Bool(x)
}

fn null() -> Value {
    Value::Null
}

fn arr(xs: Vec<Value>) -> Value {
    Value::Arr(xs)
}

fn obj(entries: Vec<(&str, Value)>) -> Value {
    Value::Obj(entries.into_iter().map(|(k, v)| (k.to_string(), v)).collect())
}

#[test]
fn intersect_two_values() {
    let v = obj(vec![("a", s("b"))]);
    let v2 = obj(vec![("a", s("b")), ("c", s("d"))]);
    assert_eq!(Some(obj(vec![("a", s("b"))])), intersect(&v, &v2));
}

#[test]
fn no_intersection() {
    let v = obj(vec![("a", s("b"))]);
    let v2 = obj(vec![("c", s("d"))]);
    assert_eq!(Some(obj(vec![])), intersect(&v, &v2));
}

#[test]
fn nested_object_intersection() {
    let v = obj(vec![("a", s("b")), ("c", obj(vec![("d", s("e"))]))]);
    let v2 = obj(vec![("c", obj(vec![("d", s("e"))]))]);
    assert_eq!(Some(obj(vec![("c", obj(vec![("d", s("e"))]))])), intersect(&v, &v2));
}

#[test]
fn array_intersection() {
    let v = arr(vec![s("a"), s("b")]);
    let v2 = arr(vec![s("a"), s("c")]);
    assert_eq!(Some(arr(vec![s("a")])), intersect(&v, &v2));
}

#[test]
fn array_obj_intersection() {
    let v = arr(vec![obj(vec![("a", s("b"))])]);
    let v2 = arr(vec![obj(vec![("a", s("b"))])]);
    assert_eq!(Some(arr(vec![obj(vec![("a", s("b"))])])), intersect(&v, &v2));
}

#[test]
fn array_obj_no_intersection() {
    // arrays are intersected based on their equality so objects are not
    // intersected within the array
    let v = arr(vec![obj(vec![("a", s("b")), ("c", s("d"))])]);
    let v2 = arr(vec![obj(vec![("a", s("b")), ("e", s("f"))])]);
    assert_eq!(Some(arr(vec![])), intersect(&v, &v2));
}

#[test]
fn array_no_intersection() {
    let v = arr(vec![s("a"), s("b")]);
    let v2 = arr(vec![s("c"), s("d")]);
    assert_eq!(Some(arr(vec![])), intersect(&v, &v2));
}

#[test]
fn string_intersection() {
    let v = s("a");
    let v2 = s("a");
    assert_eq!(Some(s("a")), intersect(&v, &v2));
}

#[test]
fn string_no_intersection() {
    let v = s("a");
    let v2 = s("b");
    assert_eq!(None, intersect(&v, &v2));
}

#[test]
fn bool_intersection() {
    let v = b(true);
    let v2 = b(true);
    assert_eq!(Some(b(true)), intersect(&v, &v2));
}

#[test]
fn bool_no_intersection() {
    let v = b(true);
    let v2 = b(false);
    assert_eq!(None, intersect(&v, &v2));
}

#[test]
fn null_intersection() {
    let v = null();
    let v2 = null();
    assert_eq!(Some(null()), intersect(&v, &v2));
}

#[test]
fn null_no_intersection() {
    let v = null();
    let v2 = s("a");
    assert_eq!(None, intersect(&v, &v2));
}

#[test]
fn num_intersection() {
    let v = n(1);
    let v2 = n(1);
    assert_eq!(Some(n(1)), intersect(&v, &v2));
}

#[test]
fn num_no_intersection() {
    let v = n(1);
    let v2 = n(2);
    assert_eq!(None, intersect(&v, &v2));
}

#[test]
fn union_objects() {
    let v = obj(vec![("a", s("b"))]);
    let v2 = obj(vec![("c", s("d"))]);
    let expected = obj(vec![("a", s("b")), ("c", s("d"))]);
    assert_eq!(Some(expected), union(&v, &v2));
}

#[test]
fn union_nested_objects() {
    let v = obj(vec![("a", obj(vec![("b", s("c"))]))]);
    let v2 = obj(vec![("a", obj(vec![("c", s("d"))]))]);
    let expected = obj(vec![("a", obj(vec![("b", s("c")), ("c", s("d"))]))]);
    assert_eq!(Some(expected), union(&v, &v2));
}

#[test]
fn union_objects_conflicting_values_takes_right() {
    let v = obj(vec![("a", s("b"))]);
    let v2 = obj(vec![("a", s("c"))]);
    let expected = obj(vec![("a", s("c"))]);
    assert_eq!(Some(expected), union(&v, &v2));
}

#[test]
fn union_arrays() {
    let v = arr(vec![s("a"), s("b")]);
    let v2 = arr(vec![s("c"), s("d")]);
    let expected = arr(vec![s("a"), s("b"), s("c"), s("d")]);
    assert_eq!(Some(expected), union(&v, &v2));
}

#[test]
fn union_arrays_duplicate_elements() {
    let v = arr(vec![s("a"), s("b")]);
    let v2 = arr(vec![s("b"), s("c")]);
    let expected = arr(vec![s("a"), s("b"), s("c")]);
    assert_eq!(Some(expected), union(&v, &v2));
}

#[test]
fn union_same_string() {
    let v = s("a");
    let v2 = s("a");
    assert_eq!(Some(s("a")), union(&v, &v2));
}

#[test]
fn union_diff_string() {
    let v = s("a");
    let v2 = s("b");
    assert_eq!(None, union(&v, &v2));
}

#[test]
fn union_same_bool() {
    let v = b(true);
    let v2 = b(true);
    assert_eq!(Some(b(true)), union(&v, &v2));
}

#[test]
fn union_diff_bool() {
    let v = b(true);
    let v2 = b(false);
    assert_eq!(None, union(&v, &v2));
}

#[test]
fn union_same_number() {
    let v = n(1);
    let v2 = n(1);
    assert_eq!(Some(n(1)), union(&v, &v2));
}

#[test]
fn union_diff_number() {
    let v = n(1);
    let v2 = n(2);
    assert_eq!(None, union(&v, &v2));
}

#[test]
fn union_null() {
    let v = null();
    let v2 = null();
    assert_eq!(Some(null()), union(&v, &v2));
}

#[test]
fn union_diff_type() {
    let v = n(1);
    let v2 = s("a");
    assert_eq!(None, union(&v, &v2));
}

#[test]
fn difference_empty_objects() {
    let a = obj(vec![]);
    let bb = obj(vec![]);
    assert_eq!(Some(obj(vec![])), difference(&a, &bb));
}

#[test]
fn difference_objects() {
    let a = obj(vec![("a", s("b")), ("c", s("d"))]);
    let bb = obj(vec![]);
    assert_eq!(Some(obj(vec![("a", s("b")), ("c", s("d"))])), difference(&a, &bb));

    let a = obj(vec![("a", s("b")), ("c", s("d"))]);
    let bb = obj(vec![("c", s("d"))]);
    assert_eq!(Some(obj(vec![("a", s("b"))])), difference(&a, &bb));
}

#[test]
fn difference_objects_nested() {
    let a = obj(vec![("a", obj(vec![("b", s("c")), ("e", s("f"))]))]);
    let bb = obj(vec![("a", obj(vec![("b", s("c"))]))]);
    assert_eq!(Some(obj(vec![("a", obj(vec![("e", s("f"))]))])), difference(&a, &bb));
}

#[test]
fn difference_empty_arrays() {
    let a = arr(vec![]);
    let bb = arr(vec![]);
    assert_eq!(Some(arr(vec![])), difference(&a, &bb));
}

#[test]
fn difference_arrays() {
    let a = arr(vec![s("a"), s("b"), s("c")]);
    let bb = arr(vec![]);
    assert_eq!(Some(arr(vec![s("a"), s("b"), s("c")])), difference(&a, &bb));

    let a = arr(vec![s("a"), s("b"), s("c")]);
    let bb = arr(vec![s("b"), s("d")]);
    assert_eq!(Some(arr(vec![s("a"), s("c")])), difference(&a, &bb));
}

#[test]
fn difference_same_string() {
    let a = s("abc");
    let bb = s("abc");
    assert_eq!(None, difference(&a, &bb));
}

#[test]
fn difference_string() {
    let a = s("abc");
    let bb = s("cde");
    assert_eq!(Some(s("abc")), difference(&a, &bb));
}

#[test]
fn difference_same_bool() {
    let a = b(true);
    let bb = b(true);
    assert_eq!(None, difference(&a, &bb));
}

#[test]
fn difference_bool() {
    let a = b(true);
    let bb = b(false);
    assert_eq!(Some(b(true)), difference(&a, &bb));
}

#[test]
fn difference_same_num() {
    let a = n(1);
    let bb = n(1);
    assert_eq!(None, difference(&a, &bb));
}

#[test]
fn difference_num() {
    let a = n(1);
    let bb = n(10);
    assert_eq!(Some(n(1)), difference(&a, &bb));
}

#[test]
fn difference_null() {
    let a = null();
    let bb = null();
    assert_eq!(None, difference(&a, &bb));
}
