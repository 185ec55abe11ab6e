//! The three set-theoretic operations over tree values — intersection,
//! union and difference — with their mathematical definitions, their
//! executable forms, and left-to-right folds over lists of values.

use vstd::prelude::*;

use crate::value::elems_view;
use crate::value::entries_view;
use crate::value::eq_value;
use crate::value::has_key;
use crate::value::in_arr;
use crate::value::obj_get;
use crate::value::arr_contains;
use crate::value::obj_lookup;
use crate::value::value_eq;
use crate::value::SpecValue;
use crate::value::Value;

verus! {

/// Object intersection, entry by entry: for each entry of `ea` whose key
/// also occurs in `eb` and whose value intersects with `eb`'s value under
/// that key, the intersection is kept under the key; all other keys are
/// dropped. Order of `ea` is preserved.
pub open spec fn isect_entries(
    ea: Seq<(Seq<char>, SpecValue)>,
    eb: Seq<(Seq<char>, SpecValue)>,
) -> Seq<(Seq<char>, SpecValue)>
    decreases ea,
{
    if ea.len() == 0 {
        Seq::empty()
    } else {
        let init = isect_entries(ea.drop_last(), eb);
        let e = ea.last();
        if has_key(eb, e.0) {
            match spec_intersect(e.1, obj_get(eb, e.0)) {
                Some(w) => init.push((e.0, w)),
                None => init,
            }
        } else {
            init
        }
    }
}

/// The elements of `xs` that are member-equal to some element of `ys`,
/// in their order in `xs`; duplicates are kept.
pub open spec fn arr_keep_in(xs: Seq<SpecValue>, ys: Seq<SpecValue>) -> Seq<SpecValue>
    decreases xs.len(),
{
    if xs.len() == 0 {
        Seq::empty()
    } else {
        let init = arr_keep_in(xs.drop_last(), ys);
        if in_arr(xs.last(), ys) {
            init.push(xs.last())
        } else {
            init
        }
    }
}

/// Structural intersection. Objects intersect key by key and always
/// succeed; arrays keep the left operand's elements that are member-equal
/// to some right element; any other pair succeeds with the shared value
/// exactly when the two values are equal.
pub open spec fn spec_intersect(a: SpecValue, b: SpecValue) -> Option<SpecValue>
    decreases a,
{
    match (a, b) {
        (SpecValue::Obj(ea), SpecValue::Obj(eb)) => Some(SpecValue::Obj(isect_entries(ea, eb))),
        (SpecValue::Arr(xa), SpecValue::Arr(xb)) => Some(SpecValue::Arr(arr_keep_in(xa, xb))),
        _ => if eq_value(a, b) {
            Some(a)
        } else {
            None
        },
    }
}

/// The merged entries of an object union: every entry of `ea`, in order,
/// its value recursively united with `eb`'s value under the same key when
/// there is one — the right value winning outright when the recursive
/// union fails.
pub open spec fn merge_entries(
    ea: Seq<(Seq<char>, SpecValue)>,
    eb: Seq<(Seq<char>, SpecValue)>,
) -> Seq<(Seq<char>, SpecValue)>
    decreases ea,
{
    if ea.len() == 0 {
        Seq::empty()
    } else {
        let init = merge_entries(ea.drop_last(), eb);
        let e = ea.last();
        if has_key(eb, e.0) {
            match spec_union(e.1, obj_get(eb, e.0)) {
                Some(w) => init.push((e.0, w)),
                None => init.push((e.0, obj_get(eb, e.0))),
            }
        } else {
            init.push(e)
        }
    }
}

/// The entries of `eb` whose keys do not occur in `ea`, in order.
pub open spec fn added_entries(
    ea: Seq<(Seq<char>, SpecValue)>,
    eb: Seq<(Seq<char>, SpecValue)>,
) -> Seq<(Seq<char>, SpecValue)>
    decreases eb.len(),
{
    if eb.len() == 0 {
        Seq::empty()
    } else {
        let init = added_entries(ea, eb.drop_last());
        if has_key(ea, eb.last().0) {
            init
        } else {
            init.push(eb.last())
        }
    }
}

/// Array union: the left elements, in order, then each right element that
/// is not member-equal to anything already present.
pub open spec fn arr_union(xs: Seq<SpecValue>, ys: Seq<SpecValue>) -> Seq<SpecValue>
    decreases ys.len(),
{
    if ys.len() == 0 {
        xs
    } else {
        let init = arr_union(xs, ys.drop_last());
        if in_arr(ys.last(), init) {
            init
        } else {
            init.push(ys.last())
        }
    }
}

/// Structural union. Objects merge key by key with the right operand
/// breaking ties and contributing its new keys; arrays append the right
/// operand's unseen elements; any other pair succeeds with the shared
/// value exactly when the two values are equal.
pub open spec fn spec_union(a: SpecValue, b: SpecValue) -> Option<SpecValue>
    decreases a,
{
    match (a, b) {
        (SpecValue::Obj(ea), SpecValue::Obj(eb)) => Some(
            SpecValue::Obj(merge_entries(ea, eb) + added_entries(ea, eb)),
        ),
        (SpecValue::Arr(xa), SpecValue::Arr(xb)) => Some(SpecValue::Arr(arr_union(xa, xb))),
        _ => if eq_value(a, b) {
            Some(a)
        } else {
            None
        },
    }
}

/// Object difference, entry by entry: entries of `ea` whose key is absent
/// from `eb` are kept whole; where the key is shared, the recursive
/// difference is kept if it yields a value, and the key is dropped if the
/// value is fully cancelled.
pub open spec fn diff_entries(
    ea: Seq<(Seq<char>, SpecValue)>,
    eb: Seq<(Seq<char>, SpecValue)>,
) -> Seq<(Seq<char>, SpecValue)>
    decreases ea,
{
    if ea.len() == 0 {
        Seq::empty()
    } else {
        let init = diff_entries(ea.drop_last(), eb);
        let e = ea.last();
        if !has_key(eb, e.0) {
            init.push(e)
        } else {
            match spec_difference(e.1, obj_get(eb, e.0)) {
                Some(w) => init.push((e.0, w)),
                None => init,
            }
        }
    }
}

/// The elements of `xs` that are member-equal to no element of `ys`.
pub open spec fn arr_keep_out(xs: Seq<SpecValue>, ys: Seq<SpecValue>) -> Seq<SpecValue>
    decreases xs.len(),
{
    if xs.len() == 0 {
        Seq::empty()
    } else {
        let init = arr_keep_out(xs.drop_last(), ys);
        if !in_arr(xs.last(), ys) {
            init.push(xs.last())
        } else {
            init
        }
    }
}

/// Structural difference, the left operand minus the right. Objects and
/// arrays always yield a value, possibly empty; for any other pair an
/// equal value is fully cancelled (no result) and an unequal left value
/// is returned unchanged.
pub open spec fn spec_difference(a: SpecValue, b: SpecValue) -> Option<SpecValue>
    decreases a,
{
    match (a, b) {
        (SpecValue::Obj(ea), SpecValue::Obj(eb)) => Some(SpecValue::Obj(diff_entries(ea, eb))),
        (SpecValue::Arr(xa), SpecValue::Arr(xb)) => Some(SpecValue::Arr(arr_keep_out(xa, xb))),
        _ => if eq_value(a, b) {
            None
        } else {
            Some(a)
        },
    }
}

/// Returns the structural intersection of `a` and `b`, or nothing when
/// the two are non-object, non-array values that are not equal.
/// The result is exactly `spec_intersect` of the two abstract values.
#[verifier::loop_isolation(false)]
pub fn intersect(a: &Value, b: &Value) -> (r: Option<Value>)
    ensures
        view_opt(r) == spec_intersect(a@, b@),
    decreases a,
{
    match (a, b) {
        (Value::Obj(xs), Value::Obj(ys)) => {
            let ghost ea = entries_view(xs@);
            let ghost eb = entries_view(ys@);
            let mut out: Vec<(String, Value)> = Vec::new();
            let mut i: usize = 0;
            while i < xs.len()
                invariant
                    i <= xs.len(),
                    entries_view(out@) == isect_entries(ea.take(i as int), eb),
                decreases xs@.len() - i,
            {
                let e = &xs[i];
                match obj_lookup(ys, &e.0) {
                    Some(bv) => {
                        proof {
                            assert(decreases_to!(a => *xs));
                            assert(decreases_to!(*xs => xs@));
                            assert(decreases_to!(xs@ => xs@[i as int]));
                            assert(decreases_to!(xs@[i as int] => xs@[i as int].1));
                        }
                        match intersect(&e.1, bv) {
                            Some(w) => {
                                out.push((e.0.clone(), w));
                            },
                            None => {},
                        }
                    },
                    None => {},
                }
                proof {
                    assert(ea.take(i + 1 as int).drop_last() =~= ea.take(i as int));
                    assert(ea.take(i + 1 as int).last() == ea[i as int]);
                    assert(entries_view(out@) =~= isect_entries(ea.take(i + 1 as int), eb));
                }
                i = i + 1;
            }
            proof {
                assert(ea.take(xs@.len() as int) =~= ea);
            }
            Some(Value::Obj(out))
        },
        (Value::Arr(xs), Value::Arr(ys)) => {
            let ghost xa = elems_view(xs@);
            let ghost xb = elems_view(ys@);
            let mut out: Vec<Value> = Vec::new();
            let mut i: usize = 0;
            while i < xs.len()
                invariant
                    i <= xs.len(),
                    elems_view(out@) == arr_keep_in(xa.take(i as int), xb),
                decreases xs@.len() - i,
            {
                let e = &xs[i];
                if arr_contains(ys, e) {
                    out.push(e.clone());
                }
                proof {
                    assert(xa.take(i + 1 as int).drop_last() =~= xa.take(i as int));
                    assert(xa.take(i + 1 as int).last() == xa[i as int]);
                    assert(elems_view(out@) =~= arr_keep_in(xa.take(i + 1 as int), xb));
                }
                i = i + 1;
            }
            proof {
                assert(xa.take(xs@.len() as int) =~= xa);
            }
            Some(Value::Arr(out))
        },
        _ => {
            if value_eq(a, b) {
                Some(a.clone())
            } else {
                None
            }
        },
    }
}

/// Returns the structural union of `a` and `b`, the right operand breaking
/// ties, or nothing when the two are non-object, non-array values that are
/// not equal. The result is exactly `spec_union` of the two abstract values.
#[verifier::loop_isolation(false)]
pub fn union(a: &Value, b: &Value) -> (r: Option<Value>)
    ensures
        view_opt(r) == spec_union(a@, b@),
    decreases a,
{
    match (a, b) {
        (Value::Obj(xs), Value::Obj(ys)) => {
            let ghost ea = entries_view(xs@);
            let ghost eb = entries_view(ys@);
            let mut out: Vec<(String, Value)> = Vec::new();
            let mut i: usize = 0;
            while i < xs.len()
                invariant
                    i <= xs.len(),
                    entries_view(out@) == merge_entries(ea.take(i as int), eb),
                decreases xs@.len() - i,
            {
                let e = &xs[i];
                match obj_lookup(ys, &e.0) {
                    Some(bv) => {
                        proof {
                            assert(decreases_to!(a => *xs));
                            assert(decreases_to!(*xs => xs@));
                            assert(decreases_to!(xs@ => xs@[i as int]));
                            assert(decreases_to!(xs@[i as int] => xs@[i as int].1));
                        }
                        match union(&e.1, bv) {
                            Some(w) => {
                                out.push((e.0.clone(), w));
                            },
                            None => {
                                out.push((e.0.clone(), bv.clone()));
                            },
                        }
                    },
                    None => {
                        out.push((e.0.clone(), e.1.clone()));
                    },
                }
                proof {
                    assert(ea.take(i + 1 as int).drop_last() =~= ea.take(i as int));
                    assert(ea.take(i + 1 as int).last() == ea[i as int]);
                    assert(entries_view(out@) =~= merge_entries(ea.take(i + 1 as int), eb));
                }
                i = i + 1;
            }
            proof {
                assert(ea.take(xs@.len() as int) =~= ea);
            }
            let mut j: usize = 0;
            while j < ys.len()
                invariant
                    j <= ys.len(),
                    entries_view(out@) == merge_entries(ea, eb) + added_entries(
                        ea,
                        eb.take(j as int),
                    ),
                decreases ys@.len() - j,
            {
                let ghost prev = entries_view(out@);
                let f = &ys[j];
                let found = obj_lookup(xs, &f.0);
                if found.is_none() {
                    out.push((f.0.clone(), f.1.clone()));
                }
                proof {
                    assert(eb.take(j + 1 as int).drop_last() =~= eb.take(j as int));
                    assert(eb.take(j + 1 as int).last() == eb[j as int]);
                    assert(eb[j as int] == (ys@[j as int].0@, ys@[j as int].1@));
                    if has_key(ea, eb[j as int].0) {
                        assert(added_entries(ea, eb.take(j + 1 as int)) == added_entries(
                            ea,
                            eb.take(j as int),
                        ));
                        assert(entries_view(out@) == prev);
                    } else {
                        assert(added_entries(ea, eb.take(j + 1 as int)) == added_entries(
                            ea,
                            eb.take(j as int),
                        ).push(eb[j as int]));
                        assert(entries_view(out@) =~= prev.push(eb[j as int]));
                    }
                    assert(entries_view(out@) =~= merge_entries(ea, eb) + added_entries(
                        ea,
                        eb.take(j + 1 as int),
                    ));
                }
                j = j + 1;
            }
            proof {
                assert(eb.take(ys@.len() as int) =~= eb);
            }
            Some(Value::Obj(out))
        },
        (Value::Arr(xs), Value::Arr(ys)) => {
            let ghost xa = elems_view(xs@);
            let ghost xb = elems_view(ys@);
            let mut out: Vec<Value> = Vec::new();
            let mut i: usize = 0;
            while i < xs.len()
                invariant
                    i <= xs.len(),
                    elems_view(out@) =~= xa.take(i as int),
                decreases xs@.len() - i,
            {
                out.push(xs[i].clone());
                proof {
                    assert(elems_view(out@) =~= xa.take(i + 1 as int));
                }
                i = i + 1;
            }
            proof {
                assert(xa.take(xs@.len() as int) =~= xa);
                assert(arr_union(xa, xb.take(0)) == xa);
            }
            let mut j: usize = 0;
            while j < ys.len()
                invariant
                    j <= ys.len(),
                    elems_view(out@) == arr_union(xa, xb.take(j as int)),
                decreases ys@.len() - j,
            {
                let y = &ys[j];
                if !arr_contains(&out, y) {
                    out.push(y.clone());
                }
                proof {
                    assert(xb.take(j + 1 as int).drop_last() =~= xb.take(j as int));
                    assert(xb.take(j + 1 as int).last() == xb[j as int]);
                    assert(elems_view(out@) =~= arr_union(xa, xb.take(j + 1 as int)));
                }
                j = j + 1;
            }
            proof {
                assert(xb.take(ys@.len() as int) =~= xb);
            }
            Some(Value::Arr(out))
        },
        _ => {
            if value_eq(a, b) {
                Some(a.clone())
            } else {
                None
            }
        },
    }
}

/// Returns the content of `a` not present in `b` — "a minus b". An object
/// or array result may be empty; an equal non-object, non-array value is
/// fully cancelled and yields nothing. The result is exactly
/// `spec_difference` of the two abstract values.
#[verifier::loop_isolation(false)]
pub fn difference(a: &Value, b: &Value) -> (r: Option<Value>)
    ensures
        view_opt(r) == spec_difference(a@, b@),
    decreases a,
{
    match (a, b) {
        (Value::Obj(xs), Value::Obj(ys)) => {
            let ghost ea = entries_view(xs@);
            let ghost eb = entries_view(ys@);
            let mut out: Vec<(String, Value)> = Vec::new();
            let mut i: usize = 0;
            while i < xs.len()
                invariant
                    i <= xs.len(),
                    entries_view(out@) == diff_entries(ea.take(i as int), eb),
                decreases xs@.len() - i,
            {
                let e = &xs[i];
                match obj_lookup(ys, &e.0) {
                    Some(bv) => {
                        proof {
                            assert(decreases_to!(a => *xs));
                            assert(decreases_to!(*xs => xs@));
                            assert(decreases_to!(xs@ => xs@[i as int]));
                            assert(decreases_to!(xs@[i as int] => xs@[i as int].1));
                        }
                        match difference(&e.1, bv) {
                            Some(w) => {
                                out.push((e.0.clone(), w));
                            },
                            None => {},
                        }
                    },
                    None => {
                        out.push((e.0.clone(), e.1.clone()));
                    },
                }
                proof {
                    assert(ea.take(i + 1 as int).drop_last() =~= ea.take(i as int));
                    assert(ea.take(i + 1 as int).last() == ea[i as int]);
                    assert(entries_view(out@) =~= diff_entries(ea.take(i + 1 as int), eb));
                }
                i = i + 1;
            }
            proof {
                assert(ea.take(xs@.len() as int) =~= ea);
            }
            Some(Value::Obj(out))
        },
        (Value::Arr(xs), Value::Arr(ys)) => {
            let ghost xa = elems_view(xs@);
            let ghost xb = elems_view(ys@);
            let mut out: Vec<Value> = Vec::new();
            let mut i: usize = 0;
            while i < xs.len()
                invariant
                    i <= xs.len(),
                    elems_view(out@) == arr_keep_out(xa.take(i as int), xb),
                decreases xs@.len() - i,
            {
                let e = &xs[i];
                if !arr_contains(ys, e) {
                    out.push(e.clone());
                }
                proof {
                    assert(xa.take(i + 1 as int).drop_last() =~= xa.take(i as int));
                    assert(xa.take(i + 1 as int).last() == xa[i as int]);
                    assert(elems_view(out@) =~= arr_keep_out(xa.take(i + 1 as int), xb));
                }
                i = i + 1;
            }
            proof {
                assert(xa.take(xs@.len() as int) =~= xa);
            }
            Some(Value::Arr(out))
        },
        _ => {
            if value_eq(a, b) {
                None
            } else {
                Some(a.clone())
            }
        },
    }
}

/// The view of an optional result.
pub open spec fn view_opt(r: Option<Value>) -> Option<SpecValue> {
    match r {
        Some(v) => Some(v@),
        None => None,
    }
}

/// Left-to-right fold of a binary operation over a list of values: no
/// result for an empty list, the single value unchanged for one, and
/// otherwise each step feeds the accumulated value into the operation —
/// once a step yields no result, the whole fold yields none.
pub open spec fn spec_fold_op(
    vs: Seq<SpecValue>,
    op: spec_fn(SpecValue, SpecValue) -> Option<SpecValue>,
) -> Option<SpecValue>
    decreases vs.len(),
{
    if vs.len() == 0 {
        None
    } else if vs.len() == 1 {
        Some(vs[0])
    } else {
        match spec_fold_op(vs.drop_last(), op) {
            Some(acc) => op(acc, vs.last()),
            None => None,
        }
    }
}

/// The fold of intersection over a list of values.
pub open spec fn spec_fold_intersect(vs: Seq<SpecValue>) -> Option<SpecValue> {
    spec_fold_op(vs, |x: SpecValue, y: SpecValue| spec_intersect(x, y))
}

/// The fold of union over a list of values.
pub open spec fn spec_fold_union(vs: Seq<SpecValue>) -> Option<SpecValue> {
    spec_fold_op(vs, |x: SpecValue, y: SpecValue| spec_union(x, y))
}

/// The fold of difference over a list of values.
pub open spec fn spec_fold_difference(vs: Seq<SpecValue>) -> Option<SpecValue> {
    spec_fold_op(vs, |x: SpecValue, y: SpecValue| spec_difference(x, y))
}

/// A failed fold cannot be revived by further values: when a non-empty
/// prefix already folds to nothing, the whole list folds to nothing.
proof fn lemma_fold_intersect_none_extends(vs: Seq<SpecValue>, m: int)
    requires
        1 <= m <= vs.len(),
        spec_fold_intersect(vs.take(m)) is None,
    ensures
        spec_fold_intersect(vs) is None,
    decreases vs.len(),
{
    if vs.len() > m {
        assert(vs.drop_last().take(m) =~= vs.take(m));
        lemma_fold_intersect_none_extends(vs.drop_last(), m);
    } else {
        assert(vs.take(m) =~= vs);
    }
}

/// As `lemma_fold_intersect_none_extends`, for the union fold.
proof fn lemma_fold_union_none_extends(vs: Seq<SpecValue>, m: int)
    requires
        1 <= m <= vs.len(),
        spec_fold_union(vs.take(m)) is None,
    ensures
        spec_fold_union(vs) is None,
    decreases vs.len(),
{
    if vs.len() > m {
        assert(vs.drop_last().take(m) =~= vs.take(m));
        lemma_fold_union_none_extends(vs.drop_last(), m);
    } else {
        assert(vs.take(m) =~= vs);
    }
}

/// As `lemma_fold_intersect_none_extends`, for the difference fold.
proof fn lemma_fold_difference_none_extends(vs: Seq<SpecValue>, m: int)
    requires
        1 <= m <= vs.len(),
        spec_fold_difference(vs.take(m)) is None,
    ensures
        spec_fold_difference(vs) is None,
    decreases vs.len(),
{
    if vs.len() > m {
        assert(vs.drop_last().take(m) =~= vs.take(m));
        lemma_fold_difference_none_extends(vs.drop_last(), m);
    } else {
        assert(vs.take(m) =~= vs);
    }
}

/// Intersects a list of values left to right, short-circuiting to nothing
/// the moment a pairwise step fails; an empty list yields nothing and a
/// single value is returned unchanged.
#[verifier::loop_isolation(false)]
pub fn fold_intersect(vs: &Vec<Value>) -> (r: Option<Value>)
    ensures
        view_opt(r) == spec_fold_intersect(elems_view(vs@)),
{
    let ghost xv = elems_view(vs@);
    if vs.len() == 0 {
        return None;
    }
    let mut acc = vs[0].clone();
    let mut i: usize = 1;
    proof {
        assert(xv.take(1)[0] == xv[0]);
        assert(spec_fold_intersect(xv.take(1)) == Some(xv[0]));
    }
    while i < vs.len()
        invariant
            1 <= i <= vs@.len(),
            Some(acc@) == spec_fold_intersect(xv.take(i as int)),
        decreases vs@.len() - i,
    {
        let next = intersect(&acc, &vs[i]);
        proof {
            assert(xv.take(i + 1 as int).drop_last() =~= xv.take(i as int));
            assert(xv.take(i + 1 as int).last() == xv[i as int]);
        }
        match next {
            Some(v) => {
                acc = v;
            },
            None => {
                proof {
                    lemma_fold_intersect_none_extends(xv, i + 1 as int);
                }
                return None;
            },
        }
        i = i + 1;
    }
    proof {
        assert(xv.take(vs@.len() as int) =~= xv);
    }
    Some(acc)
}

/// Unites a list of values left to right, short-circuiting to nothing the
/// moment a pairwise step fails; an empty list yields nothing and a single
/// value is returned unchanged.
#[verifier::loop_isolation(false)]
pub fn fold_union(vs: &Vec<Value>) -> (r: Option<Value>)
    ensures
        view_opt(r) == spec_fold_union(elems_view(vs@)),
{
    let ghost xv = elems_view(vs@);
    if vs.len() == 0 {
        return None;
    }
    let mut acc = vs[0].clone();
    let mut i: usize = 1;
    proof {
        assert(xv.take(1)[0] == xv[0]);
        assert(spec_fold_union(xv.take(1)) == Some(xv[0]));
    }
    while i < vs.len()
        invariant
            1 <= i <= vs@.len(),
            Some(acc@) == spec_fold_union(xv.take(i as int)),
        decreases vs@.len() - i,
    {
        let next = union(&acc, &vs[i]);
        proof {
            assert(xv.take(i + 1 as int).drop_last() =~= xv.take(i as int));
            assert(xv.take(i + 1 as int).last() == xv[i as int]);
        }
        match next {
            Some(v) => {
                acc = v;
            },
            None => {
                proof {
                    lemma_fold_union_none_extends(xv, i + 1 as int);
                }
                return None;
            },
        }
        i = i + 1;
    }
    proof {
        assert(xv.take(vs@.len() as int) =~= xv);
    }
    Some(acc)
}

/// Subtracts a list of values left to right from its first element,
/// short-circuiting to nothing the moment a pairwise step fails; an empty
/// list yields nothing and a single value is returned unchanged.
#[verifier::loop_isolation(false)]
pub fn fold_difference(vs: &Vec<Value>) -> (r: Option<Value>)
    ensures
        view_opt(r) == spec_fold_difference(elems_view(vs@)),
{
    let ghost xv = elems_view(vs@);
    if vs.len() == 0 {
        return None;
    }
    let mut acc = vs[0].clone();
    let mut i: usize = 1;
    proof {
        assert(xv.take(1)[0] == xv[0]);
        assert(spec_fold_difference(xv.take(1)) == Some(xv[0]));
    }
    while i < vs.len()
        invariant
            1 <= i <= vs@.len(),
            Some(acc@) == spec_fold_difference(xv.take(i as int)),
        decreases vs@.len() - i,
    {
        let next = difference(&acc, &vs[i]);
        proof {
            assert(xv.take(i + 1 as int).drop_last() =~= xv.take(i as int));
            assert(xv.take(i + 1 as int).last() == xv[i as int]);
        }
        match next {
            Some(v) => {
                acc = v;
            },
            None => {
                proof {
                    lemma_fold_difference_none_extends(xv, i + 1 as int);
                }
                return None;
            },
        }
        i = i + 1;
    }
    proof {
        assert(xv.take(vs@.len() as int) =~= xv);
    }
    Some(acc)
}

} // verus!
