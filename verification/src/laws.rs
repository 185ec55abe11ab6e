//! General laws of the three operations, stated over the mathematical
//! model and proved once and for all.

use vstd::prelude::*;

use crate::ops::added_entries;
use crate::ops::arr_keep_in;
use crate::ops::arr_keep_out;
use crate::ops::arr_union;
use crate::ops::diff_entries;
use crate::ops::isect_entries;
use crate::ops::merge_entries;
use crate::ops::spec_difference;
use crate::ops::spec_fold_difference;
use crate::ops::spec_fold_intersect;
use crate::ops::spec_fold_union;
use crate::ops::spec_intersect;
use crate::ops::spec_union;
use crate::value::eq_value;
use crate::value::has_key;
use crate::value::in_arr;
use crate::value::is_scalar;
use crate::value::keys_distinct;
use crate::value::lemma_eq_value_refl;
use crate::value::lemma_eq_value_sym;
use crate::value::lemma_obj_get_push;
use crate::value::lemma_obj_get_unique;
use crate::value::lemma_obj_get_wf;
use crate::value::obj_get;
use crate::value::similar;
use crate::value::wf;
use crate::value::SpecValue;

verus! {

/// When every element of `xs` is member-equal to something in `ys`,
/// intersecting keeps `xs` whole.
proof fn lemma_arr_keep_in_all(xs: Seq<SpecValue>, ys: Seq<SpecValue>)
    requires
        forall|i: int| 0 <= i < xs.len() ==> in_arr(xs[i], ys),
    ensures
        arr_keep_in(xs, ys) == xs,
    decreases xs.len(),
{
    if xs.len() > 0 {
        lemma_arr_keep_in_all(xs.drop_last(), ys);
        assert(arr_keep_in(xs, ys) =~= xs);
    } else {
        assert(arr_keep_in(xs, ys) =~= xs);
    }
}

/// When every element of `xs` is member-equal to something in `ys`,
/// subtracting leaves nothing.
proof fn lemma_arr_keep_out_all(xs: Seq<SpecValue>, ys: Seq<SpecValue>)
    requires
        forall|i: int| 0 <= i < xs.len() ==> in_arr(xs[i], ys),
    ensures
        arr_keep_out(xs, ys) == Seq::<SpecValue>::empty(),
    decreases xs.len(),
{
    if xs.len() > 0 {
        lemma_arr_keep_out_all(xs.drop_last(), ys);
    }
}

/// When every element of `ys` is already member-equal to something in
/// `xs`, the array union adds nothing.
proof fn lemma_arr_union_absorbed(xs: Seq<SpecValue>, ys: Seq<SpecValue>)
    requires
        forall|j: int| 0 <= j < ys.len() ==> in_arr(ys[j], xs),
    ensures
        arr_union(xs, ys) == xs,
    decreases ys.len(),
{
    if ys.len() > 0 {
        lemma_arr_union_absorbed(xs, ys.drop_last());
    }
}

/// When each entry of `ea` finds its own value under its own key in `eb`,
/// object intersection keeps `ea` whole.
proof fn lemma_isect_entries_ident(
    ea: Seq<(Seq<char>, SpecValue)>,
    eb: Seq<(Seq<char>, SpecValue)>,
)
    requires
        forall|i: int|
            0 <= i < ea.len() ==> has_key(eb, ea[i].0) && spec_intersect(
                ea[i].1,
                obj_get(eb, ea[i].0),
            ) == Some(ea[i].1),
    ensures
        isect_entries(ea, eb) == ea,
    decreases ea.len(),
{
    if ea.len() > 0 {
        lemma_isect_entries_ident(ea.drop_last(), eb);
        assert(isect_entries(ea, eb) =~= ea);
    } else {
        assert(isect_entries(ea, eb) =~= ea);
    }
}

/// When each entry of `ea` unites with its own value from `eb` back into
/// itself, the merged entries are `ea` unchanged.
proof fn lemma_merge_entries_ident(
    ea: Seq<(Seq<char>, SpecValue)>,
    eb: Seq<(Seq<char>, SpecValue)>,
)
    requires
        forall|i: int|
            0 <= i < ea.len() ==> has_key(eb, ea[i].0) && spec_union(
                ea[i].1,
                obj_get(eb, ea[i].0),
            ) == Some(ea[i].1),
    ensures
        merge_entries(ea, eb) == ea,
    decreases ea.len(),
{
    if ea.len() > 0 {
        lemma_merge_entries_ident(ea.drop_last(), eb);
        assert(merge_entries(ea, eb) =~= ea);
    } else {
        assert(merge_entries(ea, eb) =~= ea);
    }
}

/// When every key of `eb` already occurs in `ea`, a union adds no entries.
proof fn lemma_added_entries_empty(
    ea: Seq<(Seq<char>, SpecValue)>,
    eb: Seq<(Seq<char>, SpecValue)>,
)
    requires
        forall|j: int| 0 <= j < eb.len() ==> has_key(ea, eb[j].0),
    ensures
        added_entries(ea, eb) == Seq::<(Seq<char>, SpecValue)>::empty(),
    decreases eb.len(),
{
    if eb.len() > 0 {
        lemma_added_entries_empty(ea, eb.drop_last());
    }
}

/// When each entry of `ea` is fully cancelled by its value under the same
/// key in `eb`, the object difference is empty.
proof fn lemma_diff_entries_empty(
    ea: Seq<(Seq<char>, SpecValue)>,
    eb: Seq<(Seq<char>, SpecValue)>,
)
    requires
        forall|i: int|
            0 <= i < ea.len() ==> has_key(eb, ea[i].0) && spec_difference(
                ea[i].1,
                obj_get(eb, ea[i].0),
            ) is None,
    ensures
        diff_entries(ea, eb) == Seq::<(Seq<char>, SpecValue)>::empty(),
    decreases ea.len(),
{
    if ea.len() > 0 {
        lemma_diff_entries_empty(ea.drop_last(), eb);
    }
}

/// Distinct keys stay distinct after dropping the last entry.
proof fn lemma_keys_distinct_prefix(es: Seq<(Seq<char>, SpecValue)>)
    requires
        keys_distinct(es),
        es.len() > 0,
    ensures
        keys_distinct(es.drop_last()),
{
    assert forall|i: int, j: int|
        0 <= i < j < es.drop_last().len() implies es.drop_last()[i].0 != es.drop_last()[j].0 by {
        assert(es.drop_last()[i] == es[i]);
        assert(es.drop_last()[j] == es[j]);
    }
}

/// What object intersection holds, key by key: a key of the result is a
/// key of both operands whose values intersect, and the result's value
/// under it is that intersection.
proof fn lemma_isect_entries_props(
    ea: Seq<(Seq<char>, SpecValue)>,
    eb: Seq<(Seq<char>, SpecValue)>,
)
    requires
        keys_distinct(ea),
    ensures
        keys_distinct(isect_entries(ea, eb)),
        forall|k: Seq<char>|
            #[trigger] has_key(isect_entries(ea, eb), k) ==> has_key(ea, k) && has_key(eb, k)
                && spec_intersect(obj_get(ea, k), obj_get(eb, k)) == Some(
                obj_get(isect_entries(ea, eb), k),
            ),
        forall|k: Seq<char>|
            has_key(ea, k) && has_key(eb, k) && spec_intersect(
                obj_get(ea, k),
                obj_get(eb, k),
            ) is Some ==> #[trigger] has_key(isect_entries(ea, eb), k),
    decreases ea.len(),
{
    if ea.len() > 0 {
        let e = ea.last();
        let rest = ea.drop_last();
        let r0 = isect_entries(rest, eb);
        let r = isect_entries(ea, eb);
        lemma_keys_distinct_prefix(ea);
        lemma_isect_entries_props(rest, eb);
        assert(rest.push(e) =~= ea);
        assert(!has_key(rest, e.0)) by {
            if has_key(rest, e.0) {
                let i0 = choose|i0: int| 0 <= i0 < rest.len() && rest[i0].0 == e.0;
                assert(ea[i0].0 == ea[ea.len() - 1].0);
            }
        }
        assert forall|k: Seq<char>| true implies #[trigger] has_key(ea, k) == (has_key(rest, k)
            || e.0 == k) && (has_key(rest, k) ==> obj_get(ea, k) == obj_get(rest, k)) by {
            lemma_obj_get_push(rest, e, k);
        }
        assert(obj_get(ea, e.0) == e.1) by {
            lemma_obj_get_unique(ea, ea.len() - 1);
        }
        assert(forall|i: int| 0 <= i < r0.len() ==> has_key(r0, #[trigger] r0[i].0));
        if has_key(eb, e.0) {
            match spec_intersect(e.1, obj_get(eb, e.0)) {
                Some(w) => {
                    assert(r == r0.push((e.0, w)));
                    assert(!has_key(r0, e.0));
                    assert(keys_distinct(r)) by {
                        assert forall|i: int, j: int|
                            0 <= i < j < r.len() implies r[i].0 != r[j].0 by {
                            if j < r.len() - 1 {
                                assert(r[i] == r0[i] && r[j] == r0[j]);
                            } else {
                                assert(r[i] == r0[i] && r[j] == (e.0, w));
                                assert(has_key(r0, r0[i].0));
                            }
                        }
                    }
                    assert forall|k: Seq<char>| true implies #[trigger] has_key(r, k) == (has_key(
                        r0,
                        k,
                    ) || e.0 == k) && (has_key(r0, k) ==> obj_get(r, k) == obj_get(r0, k)) && (
                    !has_key(r0, k) && e.0 == k ==> obj_get(r, k) == w) by {
                        lemma_obj_get_push(r0, (e.0, w), k);
                    }
                },
                None => {
                    assert(r == r0);
                },
            }
        } else {
            assert(r == r0);
        }
        assert forall|k: Seq<char>| #[trigger] has_key(r, k) implies has_key(ea, k) && has_key(
            eb,
            k,
        ) && spec_intersect(obj_get(ea, k), obj_get(eb, k)) == Some(obj_get(r, k)) by {
            if has_key(r0, k) {
                assert(has_key(rest, k));
                assert(has_key(ea, k));
                assert(obj_get(ea, k) == obj_get(rest, k));
                assert(spec_intersect(obj_get(rest, k), obj_get(eb, k)) == Some(obj_get(r0, k)));
                assert(obj_get(r, k) == obj_get(r0, k));
            } else {
                assert(k == e.0);
                assert(obj_get(ea, k) == e.1);
                assert(spec_intersect(obj_get(ea, k), obj_get(eb, k)) == Some(obj_get(r, k)));
            }
        }
        assert forall|k: Seq<char>|
            has_key(ea, k) && has_key(eb, k) && spec_intersect(
                obj_get(ea, k),
                obj_get(eb, k),
            ) is Some implies #[trigger] has_key(r, k) by {
            if k == e.0 {
            } else {
                assert(has_key(rest, k));
                assert(obj_get(ea, k) == obj_get(rest, k));
                assert(has_key(r0, k));
            }
        }
    }
}

/// What array intersection holds: every kept element is an element of the
/// left operand that matches the right, and every matching left element
/// is kept.
proof fn lemma_arr_keep_in_props(xs: Seq<SpecValue>, ys: Seq<SpecValue>)
    ensures
        forall|i: int|
            0 <= i < arr_keep_in(xs, ys).len() ==> exists|j: int|
                0 <= j < xs.len() && #[trigger] arr_keep_in(xs, ys)[i] == xs[j] && in_arr(
                    xs[j],
                    ys,
                ),
        forall|j: int|
            0 <= j < xs.len() && in_arr(#[trigger] xs[j], ys) ==> exists|l: int|
                0 <= l < arr_keep_in(xs, ys).len() && arr_keep_in(xs, ys)[l] == xs[j],
    decreases xs.len(),
{
    if xs.len() > 0 {
        let rest = xs.drop_last();
        let r0 = arr_keep_in(rest, ys);
        let r = arr_keep_in(xs, ys);
        lemma_arr_keep_in_props(rest, ys);
        assert(forall|j: int| 0 <= j < rest.len() ==> #[trigger] rest[j] == xs[j]);
        assert(xs.last() == xs[xs.len() - 1]);
        assert forall|i: int| 0 <= i < r.len() implies exists|j: int|
            0 <= j < xs.len() && #[trigger] r[i] == xs[j] && in_arr(xs[j], ys) by {
            if in_arr(xs.last(), ys) && i == r.len() - 1 {
                assert(r[i] == xs[xs.len() - 1]);
            } else {
                assert(r[i] == r0[i]);
                let j0 = choose|j0: int| 0 <= j0 < rest.len() && r0[i] == rest[j0] && in_arr(
                    rest[j0],
                    ys,
                );
                assert(r[i] == xs[j0] && in_arr(xs[j0], ys));
            }
        }
        assert forall|j: int| 0 <= j < xs.len() && in_arr(#[trigger] xs[j], ys) implies exists|
            l: int,
        | 0 <= l < r.len() && r[l] == xs[j] by {
            if j == xs.len() - 1 {
                assert(r.last() == xs[j]);
            } else {
                assert(rest[j] == xs[j]);
                let l0 = choose|l0: int| 0 <= l0 < r0.len() && r0[l0] == rest[j];
                assert(r[l0] == xs[j]);
            }
        }
    }
}

/// Commutativity of intersection, up to content equivalence: swapping the
/// operands never changes whether a result exists, and the two results
/// carry the same content — the same keys with equivalent values, and
/// arrays containing the same elements up to member equality, though
/// possibly in a different order or multiplicity.
pub proof fn lemma_intersect_commutative(a: SpecValue, b: SpecValue)
    requires
        wf(a),
        wf(b),
    ensures
        match (spec_intersect(a, b), spec_intersect(b, a)) {
            (Some(v), Some(w)) => similar(v, w),
            (None, None) => true,
            _ => false,
        },
    decreases a,
{
    match (a, b) {
        (SpecValue::Obj(es), SpecValue::Obj(fs)) => {
            let r1 = isect_entries(es, fs);
            let r2 = isect_entries(fs, es);
            lemma_isect_entries_props(es, fs);
            lemma_isect_entries_props(fs, es);
            assert forall|k: Seq<char>|
                has_key(es, k) && #[trigger] has_key(fs, k) implies (spec_intersect(
                obj_get(es, k),
                obj_get(fs, k),
            ) is Some <==> spec_intersect(obj_get(fs, k), obj_get(es, k)) is Some) && (match (
                spec_intersect(obj_get(es, k), obj_get(fs, k)),
                spec_intersect(obj_get(fs, k), obj_get(es, k)),
            ) {
                (Some(v), Some(w)) => similar(v, w),
                _ => true,
            }) by {
                let i0 = choose|i0: int| 0 <= i0 < es.len() && es[i0].0 == k;
                lemma_obj_get_unique(es, i0);
                let j0 = choose|j0: int| 0 <= j0 < fs.len() && fs[j0].0 == k;
                lemma_obj_get_unique(fs, j0);
                lemma_intersect_commutative(es[i0].1, fs[j0].1);
            }
            assert forall|k: Seq<char>| #[trigger] has_key(r1, k) <==> has_key(r2, k) by {
                if has_key(r1, k) {
                }
                if has_key(r2, k) {
                }
            }
            assert forall|i: int|
                0 <= i < r1.len() implies has_key(r2, r1[i].0) && similar(
                r1[i].1,
                obj_get(r2, r1[i].0),
            ) by {
                let k = r1[i].0;
                assert(has_key(r1, k));
                lemma_obj_get_unique(r1, i);
            }
            assert(similar(SpecValue::Obj(r1), SpecValue::Obj(r2)));
        },
        (SpecValue::Arr(xs), SpecValue::Arr(ys)) => {
            let r1 = arr_keep_in(xs, ys);
            let r2 = arr_keep_in(ys, xs);
            lemma_arr_keep_in_props(xs, ys);
            lemma_arr_keep_in_props(ys, xs);
            assert forall|i: int| 0 <= i < r1.len() implies in_arr(r1[i], r2) by {
                let j = choose|j: int| 0 <= j < xs.len() && r1[i] == xs[j] && in_arr(xs[j], ys);
                let j1 = choose|j1: int| 0 <= j1 < ys.len() && eq_value(xs[j], ys[j1]);
                lemma_eq_value_sym(xs[j], ys[j1]);
                assert(in_arr(ys[j1], xs));
                let l = choose|l: int| 0 <= l < r2.len() && r2[l] == ys[j1];
                assert(eq_value(r1[i], r2[l]));
            }
            assert forall|i: int| 0 <= i < r2.len() implies in_arr(r2[i], r1) by {
                let j = choose|j: int| 0 <= j < ys.len() && r2[i] == ys[j] && in_arr(ys[j], xs);
                let j1 = choose|j1: int| 0 <= j1 < xs.len() && eq_value(ys[j], xs[j1]);
                lemma_eq_value_sym(ys[j], xs[j1]);
                assert(in_arr(xs[j1], ys));
                let l = choose|l: int| 0 <= l < r1.len() && r1[l] == xs[j1];
                assert(eq_value(r2[i], r1[l]));
            }
            assert(similar(SpecValue::Arr(r1), SpecValue::Arr(r2)));
        },
        _ => {
            if eq_value(b, a) && !eq_value(a, b) {
                lemma_eq_value_sym(b, a);
            }
        },
    }
}

/// Idempotence of intersection: a well-formed value intersected with
/// itself is itself.
pub proof fn lemma_intersect_idempotent(v: SpecValue)
    requires
        wf(v),
    ensures
        spec_intersect(v, v) == Some(v),
    decreases v,
{
    match v {
        SpecValue::Arr(xs) => {
            assert forall|i: int| 0 <= i < xs.len() implies in_arr(xs[i], xs) by {
                lemma_eq_value_refl(xs[i]);
            }
            lemma_arr_keep_in_all(xs, xs);
        },
        SpecValue::Obj(es) => {
            assert forall|i: int|
                0 <= i < es.len() implies has_key(es, es[i].0) && spec_intersect(
                es[i].1,
                obj_get(es, es[i].0),
            ) == Some(es[i].1) by {
                lemma_obj_get_unique(es, i);
                lemma_intersect_idempotent(es[i].1);
            }
            lemma_isect_entries_ident(es, es);
        },
        _ => {
            lemma_eq_value_refl(v);
        },
    }
}

/// Idempotence of union: a well-formed value united with itself is itself.
pub proof fn lemma_union_idempotent(v: SpecValue)
    requires
        wf(v),
    ensures
        spec_union(v, v) == Some(v),
    decreases v,
{
    match v {
        SpecValue::Arr(xs) => {
            assert forall|j: int| 0 <= j < xs.len() implies in_arr(xs[j], xs) by {
                lemma_eq_value_refl(xs[j]);
            }
            lemma_arr_union_absorbed(xs, xs);
        },
        SpecValue::Obj(es) => {
            assert forall|i: int|
                0 <= i < es.len() implies has_key(es, es[i].0) && spec_union(
                es[i].1,
                obj_get(es, es[i].0),
            ) == Some(es[i].1) by {
                lemma_obj_get_unique(es, i);
                lemma_union_idempotent(es[i].1);
            }
            lemma_merge_entries_ident(es, es);
            lemma_added_entries_empty(es, es);
            assert(merge_entries(es, es) + added_entries(es, es) =~= es);
        },
        _ => {
            lemma_eq_value_refl(v);
        },
    }
}

/// Difference of a well-formed array with itself is the empty array.
pub proof fn lemma_difference_self_array(xs: Seq<SpecValue>)
    requires
        wf(SpecValue::Arr(xs)),
    ensures
        spec_difference(SpecValue::Arr(xs), SpecValue::Arr(xs)) == Some(
            SpecValue::Arr(Seq::<SpecValue>::empty()),
        ),
{
    assert forall|i: int| 0 <= i < xs.len() implies in_arr(xs[i], xs) by {
        lemma_eq_value_refl(xs[i]);
    }
    lemma_arr_keep_out_all(xs, xs);
}

/// Difference of an equal pair of non-object, non-array values yields
/// nothing: the value is fully cancelled.
pub proof fn lemma_difference_self_scalar(v: SpecValue)
    requires
        is_scalar(v),
        wf(v),
    ensures
        spec_difference(v, v) is None,
{
    lemma_eq_value_refl(v);
}

/// Difference of a well-formed object with itself is the empty object,
/// provided every top-level value is a scalar; an object or array value
/// under a key differences to an empty value rather than cancelling, so
/// such a key would survive.
pub proof fn lemma_difference_self_object(es: Seq<(Seq<char>, SpecValue)>)
    requires
        wf(SpecValue::Obj(es)),
        forall|i: int| 0 <= i < es.len() ==> is_scalar(#[trigger] es[i].1),
    ensures
        spec_difference(SpecValue::Obj(es), SpecValue::Obj(es)) == Some(
            SpecValue::Obj(Seq::<(Seq<char>, SpecValue)>::empty()),
        ),
{
    assert forall|i: int|
        0 <= i < es.len() implies has_key(es, es[i].0) && spec_difference(
        es[i].1,
        obj_get(es, es[i].0),
    ) is None by {
        lemma_obj_get_unique(es, i);
        lemma_difference_self_scalar(es[i].1);
    }
    lemma_diff_entries_empty(es, es);
}

/// The value an object-union entry ends up with: the recursive union with
/// the right value under the same key where one succeeds, the right value
/// outright where it fails, the left value where the key is the left's own.
spec fn merged_value(e: (Seq<char>, SpecValue), eb: Seq<(Seq<char>, SpecValue)>) -> SpecValue {
    if has_key(eb, e.0) {
        match spec_union(e.1, obj_get(eb, e.0)) {
            Some(w) => w,
            None => obj_get(eb, e.0),
        }
    } else {
        e.1
    }
}

/// The merged part of an object union, entry by entry: the left operand's
/// keys in order, each with its merged value.
proof fn lemma_merge_entries_props(
    ea: Seq<(Seq<char>, SpecValue)>,
    eb: Seq<(Seq<char>, SpecValue)>,
)
    ensures
        merge_entries(ea, eb).len() == ea.len(),
        forall|l: int|
            0 <= l < ea.len() ==> #[trigger] merge_entries(ea, eb)[l] == (
                ea[l].0,
                merged_value(ea[l], eb),
            ),
    decreases ea.len(),
{
    if ea.len() > 0 {
        lemma_merge_entries_props(ea.drop_last(), eb);
        assert(forall|l: int|
            0 <= l < ea.len() - 1 ==> #[trigger] ea.drop_last()[l] == ea[l]);
    }
}

/// Every entry a union adds comes from the right operand and carries a key
/// the left operand lacks; with distinct right keys the added entries have
/// distinct keys.
proof fn lemma_added_entries_props(
    ea: Seq<(Seq<char>, SpecValue)>,
    eb: Seq<(Seq<char>, SpecValue)>,
)
    requires
        keys_distinct(eb),
    ensures
        keys_distinct(added_entries(ea, eb)),
        forall|l: int|
            0 <= l < added_entries(ea, eb).len() ==> !has_key(
                ea,
                #[trigger] added_entries(ea, eb)[l].0,
            ) && exists|j: int|
                0 <= j < eb.len() && added_entries(ea, eb)[l] == eb[j],
    decreases eb.len(),
{
    if eb.len() > 0 {
        let rest = eb.drop_last();
        let r0 = added_entries(ea, rest);
        let r = added_entries(ea, eb);
        lemma_keys_distinct_prefix(eb);
        lemma_added_entries_props(ea, rest);
        assert(forall|l: int| 0 <= l < rest.len() ==> #[trigger] rest[l] == eb[l]);
        if !has_key(ea, eb.last().0) {
            assert(r == r0.push(eb.last()));
            assert forall|l: int|
                0 <= l < r.len() implies !has_key(ea, #[trigger] r[l].0) && exists|j: int|
                0 <= j < eb.len() && r[l] == eb[j] by {
                if l < r.len() - 1 {
                    assert(r[l] == r0[l]);
                    let j0 = choose|j0: int| 0 <= j0 < rest.len() && r0[l] == rest[j0];
                    assert(r[l] == eb[j0]);
                } else {
                    assert(r[l] == eb[eb.len() - 1]);
                }
            }
            assert forall|i: int, j: int| 0 <= i < j < r.len() implies r[i].0 != r[j].0 by {
                if j == r.len() - 1 {
                    assert(r[i] == r0[i]);
                    assert(!has_key(ea, r0[i].0));
                    let j0 = choose|j0: int| 0 <= j0 < rest.len() && r0[i] == rest[j0];
                    assert(rest[j0] == eb[j0]);
                    assert(eb[j0].0 != eb[eb.len() - 1].0);
                } else {
                    assert(r[i] == r0[i] && r[j] == r0[j]);
                }
            }
        } else {
            assert(r == r0);
            assert forall|l: int|
                0 <= l < r.len() implies !has_key(ea, #[trigger] r[l].0) && exists|j: int|
                0 <= j < eb.len() && r[l] == eb[j] by {
                assert(r[l] == r0[l]);
                assert(!has_key(ea, r0[l].0));
                let j0 = choose|j0: int| 0 <= j0 < rest.len() && r0[l] == rest[j0];
                assert(r[l] == eb[j0]);
            }
        }
    }
}

/// Whether `x` is one of the elements of `xs`.
spec fn elem_of(x: SpecValue, xs: Seq<SpecValue>) -> bool {
    exists|j: int| 0 <= j < xs.len() && x == xs[j]
}

/// Every element of an array union comes from one of the operands.
proof fn lemma_arr_union_props(xs: Seq<SpecValue>, ys: Seq<SpecValue>)
    ensures
        forall|i: int|
            0 <= i < arr_union(xs, ys).len() ==> #[trigger] elem_of(arr_union(xs, ys)[i], xs)
                || elem_of(arr_union(xs, ys)[i], ys),
    decreases ys.len(),
{
    if ys.len() > 0 {
        let rest = ys.drop_last();
        let r0 = arr_union(xs, rest);
        let r = arr_union(xs, ys);
        lemma_arr_union_props(xs, rest);
        assert(forall|l: int| 0 <= l < rest.len() ==> #[trigger] rest[l] == ys[l]);
        assert forall|i: int|
            0 <= i < arr_union(xs, ys).len() implies #[trigger] elem_of(arr_union(xs, ys)[i], xs)
                || elem_of(arr_union(xs, ys)[i], ys) by {
            if !in_arr(ys.last(), r0) && i == r.len() - 1 {
                assert(arr_union(xs, ys)[i] == ys[ys.len() - 1]);
                assert(elem_of(arr_union(xs, ys)[i], ys));
            } else {
                assert(r[i] == r0[i]);
                assert(elem_of(r0[i], xs) || elem_of(r0[i], rest));
                if elem_of(r0[i], rest) {
                    let j0 = choose|j0: int| 0 <= j0 < rest.len() && r0[i] == rest[j0];
                    assert(arr_union(xs, ys)[i] == ys[j0]);
                    assert(elem_of(arr_union(xs, ys)[i], ys));
                } else {
                    assert(elem_of(arr_union(xs, ys)[i], xs));
                }
            }
        }
    } else {
        assert forall|i: int|
            0 <= i < arr_union(xs, ys).len() implies #[trigger] elem_of(arr_union(xs, ys)[i], xs)
                || elem_of(arr_union(xs, ys)[i], ys) by {
            assert(arr_union(xs, ys)[i] == xs[i]);
            assert(elem_of(arr_union(xs, ys)[i], xs));
        }
    }
}

/// What object difference holds, entry by entry: each kept entry carries a
/// key of the left operand, either whole (key absent on the right) or as
/// the surviving recursive difference.
proof fn lemma_diff_entries_props(
    ea: Seq<(Seq<char>, SpecValue)>,
    eb: Seq<(Seq<char>, SpecValue)>,
)
    requires
        keys_distinct(ea),
    ensures
        keys_distinct(diff_entries(ea, eb)),
        forall|l: int|
            0 <= l < diff_entries(ea, eb).len() ==> has_key(
                ea,
                #[trigger] diff_entries(ea, eb)[l].0,
            ) && ((!has_key(eb, diff_entries(ea, eb)[l].0) && diff_entries(ea, eb)[l].1 == obj_get(
                ea,
                diff_entries(ea, eb)[l].0,
            )) || (has_key(eb, diff_entries(ea, eb)[l].0) && spec_difference(
                obj_get(ea, diff_entries(ea, eb)[l].0),
                obj_get(eb, diff_entries(ea, eb)[l].0),
            ) == Some(diff_entries(ea, eb)[l].1))),
    decreases ea.len(),
{
    if ea.len() > 0 {
        let e = ea.last();
        let rest = ea.drop_last();
        let r0 = diff_entries(rest, eb);
        let r = diff_entries(ea, eb);
        lemma_keys_distinct_prefix(ea);
        lemma_diff_entries_props(rest, eb);
        assert(!has_key(rest, e.0)) by {
            if has_key(rest, e.0) {
                let i0 = choose|i0: int| 0 <= i0 < rest.len() && rest[i0].0 == e.0;
                assert(ea[i0].0 == ea[ea.len() - 1].0);
            }
        }
        assert forall|k: Seq<char>| true implies #[trigger] has_key(ea, k) == (has_key(rest, k)
            || e.0 == k) && (has_key(rest, k) ==> obj_get(ea, k) == obj_get(rest, k)) by {
            lemma_obj_get_push(rest, e, k);
            assert(rest.push(e) =~= ea);
        }
        assert(obj_get(ea, e.0) == e.1) by {
            lemma_obj_get_unique(ea, ea.len() - 1);
        }
        assert(forall|l: int| 0 <= l < r0.len() ==> has_key(rest, #[trigger] r0[l].0));
        let kept = if !has_key(eb, e.0) {
            Some(e.1)
        } else {
            spec_difference(e.1, obj_get(eb, e.0))
        };
        match kept {
            Some(w) => {
                assert(r == r0.push((e.0, w)));
                assert forall|i: int, j: int| 0 <= i < j < r.len() implies r[i].0 != r[j].0 by {
                    if j == r.len() - 1 {
                        assert(r[i] == r0[i]);
                        assert(has_key(rest, r0[i].0));
                    } else {
                        assert(r[i] == r0[i] && r[j] == r0[j]);
                    }
                }
                assert forall|l: int| 0 <= l < r.len() implies has_key(ea, #[trigger] r[l].0) && ((
                !has_key(eb, r[l].0) && r[l].1 == obj_get(ea, r[l].0)) || (has_key(eb, r[l].0)
                    && spec_difference(obj_get(ea, r[l].0), obj_get(eb, r[l].0)) == Some(
                    r[l].1,
                ))) by {
                    if l == r.len() - 1 {
                        assert(r[l] == (e.0, w));
                    } else {
                        assert(r[l] == r0[l]);
                        assert(has_key(rest, r0[l].0));
                    }
                }
            },
            None => {
                assert(r == r0);
            },
        }
    }
}

/// Every element a difference keeps is an element of the left operand.
proof fn lemma_arr_keep_out_props(xs: Seq<SpecValue>, ys: Seq<SpecValue>)
    ensures
        forall|i: int|
            0 <= i < arr_keep_out(xs, ys).len() ==> #[trigger] elem_of(
                arr_keep_out(xs, ys)[i],
                xs,
            ),
    decreases xs.len(),
{
    if xs.len() > 0 {
        let rest = xs.drop_last();
        let r0 = arr_keep_out(rest, ys);
        let r = arr_keep_out(xs, ys);
        lemma_arr_keep_out_props(rest, ys);
        assert(forall|l: int| 0 <= l < rest.len() ==> #[trigger] rest[l] == xs[l]);
        assert forall|i: int|
            0 <= i < arr_keep_out(xs, ys).len() implies #[trigger] elem_of(
            arr_keep_out(xs, ys)[i],
            xs,
        ) by {
            if !in_arr(xs.last(), ys) && i == r.len() - 1 {
                assert(r[i] == xs[xs.len() - 1]);
            } else {
                assert(r[i] == r0[i]);
                assert(elem_of(r0[i], rest));
                let j0 = choose|j0: int| 0 <= j0 < rest.len() && r0[i] == rest[j0];
                assert(r[i] == xs[j0]);
            }
        }
    }
}

/// Intersection preserves well-formedness: the result of intersecting two
/// well-formed values, when there is one, is well-formed — in particular
/// every object it contains still has distinct keys.
pub proof fn lemma_intersect_preserves_wf(a: SpecValue, b: SpecValue)
    requires
        wf(a),
        wf(b),
    ensures
        match spec_intersect(a, b) {
            Some(v) => wf(v),
            None => true,
        },
    decreases a,
{
    match (a, b) {
        (SpecValue::Obj(es), SpecValue::Obj(fs)) => {
            let r = isect_entries(es, fs);
            lemma_isect_entries_props(es, fs);
            assert forall|l: int| 0 <= l < r.len() implies wf(#[trigger] r[l].1) by {
                let k = r[l].0;
                assert(has_key(r, k));
                lemma_obj_get_unique(r, l);
                let i0 = choose|i0: int| 0 <= i0 < es.len() && es[i0].0 == k;
                lemma_obj_get_unique(es, i0);
                let j0 = choose|j0: int| 0 <= j0 < fs.len() && fs[j0].0 == k;
                lemma_obj_get_unique(fs, j0);
                lemma_intersect_preserves_wf(es[i0].1, fs[j0].1);
            }
            assert(wf(SpecValue::Obj(r)));
        },
        (SpecValue::Arr(xs), SpecValue::Arr(ys)) => {
            let r = arr_keep_in(xs, ys);
            lemma_arr_keep_in_props(xs, ys);
            assert forall|i: int| 0 <= i < r.len() implies wf(#[trigger] r[i]) by {
                let j = choose|j: int| 0 <= j < xs.len() && r[i] == xs[j] && in_arr(xs[j], ys);
                assert(wf(xs[j]));
            }
            assert(wf(SpecValue::Arr(r)));
        },
        _ => {},
    }
}

/// Union preserves well-formedness: the result of uniting two well-formed
/// values, when there is one, is well-formed.
pub proof fn lemma_union_preserves_wf(a: SpecValue, b: SpecValue)
    requires
        wf(a),
        wf(b),
    ensures
        match spec_union(a, b) {
            Some(v) => wf(v),
            None => true,
        },
    decreases a,
{
    match (a, b) {
        (SpecValue::Obj(es), SpecValue::Obj(fs)) => {
            let m = merge_entries(es, fs);
            let ad = added_entries(es, fs);
            let r = m + ad;
            lemma_merge_entries_props(es, fs);
            lemma_added_entries_props(es, fs);
            assert forall|l: int| 0 <= l < m.len() implies wf(#[trigger] m[l].1) by {
                assert(m[l] == (es[l].0, merged_value(es[l], fs)));
                if has_key(fs, es[l].0) {
                    lemma_obj_get_wf(fs, es[l].0);
                    lemma_union_preserves_wf(es[l].1, obj_get(fs, es[l].0));
                }
            }
            assert forall|l: int| 0 <= l < ad.len() implies wf(#[trigger] ad[l].1) by {
                assert(!has_key(es, ad[l].0));
                let j0 = choose|j0: int| 0 <= j0 < fs.len() && ad[l] == fs[j0];
                assert(wf(fs[j0].1));
            }
            assert(keys_distinct(r)) by {
                assert forall|i: int, j: int| 0 <= i < j < r.len() implies r[i].0 != r[j].0 by {
                    if j < m.len() {
                        assert(m[i] == (es[i].0, merged_value(es[i], fs)));
                        assert(m[j] == (es[j].0, merged_value(es[j], fs)));
                    } else if i >= m.len() {
                        assert(r[i] == ad[i - m.len()] && r[j] == ad[j - m.len()]);
                    } else {
                        assert(m[i] == (es[i].0, merged_value(es[i], fs)));
                        assert(r[j] == ad[j - m.len()]);
                        assert(!has_key(es, ad[j - m.len()].0));
                        assert(has_key(es, es[i].0));
                    }
                }
            }
            assert forall|l: int| 0 <= l < r.len() implies wf(#[trigger] r[l].1) by {
                if l < m.len() {
                    assert(r[l] == m[l]);
                } else {
                    assert(r[l] == ad[l - m.len()]);
                }
            }
            assert(wf(SpecValue::Obj(r)));
        },
        (SpecValue::Arr(xs), SpecValue::Arr(ys)) => {
            let r = arr_union(xs, ys);
            lemma_arr_union_props(xs, ys);
            assert forall|i: int| 0 <= i < r.len() implies wf(#[trigger] r[i]) by {
                assert(elem_of(r[i], xs) || elem_of(r[i], ys));
                if elem_of(r[i], xs) {
                    let j0 = choose|j0: int| 0 <= j0 < xs.len() && r[i] == xs[j0];
                    assert(wf(xs[j0]));
                } else {
                    let j0 = choose|j0: int| 0 <= j0 < ys.len() && r[i] == ys[j0];
                    assert(wf(ys[j0]));
                }
            }
            assert(wf(SpecValue::Arr(r)));
        },
        _ => {},
    }
}

/// Difference preserves well-formedness: the result of subtracting one
/// well-formed value from another, when there is one, is well-formed.
pub proof fn lemma_difference_preserves_wf(a: SpecValue, b: SpecValue)
    requires
        wf(a),
        wf(b),
    ensures
        match spec_difference(a, b) {
            Some(v) => wf(v),
            None => true,
        },
    decreases a,
{
    match (a, b) {
        (SpecValue::Obj(es), SpecValue::Obj(fs)) => {
            let r = diff_entries(es, fs);
            lemma_diff_entries_props(es, fs);
            assert forall|l: int| 0 <= l < r.len() implies wf(#[trigger] r[l].1) by {
                let k = r[l].0;
                lemma_obj_get_wf(es, k);
                if has_key(fs, k) {
                    lemma_obj_get_wf(fs, k);
                    let i0 = choose|i0: int| 0 <= i0 < es.len() && es[i0].0 == k;
                    lemma_obj_get_unique(es, i0);
                    lemma_difference_preserves_wf(es[i0].1, obj_get(fs, k));
                }
            }
            assert(wf(SpecValue::Obj(r)));
        },
        (SpecValue::Arr(xs), SpecValue::Arr(ys)) => {
            let r = arr_keep_out(xs, ys);
            lemma_arr_keep_out_props(xs, ys);
            assert forall|i: int| 0 <= i < r.len() implies wf(#[trigger] r[i]) by {
                assert(elem_of(r[i], xs));
                let j0 = choose|j0: int| 0 <= j0 < xs.len() && r[i] == xs[j0];
                assert(wf(xs[j0]));
            }
            assert(wf(SpecValue::Arr(r)));
        },
        _ => {},
    }
}

/// A fold over the empty list yields nothing, and a fold over a single
/// value yields that value unchanged, for all three operations.
pub proof fn lemma_fold_edges(v: SpecValue)
    ensures
        spec_fold_intersect(Seq::<SpecValue>::empty()) is None,
        spec_fold_union(Seq::<SpecValue>::empty()) is None,
        spec_fold_difference(Seq::<SpecValue>::empty()) is None,
        spec_fold_intersect(seq![v]) == Some(v),
        spec_fold_union(seq![v]) == Some(v),
        spec_fold_difference(seq![v]) == Some(v),
{
    assert(seq![v].len() == 1 && seq![v][0] == v);
}

} // verus!
