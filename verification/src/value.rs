//! The tree value model: a tagged union over null, booleans, numbers,
//! strings, arrays and objects, together with its mathematical view.

use vstd::prelude::*;

verus! {

/// A numeric scalar. Integers keep their sign class; a finite floating-point
/// number is carried as its bit pattern (the caller normalizes negative zero
/// to positive zero so that bit equality coincides with numeric equality).
#[derive(Clone, Copy, PartialEq, Eq, Structural, Debug)]
pub enum Number {
    Uint(u64),
    Int(i64),
    FloatBits(u64),
}

/// A semi-structured tree value. An object is an ordered list of
/// key/value entries; well-formed objects have pairwise distinct keys.
/// The derived equality compares object entries in order; `value_eq`
/// decides member equality, which compares objects as maps.
#[derive(Debug, PartialEq)]
pub enum Value {
    Null,
    Bool(bool),
    Num(Number),
    Str(String),
    Arr(Vec<Value>),
    Obj(Vec<(String, Value)>),
}

/// The mathematical abstraction of a `Value`: strings become sequences of
/// characters, vectors become sequences.
pub enum SpecValue {
    Null,
    Bool(bool),
    Num(Number),
    Str(Seq<char>),
    Arr(Seq<SpecValue>),
    Obj(Seq<(Seq<char>, SpecValue)>),
}

/// The view of an array's element vector: each element abstracted.
pub open spec fn elems_view(es: Seq<Value>) -> Seq<SpecValue>
    decreases es,
{
    Seq::new(es.len(), |i: int| if 0 <= i < es.len() { es[i]@ } else { SpecValue::Null })
}

/// The view of an object's entry vector: each key and value abstracted.
pub open spec fn entries_view(es: Seq<(String, Value)>) -> Seq<(Seq<char>, SpecValue)>
    decreases es,
{
    Seq::new(
        es.len(),
        |i: int| if 0 <= i < es.len() { (es[i].0@, es[i].1@) } else { (Seq::empty(), SpecValue::Null) },
    )
}

impl View for Value {
    type V = SpecValue;

    open spec fn view(&self) -> SpecValue
        decreases self,
    {
        match self {
            Value::Null => SpecValue::Null,
            Value::Bool(b) => SpecValue::Bool(*b),
            Value::Num(n) => SpecValue::Num(*n),
            Value::Str(s) => SpecValue::Str(s@),
            Value::Arr(v) => SpecValue::Arr(elems_view(v@)),
            Value::Obj(v) => SpecValue::Obj(entries_view(v@)),
        }
    }
}

/// Whether some entry of `es` carries the key `k`.
pub open spec fn has_key(es: Seq<(Seq<char>, SpecValue)>, k: Seq<char>) -> bool {
    exists|i: int| 0 <= i < es.len() && es[i].0 == k
}

/// The value of the first entry of `es` carrying the key `k`
/// (`Null` when no entry does).
pub open spec fn obj_get(es: Seq<(Seq<char>, SpecValue)>, k: Seq<char>) -> SpecValue
    decreases es.len(),
{
    if es.len() == 0 {
        SpecValue::Null
    } else if es[0].0 == k {
        es[0].1
    } else {
        obj_get(es.drop_first(), k)
    }
}

/// Pairwise distinct keys in an entry sequence.
pub open spec fn keys_distinct(es: Seq<(Seq<char>, SpecValue)>) -> bool {
    forall|i: int, j: int| 0 <= i < j < es.len() ==> es[i].0 != es[j].0
}

/// Well-formedness: every object in the tree has pairwise distinct keys.
pub open spec fn wf(v: SpecValue) -> bool
    decreases v,
{
    match v {
        SpecValue::Arr(xs) => forall|i: int| 0 <= i < xs.len() ==> wf(xs[i]),
        SpecValue::Obj(es) => keys_distinct(es) && forall|i: int|
            0 <= i < es.len() ==> wf(es[i].1),
        _ => true,
    }
}

/// Structural, type-strict equality of two tree values. Scalars compare by
/// their content, arrays element by element in order, and objects as maps:
/// the same set of keys, with equal values under each key, whatever the
/// order of the entries.
pub open spec fn eq_value(a: SpecValue, b: SpecValue) -> bool
    decreases a,
{
    match (a, b) {
        (SpecValue::Null, SpecValue::Null) => true,
        (SpecValue::Bool(x), SpecValue::Bool(y)) => x == y,
        (SpecValue::Num(x), SpecValue::Num(y)) => x == y,
        (SpecValue::Str(x), SpecValue::Str(y)) => x == y,
        (SpecValue::Arr(xs), SpecValue::Arr(ys)) => xs.len() == ys.len() && (forall|i: int|
            0 <= i < xs.len() ==> eq_value(xs[i], ys[i])),
        (SpecValue::Obj(es), SpecValue::Obj(fs)) => (forall|k: Seq<char>|
            has_key(es, k) <==> has_key(fs, k)) && (forall|i: int|
            0 <= i < es.len() ==> has_key(fs, es[i].0) && eq_value(es[i].1, obj_get(fs, es[i].0))),
        _ => false,
    }
}

/// Whether `x` is member-equal to some element of `xs`.
pub open spec fn in_arr(x: SpecValue, xs: Seq<SpecValue>) -> bool {
    exists|i: int| 0 <= i < xs.len() && eq_value(x, xs[i])
}

/// A value that is neither an object nor an array.
pub open spec fn is_scalar(v: SpecValue) -> bool {
    match v {
        SpecValue::Arr(_) => false,
        SpecValue::Obj(_) => false,
        _ => true,
    }
}

/// `obj_get` returns the value of the first entry whose key matches.
proof fn lemma_obj_get_at(es: Seq<(Seq<char>, SpecValue)>, k: Seq<char>, i: int)
    requires
        0 <= i < es.len(),
        es[i].0 == k,
        forall|j: int| 0 <= j < i ==> es[j].0 != k,
    ensures
        has_key(es, k),
        obj_get(es, k) == es[i].1,
    decreases i,
{
    assert(0 <= i < es.len() && es[i].0 == k);
    if i > 0 {
        lemma_obj_get_at(es.drop_first(), k, i - 1);
    }
}

/// Content equivalence of two tree values: objects carry the same keys
/// with equivalent values under each, arrays contain the same elements up
/// to member equality (ignoring order and multiplicity), and any other
/// pair is member-equal. Member equality implies content equivalence.
pub open spec fn similar(a: SpecValue, b: SpecValue) -> bool
    decreases a,
{
    match (a, b) {
        (SpecValue::Arr(xs), SpecValue::Arr(ys)) => (forall|i: int|
            0 <= i < xs.len() ==> in_arr(xs[i], ys)) && (forall|j: int|
            0 <= j < ys.len() ==> in_arr(ys[j], xs)),
        (SpecValue::Obj(es), SpecValue::Obj(fs)) => (forall|k: Seq<char>|
            has_key(es, k) <==> has_key(fs, k)) && (forall|i: int|
            0 <= i < es.len() ==> has_key(fs, es[i].0) && similar(es[i].1, obj_get(fs, es[i].0))),
        _ => eq_value(a, b),
    }
}

/// Member equality implies content equivalence on well-formed values.
pub proof fn lemma_eq_value_similar(a: SpecValue, b: SpecValue)
    requires
        wf(a),
        wf(b),
        eq_value(a, b),
    ensures
        similar(a, b),
    decreases a,
{
    match (a, b) {
        (SpecValue::Arr(xs), SpecValue::Arr(ys)) => {
            assert forall|i: int| 0 <= i < xs.len() implies in_arr(xs[i], ys) by {
                assert(eq_value(xs[i], ys[i]));
            }
            assert forall|j: int| 0 <= j < ys.len() implies in_arr(ys[j], xs) by {
                lemma_eq_value_sym(xs[j], ys[j]);
            }
        },
        (SpecValue::Obj(es), SpecValue::Obj(fs)) => {
            assert forall|i: int|
                0 <= i < es.len() implies has_key(fs, es[i].0) && similar(
                es[i].1,
                obj_get(fs, es[i].0),
            ) by {
                let k = es[i].0;
                let j0 = choose|j0: int| 0 <= j0 < fs.len() && fs[j0].0 == k;
                lemma_obj_get_unique(fs, j0);
                lemma_eq_value_similar(es[i].1, fs[j0].1);
            }
        },
        _ => {},
    }
}

/// How `obj_get` and `has_key` behave across appending one entry: an
/// existing key keeps its value, a fresh key finds the new entry.
pub proof fn lemma_obj_get_push(es: Seq<(Seq<char>, SpecValue)>, p: (Seq<char>, SpecValue), k: Seq<char>)
    ensures
        has_key(es.push(p), k) <==> (has_key(es, k) || p.0 == k),
        has_key(es, k) ==> obj_get(es.push(p), k) == obj_get(es, k),
        !has_key(es, k) && p.0 == k ==> obj_get(es.push(p), k) == p.1,
    decreases es.len(),
{
    assert(es.push(p).last() == p);
    if es.len() == 0 {
        assert(es.push(p)[0] == p);
    } else {
        assert(es.push(p)[0] == es[0]);
        assert(es.push(p).drop_first() =~= es.drop_first().push(p));
        lemma_obj_get_push(es.drop_first(), p, k);
        if es[0].0 != k {
            assert(has_key(es, k) <==> has_key(es.drop_first(), k)) by {
                if has_key(es, k) {
                    let i0 = choose|i0: int| 0 <= i0 < es.len() && es[i0].0 == k;
                    assert(es.drop_first()[i0 - 1] == es[i0]);
                }
                if has_key(es.drop_first(), k) {
                    let i0 = choose|i0: int|
                        0 <= i0 < es.drop_first().len() && es.drop_first()[i0].0 == k;
                    assert(es[i0 + 1].0 == k);
                }
            }
        }
        assert(has_key(es.push(p), k) <==> (has_key(es, k) || p.0 == k)) by {
            if has_key(es.push(p), k) {
                let i0 = choose|i0: int| 0 <= i0 < es.push(p).len() && es.push(p)[i0].0 == k;
                if i0 < es.len() {
                    assert(es[i0].0 == k);
                }
            }
            if has_key(es, k) {
                let i0 = choose|i0: int| 0 <= i0 < es.len() && es[i0].0 == k;
                assert(es.push(p)[i0].0 == k);
            }
            if p.0 == k {
                assert(es.push(p)[es.len() as int].0 == k);
            }
        }
    }
}

/// Member equality is symmetric on well-formed values.
pub proof fn lemma_eq_value_sym(a: SpecValue, b: SpecValue)
    requires
        wf(a),
        wf(b),
        eq_value(a, b),
    ensures
        eq_value(b, a),
    decreases a,
{
    match (a, b) {
        (SpecValue::Arr(xs), SpecValue::Arr(ys)) => {
            assert forall|i: int| 0 <= i < ys.len() implies eq_value(ys[i], xs[i]) by {
                lemma_eq_value_sym(xs[i], ys[i]);
            }
        },
        (SpecValue::Obj(es), SpecValue::Obj(fs)) => {
            assert forall|j: int|
                0 <= j < fs.len() implies has_key(es, fs[j].0) && eq_value(
                fs[j].1,
                obj_get(es, fs[j].0),
            ) by {
                let k = fs[j].0;
                assert(has_key(fs, k));
                assert(has_key(es, k));
                let i0 = choose|i0: int| 0 <= i0 < es.len() && es[i0].0 == k;
                lemma_obj_get_unique(es, i0);
                lemma_obj_get_unique(fs, j);
                assert(eq_value(es[i0].1, obj_get(fs, k)));
                lemma_eq_value_sym(es[i0].1, fs[j].1);
            }
        },
        _ => {},
    }
}

/// With distinct keys, `obj_get` at any entry's key returns that entry's value.
pub proof fn lemma_obj_get_unique(es: Seq<(Seq<char>, SpecValue)>, i: int)
    requires
        keys_distinct(es),
        0 <= i < es.len(),
    ensures
        has_key(es, es[i].0),
        obj_get(es, es[i].0) == es[i].1,
{
    lemma_obj_get_at(es, es[i].0, i);
}

/// The value a well-formed object holds under any of its keys is
/// well-formed.
pub proof fn lemma_obj_get_wf(es: Seq<(Seq<char>, SpecValue)>, k: Seq<char>)
    requires
        wf(SpecValue::Obj(es)),
        has_key(es, k),
    ensures
        wf(obj_get(es, k)),
{
    let i0 = choose|i0: int| 0 <= i0 < es.len() && es[i0].0 == k;
    lemma_obj_get_unique(es, i0);
}

/// Member equality is reflexive on well-formed values.
pub proof fn lemma_eq_value_refl(v: SpecValue)
    requires
        wf(v),
    ensures
        eq_value(v, v),
    decreases v,
{
    match v {
        SpecValue::Arr(xs) => {
            assert forall|i: int| 0 <= i < xs.len() implies eq_value(xs[i], xs[i]) by {
                lemma_eq_value_refl(xs[i]);
            }
        },
        SpecValue::Obj(es) => {
            assert forall|i: int|
                0 <= i < es.len() implies has_key(es, es[i].0) && eq_value(
                es[i].1,
                obj_get(es, es[i].0),
            ) by {
                lemma_obj_get_unique(es, i);
                lemma_eq_value_refl(es[i].1);
            }
        },
        _ => {},
    }
}

impl Clone for Value {
    /// A deep copy with the same abstract value.
    #[verifier::loop_isolation(false)]
    fn clone(&self) -> (res: Value)
        ensures
            res@ == self@,
        decreases self,
    {
        match self {
            Value::Null => Value::Null,
            Value::Bool(b) => Value::Bool(*b),
            Value::Num(n) => Value::Num(*n),
            Value::Str(s) => Value::Str(s.clone()),
            Value::Arr(v) => {
                let mut out: Vec<Value> = Vec::new();
                let mut i: usize = 0;
                while i < v.len()
                    invariant
                        i <= v.len(),
                        out@.len() == i,
                        forall|j: int| 0 <= j < i ==> out@[j]@ == v@[j]@,
                    decreases v@.len() - i,
                {
                    proof {
                        assert(decreases_to!(self => *v));
                        assert(decreases_to!(*v => v@));
                        assert(decreases_to!(v@ => v@[i as int]));
                    }
                    let e = &v[i];
                    out.push(e.clone());
                    i = i + 1;
                }
                proof {
                    assert(elems_view(out@) =~= elems_view(v@));
                }
                Value::Arr(out)
            },
            Value::Obj(v) => {
                let mut out: Vec<(String, Value)> = Vec::new();
                let mut i: usize = 0;
                while i < v.len()
                    invariant
                        i <= v.len(),
                        out@.len() == i,
                        forall|j: int| 0 <= j < i ==> out@[j].0@ == v@[j].0@ && out@[j].1@
                            == v@[j].1@,
                    decreases v@.len() - i,
                {
                    proof {
                        assert(decreases_to!(self => *v));
                        assert(decreases_to!(*v => v@));
                        assert(decreases_to!(v@ => v@[i as int]));
                        assert(decreases_to!(v@[i as int] => v@[i as int].1));
                    }
                    let e = &v[i];
                    out.push((e.0.clone(), e.1.clone()));
                    i = i + 1;
                }
                proof {
                    assert(entries_view(out@) =~= entries_view(v@));
                }
                Value::Obj(out)
            },
        }
    }
}

/// Looks an object's entry list up by key: the first entry whose key
/// matches, as `obj_get` describes, or nothing when the key is absent.
#[verifier::loop_isolation(false)]
pub fn obj_lookup<'a>(es: &'a Vec<(String, Value)>, key: &String) -> (r: Option<&'a Value>)
    ensures
        match r {
            Some(v) => has_key(entries_view(es@), key@) && v@ == obj_get(
                entries_view(es@),
                key@,
            ),
            None => !has_key(entries_view(es@), key@),
        },
{
    let mut i: usize = 0;
    while i < es.len()
        invariant
            i <= es.len(),
            forall|j: int| 0 <= j < i ==> entries_view(es@)[j].0 != key@,
        decreases es@.len() - i,
    {
        let e = &es[i];
        if e.0 == *key {
            proof {
                lemma_obj_get_at(entries_view(es@), key@, i as int);
            }
            return Some(&e.1);
        }
        i = i + 1;
    }
    None
}

/// Decides member equality: structural, type-strict equality of two values.
#[verifier::loop_isolation(false)]
pub fn value_eq(a: &Value, b: &Value) -> (r: bool)
    ensures
        r == eq_value(a@, b@),
    decreases a,
{
    match (a, b) {
        (Value::Null, Value::Null) => true,
        (Value::Bool(x), Value::Bool(y)) => *x == *y,
        (Value::Num(x), Value::Num(y)) => *x == *y,
        (Value::Str(x), Value::Str(y)) => *x == *y,
        (Value::Arr(xs), Value::Arr(ys)) => {
            if xs.len() != ys.len() {
                proof {
                    assert(elems_view(xs@).len() != elems_view(ys@).len());
                }
                return false;
            }
            let mut i: usize = 0;
            while i < xs.len()
                invariant
                    i <= xs.len(),
                    xs@.len() == ys@.len(),
                    forall|j: int| 0 <= j < i ==> eq_value(elems_view(xs@)[j], elems_view(ys@)[j]),
                decreases xs@.len() - i,
            {
                proof {
                    assert(decreases_to!(a => *xs));
                    assert(decreases_to!(*xs => xs@));
                    assert(decreases_to!(xs@ => xs@[i as int]));
                }
                if !value_eq(&xs[i], &ys[i]) {
                    proof {
                        assert(!eq_value(elems_view(xs@)[i as int], elems_view(ys@)[i as int]));
                    }
                    return false;
                }
                i = i + 1;
            }
            true
        },
        (Value::Obj(xs), Value::Obj(ys)) => {
            let ghost es = entries_view(xs@);
            let ghost fs = entries_view(ys@);
            let mut i: usize = 0;
            while i < xs.len()
                invariant
                    i <= xs.len(),
                    es == entries_view(xs@),
                    fs == entries_view(ys@),
                    forall|j: int|
                        0 <= j < i ==> has_key(fs, es[j].0) && eq_value(
                            es[j].1,
                            obj_get(fs, es[j].0),
                        ),
                decreases xs@.len() - i,
            {
                proof {
                    assert(decreases_to!(a => *xs));
                    assert(decreases_to!(*xs => xs@));
                    assert(decreases_to!(xs@ => xs@[i as int]));
                    assert(decreases_to!(xs@[i as int] => xs@[i as int].1));
                }
                let e = &xs[i];
                let found = obj_lookup(ys, &e.0);
                match found {
                    Some(w) => {
                        if !value_eq(&e.1, w) {
                            proof {
                                assert(!eq_value(es[i as int].1, obj_get(fs, es[i as int].0)));
                            }
                            return false;
                        }
                    },
                    None => {
                        proof {
                            assert(!has_key(fs, es[i as int].0));
                        }
                        return false;
                    },
                }
                i = i + 1;
            }
            let mut j: usize = 0;
            while j < ys.len()
                invariant
                    j <= ys.len(),
                    es == entries_view(xs@),
                    fs == entries_view(ys@),
                    forall|l: int|
                        0 <= l < es.len() ==> has_key(fs, es[l].0) && eq_value(
                            es[l].1,
                            obj_get(fs, es[l].0),
                        ),
                    forall|l: int| 0 <= l < j ==> has_key(es, fs[l].0),
                decreases ys@.len() - j,
            {
                let f = &ys[j];
                let found = obj_lookup(xs, &f.0);
                if found.is_none() {
                    proof {
                        assert(has_key(fs, fs[j as int].0));
                        assert(!has_key(es, fs[j as int].0));
                    }
                    return false;
                }
                j = j + 1;
            }
            proof {
                assert forall|k: Seq<char>| has_key(es, k) <==> has_key(fs, k) by {
                    if has_key(es, k) {
                        let i0 = choose|i0: int| 0 <= i0 < es.len() && es[i0].0 == k;
                        assert(has_key(fs, es[i0].0));
                    }
                    if has_key(fs, k) {
                        let j0 = choose|j0: int| 0 <= j0 < fs.len() && fs[j0].0 == k;
                        assert(has_key(es, fs[j0].0));
                    }
                }
            }
            true
        },
        _ => false,
    }
}

/// Decides array membership: whether `x` is member-equal to some element.
#[verifier::loop_isolation(false)]
pub fn arr_contains(xs: &Vec<Value>, x: &Value) -> (r: bool)
    ensures
        r == in_arr(x@, elems_view(xs@)),
{
    let mut i: usize = 0;
    while i < xs.len()
        invariant
            i <= xs.len(),
            forall|j: int| 0 <= j < i ==> !eq_value(x@, elems_view(xs@)[j]),
        decreases xs@.len() - i,
    {
        if value_eq(x, &xs[i]) {
            proof {
                assert(eq_value(x@, elems_view(xs@)[i as int]));
            }
            return true;
        }
        i = i + 1;
    }
    false
}

} // verus!
