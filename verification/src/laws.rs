//! The algebra of the abstract-value lattice.
//!
//! This module proves the semilattice laws of `shape::merge_shape` — the
//! join of the abstract-value domain — together with the supporting facts
//! about its canonical union representation: flattening into a sorted
//! sequence behaves as set union, and well-formedness is preserved.

use vstd::prelude::*;

use crate::order::{
    lemma_shape_lt_asym, lemma_shape_lt_connex, lemma_shape_lt_irrefl, lemma_shape_lt_trans,
    lemma_sorted_same_set,
};
use crate::shape::{
    atomish, flat, flatten_into, flatten_seq, insert_sorted, merge_elems, merge_props_from,
    merge_shape, props_get, props_has, props_has_from, shape_lt, sorted_strict, str_lt, union_of,
    variants, variants_seq, wf, Shape,
};

verus! {

/// Inserting into a strictly sorted sequence keeps it strictly sorted and
/// adds exactly the inserted member.
proof fn lemma_insert_sorted(s: Seq<Shape>, x: Shape)
    requires
        sorted_strict(s),
    ensures
        sorted_strict(insert_sorted(s, x)),
        forall|v: Shape| #[trigger] insert_sorted(s, x).contains(v) <==> (s.contains(v) || v == x),
    decreases s.len(),
{
    let r = insert_sorted(s, x);
    if s.len() == 0 {
        assert forall|v: Shape| #[trigger] r.contains(v) implies (s.contains(v) || v == x) by {
            let k = choose|k: int| 0 <= k < r.len() && r[k] == v;
            assert(r[0] == x);
        }
        assert(r.contains(x)) by {
            assert(r[0] == x);
        }
    } else if x == s[0] {
        assert(s.contains(x)) by {
            assert(s[0] == x);
        }
    } else if shape_lt(x, s[0]) {
        assert forall|i: int, j: int| 0 <= i < j < r.len() implies shape_lt(r[i], r[j]) by {
            assert(r[j] == s[j - 1]);
            if i == 0 {
                assert(r[0] == x);
                if j > 1 {
                    lemma_shape_lt_trans(x, s[0], s[j - 1]);
                }
            } else {
                assert(r[i] == s[i - 1]);
            }
        }
        assert forall|v: Shape| #[trigger] r.contains(v) implies (s.contains(v) || v == x) by {
            let k = choose|k: int| 0 <= k < r.len() && r[k] == v;
            if k == 0 {
                assert(r[0] == x);
            } else {
                assert(r[k] == s[k - 1]);
            }
        }
        assert forall|v: Shape| s.contains(v) || v == x implies #[trigger] r.contains(v) by {
            if v == x {
                assert(r[0] == v);
            } else {
                let k = choose|k: int| 0 <= k < s.len() && s[k] == v;
                assert(r[k + 1] == v);
            }
        }
    } else {
        lemma_shape_lt_connex(x, s[0]);
        assert(shape_lt(s[0], x));
        let tail = s.drop_first();
        assert(sorted_strict(tail)) by {
            assert forall|i: int, j: int| 0 <= i < j < tail.len() implies shape_lt(
                tail[i],
                tail[j],
            ) by {
                assert(tail[i] == s[i + 1] && tail[j] == s[j + 1]);
            }
        }
        lemma_insert_sorted(tail, x);
        let rt = insert_sorted(tail, x);
        // Everything in the recursive result is above the head.
        assert forall|v: Shape| #[trigger] rt.contains(v) implies shape_lt(s[0], v) by {
            if v == x {
            } else {
                assert(tail.contains(v));
                let k = choose|k: int| 0 <= k < tail.len() && tail[k] == v;
                assert(tail[k] == s[k + 1]);
            }
        }
        assert forall|i: int, j: int| 0 <= i < j < r.len() implies shape_lt(r[i], r[j]) by {
            assert(r[j] == rt[j - 1]);
            assert(rt.contains(rt[j - 1]));
            if i == 0 {
                assert(r[0] == s[0]);
            } else {
                assert(r[i] == rt[i - 1]);
            }
        }
        assert forall|v: Shape| #[trigger] r.contains(v) implies (s.contains(v) || v == x) by {
            let k = choose|k: int| 0 <= k < r.len() && r[k] == v;
            if k == 0 {
                assert(v == s[0]);
                assert(s[0] == s[0] && s.contains(s[0]));
            } else {
                assert(r[k] == rt[k - 1]);
                assert(rt.contains(v));
                if v != x {
                    assert(tail.contains(v));
                    let m = choose|m: int| 0 <= m < tail.len() && tail[m] == v;
                    assert(s[m + 1] == v);
                }
            }
        }
        assert forall|v: Shape| s.contains(v) || v == x implies #[trigger] r.contains(v) by {
            if v == x {
                assert(rt.contains(v));
                let m = choose|m: int| 0 <= m < rt.len() && rt[m] == v;
                assert(r[m + 1] == v);
            } else {
                let k = choose|k: int| 0 <= k < s.len() && s[k] == v;
                if k == 0 {
                    assert(r[0] == v);
                } else {
                    assert(tail[k - 1] == v);
                    assert(tail.contains(v));
                    assert(rt.contains(v));
                    let m = choose|m: int| 0 <= m < rt.len() && rt[m] == v;
                    assert(r[m + 1] == v);
                }
            }
        }
    }
}

/// Flattening a shape into a strictly sorted accumulator keeps it strictly
/// sorted and adds exactly the shape's variants.
proof fn lemma_flatten_into(acc: Seq<Shape>, v: Shape)
    requires
        sorted_strict(acc),
    ensures
        sorted_strict(flatten_into(acc, v)),
        forall|w: Shape| #[trigger]
            flatten_into(acc, v).contains(w) <==> (acc.contains(w) || variants(v).contains(w)),
    decreases v, 0int,
{
    match v {
        Shape::Union(ms) => {
            lemma_flatten_seq(acc, ms, 0);
        },
        _ => {
            lemma_insert_sorted(acc, v);
            assert(variants(v) =~= Set::empty().insert(v));
        },
    }
}

/// Every variant of a well-formed shape other than `Undefined` is itself
/// well-formed and neither `Undefined` nor a `Union`.
proof fn lemma_variants_wf(v: Shape)
    requires
        wf(v),
        !(v is Undefined),
    ensures
        forall|w: Shape| #[trigger]
            variants(v).contains(w) ==> wf(w) && !(w is Undefined) && !(w is Union),
{
    match v {
        Shape::Union(ms) => {
            assert(forall|k: int|
                0 <= k < ms.len() ==> wf(#[trigger] ms[k]) && !(ms[k] is Undefined) && !(ms[k]
                    is Union));
            lemma_variants_seq_wf(ms, 0);
            assert(variants(v) == variants_seq(ms, 0));
        },
        _ => {
            assert(variants(v) =~= Set::empty().insert(v));
        },
    }
}

/// As `lemma_variants_wf`, for the members of a well-formed union from
/// position `i` on.
proof fn lemma_variants_seq_wf(ms: Seq<Shape>, i: nat)
    requires
        forall|k: int|
            0 <= k < ms.len() ==> wf(#[trigger] ms[k]) && !(ms[k] is Undefined) && !(ms[k]
                is Union),
    ensures
        forall|w: Shape| #[trigger]
            variants_seq(ms, i).contains(w) ==> wf(w) && !(w is Undefined) && !(w is Union),
    decreases ms.len() - i,
{
    if i < ms.len() {
        lemma_variants_seq_wf(ms, i + 1);
        assert(variants_seq(ms, i) == variants(ms[i as int]) + variants_seq(ms, i + 1));
        assert(variants(ms[i as int]) =~= Set::empty().insert(ms[i as int]));
        assert forall|w: Shape| #[trigger] variants_seq(ms, i).contains(w) implies wf(w) && !(w
            is Undefined) && !(w is Union) by {
            if w != ms[i as int] {
                assert(variants_seq(ms, i + 1).contains(w));
            }
        }
    }
}

/// The union-forming join of two well-formed shapes (neither `Undefined`)
/// is well-formed, and its variants are exactly the variants of the two
/// operands.
proof fn lemma_union_of_wf(a: Shape, b: Shape)
    requires
        wf(a),
        wf(b),
        !(a is Undefined),
        !(b is Undefined),
    ensures
        wf(union_of(a, b)),
        variants(union_of(a, b)) == variants(a) + variants(b),
{
    let vs = flatten_into(flatten_into(Seq::empty(), a), b);
    lemma_flatten_into(Seq::empty(), a);
    lemma_flatten_into(flatten_into(Seq::empty(), a), b);
    lemma_variants_wf(a);
    lemma_variants_wf(b);
    assert forall|w: Shape| #[trigger] vs.contains(w) implies wf(w) && !(w is Undefined) && !(w
        is Union) by {
        assert(!Seq::<Shape>::empty().contains(w));
    }
    // The flattened sequence is not empty: it holds some variant of `a`.
    let wa: Shape = if a is Union {
        a->Union_0[0]
    } else {
        a
    };
    assert(variants(a).contains(wa)) by {
        match a {
            Shape::Union(ms) => {
                assert(variants_seq(ms, 0) == variants(ms[0]) + variants_seq(ms, 1));
                assert(variants(ms[0]) =~= Set::empty().insert(ms[0]));
            },
            _ => {
                assert(variants(a) =~= Set::empty().insert(a));
            },
        }
    }
    assert(vs.contains(wa));
    assert(vs.len() >= 1);
    if vs.len() == 1 {
        assert(union_of(a, b) == vs[0]);
        assert(vs.contains(vs[0]));
        assert(variants(vs[0]) =~= Set::empty().insert(vs[0]));
        assert(variants(union_of(a, b)) =~= variants(a) + variants(b)) by {
            assert forall|w: Shape| (variants(a) + variants(b)).contains(w) implies variants(
                vs[0],
            ).contains(w) by {
                assert(vs.contains(w));
                let k = choose|k: int| 0 <= k < vs.len() && vs[k] == w;
                assert(k == 0);
            }
        }
    } else {
        let u = union_of(a, b);
        assert(u == Shape::Union(vs));
        assert(wf(u)) by {
            assert(vs.len() >= 2);
            assert(forall|i: int, j: int|
                0 <= i < j < vs.len() ==> shape_lt(#[trigger] vs[i], #[trigger] vs[j]));
            assert forall|i: int| 0 <= i < vs.len() implies wf(#[trigger] vs[i]) && !(vs[i]
                is Undefined) && !(vs[i] is Union) by {
                assert(vs.contains(vs[i]));
            }
        }
        assert(variants(u) == variants_seq(vs, 0));
        lemma_variants_seq_of_sorted(vs, 0);
        assert forall|w: Shape| #[trigger] variants(u).contains(w) implies (variants(a) + variants(
            b,
        )).contains(w) by {
            assert(variants_seq(vs, 0).contains(w));
            let k = choose|k: int| 0 <= k < vs.len() && vs[k] == w;
            assert(vs.contains(w));
        }
        assert forall|w: Shape| (variants(a) + variants(b)).contains(w) implies #[trigger] variants(
            u,
        ).contains(w) by {
            assert(vs.contains(w));
            let k = choose|k: int| 0 <= k < vs.len() && vs[k] == w;
            assert(exists|m: int| 0 <= m < vs.len() && vs[m] == w);
            assert(variants_seq(vs, 0).contains(w));
        }
        assert(variants(u) =~= variants(a) + variants(b));
    }
}

/// The variants of a sequence of non-union shapes, from `i` on, are just
/// its members.
proof fn lemma_variants_seq_of_sorted(vs: Seq<Shape>, i: nat)
    requires
        forall|k: int| 0 <= k < vs.len() ==> !((#[trigger] vs[k]) is Union),
    ensures
        forall|w: Shape| #[trigger]
            variants_seq(vs, i).contains(w) <==> exists|k: int| i <= k < vs.len() && vs[k] == w,
    decreases vs.len() - i,
{
    if i < vs.len() {
        lemma_variants_seq_of_sorted(vs, i + 1);
        assert(variants(vs[i as int]) =~= Set::empty().insert(vs[i as int]));
        assert(variants_seq(vs, i) == variants(vs[i as int]) + variants_seq(vs, i + 1));
        assert forall|w: Shape| #[trigger] variants_seq(vs, i).contains(w) implies exists|k: int|
            i <= k < vs.len() && vs[k] == w by {
            if w == vs[i as int] {
                assert(i <= i < vs.len() && vs[i as int] == w);
            } else {
                assert(variants_seq(vs, i + 1).contains(w));
                let k = choose|k: int| i + 1 <= k < vs.len() && vs[k] == w;
                assert(i <= k < vs.len() && vs[k] == w);
            }
        }
        assert forall|w: Shape| (exists|k: int| i <= k < vs.len() && vs[k] == w) implies #[trigger]
            variants_seq(vs, i).contains(w) by {
            let k = choose|k: int| i <= k < vs.len() && vs[k] == w;
            if k == i {
                assert(variants(vs[i as int]).contains(w));
            } else {
                assert(i + 1 <= k < vs.len() && vs[k] == w);
                assert(variants_seq(vs, i + 1).contains(w));
            }
        }
    }
}

/// Flattening the members of a union, from position `i` on, keeps the
/// accumulator strictly sorted and adds exactly those members' variants.
proof fn lemma_flatten_seq(acc: Seq<Shape>, ms: Seq<Shape>, i: nat)
    requires
        sorted_strict(acc),
    ensures
        sorted_strict(flatten_seq(acc, ms, i)),
        forall|w: Shape| #[trigger]
            flatten_seq(acc, ms, i).contains(w) <==> (acc.contains(w) || variants_seq(
                ms,
                i,
            ).contains(w)),
    decreases ms, ms.len() - i,
{
    if i >= ms.len() {
    } else {
        lemma_flatten_into(acc, ms[i as int]);
        lemma_flatten_seq(flatten_into(acc, ms[i as int]), ms, i + 1);
    }
}

/// Whether the keys of a property sequence are strictly sorted.
pub open spec fn keys_sorted(ps: Seq<(Seq<char>, Shape)>) -> bool {
    forall|i: int, j: int|
        0 <= i < j < ps.len() ==> str_lt((#[trigger] ps[i]).0, (#[trigger] ps[j]).0)
}

/// The union-forming join does not depend on the order of its operands.
proof fn lemma_union_of_comm(a: Shape, b: Shape)
    ensures
        union_of(a, b) == union_of(b, a),
{
    let v1 = flatten_into(flatten_into(Seq::empty(), a), b);
    let v2 = flatten_into(flatten_into(Seq::empty(), b), a);
    lemma_flatten_into(Seq::empty(), a);
    lemma_flatten_into(flatten_into(Seq::empty(), a), b);
    lemma_flatten_into(Seq::empty(), b);
    lemma_flatten_into(flatten_into(Seq::empty(), b), a);
    assert(v1.to_set() =~= v2.to_set()) by {
        assert forall|w: Shape| #[trigger] v1.contains(w) implies v2.contains(w) by {
            assert(!Seq::<Shape>::empty().contains(w));
        }
        assert forall|w: Shape| #[trigger] v2.contains(w) implies v1.contains(w) by {
            assert(!Seq::<Shape>::empty().contains(w));
        }
    }
    lemma_sorted_same_set(v1, v2);
}

/// The join of two arrays' element sequences does not depend on the order
/// of its operands.
proof fn lemma_merge_elems_comm(x: Seq<Shape>, y: Seq<Shape>)
    ensures
        merge_elems(x, y) == merge_elems(y, x),
    decreases x, y, 0int,
{
    assert forall|i: int| 0 <= i < merge_elems(x, y).len() implies merge_elems(x, y)[i]
        == merge_elems(y, x)[i] by {
        if i < x.len() && i < y.len() {
            lemma_merge_comm(x[i], y[i]);
        }
    }
    assert(merge_elems(x, y) =~= merge_elems(y, x));
}

/// The keywise join of two property sequences does not depend on the order
/// of its operands.
proof fn lemma_merge_props_comm(
    x: Seq<(Seq<char>, Shape)>,
    y: Seq<(Seq<char>, Shape)>,
    i: nat,
    j: nat,
)
    ensures
        merge_props_from(x, y, i, j) == merge_props_from(y, x, j, i),
    decreases
            x,
            y,
            (if i <= x.len() {
                x.len() - i
            } else {
                0
            }) + (if j <= y.len() {
                y.len() - j
            } else {
                0
            }),
{
    if i >= x.len() && j >= y.len() {
    } else if i < x.len() && (j >= y.len() || str_lt(x[i as int].0, y[j as int].0)) {
        if j < y.len() {
            crate::order::lemma_str_lt_asym(x[i as int].0, y[j as int].0);
        }
        lemma_merge_props_comm(x, y, i + 1, j);
    } else if j < y.len() && (i >= x.len() || str_lt(y[j as int].0, x[i as int].0)) {
        lemma_merge_props_comm(x, y, i, j + 1);
    } else {
        // Both in range, neither key less: the keys are equal.
        crate::order::lemma_str_lt_connex(x[i as int].0, y[j as int].0);
        assert(x[i as int].0 == y[j as int].0);
        lemma_merge_comm(x[i as int].1, y[j as int].1);
        lemma_merge_props_comm(x, y, i + 1, j + 1);
    }
}

/// The join is commutative: for all values `a`, `b`,
/// `merge(a, b) == merge(b, a)`.
pub proof fn lemma_merge_comm(a: Shape, b: Shape)
    ensures
        merge_shape(a, b) == merge_shape(b, a),
    decreases a, b, 1int,
{
    if a == b {
    } else if a is Undefined || b is Undefined {
    } else {
        match (a, b) {
            (Shape::Array(x), Shape::Array(y)) => {
                lemma_merge_elems_comm(x, y);
            },
            (Shape::Object(x), Shape::Object(y)) => {
                lemma_merge_props_comm(x, y, 0, 0);
            },
            _ => {
                lemma_union_of_comm(a, b);
            },
        }
    }
}

/// The keywise join of two key-sorted property sequences with well-formed
/// values is key-sorted with well-formed values, and every key of the
/// result is a key of one of the operands.
proof fn lemma_merge_props_wf(
    x: Seq<(Seq<char>, Shape)>,
    y: Seq<(Seq<char>, Shape)>,
    i: nat,
    j: nat,
)
    requires
        keys_sorted(x),
        keys_sorted(y),
        forall|k: int| 0 <= k < x.len() ==> wf((#[trigger] x[k]).1),
        forall|k: int| 0 <= k < y.len() ==> wf((#[trigger] y[k]).1),
    ensures
        keys_sorted(merge_props_from(x, y, i, j)),
        forall|k: int|
            0 <= k < merge_props_from(x, y, i, j).len() ==> wf(
                (#[trigger] merge_props_from(x, y, i, j)[k]).1,
            ),
        forall|k: int|
            0 <= k < merge_props_from(x, y, i, j).len() ==> (exists|l: int|
                i <= l < x.len() && x[l].0 == (#[trigger] merge_props_from(x, y, i, j)[k]).0)
                || (exists|l: int|
                j <= l < y.len() && y[l].0 == merge_props_from(x, y, i, j)[k].0),
    decreases
            x,
            y,
            (if i <= x.len() {
                x.len() - i
            } else {
                0
            }) + (if j <= y.len() {
                y.len() - j
            } else {
                0
            }),
{
    let r = merge_props_from(x, y, i, j);
    if i >= x.len() && j >= y.len() {
    } else if i < x.len() && (j >= y.len() || str_lt(x[i as int].0, y[j as int].0)) {
        lemma_merge_props_wf(x, y, i + 1, j);
        let rest = merge_props_from(x, y, i + 1, j);
        assert(r == seq![x[i as int]] + rest);
        assert forall|k: int| 0 <= k < rest.len() implies str_lt(
            x[i as int].0,
            (#[trigger] rest[k]).0,
        ) by {
            if exists|l: int| i + 1 <= l < x.len() && x[l].0 == rest[k].0 {
                let l = choose|l: int| i + 1 <= l < x.len() && x[l].0 == rest[k].0;
            } else {
                let l = choose|l: int| j <= l < y.len() && y[l].0 == rest[k].0;
                if j < y.len() && l > j {
                    crate::order::lemma_str_lt_trans(x[i as int].0, y[j as int].0, y[l].0);
                }
            }
        }
        assert forall|k1: int, k2: int| 0 <= k1 < k2 < r.len() implies str_lt(
            (#[trigger] r[k1]).0,
            (#[trigger] r[k2]).0,
        ) by {
            assert(r[k2] == rest[k2 - 1]);
            if k1 > 0 {
                assert(r[k1] == rest[k1 - 1]);
            }
        }
        assert forall|k: int| 0 <= k < r.len() implies wf((#[trigger] r[k]).1) by {
            if k > 0 {
                assert(r[k] == rest[k - 1]);
            }
        }
        assert forall|k: int| 0 <= k < r.len() implies (exists|l: int|
            i <= l < x.len() && x[l].0 == (#[trigger] r[k]).0) || (exists|l: int|
            j <= l < y.len() && y[l].0 == r[k].0) by {
            if k == 0 {
                assert(i <= i < x.len() && x[i as int].0 == r[0].0);
            } else {
                assert(r[k] == rest[k - 1]);
            }
        }
    } else if j < y.len() && (i >= x.len() || str_lt(y[j as int].0, x[i as int].0)) {
        lemma_merge_props_wf(x, y, i, j + 1);
        let rest = merge_props_from(x, y, i, j + 1);
        assert(r == seq![y[j as int]] + rest);
        assert forall|k: int| 0 <= k < rest.len() implies str_lt(
            y[j as int].0,
            (#[trigger] rest[k]).0,
        ) by {
            if exists|l: int| j + 1 <= l < y.len() && y[l].0 == rest[k].0 {
                let l = choose|l: int| j + 1 <= l < y.len() && y[l].0 == rest[k].0;
            } else {
                let l = choose|l: int| i <= l < x.len() && x[l].0 == rest[k].0;
                if i < x.len() && l > i {
                    crate::order::lemma_str_lt_trans(y[j as int].0, x[i as int].0, x[l].0);
                }
            }
        }
        assert forall|k1: int, k2: int| 0 <= k1 < k2 < r.len() implies str_lt(
            (#[trigger] r[k1]).0,
            (#[trigger] r[k2]).0,
        ) by {
            assert(r[k2] == rest[k2 - 1]);
            if k1 > 0 {
                assert(r[k1] == rest[k1 - 1]);
            }
        }
        assert forall|k: int| 0 <= k < r.len() implies wf((#[trigger] r[k]).1) by {
            if k > 0 {
                assert(r[k] == rest[k - 1]);
            }
        }
        assert forall|k: int| 0 <= k < r.len() implies (exists|l: int|
            i <= l < x.len() && x[l].0 == (#[trigger] r[k]).0) || (exists|l: int|
            j <= l < y.len() && y[l].0 == r[k].0) by {
            if k == 0 {
                assert(j <= j < y.len() && y[j as int].0 == r[0].0);
            } else {
                assert(r[k] == rest[k - 1]);
            }
        }
    } else {
        crate::order::lemma_str_lt_connex(x[i as int].0, y[j as int].0);
        assert(x[i as int].0 == y[j as int].0);
        lemma_merge_wf(x[i as int].1, y[j as int].1);
        lemma_merge_props_wf(x, y, i + 1, j + 1);
        let rest = merge_props_from(x, y, i + 1, j + 1);
        let head = (x[i as int].0, merge_shape(x[i as int].1, y[j as int].1));
        assert(r == seq![head] + rest);
        assert forall|k: int| 0 <= k < rest.len() implies str_lt(head.0, (#[trigger] rest[k]).0) by {
            if exists|l: int| i + 1 <= l < x.len() && x[l].0 == rest[k].0 {
                let l = choose|l: int| i + 1 <= l < x.len() && x[l].0 == rest[k].0;
            } else {
                let l = choose|l: int| j + 1 <= l < y.len() && y[l].0 == rest[k].0;
            }
        }
        assert forall|k1: int, k2: int| 0 <= k1 < k2 < r.len() implies str_lt(
            (#[trigger] r[k1]).0,
            (#[trigger] r[k2]).0,
        ) by {
            assert(r[k2] == rest[k2 - 1]);
            if k1 > 0 {
                assert(r[k1] == rest[k1 - 1]);
            }
        }
        assert forall|k: int| 0 <= k < r.len() implies wf((#[trigger] r[k]).1) by {
            if k > 0 {
                assert(r[k] == rest[k - 1]);
            }
        }
        assert forall|k: int| 0 <= k < r.len() implies (exists|l: int|
            i <= l < x.len() && x[l].0 == (#[trigger] r[k]).0) || (exists|l: int|
            j <= l < y.len() && y[l].0 == r[k].0) by {
            if k == 0 {
                assert(i <= i < x.len() && x[i as int].0 == r[0].0);
            } else {
                assert(r[k] == rest[k - 1]);
            }
        }
    }
}

/// The join of two well-formed shapes is well-formed: canonical form is
/// preserved by merging.
pub proof fn lemma_merge_wf(a: Shape, b: Shape)
    requires
        wf(a),
        wf(b),
    ensures
        wf(merge_shape(a, b)),
    decreases a, b, 1int,
{
    if a == b {
    } else if a is Undefined {
    } else if b is Undefined {
    } else {
        match (a, b) {
            (Shape::Array(x), Shape::Array(y)) => {
                let r = merge_elems(x, y);
                assert forall|i: int| 0 <= i < r.len() implies wf(#[trigger] r[i]) by {
                    if i < x.len() && i < y.len() {
                        lemma_merge_wf(x[i], y[i]);
                    }
                }
            },
            (Shape::Object(x), Shape::Object(y)) => {
                lemma_merge_props_wf(x, y, 0, 0);
            },
            _ => {
                lemma_union_of_wf(a, b);
            },
        }
    }
}

/// `Undefined` is the identity of the join: for every value `a`,
/// `merge(a, Undefined) == a` and `merge(Undefined, a) == a`.
pub proof fn lemma_merge_identity(a: Shape)
    ensures
        merge_shape(a, Shape::Undefined) == a,
        merge_shape(Shape::Undefined, a) == a,
{
}

/// The join is idempotent: for every value `a`, `merge(a, a) == a`.
pub proof fn lemma_merge_idempotent(a: Shape)
    ensures
        merge_shape(a, a) == a,
{
}

/// Joining two arrays gives an array of the longer length whose slots
/// are the joins of the operands' slots, a missing slot joining as
/// `Undefined`.
pub proof fn lemma_merge_arrays(x: Seq<Shape>, y: Seq<Shape>)
    ensures
        merge_shape(Shape::Array(x), Shape::Array(y)) is Array,
        merge_shape(Shape::Array(x), Shape::Array(y))->Array_0.len() == if x.len() >= y.len() {
            x.len()
        } else {
            y.len()
        },
        forall|i: int|
            0 <= i < merge_shape(Shape::Array(x), Shape::Array(y))->Array_0.len()
                ==> (#[trigger] merge_shape(Shape::Array(x), Shape::Array(y))->Array_0[i])
                == merge_shape(
                if i < x.len() {
                    x[i]
                } else {
                    Shape::Undefined
                },
                if i < y.len() {
                    y[i]
                } else {
                    Shape::Undefined
                },
            ),
{
    let a = Shape::Array(x);
    let b = Shape::Array(y);
    if a == b {
        assert(merge_shape(a, b) == a);
        assert forall|i: int| 0 <= i < x.len() implies #[trigger] x[i] == merge_shape(
            x[i],
            y[i],
        ) by {
            lemma_merge_idempotent(x[i]);
        }
    } else {
        assert(merge_shape(a, b) == Shape::Array(merge_elems(x, y)));
        assert forall|i: int| 0 <= i < merge_elems(x, y).len() implies #[trigger] merge_elems(
            x,
            y,
        )[i] == merge_shape(
            if i < x.len() {
                x[i]
            } else {
                Shape::Undefined
            },
            if i < y.len() {
                y[i]
            } else {
                Shape::Undefined
            },
        ) by {
            if i < x.len() && i < y.len() {
            } else if i < x.len() {
                assert(merge_shape(x[i], Shape::Undefined) == x[i]);
            } else {
                assert(merge_shape(Shape::Undefined, y[i]) == y[i]);
            }
        }
    }
}

/// In a key-sorted property sequence the property at any index is the one
/// its key looks up.
proof fn lemma_props_get_at(ps: Seq<(Seq<char>, Shape)>, l: int)
    requires
        keys_sorted(ps),
        0 <= l < ps.len(),
    ensures
        props_has(ps, ps[l].0),
        props_get(ps, ps[l].0) == ps[l].1,
{
    assert(props_has(ps, ps[l].0)) by {
        assert(0 <= l < ps.len() && ps[l].0 == ps[l].0);
    }
    let m = choose|m: int| 0 <= m < ps.len() && ps[m].0 == ps[l].0;
    if m != l {
        crate::order::lemma_str_lt_asym(ps[l].0, ps[l].0);
        if m < l {
            assert(str_lt(ps[m].0, ps[l].0));
        } else {
            assert(str_lt(ps[l].0, ps[m].0));
        }
    }
}

/// Looking up a key in a key-sorted property sequence with an explicit
/// head: the head's key finds the head, any other key is looked up in the
/// tail.
proof fn lemma_props_cons(h: (Seq<char>, Shape), t: Seq<(Seq<char>, Shape)>)
    requires
        keys_sorted(seq![h] + t),
    ensures
        forall|k: Seq<char>| #[trigger]
            props_has(seq![h] + t, k) <==> (k == h.0 || props_has(t, k)),
        props_get(seq![h] + t, h.0) == h.1,
        forall|k: Seq<char>|
            k != h.0 && props_has(t, k) ==> #[trigger] props_get(seq![h] + t, k) == props_get(t, k),
{
    let r = seq![h] + t;
    assert(r[0] == h);
    assert forall|k: Seq<char>| #[trigger] props_has(r, k) implies (k == h.0 || props_has(
        t,
        k,
    )) by {
        let l = choose|l: int| 0 <= l < r.len() && r[l].0 == k;
        if l > 0 {
            assert(r[l] == t[l - 1]);
            assert(0 <= l - 1 < t.len() && t[l - 1].0 == k);
        }
    }
    assert forall|k: Seq<char>| k == h.0 || props_has(t, k) implies #[trigger] props_has(
        r,
        k,
    ) by {
        if k == h.0 {
            assert(0 <= 0 < r.len() && r[0].0 == k);
        } else {
            let l = choose|l: int| 0 <= l < t.len() && t[l].0 == k;
            assert(r[l + 1] == t[l]);
            assert(0 <= l + 1 < r.len() && r[l + 1].0 == k);
        }
    }
    lemma_props_get_at(r, 0);
    assert forall|k: Seq<char>| k != h.0 && props_has(t, k) implies #[trigger] props_get(r, k)
        == props_get(t, k) by {
        let l = choose|l: int| 0 <= l < t.len() && t[l].0 == k;
        assert(r[l + 1] == t[l]);
        lemma_props_get_at(r, l + 1);
        assert(keys_sorted(t)) by {
            assert forall|i: int, j: int| 0 <= i < j < t.len() implies str_lt(
                (#[trigger] t[i]).0,
                (#[trigger] t[j]).0,
            ) by {
                assert(t[i] == r[i + 1] && t[j] == r[j + 1]);
            }
        }
        lemma_props_get_at(t, l);
    }
}

/// The keywise join looks up as the union of its operands' keys: a key on
/// both sides maps to the join of the two values, a key on one side keeps
/// its value.
proof fn lemma_merge_props_lookup(
    x: Seq<(Seq<char>, Shape)>,
    y: Seq<(Seq<char>, Shape)>,
    i: nat,
    j: nat,
)
    requires
        keys_sorted(x),
        keys_sorted(y),
        forall|k: int| 0 <= k < x.len() ==> wf((#[trigger] x[k]).1),
        forall|k: int| 0 <= k < y.len() ==> wf((#[trigger] y[k]).1),
    ensures
        forall|k: Seq<char>| #[trigger]
            props_has(merge_props_from(x, y, i, j), k) <==> (props_has_from(x, i, k)
                || props_has_from(y, j, k)),
        forall|k: Seq<char>|
            props_has_from(x, i, k) && props_has_from(y, j, k) ==> #[trigger] props_get(
                merge_props_from(x, y, i, j),
                k,
            ) == merge_shape(props_get(x, k), props_get(y, k)),
        forall|k: Seq<char>|
            props_has_from(x, i, k) && !props_has_from(y, j, k) ==> #[trigger] props_get(
                merge_props_from(x, y, i, j),
                k,
            ) == props_get(x, k),
        forall|k: Seq<char>|
            !props_has_from(x, i, k) && props_has_from(y, j, k) ==> #[trigger] props_get(
                merge_props_from(x, y, i, j),
                k,
            ) == props_get(y, k),
    decreases
            x,
            y,
            (if i <= x.len() {
                x.len() - i
            } else {
                0
            }) + (if j <= y.len() {
                y.len() - j
            } else {
                0
            }),
{
    let r = merge_props_from(x, y, i, j);
    lemma_merge_props_wf(x, y, i, j);
    if i >= x.len() && j >= y.len() {
        assert forall|k: Seq<char>| !(#[trigger] props_has(r, k)) by {
            if props_has(r, k) {
                let l = choose|l: int| 0 <= l < r.len() && r[l].0 == k;
            }
        }
    } else if i < x.len() && (j >= y.len() || str_lt(x[i as int].0, y[j as int].0)) {
        let h = x[i as int];
        let rest = merge_props_from(x, y, i + 1, j);
        assert(r == seq![h] + rest);
        lemma_merge_props_lookup(x, y, i + 1, j);
        lemma_props_cons(h, rest);
        // The head's key occurs nowhere from `j` on in `y`.
        assert(!props_has_from(y, j, h.0)) by {
            if props_has_from(y, j, h.0) {
                let l = choose|l: int| j <= l < y.len() && y[l].0 == h.0;
                assert(str_lt(h.0, y[j as int].0));
                if l > j {
                    crate::order::lemma_str_lt_trans(h.0, y[j as int].0, y[l].0);
                }
                crate::order::lemma_str_lt_asym(h.0, h.0);
            }
        }
        lemma_props_get_at(x, i as int);
        assert forall|k: Seq<char>| #[trigger] props_has_from(x, i, k) implies (k == h.0
            || props_has_from(x, i + 1, k)) by {
            let l = choose|l: int| i <= l < x.len() && x[l].0 == k;
            if l != i {
                assert(i + 1 <= l < x.len() && x[l].0 == k);
            }
        }
        assert forall|k: Seq<char>| k == h.0 || props_has_from(x, i + 1, k) implies #[trigger]
            props_has_from(x, i, k) by {
            if k == h.0 {
                assert(i <= i < x.len() && x[i as int].0 == k);
            } else {
                let l = choose|l: int| i + 1 <= l < x.len() && x[l].0 == k;
                assert(i <= l < x.len() && x[l].0 == k);
            }
        }
        assert forall|k: Seq<char>|
            props_has_from(x, i, k) && props_has_from(y, j, k) implies #[trigger] props_get(r, k)
            == merge_shape(props_get(x, k), props_get(y, k)) by {
            assert(k != h.0);
            assert(props_has_from(x, i + 1, k));
            assert(props_has(rest, k));
        }
        assert forall|k: Seq<char>|
            props_has_from(x, i, k) && !props_has_from(y, j, k) implies #[trigger] props_get(r, k)
            == props_get(x, k) by {
            if k == h.0 {
            } else {
                assert(props_has_from(x, i + 1, k));
                assert(props_has(rest, k));
            }
        }
        assert forall|k: Seq<char>|
            !props_has_from(x, i, k) && props_has_from(y, j, k) implies #[trigger] props_get(r, k)
            == props_get(y, k) by {
            assert(k != h.0);
            assert(props_has(rest, k));
        }
    } else if j < y.len() && (i >= x.len() || str_lt(y[j as int].0, x[i as int].0)) {
        let h = y[j as int];
        let rest = merge_props_from(x, y, i, j + 1);
        assert(r == seq![h] + rest);
        lemma_merge_props_lookup(x, y, i, j + 1);
        lemma_props_cons(h, rest);
        assert(!props_has_from(x, i, h.0)) by {
            if props_has_from(x, i, h.0) {
                let l = choose|l: int| i <= l < x.len() && x[l].0 == h.0;
                assert(str_lt(h.0, x[i as int].0));
                if l > i {
                    crate::order::lemma_str_lt_trans(h.0, x[i as int].0, x[l].0);
                }
                crate::order::lemma_str_lt_asym(h.0, h.0);
            }
        }
        lemma_props_get_at(y, j as int);
        assert forall|k: Seq<char>| #[trigger] props_has_from(y, j, k) implies (k == h.0
            || props_has_from(y, j + 1, k)) by {
            let l = choose|l: int| j <= l < y.len() && y[l].0 == k;
            if l != j {
                assert(j + 1 <= l < y.len() && y[l].0 == k);
            }
        }
        assert forall|k: Seq<char>| k == h.0 || props_has_from(y, j + 1, k) implies #[trigger]
            props_has_from(y, j, k) by {
            if k == h.0 {
                assert(j <= j < y.len() && y[j as int].0 == k);
            } else {
                let l = choose|l: int| j + 1 <= l < y.len() && y[l].0 == k;
                assert(j <= l < y.len() && y[l].0 == k);
            }
        }
        assert forall|k: Seq<char>|
            props_has_from(x, i, k) && props_has_from(y, j, k) implies #[trigger] props_get(r, k)
            == merge_shape(props_get(x, k), props_get(y, k)) by {
            assert(k != h.0);
            assert(props_has_from(y, j + 1, k));
            assert(props_has(rest, k));
        }
        assert forall|k: Seq<char>|
            props_has_from(x, i, k) && !props_has_from(y, j, k) implies #[trigger] props_get(r, k)
            == props_get(x, k) by {
            assert(k != h.0);
            assert(props_has(rest, k));
        }
        assert forall|k: Seq<char>|
            !props_has_from(x, i, k) && props_has_from(y, j, k) implies #[trigger] props_get(r, k)
            == props_get(y, k) by {
            if k == h.0 {
            } else {
                assert(props_has_from(y, j + 1, k));
                assert(props_has(rest, k));
            }
        }
    } else {
        crate::order::lemma_str_lt_connex(x[i as int].0, y[j as int].0);
        assert(x[i as int].0 == y[j as int].0);
        let h = (x[i as int].0, merge_shape(x[i as int].1, y[j as int].1));
        let rest = merge_props_from(x, y, i + 1, j + 1);
        assert(r == seq![h] + rest);
        lemma_merge_props_lookup(x, y, i + 1, j + 1);
        lemma_props_cons(h, rest);
        lemma_props_get_at(x, i as int);
        lemma_props_get_at(y, j as int);
        assert forall|k: Seq<char>| #[trigger] props_has_from(x, i, k) implies (k == h.0
            || props_has_from(x, i + 1, k)) by {
            let l = choose|l: int| i <= l < x.len() && x[l].0 == k;
            if l != i {
                assert(i + 1 <= l < x.len() && x[l].0 == k);
            }
        }
        assert forall|k: Seq<char>| k == h.0 || props_has_from(x, i + 1, k) implies #[trigger]
            props_has_from(x, i, k) by {
            if k == h.0 {
                assert(i <= i < x.len() && x[i as int].0 == k);
            } else {
                let l = choose|l: int| i + 1 <= l < x.len() && x[l].0 == k;
                assert(i <= l < x.len() && x[l].0 == k);
            }
        }
        assert forall|k: Seq<char>| #[trigger] props_has_from(y, j, k) implies (k == h.0
            || props_has_from(y, j + 1, k)) by {
            let l = choose|l: int| j <= l < y.len() && y[l].0 == k;
            if l != j {
                assert(j + 1 <= l < y.len() && y[l].0 == k);
            }
        }
        assert forall|k: Seq<char>| k == h.0 || props_has_from(y, j + 1, k) implies #[trigger]
            props_has_from(y, j, k) by {
            if k == h.0 {
                assert(j <= j < y.len() && y[j as int].0 == k);
            } else {
                let l = choose|l: int| j + 1 <= l < y.len() && y[l].0 == k;
                assert(j <= l < y.len() && y[l].0 == k);
            }
        }
        assert forall|k: Seq<char>|
            props_has_from(x, i, k) && props_has_from(y, j, k) implies #[trigger] props_get(r, k)
            == merge_shape(props_get(x, k), props_get(y, k)) by {
            if k == h.0 {
                assert(props_get(r, k) == h.1);
            } else {
                assert(props_has_from(x, i + 1, k) && props_has_from(y, j + 1, k));
                assert(props_has(rest, k));
            }
        }
        assert forall|k: Seq<char>|
            props_has_from(x, i, k) && !props_has_from(y, j, k) implies #[trigger] props_get(r, k)
            == props_get(x, k) by {
            assert(k != h.0);
            assert(props_has_from(x, i + 1, k));
            assert(props_has(rest, k));
        }
        assert forall|k: Seq<char>|
            !props_has_from(x, i, k) && props_has_from(y, j, k) implies #[trigger] props_get(r, k)
            == props_get(y, k) by {
            assert(k != h.0);
            assert(props_has_from(y, j + 1, k));
            assert(props_has(rest, k));
        }
    }
}

/// Every variant of a flat shape other than `Undefined` is atomic or
/// generic.
proof fn lemma_variants_flat(v: Shape)
    requires
        flat(v),
        !(v is Undefined),
    ensures
        forall|w: Shape| #[trigger] variants(v).contains(w) ==> atomish(w),
{
    match v {
        Shape::Union(ms) => {
            lemma_variants_seq_of_sorted(ms, 0);
            assert forall|w: Shape| #[trigger] variants(v).contains(w) implies atomish(w) by {
                assert(variants_seq(ms, 0).contains(w));
                let k = choose|k: int| 0 <= k < ms.len() && ms[k] == w;
            }
        },
        _ => {
            assert(variants(v) =~= Set::empty().insert(v));
        },
    }
}

/// On well-formed flat shapes (neither `Undefined`) the join is flat,
/// well-formed, not `Undefined`, and joins the variant sets.
proof fn lemma_merge_flat(a: Shape, b: Shape)
    requires
        wf(a),
        wf(b),
        flat(a),
        flat(b),
        !(a is Undefined),
        !(b is Undefined),
    ensures
        wf(merge_shape(a, b)),
        flat(merge_shape(a, b)),
        !(merge_shape(a, b) is Undefined),
        variants(merge_shape(a, b)) == variants(a) + variants(b),
{
    lemma_merge_wf(a, b);
    lemma_variants_flat(a);
    lemma_variants_flat(b);
    if a == b {
        assert(variants(a) =~= variants(a) + variants(b));
    } else {
        // Flat shapes are never two arrays or two objects: the join is the
        // union-forming one.
        assert(merge_shape(a, b) == union_of(a, b));
        lemma_union_of_wf(a, b);
        let u = union_of(a, b);
        lemma_variants_wf(a);
        lemma_variants_wf(b);
        match u {
            Shape::Union(vs) => {
                assert forall|i: int| 0 <= i < vs.len() implies atomish(#[trigger] vs[i]) by {
                    assert(vs.contains(vs[i]));
                    lemma_variants_seq_of_sorted(vs, 0);
                    assert(variants_seq(vs, 0).contains(vs[i]));
                    assert(variants(u).contains(vs[i]));
                }
            },
            _ => {
                assert(variants(u).contains(u)) by {
                    if !(u is Union) {
                        assert(variants(u) =~= Set::empty().insert(u));
                    }
                }
            },
        }
    }
}

/// On flat values the join is associative:
/// `merge(merge(a, b), c) == merge(a, merge(b, c))`.  Joining two arrays
/// or two objects merges them structurally, slot by slot or key by key,
/// and that structural join does not associate with union flattening; the
/// law therefore speaks of flat operands, where the join is exactly a
/// canonical set union of variants.
pub proof fn lemma_merge_assoc(a: Shape, b: Shape, c: Shape)
    requires
        wf(a),
        wf(b),
        wf(c),
        flat(a),
        flat(b),
        flat(c),
    ensures
        merge_shape(merge_shape(a, b), c) == merge_shape(a, merge_shape(b, c)),
{
    if a is Undefined {
        assert(merge_shape(a, b) == b);
        assert(merge_shape(a, merge_shape(b, c)) == merge_shape(b, c));
    } else if b is Undefined {
        assert(merge_shape(a, b) == a);
        assert(merge_shape(b, c) == c);
    } else if c is Undefined {
        assert(merge_shape(merge_shape(a, b), c) == merge_shape(a, b));
        assert(merge_shape(b, c) == b);
    } else {
        lemma_merge_flat(a, b);
        lemma_merge_flat(b, c);
        lemma_merge_flat(merge_shape(a, b), c);
        lemma_merge_flat(a, merge_shape(b, c));
        assert(variants(merge_shape(merge_shape(a, b), c)) =~= variants(
            merge_shape(a, merge_shape(b, c)),
        ));
        lemma_shape_determined_by_variants(
            merge_shape(merge_shape(a, b), c),
            merge_shape(a, merge_shape(b, c)),
        );
    }
}

/// Joining two objects takes the union of their keys: a key on both
/// sides maps to the join of the two values, a key on one side keeps its
/// value (its value joined against `Undefined` is itself).
pub proof fn lemma_merge_objects(x: Seq<(Seq<char>, Shape)>, y: Seq<(Seq<char>, Shape)>)
    requires
        wf(Shape::Object(x)),
        wf(Shape::Object(y)),
    ensures
        merge_shape(Shape::Object(x), Shape::Object(y)) is Object,
        ({
            let r = merge_shape(Shape::Object(x), Shape::Object(y))->Object_0;
            &&& forall|k: Seq<char>| #[trigger]
                props_has(r, k) <==> (props_has(x, k) || props_has(y, k))
            &&& forall|k: Seq<char>|
                props_has(x, k) && props_has(y, k) ==> #[trigger] props_get(r, k) == merge_shape(
                    props_get(x, k),
                    props_get(y, k),
                )
            &&& forall|k: Seq<char>|
                props_has(x, k) && !props_has(y, k) ==> #[trigger] props_get(r, k) == props_get(
                    x,
                    k,
                )
            &&& forall|k: Seq<char>|
                !props_has(x, k) && props_has(y, k) ==> #[trigger] props_get(r, k) == props_get(
                    y,
                    k,
                )
        }),
{
    let a = Shape::Object(x);
    let b = Shape::Object(y);
    if a == b {
        assert(merge_shape(a, b) == a);
        assert forall|k: Seq<char>| props_has(x, k) && props_has(y, k) implies #[trigger]
            props_get(x, k) == merge_shape(props_get(x, k), props_get(y, k)) by {
            lemma_merge_idempotent(props_get(x, k));
        }
    } else {
        assert(merge_shape(a, b) == Shape::Object(merge_props_from(x, y, 0, 0)));
        lemma_merge_props_lookup(x, y, 0, 0);
        assert forall|k: Seq<char>| #[trigger] props_has_from(x, 0, k) <==> props_has(x, k) by {}
        assert forall|k: Seq<char>| #[trigger] props_has_from(y, 0, k) <==> props_has(y, k) by {}
    }
}

/// Two key-sorted property sequences that look up alike are the same
/// sequence.
proof fn lemma_props_same_lookup(p: Seq<(Seq<char>, Shape)>, q: Seq<(Seq<char>, Shape)>)
    requires
        keys_sorted(p),
        keys_sorted(q),
        forall|k: Seq<char>| #[trigger] props_has(p, k) <==> props_has(q, k),
        forall|k: Seq<char>| props_has(p, k) ==> #[trigger] props_get(p, k) == props_get(q, k),
    ensures
        p == q,
    decreases p.len(),
{
    if p.len() == 0 {
        if q.len() > 0 {
            assert(props_has(q, q[0].0)) by {
                assert(0 <= 0 < q.len() && q[0].0 == q[0].0);
            }
            assert(props_has(p, q[0].0));
            let l = choose|l: int| 0 <= l < p.len() && p[l].0 == q[0].0;
            assert(false);
        }
        assert(p =~= q);
    } else if q.len() == 0 {
        assert(props_has(p, p[0].0)) by {
            assert(0 <= 0 < p.len() && p[0].0 == p[0].0);
        }
        assert(props_has(q, p[0].0));
        let l = choose|l: int| 0 <= l < q.len() && q[l].0 == p[0].0;
        assert(false);
    } else {
        // The head keys are both the unique least key present.
        assert(props_has(p, p[0].0)) by {
            assert(0 <= 0 < p.len() && p[0].0 == p[0].0);
        }
        assert(props_has(q, q[0].0)) by {
            assert(0 <= 0 < q.len() && q[0].0 == q[0].0);
        }
        if p[0].0 != q[0].0 {
            assert(props_has(q, p[0].0));
            let l = choose|l: int| 0 <= l < q.len() && q[l].0 == p[0].0;
            assert(l > 0);
            assert(str_lt(q[0].0, p[0].0));
            assert(props_has(p, q[0].0));
            let m = choose|m: int| 0 <= m < p.len() && p[m].0 == q[0].0;
            assert(m > 0);
            assert(str_lt(p[0].0, q[0].0));
            crate::order::lemma_str_lt_asym(p[0].0, q[0].0);
            assert(false);
        }
        lemma_props_get_at(p, 0);
        lemma_props_get_at(q, 0);
        assert(p[0].1 == q[0].1);
        assert(p[0] =~= q[0]);
        let p1 = p.drop_first();
        let q1 = q.drop_first();
        assert(keys_sorted(p1)) by {
            assert forall|i: int, j: int| 0 <= i < j < p1.len() implies str_lt(
                (#[trigger] p1[i]).0,
                (#[trigger] p1[j]).0,
            ) by {
                assert(p1[i] == p[i + 1] && p1[j] == p[j + 1]);
            }
        }
        assert(keys_sorted(q1)) by {
            assert forall|i: int, j: int| 0 <= i < j < q1.len() implies str_lt(
                (#[trigger] q1[i]).0,
                (#[trigger] q1[j]).0,
            ) by {
                assert(q1[i] == q[i + 1] && q1[j] == q[j + 1]);
            }
        }
        assert forall|k: Seq<char>| #[trigger] props_has(p1, k) implies props_has(q1, k) by {
            lemma_props_tail_has(p, q, k);
        }
        assert forall|k: Seq<char>| #[trigger] props_has(q1, k) implies props_has(p1, k) by {
            lemma_props_tail_has(q, p, k);
        }
        assert forall|k: Seq<char>| props_has(p1, k) implies #[trigger] props_get(p1, k)
            == props_get(q1, k) by {
            lemma_props_tail_has(p, q, k);
            let l = choose|l: int| 0 <= l < p1.len() && p1[l].0 == k;
            assert(p[l + 1] == p1[l]);
            lemma_props_get_at(p, l + 1);
            lemma_props_get_at(p1, l);
            let m = choose|m: int| 0 <= m < q1.len() && q1[m].0 == k;
            assert(q[m + 1] == q1[m]);
            lemma_props_get_at(q, m + 1);
            lemma_props_get_at(q1, m);
            assert(props_has(p, k)) by {
                assert(0 <= l + 1 < p.len() && p[l + 1].0 == k);
            }
        }
        lemma_props_same_lookup(p1, q1);
        assert forall|k: int| 0 <= k < p.len() implies p[k] == q[k] by {
            if k > 0 {
                assert(p[k] == p1[k - 1] && q[k] == q1[k - 1]);
            }
        }
        assert(p =~= q);
    }
}

/// A key found in the tail of one of two alike-looking key-sorted property
/// sequences with equal heads is found in the other's tail.
proof fn lemma_props_tail_has(p: Seq<(Seq<char>, Shape)>, q: Seq<(Seq<char>, Shape)>, k: Seq<
    char,
>)
    requires
        keys_sorted(p),
        keys_sorted(q),
        p.len() > 0,
        q.len() > 0,
        p[0].0 == q[0].0,
        forall|k2: Seq<char>| #[trigger] props_has(p, k2) <==> props_has(q, k2),
        props_has(p.drop_first(), k),
    ensures
        props_has(q.drop_first(), k),
{
    let l = choose|l: int| 0 <= l < p.drop_first().len() && p.drop_first()[l].0 == k;
    assert(p[l + 1] == p.drop_first()[l]);
    assert(str_lt(p[0].0, k));
    crate::order::lemma_str_lt_asym(p[0].0, k);
    assert(props_has(p, k)) by {
        assert(0 <= l + 1 < p.len() && p[l + 1].0 == k);
    }
    assert(props_has(q, k));
    let m = choose|m: int| 0 <= m < q.len() && q[m].0 == k;
    assert(m > 0) by {
        if m == 0 {
            assert(q[0].0 == k);
        }
    }
    assert(q.drop_first()[m - 1] == q[m]);
    assert(0 <= m - 1 < q.drop_first().len() && q.drop_first()[m - 1].0 == k);
}

/// A well-formed shape other than `Undefined` contributes at least one
/// variant.
proof fn lemma_variants_nonempty(v: Shape)
    requires
        wf(v),
        !(v is Undefined),
    ensures
        exists|w: Shape| variants(v).contains(w),
{
    match v {
        Shape::Union(ms) => {
            assert(variants_seq(ms, 0) == variants(ms[0]) + variants_seq(ms, 1));
            assert(variants(ms[0]) =~= Set::empty().insert(ms[0]));
            assert(variants(v).contains(ms[0]));
        },
        _ => {
            assert(variants(v) =~= Set::empty().insert(v));
            assert(variants(v).contains(v));
        },
    }
}

/// A well-formed shape other than `Undefined` is determined by its set of
/// variants when either side is a union or both are equal-rank leaves of
/// the union rule; used to cancel a repeated union-forming join.
proof fn lemma_union_of_absorb(a: Shape, b: Shape)
    requires
        wf(a),
        wf(b),
        !(a is Undefined),
        !(b is Undefined),
        a != b,
        !(a is Array && b is Array),
        !(a is Object && b is Object),
    ensures
        merge_shape(merge_shape(a, b), b) == merge_shape(a, b),
{
    lemma_union_of_wf(a, b);
    let c = union_of(a, b);
    assert(merge_shape(a, b) == c);
    if c == b {
    } else {
        // `c` is a union: two distinct well-formed non-`Undefined`
        // operands contribute at least two distinct variants.
        let vs = flatten_into(flatten_into(Seq::empty(), a), b);
        lemma_flatten_into(Seq::empty(), a);
        lemma_flatten_into(flatten_into(Seq::empty(), a), b);
        if vs.len() == 1 {
            // Then both operands' variant sets are the single member, so
            // both operands equal it — contradicting their distinctness.
            lemma_variants_wf(a);
            lemma_variants_wf(b);
            assert(variants(c) == variants(a) + variants(b));
            assert(c == vs[0]);
            assert(vs.contains(c));
            assert(!(c is Union) && !(c is Undefined));
            assert(variants(c) =~= Set::empty().insert(c));
            lemma_variants_nonempty(a);
            let wa = choose|w: Shape| variants(a).contains(w);
            assert((variants(a) + variants(b)).contains(wa));
            assert(wa == c);
            lemma_variants_nonempty(b);
            let wb = choose|w: Shape| variants(b).contains(w);
            assert((variants(a) + variants(b)).contains(wb));
            assert(wb == c);
            assert(variants(a) =~= variants(c)) by {
                assert forall|w: Shape| #[trigger] variants(a).contains(w) implies w == c by {
                    assert((variants(a) + variants(b)).contains(w));
                }
            }
            assert(variants(b) =~= variants(c)) by {
                assert forall|w: Shape| #[trigger] variants(b).contains(w) implies w == c by {
                    assert((variants(a) + variants(b)).contains(w));
                }
            }
            lemma_shape_determined_by_variants(a, c);
            lemma_shape_determined_by_variants(b, c);
            assert(false);
        }
        assert(c == Shape::Union(vs));
        assert(!(c is Array && b is Array) && !(c is Object && b is Object));
        assert(merge_shape(c, b) == union_of(c, b));
        lemma_union_of_wf(c, b);
        assert(variants(union_of(c, b)) == variants(c) + variants(b));
        assert(variants(c) + variants(b) =~= variants(c)) by {
            assert(variants(c) == variants(a) + variants(b));
        }
        assert(!(union_of(c, b) is Undefined)) by {
            let vs2 = flatten_into(flatten_into(Seq::empty(), c), b);
            lemma_flatten_into(Seq::empty(), c);
            lemma_flatten_into(flatten_into(Seq::empty(), c), b);
            lemma_variants_wf(c);
            lemma_variants_wf(b);
            if vs2.len() == 1 {
                assert(union_of(c, b) == vs2[0]);
                assert(vs2.contains(vs2[0]));
                assert(!Seq::<Shape>::empty().contains(vs2[0]));
            }
        }
        lemma_shape_determined_by_variants(union_of(c, b), c);
    }
}

/// Two well-formed non-`Undefined` shapes, neither one a structural merge
/// partner of the other, with the same variant set, are the same shape.
proof fn lemma_shape_determined_by_variants(u: Shape, v: Shape)
    requires
        wf(u),
        wf(v),
        !(u is Undefined),
        !(v is Undefined),
        variants(u) == variants(v),
    ensures
        u == v,
{
    match (u, v) {
        (Shape::Union(x), Shape::Union(y)) => {
            lemma_variants_seq_of_sorted(x, 0);
            lemma_variants_seq_of_sorted(y, 0);
            assert(x.to_set() =~= y.to_set()) by {
                assert forall|w: Shape| #[trigger] x.contains(w) implies y.contains(w) by {
                    let k = choose|k: int| 0 <= k < x.len() && x[k] == w;
                    assert(variants_seq(x, 0).contains(w));
                    assert(variants(u).contains(w));
                    assert(variants_seq(y, 0).contains(w));
                    let m = choose|m: int| 0 <= m < y.len() && y[m] == w;
                }
                assert forall|w: Shape| #[trigger] y.contains(w) implies x.contains(w) by {
                    let k = choose|k: int| 0 <= k < y.len() && y[k] == w;
                    assert(variants_seq(y, 0).contains(w));
                    assert(variants(v).contains(w));
                    assert(variants_seq(x, 0).contains(w));
                    let m = choose|m: int| 0 <= m < x.len() && x[m] == w;
                }
            }
            lemma_sorted_same_set(x, y);
        },
        (Shape::Union(x), _) => {
            lemma_variants_seq_of_sorted(x, 0);
            assert(variants(v) =~= Set::empty().insert(v));
            assert(variants(u).contains(x[0])) by {
                assert(variants_seq(x, 0).contains(x[0]));
            }
            assert(variants(u).contains(x[1])) by {
                assert(variants_seq(x, 0).contains(x[1]));
            }
            assert(x[0] == v && x[1] == v);
            assert(shape_lt(x[0], x[1]));
            crate::order::lemma_shape_lt_irrefl(v);
        },
        (_, Shape::Union(y)) => {
            lemma_variants_seq_of_sorted(y, 0);
            assert(variants(u) =~= Set::empty().insert(u));
            assert(variants(v).contains(y[0])) by {
                assert(variants_seq(y, 0).contains(y[0]));
            }
            assert(variants(v).contains(y[1])) by {
                assert(variants_seq(y, 0).contains(y[1]));
            }
            assert(y[0] == u && y[1] == u);
            assert(shape_lt(y[0], y[1]));
            crate::order::lemma_shape_lt_irrefl(u);
        },
        _ => {
            assert(variants(u) =~= Set::empty().insert(u));
            assert(variants(v) =~= Set::empty().insert(v));
            assert(variants(u).contains(u));
            assert(variants(v).contains(u));
        },
    }
}

/// Joining the same operand in a second time changes nothing:
/// `merge(merge(a, b), b) == merge(a, b)` on well-formed values.
#[verifier::spinoff_prover]
#[verifier::rlimit(50)]
pub proof fn lemma_merge_absorb(a: Shape, b: Shape)
    requires
        wf(a),
        wf(b),
    ensures
        merge_shape(merge_shape(a, b), b) == merge_shape(a, b),
    decreases a, b, 2int,
{
    lemma_merge_wf(a, b);
    if a == b {
    } else if a is Undefined {
        lemma_merge_idempotent(b);
    } else if b is Undefined {
    } else {
        match (a, b) {
            (Shape::Array(x), Shape::Array(y)) => {
                let c = merge_elems(x, y);
                assert(merge_shape(a, b) == Shape::Array(c));
                if Shape::Array(c) == b {
                } else {
                    assert(merge_shape(Shape::Array(c), b) == Shape::Array(merge_elems(c, y)));
                    assert forall|i: int| 0 <= i < merge_elems(c, y).len() implies #[trigger]
                        merge_elems(c, y)[i] == c[i] by {
                        if i < x.len() && i < y.len() {
                            lemma_merge_absorb(x[i], y[i]);
                        } else if i < y.len() {
                            lemma_merge_idempotent(y[i]);
                        }
                    }
                    assert(merge_elems(c, y) =~= c);
                }
            },
            (Shape::Object(x), Shape::Object(y)) => {
                let c = merge_props_from(x, y, 0, 0);
                assert(merge_shape(a, b) == Shape::Object(c));
                if Shape::Object(c) == b {
                } else {
                    lemma_merge_props_wf(x, y, 0, 0);
                    lemma_merge_props_lookup(x, y, 0, 0);
                    lemma_merge_props_wf(c, y, 0, 0);
                    lemma_merge_props_lookup(c, y, 0, 0);
                    let d = merge_props_from(c, y, 0, 0);
                    assert(merge_shape(Shape::Object(c), b) == Shape::Object(d));
                    assert forall|k: Seq<char>| props_has(d, k) implies #[trigger] props_get(d, k)
                        == props_get(c, k) by {
                        assert(props_has(c, k) || props_has(y, k));
                        assert(props_has(c, k) <==> (props_has(x, k) || props_has(y, k)));
                        if props_has(x, k) && props_has(y, k) {
                            let gx = props_get(x, k);
                            let gy = props_get(y, k);
                            assert(props_get(c, k) == merge_shape(gx, gy));
                            assert(props_has(c, k) && props_has(y, k));
                            assert(props_get(d, k) == merge_shape(props_get(c, k), gy));
                            lemma_merge_absorb(gx, gy);
                            assert(merge_shape(merge_shape(gx, gy), gy) == merge_shape(gx, gy));
                        } else if props_has(y, k) {
                            let gy = props_get(y, k);
                            assert(props_get(c, k) == gy);
                            assert(props_has(c, k) && props_has(y, k));
                            assert(props_get(d, k) == merge_shape(props_get(c, k), gy));
                            lemma_merge_idempotent(gy);
                            assert(merge_shape(gy, gy) == gy);
                        } else {
                            assert(props_has(x, k));
                            assert(props_has(c, k) && !props_has(y, k));
                            assert(props_get(d, k) == props_get(c, k));
                        }
                    }
                    assert forall|k: Seq<char>| #[trigger] props_has(d, k) implies props_has(
                        c,
                        k,
                    ) by {}
                    assert forall|k: Seq<char>| #[trigger] props_has(c, k) implies props_has(
                        d,
                        k,
                    ) by {}
                    lemma_props_same_lookup(d, c);
                }
            },
            _ => {
                lemma_union_of_absorb(a, b);
            },
        }
    }
}

/// The merge of one state into another is idempotent with respect to
/// repeated application of the same other state, when the two states'
/// variables are well-formed.
pub proof fn lemma_state_merge_absorb(a: crate::types::StateModel, b: crate::types::StateModel)
    requires
        forall|k: Seq<char>| #[trigger] a.vars.contains_key(k) ==> wf(a.vars[k]),
        forall|k: Seq<char>| #[trigger] b.vars.contains_key(k) ==> wf(b.vars[k]),
    ensures
        crate::types::state_merge(crate::types::state_merge(a, b), b) == crate::types::state_merge(
            a,
            b,
        ),
{
    let c = crate::types::state_merge(a, b);
    let d = crate::types::state_merge(c, b);
    assert forall|k: Seq<char>| #[trigger] d.vars.contains_key(k) implies d.vars[k]
        == c.vars[k] by {
        if a.vars.contains_key(k) && b.vars.contains_key(k) {
            lemma_merge_absorb(a.vars[k], b.vars[k]);
        } else if b.vars.contains_key(k) {
            lemma_merge_idempotent(b.vars[k]);
        }
    }
    assert(d.vars =~= c.vars);
    assert(d.funs =~= c.funs);
    assert(d =~= c);
}

} // verus!
