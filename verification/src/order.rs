//! The canonical order on shapes is a strict total order.
//!
//! These lemmas establish asymmetry, connexity and transitivity for
//! `shape::str_lt` and `shape::shape_lt`.  Together they make the sorted
//! union and property representations canonical: two sorted sequences with
//! the same members are equal.

use vstd::prelude::*;

use crate::shape::{
    char_lt, props_lt_from, rank, shape_lt, shapes_lt_from, sorted_strict, str_lt, Shape,
};

verus! {

/// Two character sequences never precede each other both ways.
pub proof fn lemma_str_lt_asym(a: Seq<char>, b: Seq<char>)
    ensures
        !(str_lt(a, b) && str_lt(b, a)),
    decreases a.len(),
{
    if a.len() > 0 && b.len() > 0 && a[0] == b[0] {
        lemma_str_lt_asym(a.drop_first(), b.drop_first());
    }
}

/// Two distinct character sequences precede each other one way.
pub proof fn lemma_str_lt_connex(a: Seq<char>, b: Seq<char>)
    ensures
        a == b || str_lt(a, b) || str_lt(b, a),
    decreases a.len(),
{
    if a.len() == 0 && b.len() == 0 {
        assert(a =~= b);
    }
    if a.len() > 0 && b.len() > 0 && a[0] != b[0] {
        // Distinct characters have distinct code points.
        vstd::utf8::char_u32_cast(a[0], a[0] as u32);
        vstd::utf8::char_u32_cast(b[0], b[0] as u32);
        assert(char_lt(a[0], b[0]) || char_lt(b[0], a[0]));
    }
    if a.len() > 0 && b.len() > 0 && a[0] == b[0] {
        lemma_str_lt_connex(a.drop_first(), b.drop_first());
        if a.drop_first() == b.drop_first() {
            assert(a.drop_first().len() == b.drop_first().len());
            assert(a.len() == b.len());
            assert forall|k: int| 0 <= k < a.len() implies a[k] == b[k] by {
                if k > 0 {
                    assert(a.drop_first()[k - 1] == a[k]);
                    assert(b.drop_first()[k - 1] == b[k]);
                }
            }
            assert(a =~= b);
        }
    }
}

/// The order on character sequences is transitive.
pub proof fn lemma_str_lt_trans(a: Seq<char>, b: Seq<char>, c: Seq<char>)
    requires
        str_lt(a, b),
        str_lt(b, c),
    ensures
        str_lt(a, c),
    decreases a.len(),
{
    if a.len() > 0 && b.len() > 0 && c.len() > 0 {
        if a[0] == b[0] && b[0] == c[0] {
            lemma_str_lt_trans(a.drop_first(), b.drop_first(), c.drop_first());
        }
    }
}

/// Two shapes never precede each other both ways.
pub proof fn lemma_shape_lt_asym(a: Shape, b: Shape)
    ensures
        !(shape_lt(a, b) && shape_lt(b, a)),
    decreases a, b, 0int,
{
    if rank(a) == rank(b) {
        match (a, b) {
            (Shape::Object(x), Shape::Object(y)) => {
                lemma_props_lt_asym(x, y, 0);
            },
            (Shape::Array(x), Shape::Array(y)) => {
                lemma_shapes_lt_asym(x, y, 0);
            },
            (Shape::Union(x), Shape::Union(y)) => {
                lemma_shapes_lt_asym(x, y, 0);
            },
            (Shape::Generic(n1, i1), Shape::Generic(n2, i2)) => {
                if n1 != n2 {
                    lemma_str_lt_asym(n1, n2);
                } else {
                    lemma_shape_lt_asym(*i1, *i2);
                }
            },
            _ => {},
        }
    }
}

/// Asymmetry of the lexicographic comparison of shape sequences.
pub proof fn lemma_shapes_lt_asym(x: Seq<Shape>, y: Seq<Shape>, i: nat)
    ensures
        !(shapes_lt_from(x, y, i) && shapes_lt_from(y, x, i)),
    decreases x, y, x.len() - i,
{
    if i < x.len() && i < y.len() {
        if x[i as int] != y[i as int] {
            lemma_shape_lt_asym(x[i as int], y[i as int]);
        } else {
            lemma_shapes_lt_asym(x, y, i + 1);
        }
    }
}

/// Asymmetry of the lexicographic comparison of property sequences.
pub proof fn lemma_props_lt_asym(
    x: Seq<(Seq<char>, Shape)>,
    y: Seq<(Seq<char>, Shape)>,
    i: nat,
)
    ensures
        !(props_lt_from(x, y, i) && props_lt_from(y, x, i)),
    decreases x, y, x.len() - i,
{
    if i < x.len() && i < y.len() {
        if x[i as int].0 != y[i as int].0 {
            lemma_str_lt_asym(x[i as int].0, y[i as int].0);
        } else if x[i as int].1 != y[i as int].1 {
            lemma_shape_lt_asym(x[i as int].1, y[i as int].1);
        } else {
            lemma_props_lt_asym(x, y, i + 1);
        }
    }
}

/// Two distinct shapes precede each other one way: the canonical order is
/// total.
pub proof fn lemma_shape_lt_connex(a: Shape, b: Shape)
    ensures
        a == b || shape_lt(a, b) || shape_lt(b, a),
    decreases a, b, 0int,
{
    if rank(a) == rank(b) {
        match (a, b) {
            (Shape::Object(x), Shape::Object(y)) => {
                lemma_props_lt_connex(x, y, 0);
                if !props_lt_from(x, y, 0) && !props_lt_from(y, x, 0) {
                    assert(x =~= y);
                }
            },
            (Shape::Array(x), Shape::Array(y)) => {
                lemma_shapes_lt_connex(x, y, 0);
                if !shapes_lt_from(x, y, 0) && !shapes_lt_from(y, x, 0) {
                    assert(x =~= y);
                }
            },
            (Shape::Union(x), Shape::Union(y)) => {
                lemma_shapes_lt_connex(x, y, 0);
                if !shapes_lt_from(x, y, 0) && !shapes_lt_from(y, x, 0) {
                    assert(x =~= y);
                }
            },
            (Shape::Generic(n1, i1), Shape::Generic(n2, i2)) => {
                if n1 != n2 {
                    lemma_str_lt_connex(n1, n2);
                } else {
                    lemma_shape_lt_connex(*i1, *i2);
                }
            },
            _ => {},
        }
    }
}

/// Connexity of the lexicographic comparison of shape sequences: either one
/// direction compares less, or the two suffixes from `i` on are equal.
pub proof fn lemma_shapes_lt_connex(x: Seq<Shape>, y: Seq<Shape>, i: nat)
    requires
        i <= x.len(),
        i <= y.len(),
    ensures
        shapes_lt_from(x, y, i) || shapes_lt_from(y, x, i) || (x.len() == y.len()
            && forall|k: int| i <= k < x.len() ==> x[k] == y[k]),
    decreases x, y, x.len() - i,
{
    if i < x.len() && i < y.len() {
        if x[i as int] != y[i as int] {
            lemma_shape_lt_connex(x[i as int], y[i as int]);
        } else {
            lemma_shapes_lt_connex(x, y, i + 1);
        }
    }
}

/// Connexity of the lexicographic comparison of property sequences.
pub proof fn lemma_props_lt_connex(
    x: Seq<(Seq<char>, Shape)>,
    y: Seq<(Seq<char>, Shape)>,
    i: nat,
)
    requires
        i <= x.len(),
        i <= y.len(),
    ensures
        props_lt_from(x, y, i) || props_lt_from(y, x, i) || (x.len() == y.len()
            && forall|k: int| i <= k < x.len() ==> x[k] == y[k]),
    decreases x, y, x.len() - i,
{
    if i < x.len() && i < y.len() {
        if x[i as int].0 != y[i as int].0 {
            lemma_str_lt_connex(x[i as int].0, y[i as int].0);
        } else if x[i as int].1 != y[i as int].1 {
            lemma_shape_lt_connex(x[i as int].1, y[i as int].1);
            assert(x[i as int] == y[i as int] ==> false) by {
                if x[i as int] == y[i as int] {
                    assert(x[i as int].1 == y[i as int].1);
                }
            }
        } else {
            lemma_props_lt_connex(x, y, i + 1);
            if !props_lt_from(x, y, i + 1) && !props_lt_from(y, x, i + 1) {
                assert(x[i as int] =~= y[i as int]);
            }
        }
    }
}

/// The canonical order on shapes is transitive.
pub proof fn lemma_shape_lt_trans(a: Shape, b: Shape, c: Shape)
    requires
        shape_lt(a, b),
        shape_lt(b, c),
    ensures
        shape_lt(a, c),
    decreases a, b, c, 0int,
{
    if rank(a) == rank(b) && rank(b) == rank(c) {
        match (a, b, c) {
            (Shape::Object(x), Shape::Object(y), Shape::Object(z)) => {
                lemma_props_lt_trans(x, y, z, 0);
            },
            (Shape::Array(x), Shape::Array(y), Shape::Array(z)) => {
                lemma_shapes_lt_trans(x, y, z, 0);
            },
            (Shape::Union(x), Shape::Union(y), Shape::Union(z)) => {
                lemma_shapes_lt_trans(x, y, z, 0);
            },
            (Shape::Generic(n1, i1), Shape::Generic(n2, i2), Shape::Generic(n3, i3)) => {
                if n1 != n2 && n2 != n3 {
                    lemma_str_lt_trans(n1, n2, n3);
                    if n1 == n3 {
                        lemma_str_lt_asym(n1, n2);
                    }
                } else if n1 == n2 && n2 == n3 {
                    lemma_shape_lt_trans(*i1, *i2, *i3);
                }
            },
            _ => {},
        }
    }
}

/// Transitivity of the lexicographic comparison of shape sequences.
pub proof fn lemma_shapes_lt_trans(x: Seq<Shape>, y: Seq<Shape>, z: Seq<Shape>, i: nat)
    requires
        shapes_lt_from(x, y, i),
        shapes_lt_from(y, z, i),
    ensures
        shapes_lt_from(x, z, i),
    decreases x, y, z, x.len() - i,
{
    if i < x.len() {
        if i >= y.len() {
            // shapes_lt_from(x, y, i) would be false
        } else if i >= z.len() {
            // shapes_lt_from(y, z, i) would be false
        } else {
            if x[i as int] == y[i as int] && y[i as int] == z[i as int] {
                lemma_shapes_lt_trans(x, y, z, i + 1);
            } else if x[i as int] != y[i as int] && y[i as int] != z[i as int] {
                lemma_shape_lt_trans(x[i as int], y[i as int], z[i as int]);
                if x[i as int] == z[i as int] {
                    lemma_shape_lt_asym(x[i as int], y[i as int]);
                }
            }
        }
    }
}

/// Transitivity of the lexicographic comparison of property sequences.
pub proof fn lemma_props_lt_trans(
    x: Seq<(Seq<char>, Shape)>,
    y: Seq<(Seq<char>, Shape)>,
    z: Seq<(Seq<char>, Shape)>,
    i: nat,
)
    requires
        props_lt_from(x, y, i),
        props_lt_from(y, z, i),
    ensures
        props_lt_from(x, z, i),
    decreases x, y, z, x.len() - i,
{
    if i < x.len() && i < y.len() && i < z.len() {
        let xi = x[i as int];
        let yi = y[i as int];
        let zi = z[i as int];
        if xi.0 != yi.0 && yi.0 != zi.0 {
            lemma_str_lt_trans(xi.0, yi.0, zi.0);
            if xi.0 == zi.0 {
                lemma_str_lt_asym(xi.0, yi.0);
            }
        } else if xi.0 == yi.0 && yi.0 != zi.0 {
            // keys: xi.0 == yi.0 < zi.0
        } else if xi.0 != yi.0 && yi.0 == zi.0 {
            // keys: xi.0 < yi.0 == zi.0
        } else {
            // all keys equal; compare values
            if xi.1 != yi.1 && yi.1 != zi.1 {
                lemma_shape_lt_trans(xi.1, yi.1, zi.1);
                if xi.1 == zi.1 {
                    lemma_shape_lt_asym(xi.1, yi.1);
                }
            } else if xi.1 == yi.1 && yi.1 == zi.1 {
                lemma_props_lt_trans(x, y, z, i + 1);
                if xi == zi {
                } else {
                    assert(xi.0 == zi.0 && xi.1 == zi.1);
                    assert(xi =~= zi);
                }
            }
        }
    }
}

/// The order on shapes never relates a shape to itself.
pub proof fn lemma_shape_lt_irrefl(a: Shape)
    ensures
        !shape_lt(a, a),
{
    lemma_shape_lt_asym(a, a);
}

/// A member of one of two sorted sequences with equal member sets that is
/// not the head of the other lies in the other's tail.
proof fn lemma_sorted_member_in_tail(s: Seq<Shape>, t: Seq<Shape>, v: Shape)
    requires
        t.len() > 0,
        s.contains(v),
        s.to_set() == t.to_set(),
        v != t[0],
    ensures
        t.drop_first().contains(v),
{
    assert(s.to_set().contains(v));
    assert(t.to_set().contains(v));
    assert(t.contains(v));
    let j = choose|j: int| 0 <= j < t.len() && t[j] == v;
    assert(j > 0);
    assert(t.drop_first()[j - 1] == v);
}

/// Two strictly sorted sequences with the same members are the same
/// sequence: the sorted representation of a set of shapes is canonical.
pub proof fn lemma_sorted_same_set(s: Seq<Shape>, t: Seq<Shape>)
    requires
        sorted_strict(s),
        sorted_strict(t),
        s.to_set() == t.to_set(),
    ensures
        s == t,
    decreases s.len(),
{
    if s.len() == 0 {
        if t.len() > 0 {
            assert(t.contains(t[0]));
            assert(t.to_set().contains(t[0]));
            assert(s.to_set().contains(t[0]));
            assert(s.contains(t[0]));
        }
        assert(s =~= t);
    } else if t.len() == 0 {
        assert(s.contains(s[0]));
        assert(s.to_set().contains(s[0]));
        assert(t.to_set().contains(s[0]));
        assert(t.contains(s[0]));
    } else {
        // The heads are both the unique minimum of the common member set.
        if s[0] != t[0] {
            assert(s.contains(s[0]));
            lemma_sorted_member_in_tail(s, t, s[0]);
            let js = choose|j: int| 0 <= j < t.drop_first().len() && t.drop_first()[j] == s[0];
            assert(t[js + 1] == s[0]);
            assert(shape_lt(t[0], s[0]));
            assert(t.contains(t[0]));
            lemma_sorted_member_in_tail(t, s, t[0]);
            let jt = choose|j: int| 0 <= j < s.drop_first().len() && s.drop_first()[j] == t[0];
            assert(s[jt + 1] == t[0]);
            assert(shape_lt(s[0], t[0]));
            lemma_shape_lt_asym(s[0], t[0]);
        }
        let s1 = s.drop_first();
        let t1 = t.drop_first();
        assert(sorted_strict(s1)) by {
            assert forall|i: int, j: int| 0 <= i < j < s1.len() implies shape_lt(
                s1[i],
                s1[j],
            ) by {
                assert(s1[i] == s[i + 1] && s1[j] == s[j + 1]);
            }
        }
        assert(sorted_strict(t1)) by {
            assert forall|i: int, j: int| 0 <= i < j < t1.len() implies shape_lt(
                t1[i],
                t1[j],
            ) by {
                assert(t1[i] == t[i + 1] && t1[j] == t[j + 1]);
            }
        }
        assert(s1.to_set() =~= t1.to_set()) by {
            assert forall|v: Shape| s1.to_set().contains(v) implies t1.to_set().contains(v) by {
                assert(s1.contains(v));
                let i = choose|i: int| 0 <= i < s1.len() && s1[i] == v;
                assert(s[i + 1] == v);
                assert(shape_lt(s[0], v));
                lemma_shape_lt_irrefl(s[0]);
                assert(v != t[0]);
                assert(s.contains(v));
                lemma_sorted_member_in_tail(s, t, v);
            }
            assert forall|v: Shape| t1.to_set().contains(v) implies s1.to_set().contains(v) by {
                assert(t1.contains(v));
                let i = choose|i: int| 0 <= i < t1.len() && t1[i] == v;
                assert(t[i + 1] == v);
                assert(shape_lt(t[0], v));
                lemma_shape_lt_irrefl(t[0]);
                assert(v != s[0]);
                assert(t.contains(v));
                lemma_sorted_member_in_tail(t, s, v);
            }
        }
        lemma_sorted_same_set(s1, t1);
        assert forall|k: int| 0 <= k < s.len() implies s[k] == t[k] by {
            if k > 0 {
                assert(s[k] == s1[k - 1] && t[k] == t1[k - 1]);
            }
        }
        assert(s =~= t);
    }
}

} // verus!
