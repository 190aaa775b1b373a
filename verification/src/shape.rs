//! The mathematical model of abstract values.
//!
//! `Shape` is the specification-level mirror of `types::AbstractValue`: the
//! same tree, with mathematical sequences in place of vectors and character
//! sequences in place of strings.  This module defines the canonical total
//! order on shapes (used to keep object properties and union members in a
//! deterministic, sorted form), the well-formedness predicate for canonical
//! shapes, and the join (`merge_shape`) of the abstract-value lattice.

use vstd::prelude::*;

verus! {

/// One abstract value shape: either no information (`Undefined`), an atomic
/// shape tag, a per-key object, a per-index array, a deduplicated union of
/// variants, or a named generic parameter with its bound shape.
#[verifier::ext_equal]
pub enum Shape {
    Undefined,
    Null,
    Boolean,
    Number,
    String,
    Object(Seq<(Seq<char>, Shape)>),
    Array(Seq<Shape>),
    Union(Seq<Shape>),
    Generic(Seq<char>, Box<Shape>),
}

/// Strict order on characters, by Unicode code point.
pub open spec fn char_lt(a: char, b: char) -> bool {
    (a as u32) < (b as u32)
}

/// Strict lexicographic order on character sequences, by code point; a
/// proper prefix comes before its extensions.  This is the order in which
/// object properties are kept.
pub open spec fn str_lt(a: Seq<char>, b: Seq<char>) -> bool
    decreases a.len(),
{
    if b.len() == 0 {
        false
    } else if a.len() == 0 {
        true
    } else if a[0] != b[0] {
        char_lt(a[0], b[0])
    } else {
        str_lt(a.drop_first(), b.drop_first())
    }
}

/// The rank of a shape's outermost constructor; shapes of different
/// constructors are ordered by rank.
pub open spec fn rank(s: Shape) -> int {
    match s {
        Shape::Undefined => 0,
        Shape::Null => 1,
        Shape::Boolean => 2,
        Shape::Number => 3,
        Shape::String => 4,
        Shape::Object(_) => 5,
        Shape::Array(_) => 6,
        Shape::Union(_) => 7,
        Shape::Generic(_, _) => 8,
    }
}

/// Strict canonical order on shapes: by rank first, then structurally
/// (lexicographically) within one constructor.  Union members are kept
/// sorted by this order, which makes the union representation canonical.
pub open spec fn shape_lt(a: Shape, b: Shape) -> bool
    decreases a, b, 0int,
{
    if rank(a) != rank(b) {
        rank(a) < rank(b)
    } else {
        match (a, b) {
            (Shape::Object(x), Shape::Object(y)) => props_lt_from(x, y, 0),
            (Shape::Array(x), Shape::Array(y)) => shapes_lt_from(x, y, 0),
            (Shape::Union(x), Shape::Union(y)) => shapes_lt_from(x, y, 0),
            (Shape::Generic(n1, i1), Shape::Generic(n2, i2)) => if n1 != n2 {
                str_lt(n1, n2)
            } else {
                shape_lt(*i1, *i2)
            },
            _ => false,
        }
    }
}

/// Lexicographic comparison of two shape sequences, from position `i` on;
/// a proper prefix comes before its extensions.
pub open spec fn shapes_lt_from(x: Seq<Shape>, y: Seq<Shape>, i: nat) -> bool
    decreases x, y, x.len() - i,
{
    if i >= x.len() {
        i < y.len()
    } else if i >= y.len() {
        false
    } else if x[i as int] != y[i as int] {
        shape_lt(x[i as int], y[i as int])
    } else {
        shapes_lt_from(x, y, i + 1)
    }
}

/// Lexicographic comparison of two property sequences, from position `i`
/// on: by key first, then by value.
pub open spec fn props_lt_from(
    x: Seq<(Seq<char>, Shape)>,
    y: Seq<(Seq<char>, Shape)>,
    i: nat,
) -> bool
    decreases x, y, x.len() - i,
{
    if i >= x.len() {
        i < y.len()
    } else if i >= y.len() {
        false
    } else if x[i as int].0 != y[i as int].0 {
        str_lt(x[i as int].0, y[i as int].0)
    } else if x[i as int].1 != y[i as int].1 {
        shape_lt(x[i as int].1, y[i as int].1)
    } else {
        props_lt_from(x, y, i + 1)
    }
}

/// A canonical (well-formed) shape: object properties strictly sorted by
/// key, union members strictly sorted, at least two of them, and never
/// themselves `Undefined` or a nested `Union`.
pub open spec fn wf(s: Shape) -> bool
    decreases s,
{
    match s {
        Shape::Object(ps) => {
            &&& forall|i: int| 0 <= i < ps.len() ==> wf((#[trigger] ps[i]).1)
            &&& forall|i: int, j: int|
                0 <= i < j < ps.len() ==> str_lt((#[trigger] ps[i]).0, (#[trigger] ps[j]).0)
        },
        Shape::Array(es) => forall|i: int| 0 <= i < es.len() ==> wf(#[trigger] es[i]),
        Shape::Union(ms) => {
            &&& ms.len() >= 2
            &&& forall|i: int|
                0 <= i < ms.len() ==> wf(#[trigger] ms[i]) && !(ms[i] is Undefined) && !(ms[i]
                    is Union)
            &&& forall|i: int, j: int|
                0 <= i < j < ms.len() ==> shape_lt(#[trigger] ms[i], #[trigger] ms[j])
        },
        Shape::Generic(_, inner) => wf(*inner),
        _ => true,
    }
}

/// Whether a sequence of shapes is strictly sorted by the canonical order
/// (which also makes its members pairwise distinct).
pub open spec fn sorted_strict(s: Seq<Shape>) -> bool {
    forall|i: int, j: int| 0 <= i < j < s.len() ==> shape_lt(#[trigger] s[i], #[trigger] s[j])
}

/// Inserts a shape into a sorted sequence, keeping it sorted and dropping
/// the shape if it is already present.
pub open spec fn insert_sorted(s: Seq<Shape>, x: Shape) -> Seq<Shape>
    decreases s.len(),
{
    if s.len() == 0 {
        seq![x]
    } else if x == s[0] {
        s
    } else if shape_lt(x, s[0]) {
        seq![x] + s
    } else {
        seq![s[0]] + insert_sorted(s.drop_first(), x)
    }
}

/// Flattens a shape into an accumulated sorted sequence of union variants:
/// a union contributes its members, recursively; anything else contributes
/// itself.
pub open spec fn flatten_into(acc: Seq<Shape>, v: Shape) -> Seq<Shape>
    decreases v, 0int,
{
    match v {
        Shape::Union(ms) => flatten_seq(acc, ms, 0),
        _ => insert_sorted(acc, v),
    }
}

/// Flattens the members of a union, from position `i` on, into `acc`.
pub open spec fn flatten_seq(acc: Seq<Shape>, ms: Seq<Shape>, i: nat) -> Seq<Shape>
    decreases ms, ms.len() - i,
{
    if i >= ms.len() {
        acc
    } else {
        flatten_seq(flatten_into(acc, ms[i as int]), ms, i + 1)
    }
}

/// The union-forming join of two shapes: both operands are flattened into
/// one deduplicated, canonically sorted variant sequence; a single variant
/// stands alone, anything else becomes a `Union`.
pub open spec fn union_of(a: Shape, b: Shape) -> Shape {
    let vs = flatten_into(flatten_into(Seq::empty(), a), b);
    if vs.len() == 1 {
        vs[0]
    } else {
        Shape::Union(vs)
    }
}

/// Pairwise join of two array element sequences: elements are joined by
/// index, and the tail of the longer array is kept unchanged (a missing
/// slot joins as `Undefined`).
pub open spec fn merge_elems(x: Seq<Shape>, y: Seq<Shape>) -> Seq<Shape>
    decreases x, y, 0int,
{
    Seq::new(
        if x.len() >= y.len() {
            x.len()
        } else {
            y.len()
        },
        |i: int|
            if 0 <= i && i < x.len() && i < y.len() {
                merge_shape(x[i], y[i])
            } else if i < x.len() {
                x[i]
            } else {
                y[i]
            },
    )
}

/// Keywise join of two sorted property sequences, from positions `i` and
/// `j` on: the union of the keys, where a key present on both sides maps to
/// the join of the two values and a key present on one side keeps its value
/// (a missing key joins as `Undefined`).
pub open spec fn merge_props_from(
    x: Seq<(Seq<char>, Shape)>,
    y: Seq<(Seq<char>, Shape)>,
    i: nat,
    j: nat,
) -> Seq<(Seq<char>, Shape)>
    decreases
            x,
            y,
            (if i <= x.len() {
                x.len() - i
            } else {
                0
            }) + (if j <= y.len() {
                y.len() - j
            } else {
                0
            }),
{
    if i >= x.len() && j >= y.len() {
        Seq::empty()
    } else if i < x.len() && (j >= y.len() || str_lt(x[i as int].0, y[j as int].0)) {
        seq![x[i as int]] + merge_props_from(x, y, i + 1, j)
    } else if j < y.len() && (i >= x.len() || str_lt(y[j as int].0, x[i as int].0)) {
        seq![y[j as int]] + merge_props_from(x, y, i, j + 1)
    } else {
        seq![(x[i as int].0, merge_shape(x[i as int].1, y[j as int].1))] + merge_props_from(
            x,
            y,
            i + 1,
            j + 1,
        )
    }
}

/// The join of the abstract-value lattice, on the model: equal shapes join
/// to themselves; `Undefined` is the identity; two arrays join pairwise by
/// index; two objects join keywise; any other pair is flattened into one
/// canonical union of variants.
pub open spec fn merge_shape(a: Shape, b: Shape) -> Shape
    decreases a, b, 1int,
{
    if a == b {
        a
    } else if a is Undefined {
        b
    } else if b is Undefined {
        a
    } else {
        match (a, b) {
            (Shape::Array(x), Shape::Array(y)) => Shape::Array(merge_elems(x, y)),
            (Shape::Object(x), Shape::Object(y)) => Shape::Object(merge_props_from(x, y, 0, 0)),
            _ => union_of(a, b),
        }
    }
}

/// An atomic-or-generic shape: one that the union-forming join treats as
/// an opaque variant (never merged structurally).
pub open spec fn atomish(s: Shape) -> bool {
    s is Null || s is Boolean || s is Number || s is String || s is Generic
}

/// A flat shape: `Undefined`, an atomic or generic shape, or a union of
/// such shapes.  On flat shapes the join acts as a set union of variants;
/// arrays and objects instead join structurally, which does not associate
/// with flattening.
pub open spec fn flat(s: Shape) -> bool {
    match s {
        Shape::Undefined => true,
        Shape::Union(ms) => forall|i: int| 0 <= i < ms.len() ==> atomish(#[trigger] ms[i]),
        _ => atomish(s),
    }
}

/// Whether a property sequence holds a property named `k`.
pub open spec fn props_has(ps: Seq<(Seq<char>, Shape)>, k: Seq<char>) -> bool {
    exists|i: int| 0 <= i < ps.len() && ps[i].0 == k
}

/// The value of the property named `k`, where one is present.
pub open spec fn props_get(ps: Seq<(Seq<char>, Shape)>, k: Seq<char>) -> Shape {
    ps[choose|i: int| 0 <= i < ps.len() && ps[i].0 == k].1
}

/// Whether a property sequence holds a property named `k` at position `i`
/// or later.
pub open spec fn props_has_from(ps: Seq<(Seq<char>, Shape)>, i: nat, k: Seq<char>) -> bool {
    exists|l: int| i <= l < ps.len() && ps[l].0 == k
}

/// The set of variants a shape contributes to a union: a union contributes
/// its members, recursively; anything else contributes itself.
pub open spec fn variants(s: Shape) -> Set<Shape>
    decreases s, 0int,
{
    match s {
        Shape::Union(ms) => variants_seq(ms, 0),
        _ => Set::empty().insert(s),
    }
}

/// The union of the variant sets of `ms[i..]`.
pub open spec fn variants_seq(ms: Seq<Shape>, i: nat) -> Set<Shape>
    decreases ms, ms.len() - i,
{
    if i >= ms.len() {
        Set::empty()
    } else {
        variants(ms[i as int]) + variants_seq(ms, i + 1)
    }
}

} // verus!
