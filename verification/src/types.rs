//! The abstract-value domain and the analysis state.
//!
//! `AbstractValue` is the executable form of the value lattice modelled by
//! `shape::Shape`; `AbstractState` maps variable and function names to
//! their abstract bindings.  Object properties and union members are kept
//! in canonically sorted vectors, so structural equality of values is
//! equality of their models.

use vstd::prelude::*;

use crate::ast::{ast_of, generics_of, names_of, ASTNode, AstModel};
use crate::shape::{rank, shape_lt, str_lt, Shape};

verus! {

/// One abstract value: a conservative description of the set of shapes a
/// runtime value might take.  `Object` properties are sorted by key;
/// `Union` members are deduplicated and sorted by the canonical order.
#[derive(Debug, PartialEq, Eq, Hash)]
pub enum AbstractValue {
    Undefined,
    Null,
    Boolean,
    Number,
    String,
    Object(AbstractObject),
    Array(Vec<AbstractValue>),
    Union(Vec<AbstractValue>),
    Generic(String, Box<AbstractValue>),
}

/// An abstract object: properties sorted by key, each key unique.
#[derive(Debug, PartialEq, Eq, Hash)]
pub struct AbstractObject {
    pub props: Vec<(String, AbstractValue)>,
}

/// The models of a sequence of values.
pub open spec fn shapes_of(s: Seq<AbstractValue>) -> Seq<Shape>
    decreases s,
{
    Seq::new(
        s.len(),
        |i: int|
            if 0 <= i < s.len() {
                shape_of(s[i])
            } else {
                Shape::Undefined
            },
    )
}

/// The models of a sequence of properties.
pub open spec fn props_of(s: Seq<(String, AbstractValue)>) -> Seq<(Seq<char>, Shape)>
    decreases s,
{
    Seq::new(
        s.len(),
        |i: int|
            if 0 <= i < s.len() {
                (s[i].0@, shape_of(s[i].1))
            } else {
                (Seq::<char>::empty(), Shape::Undefined)
            },
    )
}

/// The model of one value.
pub open spec fn shape_of(v: AbstractValue) -> Shape
    decreases v,
{
    match v {
        AbstractValue::Undefined => Shape::Undefined,
        AbstractValue::Null => Shape::Null,
        AbstractValue::Boolean => Shape::Boolean,
        AbstractValue::Number => Shape::Number,
        AbstractValue::String => Shape::String,
        AbstractValue::Object(o) => Shape::Object(props_of(o.props@)),
        AbstractValue::Array(es) => Shape::Array(shapes_of(es@)),
        AbstractValue::Union(ms) => Shape::Union(shapes_of(ms@)),
        AbstractValue::Generic(n, b) => Shape::Generic(n@, Box::new(shape_of(*b))),
    }
}

impl View for AbstractValue {
    type V = Shape;

    open spec fn view(&self) -> Shape {
        shape_of(*self)
    }
}

/// Relies on `str`'s `PartialEq`: two string slices are equal exactly when
/// their character contents are equal.
#[verifier::external_body]
pub(crate) fn str_eq(a: &str, b: &str) -> (r: bool)
    ensures
        r == (a@ == b@),
{
    a == b
}

/// Relies on `str`'s `Ord`: string slices compare lexicographically by
/// Unicode code point, a proper prefix before its extensions.
#[verifier::external_body]
pub(crate) fn str_less(a: &str, b: &str) -> (r: bool)
    ensures
        r == str_lt(a@, b@),
{
    a < b
}

/// The rank of a value's outermost constructor, as `shape::rank`.
fn rank_of(v: &AbstractValue) -> (r: u32)
    ensures
        r as int == rank(v@),
{
    match v {
        AbstractValue::Undefined => 0,
        AbstractValue::Null => 1,
        AbstractValue::Boolean => 2,
        AbstractValue::Number => 3,
        AbstractValue::String => 4,
        AbstractValue::Object(_) => 5,
        AbstractValue::Array(_) => 6,
        AbstractValue::Union(_) => 7,
        AbstractValue::Generic(_, _) => 8,
    }
}

/// Structural equality of two values: equality of their models.
pub(crate) fn value_eq(a: &AbstractValue, b: &AbstractValue) -> (r: bool)
    ensures
        r == (a@ == b@),
    decreases a,
{
    match (a, b) {
        (AbstractValue::Undefined, AbstractValue::Undefined) => true,
        (AbstractValue::Null, AbstractValue::Null) => true,
        (AbstractValue::Boolean, AbstractValue::Boolean) => true,
        (AbstractValue::Number, AbstractValue::Number) => true,
        (AbstractValue::String, AbstractValue::String) => true,
        (AbstractValue::Object(x), AbstractValue::Object(y)) => {
            props_eq(&x.props, &y.props)
        },
        (AbstractValue::Array(x), AbstractValue::Array(y)) => values_eq(x, y),
        (AbstractValue::Union(x), AbstractValue::Union(y)) => values_eq(x, y),
        (AbstractValue::Generic(n1, b1), AbstractValue::Generic(n2, b2)) => {
            if str_eq(n1.as_str(), n2.as_str()) {
                value_eq(b1, b2)
            } else {
                false
            }
        },
        _ => {
            proof {
                assert(rank(a@) != rank(b@));
            }
            false
        },
    }
}

/// Elementwise equality of two value sequences.
fn values_eq(x: &Vec<AbstractValue>, y: &Vec<AbstractValue>) -> (r: bool)
    ensures
        r == (shapes_of(x@) == shapes_of(y@)),
    decreases x,
{
    if x.len() != y.len() {
        proof {
            assert(shapes_of(x@).len() != shapes_of(y@).len());
        }
        return false;
    }
    let mut i: usize = 0;
    while i < x.len()
        invariant
            x@.len() == y@.len(),
            i <= x@.len(),
            forall|k: int| 0 <= k < i ==> shapes_of(x@)[k] == shapes_of(y@)[k],
        decreases x@.len() - i,
    {
        proof {
            assert(x@[i as int] == x@.index(i as int));
        }
        if !value_eq(&x[i], &y[i]) {
            proof {
                assert(shapes_of(x@)[i as int] != shapes_of(y@)[i as int]);
            }
            return false;
        }
        i += 1;
    }
    proof {
        assert(shapes_of(x@) =~= shapes_of(y@));
    }
    true
}

/// Elementwise equality of two property sequences: keys and values.
fn props_eq(x: &Vec<(String, AbstractValue)>, y: &Vec<(String, AbstractValue)>) -> (r: bool)
    ensures
        r == (props_of(x@) == props_of(y@)),
    decreases x,
{
    if x.len() != y.len() {
        proof {
            assert(props_of(x@).len() != props_of(y@).len());
        }
        return false;
    }
    let mut i: usize = 0;
    while i < x.len()
        invariant
            x@.len() == y@.len(),
            i <= x@.len(),
            forall|k: int| 0 <= k < i ==> props_of(x@)[k] == props_of(y@)[k],
        decreases x@.len() - i,
    {
        if !str_eq(x[i].0.as_str(), y[i].0.as_str()) {
            proof {
                assert(props_of(x@)[i as int].0 != props_of(y@)[i as int].0);
            }
            return false;
        }
        if !value_eq(&x[i].1, &y[i].1) {
            proof {
                assert(props_of(x@)[i as int].1 != props_of(y@)[i as int].1);
            }
            return false;
        }
        proof {
            assert(props_of(x@)[i as int] =~= props_of(y@)[i as int]);
        }
        i += 1;
    }
    proof {
        assert(props_of(x@) =~= props_of(y@));
    }
    true
}

/// The canonical strict order on values: `shape::shape_lt` on their
/// models.
pub(crate) fn value_lt(a: &AbstractValue, b: &AbstractValue) -> (r: bool)
    ensures
        r == shape_lt(a@, b@),
    decreases a, b,
{
    let ra = rank_of(a);
    let rb = rank_of(b);
    if ra != rb {
        return ra < rb;
    }
    match (a, b) {
        (AbstractValue::Object(x), AbstractValue::Object(y)) => {
            props_lt(&x.props, &y.props)
        },
        (AbstractValue::Array(x), AbstractValue::Array(y)) => values_lt(x, y),
        (AbstractValue::Union(x), AbstractValue::Union(y)) => values_lt(x, y),
        (AbstractValue::Generic(n1, b1), AbstractValue::Generic(n2, b2)) => {
            if str_eq(n1.as_str(), n2.as_str()) {
                value_lt(b1, b2)
            } else {
                str_less(n1.as_str(), n2.as_str())
            }
        },
        _ => false,
    }
}

/// Lexicographic comparison of two value sequences.
fn values_lt(x: &Vec<AbstractValue>, y: &Vec<AbstractValue>) -> (r: bool)
    ensures
        r == crate::shape::shapes_lt_from(shapes_of(x@), shapes_of(y@), 0),
    decreases x, y,
{
    let ghost px = shapes_of(x@);
    let ghost py = shapes_of(y@);
    let mut i: usize = 0;
    while i < x.len() && i < y.len()
        invariant
            i <= x@.len(),
            i <= y@.len(),
            px == shapes_of(x@),
            py == shapes_of(y@),
            crate::shape::shapes_lt_from(px, py, 0) == crate::shape::shapes_lt_from(
                px,
                py,
                i as nat,
            ),
        decreases x@.len() - i,
    {
        if !value_eq(&x[i], &y[i]) {
            return value_lt(&x[i], &y[i]);
        }
        i += 1;
    }
    i >= x.len() && i < y.len()
}

/// Lexicographic comparison of two property sequences: by key, then by
/// value.
fn props_lt(x: &Vec<(String, AbstractValue)>, y: &Vec<(String, AbstractValue)>) -> (r: bool)
    ensures
        r == crate::shape::props_lt_from(props_of(x@), props_of(y@), 0),
    decreases x, y,
{
    let ghost px = props_of(x@);
    let ghost py = props_of(y@);
    let mut i: usize = 0;
    while i < x.len() && i < y.len()
        invariant
            i <= x@.len(),
            i <= y@.len(),
            px == props_of(x@),
            py == props_of(y@),
            crate::shape::props_lt_from(px, py, 0) == crate::shape::props_lt_from(
                px,
                py,
                i as nat,
            ),
        decreases x@.len() - i,
    {
        if !str_eq(x[i].0.as_str(), y[i].0.as_str()) {
            return str_less(x[i].0.as_str(), y[i].0.as_str());
        }
        if !value_eq(&x[i].1, &y[i].1) {
            return value_lt(&x[i].1, &y[i].1);
        }
        proof {
            assert(px[i as int] =~= py[i as int]);
        }
        i += 1;
    }
    i >= x.len() && i < y.len()
}

/// A deep copy of a value, with the same model.
pub(crate) fn value_clone(v: &AbstractValue) -> (r: AbstractValue)
    ensures
        r@ == v@,
    decreases v,
{
    match v {
        AbstractValue::Undefined => AbstractValue::Undefined,
        AbstractValue::Null => AbstractValue::Null,
        AbstractValue::Boolean => AbstractValue::Boolean,
        AbstractValue::Number => AbstractValue::Number,
        AbstractValue::String => AbstractValue::String,
        AbstractValue::Object(o) => AbstractValue::Object(AbstractObject {
            props: props_clone(&o.props),
        }),
        AbstractValue::Array(es) => AbstractValue::Array(values_clone(es)),
        AbstractValue::Union(ms) => AbstractValue::Union(values_clone(ms)),
        AbstractValue::Generic(n, b) => AbstractValue::Generic(
            n.clone(),
            Box::new(value_clone(b)),
        ),
    }
}

/// A deep copy of a property sequence, with the same models.
fn props_clone(x: &Vec<(String, AbstractValue)>) -> (r: Vec<(String, AbstractValue)>)
    ensures
        props_of(r@) == props_of(x@),
    decreases x,
{
    let mut r: Vec<(String, AbstractValue)> = Vec::new();
    let mut i: usize = 0;
    while i < x.len()
        invariant
            i <= x@.len(),
            r@.len() == i,
            forall|k: int| 0 <= k < i ==> props_of(r@)[k] == props_of(x@)[k],
        decreases x@.len() - i,
    {
        let key = x[i].0.clone();
        let val = value_clone(&x[i].1);
        r.push((key, val));
        i += 1;
    }
    proof {
        assert(props_of(r@) =~= props_of(x@));
    }
    r
}

/// A deep copy of a value sequence, with the same models.
fn values_clone(x: &Vec<AbstractValue>) -> (r: Vec<AbstractValue>)
    ensures
        shapes_of(r@) == shapes_of(x@),
    decreases x,
{
    let mut r: Vec<AbstractValue> = Vec::new();
    let mut i: usize = 0;
    while i < x.len()
        invariant
            i <= x@.len(),
            r@.len() == i,
            forall|k: int| 0 <= k < i ==> shapes_of(r@)[k] == shapes_of(x@)[k],
        decreases x@.len() - i,
    {
        let e = value_clone(&x[i]);
        r.push(e);
        i += 1;
    }
    proof {
        assert(shapes_of(r@) =~= shapes_of(x@));
    }
    r
}

/// Pushing a value onto a sequence pushes its model.
proof fn lemma_shapes_of_push(s: Seq<AbstractValue>, v: AbstractValue)
    ensures
        shapes_of(s.push(v)) == shapes_of(s).push(v@),
{
    assert(shapes_of(s.push(v)) =~= shapes_of(s).push(v@));
}

/// Inserting a value into a sequence inserts its model.
proof fn lemma_shapes_of_insert(s: Seq<AbstractValue>, i: int, v: AbstractValue)
    requires
        0 <= i <= s.len(),
    ensures
        shapes_of(s.insert(i, v)) == shapes_of(s).insert(i, v@),
{
    assert(shapes_of(s.insert(i, v)) =~= shapes_of(s).insert(i, v@));
}

/// Pushing a property onto a sequence pushes its model.
proof fn lemma_props_of_push(s: Seq<(String, AbstractValue)>, p: (String, AbstractValue))
    ensures
        props_of(s.push(p)) == props_of(s).push((p.0@, p.1@)),
{
    assert(props_of(s.push(p)) =~= props_of(s).push((p.0@, p.1@)));
}

/// Inserts a value into a canonically sorted vector, keeping it sorted and
/// dropping the value if an equal one is present, as
/// `shape::insert_sorted` on the models.
fn insert_value_sorted(acc: &mut Vec<AbstractValue>, v: AbstractValue)
    ensures
        shapes_of(final(acc)@) == crate::shape::insert_sorted(shapes_of(old(acc)@), v@),
{
    let ghost full = shapes_of(acc@);
    let ghost xv = v@;
    let mut i: usize = 0;
    proof {
        assert(full.skip(0) =~= full);
        assert(full.take(0) + crate::shape::insert_sorted(full.skip(0), xv)
            =~= crate::shape::insert_sorted(full, xv));
    }
    while i < acc.len() && value_lt(&acc[i], &v)
        invariant
            i <= acc@.len(),
            full == shapes_of(acc@),
            xv == v@,
            crate::shape::insert_sorted(full, xv) == full.take(i as int)
                + crate::shape::insert_sorted(full.skip(i as int), xv),
            forall|k: int| 0 <= k < i ==> shape_lt(full[k], xv),
        decreases acc@.len() - i,
    {
        proof {
            let t = full.skip(i as int);
            assert(t[0] == full[i as int]);
            assert(shape_lt(full[i as int], xv));
            crate::order::lemma_shape_lt_asym(full[i as int], xv);
            if xv == t[0] {
                crate::order::lemma_shape_lt_irrefl(xv);
            }
            assert(crate::shape::insert_sorted(t, xv) == seq![t[0]]
                + crate::shape::insert_sorted(t.drop_first(), xv));
            assert(t.drop_first() =~= full.skip(i as int + 1));
            assert(full.take(i as int) + (seq![full[i as int]] + crate::shape::insert_sorted(
                full.skip(i as int + 1),
                xv,
            )) =~= full.take(i as int + 1) + crate::shape::insert_sorted(
                full.skip(i as int + 1),
                xv,
            ));
        }
        i += 1;
    }
    if i < acc.len() {
        if value_eq(&acc[i], &v) {
            proof {
                let t = full.skip(i as int);
                assert(t[0] == full[i as int]);
                assert(crate::shape::insert_sorted(t, xv) == t);
                assert(full.take(i as int) + full.skip(i as int) =~= full);
            }
            return ;
        }
        proof {
            let t = full.skip(i as int);
            assert(t[0] == full[i as int]);
            crate::order::lemma_shape_lt_connex(xv, full[i as int]);
            assert(shape_lt(xv, full[i as int]));
            assert(crate::shape::insert_sorted(t, xv) == seq![xv] + t);
            lemma_shapes_of_insert(acc@, i as int, v);
            assert(shapes_of(acc@).insert(i as int, xv) =~= full.take(i as int) + (seq![xv]
                + full.skip(i as int)));
        }
        acc.insert(i, v);
    } else {
        proof {
            let t = full.skip(i as int);
            assert(t.len() == 0);
            assert(crate::shape::insert_sorted(t, xv) == seq![xv]);
            lemma_shapes_of_push(acc@, v);
            assert(shapes_of(acc@).push(xv) =~= full.take(i as int) + seq![xv]);
        }
        acc.push(v);
    }
}

/// Flattens a value into an accumulated sorted vector of union variants,
/// as `shape::flatten_into` on the models.
fn flatten_value_into(acc: &mut Vec<AbstractValue>, v: &AbstractValue)
    ensures
        shapes_of(final(acc)@) == crate::shape::flatten_into(shapes_of(old(acc)@), v@),
    decreases v,
{
    match v {
        AbstractValue::Union(ms) => {
            let ghost acc0 = shapes_of(acc@);
            let ghost msv = shapes_of(ms@);
            let mut i: usize = 0;
            while i < ms.len()
                invariant
                    *v == AbstractValue::Union(*ms),
                    i <= ms@.len(),
                    msv == shapes_of(ms@),
                    crate::shape::flatten_seq(acc0, msv, 0) == crate::shape::flatten_seq(
                        shapes_of(acc@),
                        msv,
                        i as nat,
                    ),
                decreases ms@.len() - i,
            {
                proof {
                    assert(decreases_to!(*v => (*v)->Union_0));
                    assert((*v)->Union_0 == *ms);
                    assert(decreases_to!(*ms => ms@));
                    assert(decreases_to!(ms@ => ms@[i as int]));
                }
                flatten_value_into(acc, &ms[i]);
                i += 1;
            }
        },
        _ => {
            let c = value_clone(v);
            insert_value_sorted(acc, c);
        },
    }
}

/// The join of two values: `shape::merge_shape` on the models.  Equal
/// values join to themselves; `Undefined` is the identity; two arrays join
/// pairwise by index; two objects join keywise; any other pair is
/// flattened into one canonical union of variants.
pub(crate) fn merge_core(a: &AbstractValue, b: &AbstractValue) -> (r: AbstractValue)
    ensures
        r@ == crate::shape::merge_shape(a@, b@),
    decreases a, b,
{
    if value_eq(a, b) {
        return value_clone(a);
    }
    if matches!(a, AbstractValue::Undefined) {
        return value_clone(b);
    }
    if matches!(b, AbstractValue::Undefined) {
        return value_clone(a);
    }
    match (a, b) {
        (AbstractValue::Array(x), AbstractValue::Array(y)) => {
            let ghost xs = shapes_of(x@);
            let ghost ys = shapes_of(y@);
            let max = if x.len() >= y.len() {
                x.len()
            } else {
                y.len()
            };
            let mut out: Vec<AbstractValue> = Vec::new();
            let mut i: usize = 0;
            while i < max
                invariant
                    *a == AbstractValue::Array(*x),
                    *b == AbstractValue::Array(*y),
                    out@.len() == i,
                    i <= max,
                    max == if xs.len() >= ys.len() {
                        xs.len()
                    } else {
                        ys.len()
                    },
                    xs == shapes_of(x@),
                    ys == shapes_of(y@),
                    forall|k: int|
                        0 <= k < i ==> shapes_of(out@)[k] == crate::shape::merge_elems(xs, ys)[k],
                decreases max - i,
            {
                let e = if i < x.len() && i < y.len() {
                    proof {
                        assert(decreases_to!(*a => (*a)->Array_0));
                        assert((*a)->Array_0 == *x);
                        assert(decreases_to!(*x => x@));
                        assert(decreases_to!(x@ => x@[i as int]));
                        assert(decreases_to!(*b => (*b)->Array_0));
                        assert((*b)->Array_0 == *y);
                        assert(decreases_to!(*y => y@));
                        assert(decreases_to!(y@ => y@[i as int]));
                    }
                    merge_core(&x[i], &y[i])
                } else if i < x.len() {
                    value_clone(&x[i])
                } else {
                    value_clone(&y[i])
                };
                proof {
                    lemma_shapes_of_push(out@, e);
                }
                out.push(e);
                i += 1;
            }
            proof {
                assert(shapes_of(out@) =~= crate::shape::merge_elems(xs, ys));
            }
            AbstractValue::Array(out)
        },
        (AbstractValue::Object(xo), AbstractValue::Object(yo)) => {
            let x = &xo.props;
            let y = &yo.props;
            let ghost px = props_of(x@);
            let ghost py = props_of(y@);
            let mut out: Vec<(String, AbstractValue)> = Vec::new();
            let mut i: usize = 0;
            let mut j: usize = 0;
            proof {
                assert(Seq::<(Seq<char>, Shape)>::empty() + crate::shape::merge_props_from(
                    px,
                    py,
                    0,
                    0,
                ) =~= crate::shape::merge_props_from(px, py, 0, 0));
            }
            while i < x.len() || j < y.len()
                invariant
                    *a == AbstractValue::Object(*xo),
                    *b == AbstractValue::Object(*yo),
                    x == &xo.props,
                    y == &yo.props,
                    i <= x@.len(),
                    j <= y@.len(),
                    px == props_of(x@),
                    py == props_of(y@),
                    crate::shape::merge_props_from(px, py, 0, 0) == props_of(out@)
                        + crate::shape::merge_props_from(px, py, i as nat, j as nat),
                decreases x@.len() - i + y@.len() - j,
            {
                let take_left = if j >= y.len() {
                    true
                } else if i >= x.len() {
                    false
                } else {
                    str_less(x[i].0.as_str(), y[j].0.as_str())
                };
                if take_left {
                    let key = x[i].0.clone();
                    let val = value_clone(&x[i].1);
                    proof {
                        assert(crate::shape::merge_props_from(px, py, i as nat, j as nat)
                            == seq![px[i as int]] + crate::shape::merge_props_from(
                            px,
                            py,
                            i as nat + 1,
                            j as nat,
                        ));
                        lemma_props_of_push(out@, (key, val));
                        assert(props_of(out@).push((key@, val@)) =~= props_of(out@) + seq![
                            px[i as int],
                        ]);
                        assert((props_of(out@) + seq![px[i as int]])
                            + crate::shape::merge_props_from(px, py, i as nat + 1, j as nat)
                            =~= props_of(out@) + (seq![px[i as int]]
                            + crate::shape::merge_props_from(px, py, i as nat + 1, j as nat)));
                    }
                    out.push((key, val));
                    i += 1;
                } else {
                    let take_right = if i >= x.len() {
                        true
                    } else {
                        str_less(y[j].0.as_str(), x[i].0.as_str())
                    };
                    if take_right {
                        let key = y[j].0.clone();
                        let val = value_clone(&y[j].1);
                        proof {
                            assert(crate::shape::merge_props_from(px, py, i as nat, j as nat)
                                == seq![py[j as int]] + crate::shape::merge_props_from(
                                px,
                                py,
                                i as nat,
                                j as nat + 1,
                            ));
                            lemma_props_of_push(out@, (key, val));
                            assert(props_of(out@).push((key@, val@)) =~= props_of(out@) + seq![
                                py[j as int],
                            ]);
                            assert((props_of(out@) + seq![py[j as int]])
                                + crate::shape::merge_props_from(px, py, i as nat, j as nat + 1)
                                =~= props_of(out@) + (seq![py[j as int]]
                                + crate::shape::merge_props_from(px, py, i as nat, j as nat + 1)));
                        }
                        out.push((key, val));
                        j += 1;
                    } else {
                        // Both in range, neither key less: the keys are equal.
                        proof {
                            crate::order::lemma_str_lt_connex(px[i as int].0, py[j as int].0);
                            assert(px[i as int].0 == py[j as int].0);
                        }
                        let key = x[i].0.clone();
                        proof {
                            assert(decreases_to!(*a => (*a)->Object_0));
                            assert((*a)->Object_0 == *xo);
                            assert(decreases_to!(*xo => xo.props));
                            assert(decreases_to!(xo.props => xo.props@));
                            assert(decreases_to!(xo.props@ => xo.props@[i as int]));
                            assert(decreases_to!(xo.props@[i as int] => xo.props@[i as int].1));
                            assert(decreases_to!(*b => (*b)->Object_0));
                            assert((*b)->Object_0 == *yo);
                            assert(decreases_to!(*yo => yo.props));
                            assert(decreases_to!(yo.props => yo.props@));
                            assert(decreases_to!(yo.props@ => yo.props@[j as int]));
                            assert(decreases_to!(yo.props@[j as int] => yo.props@[j as int].1));
                        }
                        let val = merge_core(&x[i].1, &y[j].1);
                        proof {
                            assert(crate::shape::merge_props_from(px, py, i as nat, j as nat)
                                == seq![
                                (
                                    px[i as int].0,
                                    crate::shape::merge_shape(px[i as int].1, py[j as int].1),
                                ),
                            ] + crate::shape::merge_props_from(
                                px,
                                py,
                                i as nat + 1,
                                j as nat + 1,
                            ));
                            lemma_props_of_push(out@, (key, val));
                            assert(props_of(out@).push((key@, val@)) =~= props_of(out@) + seq![
                                (
                                    px[i as int].0,
                                    crate::shape::merge_shape(px[i as int].1, py[j as int].1),
                                ),
                            ]);
                            assert((props_of(out@) + seq![
                                (
                                    px[i as int].0,
                                    crate::shape::merge_shape(px[i as int].1, py[j as int].1),
                                ),
                            ]) + crate::shape::merge_props_from(px, py, i as nat + 1, j as nat + 1)
                                =~= props_of(out@) + (seq![
                                (
                                    px[i as int].0,
                                    crate::shape::merge_shape(px[i as int].1, py[j as int].1),
                                ),
                            ] + crate::shape::merge_props_from(
                                px,
                                py,
                                i as nat + 1,
                                j as nat + 1,
                            )));
                        }
                        out.push((key, val));
                        i += 1;
                        j += 1;
                    }
                }
            }
            proof {
                assert(crate::shape::merge_props_from(px, py, i as nat, j as nat)
                    =~= Seq::<(Seq<char>, Shape)>::empty());
                assert(props_of(out@) + Seq::<(Seq<char>, Shape)>::empty() =~= props_of(out@));
            }
            AbstractValue::Object(AbstractObject { props: out })
        },
        _ => {
            let mut acc: Vec<AbstractValue> = Vec::new();
            proof {
                assert(shapes_of(acc@) =~= Seq::<Shape>::empty());
            }
            flatten_value_into(&mut acc, a);
            flatten_value_into(&mut acc, b);
            proof {
                assert(crate::shape::merge_shape(a@, b@) == crate::shape::union_of(a@, b@));
            }
            let ghost vs = shapes_of(acc@);
            if acc.len() == 1 {
                let r = acc.pop().unwrap();
                proof {
                    assert(r@ == vs[0]);
                }
                r
            } else {
                AbstractValue::Union(acc)
            }
        },
    }
}

/// A declared function: parameter names, generic parameters with optional
/// constraint tags, and the body to evaluate at a call.
pub struct Function {
    pub params: Vec<String>,
    pub generics: Vec<(String, Option<String>)>,
    pub body: ASTNode,
}

/// The specification-level mirror of `Function`.
pub struct FunctionModel {
    pub params: Seq<Seq<char>>,
    pub generics: Seq<(Seq<char>, Option<Seq<char>>)>,
    pub body: AstModel,
}

/// The model of one declared function.
pub open spec fn fun_of(f: Function) -> FunctionModel {
    FunctionModel {
        params: names_of(f.params@),
        generics: generics_of(f.generics@),
        body: ast_of(f.body),
    }
}

impl View for Function {
    type V = FunctionModel;

    open spec fn view(&self) -> FunctionModel {
        fun_of(*self)
    }
}

impl Clone for Function {
    /// A clone of a function has the same model.
    fn clone(&self) -> (r: Self)
        ensures
            r@ == self@,
    {
        let r = Function {
            params: crate::ast::names_clone(&self.params),
            generics: crate::ast::generics_clone(&self.generics),
            body: crate::ast::ast_clone(&self.body),
        };
        proof {
            assert(r@ =~= self@);
        }
        r
    }
}

/// The specification-level mirror of `AbstractState`: the two mappings
/// from names to bindings.
pub struct StateModel {
    pub vars: Map<Seq<char>, Shape>,
    pub funs: Map<Seq<char>, FunctionModel>,
}

/// The variable mapping an association list denotes; a later entry for a
/// name overrides an earlier one.
pub open spec fn vars_map(s: Seq<(String, AbstractValue)>) -> Map<Seq<char>, Shape>
    decreases s.len(),
{
    if s.len() == 0 {
        Map::empty()
    } else {
        vars_map(s.drop_last()).insert(s.last().0@, s.last().1@)
    }
}

/// The function mapping an association list denotes; a later entry for a
/// name overrides an earlier one.
pub open spec fn funs_map(s: Seq<(String, Function)>) -> Map<Seq<char>, FunctionModel>
    decreases s.len(),
{
    if s.len() == 0 {
        Map::empty()
    } else {
        funs_map(s.drop_last()).insert(s.last().0@, fun_of(s.last().1))
    }
}

/// The merge of two states, as `AbstractState::merge` performs it: every
/// variable of `other` is joined into `self` (a variable on one side only
/// is kept as it is), and every function of `other` overrides.
pub open spec fn state_merge(a: StateModel, b: StateModel) -> StateModel {
    StateModel {
        vars: Map::new(
            |k: Seq<char>| a.vars.contains_key(k) || b.vars.contains_key(k),
            |k: Seq<char>|
                if a.vars.contains_key(k) && b.vars.contains_key(k) {
                    crate::shape::merge_shape(a.vars[k], b.vars[k])
                } else if b.vars.contains_key(k) {
                    b.vars[k]
                } else {
                    a.vars[k]
                },
        ),
        funs: a.funs.union_prefer_right(b.funs),
    }
}

/// The analysis state: what is known of every variable and every declared
/// function at one point of the analysis.
pub struct AbstractState {
    pub variables: Vec<(String, AbstractValue)>,
    pub functions: Vec<(String, Function)>,
}

impl View for AbstractState {
    type V = StateModel;

    open spec fn view(&self) -> StateModel {
        StateModel { vars: vars_map(self.variables@), funs: funs_map(self.functions@) }
    }
}

/// A name that is on no entry of an association list is not in its map.
proof fn lemma_vars_map_absent(s: Seq<(String, AbstractValue)>, k: Seq<char>)
    requires
        forall|i: int| 0 <= i < s.len() ==> (#[trigger] s[i]).0@ != k,
    ensures
        !vars_map(s).contains_key(k),
    decreases s.len(),
{
    if s.len() > 0 {
        assert(s.last() == s[s.len() - 1]);
        lemma_vars_map_absent(s.drop_last(), k);
    }
}

/// With unique names, the entry at any index is what its name maps to.
proof fn lemma_vars_map_get(s: Seq<(String, AbstractValue)>, i: int)
    requires
        forall|i1: int, i2: int|
            0 <= i1 < i2 < s.len() ==> (#[trigger] s[i1]).0@ != (#[trigger] s[i2]).0@,
        0 <= i < s.len(),
    ensures
        vars_map(s).contains_key(s[i].0@),
        vars_map(s)[s[i].0@] == s[i].1@,
    decreases s.len(),
{
    assert(s.last() == s[s.len() - 1]);
    if i < s.len() - 1 {
        lemma_vars_map_get(s.drop_last(), i);
        assert(s.drop_last()[i] == s[i]);
    }
}

/// With unique names, removing an entry removes its name from the map.
proof fn lemma_vars_map_remove(s: Seq<(String, AbstractValue)>, i: int)
    requires
        forall|i1: int, i2: int|
            0 <= i1 < i2 < s.len() ==> (#[trigger] s[i1]).0@ != (#[trigger] s[i2]).0@,
        0 <= i < s.len(),
    ensures
        vars_map(s.remove(i)) == vars_map(s).remove(s[i].0@),
    decreases s.len(),
{
    assert(s.last() == s[s.len() - 1]);
    if i == s.len() - 1 {
        assert(s.remove(i) =~= s.drop_last());
        lemma_vars_map_absent(s.drop_last(), s[i].0@);
        assert(vars_map(s.drop_last()) =~= vars_map(s).remove(s[i].0@));
    } else {
        lemma_vars_map_remove(s.drop_last(), i);
        assert(s.drop_last()[i] == s[i]);
        assert(s.remove(i).drop_last() =~= s.drop_last().remove(i));
        assert(s.remove(i).last() == s.last());
        assert(vars_map(s.remove(i)) == vars_map(s.drop_last().remove(i)).insert(
            s.last().0@,
            s.last().1@,
        ));
        assert(vars_map(s).remove(s[i].0@) =~= vars_map(s.drop_last()).remove(s[i].0@).insert(
            s.last().0@,
            s.last().1@,
        ));
    }
}

/// As `lemma_vars_map_absent`, for function entries.
proof fn lemma_funs_map_absent(s: Seq<(String, Function)>, k: Seq<char>)
    requires
        forall|i: int| 0 <= i < s.len() ==> (#[trigger] s[i]).0@ != k,
    ensures
        !funs_map(s).contains_key(k),
    decreases s.len(),
{
    if s.len() > 0 {
        assert(s.last() == s[s.len() - 1]);
        lemma_funs_map_absent(s.drop_last(), k);
    }
}

/// As `lemma_vars_map_get`, for function entries.
proof fn lemma_funs_map_get(s: Seq<(String, Function)>, i: int)
    requires
        forall|i1: int, i2: int|
            0 <= i1 < i2 < s.len() ==> (#[trigger] s[i1]).0@ != (#[trigger] s[i2]).0@,
        0 <= i < s.len(),
    ensures
        funs_map(s).contains_key(s[i].0@),
        funs_map(s)[s[i].0@] == fun_of(s[i].1),
    decreases s.len(),
{
    assert(s.last() == s[s.len() - 1]);
    if i < s.len() - 1 {
        lemma_funs_map_get(s.drop_last(), i);
        assert(s.drop_last()[i] == s[i]);
    }
}

/// As `lemma_vars_map_remove`, for function entries.
proof fn lemma_funs_map_remove(s: Seq<(String, Function)>, i: int)
    requires
        forall|i1: int, i2: int|
            0 <= i1 < i2 < s.len() ==> (#[trigger] s[i1]).0@ != (#[trigger] s[i2]).0@,
        0 <= i < s.len(),
    ensures
        funs_map(s.remove(i)) == funs_map(s).remove(s[i].0@),
    decreases s.len(),
{
    assert(s.last() == s[s.len() - 1]);
    if i == s.len() - 1 {
        assert(s.remove(i) =~= s.drop_last());
        lemma_funs_map_absent(s.drop_last(), s[i].0@);
        assert(funs_map(s.drop_last()) =~= funs_map(s).remove(s[i].0@));
    } else {
        lemma_funs_map_remove(s.drop_last(), i);
        assert(s.drop_last()[i] == s[i]);
        assert(s.remove(i).drop_last() =~= s.drop_last().remove(i));
        assert(s.remove(i).last() == s.last());
        assert(funs_map(s.remove(i)) == funs_map(s.drop_last().remove(i)).insert(
            s.last().0@,
            fun_of(s.last().1),
        ));
        assert(funs_map(s).remove(s[i].0@) =~= funs_map(s.drop_last()).remove(s[i].0@).insert(
            s.last().0@,
            fun_of(s.last().1),
        ));
    }
}

impl AbstractState {
    /// The representation keeps one entry per name on each list.
    pub open spec fn inv(&self) -> bool {
        &&& forall|i1: int, i2: int|
            0 <= i1 < i2 < self.variables@.len() ==> (#[trigger] self.variables@[i1]).0@ != (
            #[trigger] self.variables@[i2]).0@
        &&& forall|i1: int, i2: int|
            0 <= i1 < i2 < self.functions@.len() ==> (#[trigger] self.functions@[i1]).0@ != (
            #[trigger] self.functions@[i2]).0@
    }

    /// A fresh state: no variable and no function is known.
    pub fn new() -> (r: Self)
        ensures
            r.inv(),
            r@.vars == Map::<Seq<char>, Shape>::empty(),
            r@.funs == Map::<Seq<char>, FunctionModel>::empty(),
    {
        AbstractState { variables: Vec::new(), functions: Vec::new() }
    }

    /// The index of the entry for `name` among the variables, if any.
    fn find_var(&self, name: &str) -> (r: Option<usize>)
        ensures
            match r {
                Option::Some(i) => i < self.variables@.len() && self.variables@[i as int].0@
                    == name@,
                Option::None => forall|i: int|
                    0 <= i < self.variables@.len() ==> (#[trigger] self.variables@[i]).0@ != name@,
            },
    {
        let mut i: usize = 0;
        while i < self.variables.len()
            invariant
                i <= self.variables@.len(),
                forall|k: int| 0 <= k < i ==> (#[trigger] self.variables@[k]).0@ != name@,
            decreases self.variables@.len() - i,
        {
            if str_eq(self.variables[i].0.as_str(), name) {
                return Option::Some(i);
            }
            i += 1;
        }
        Option::None
    }

    /// The index of the entry for `name` among the functions, if any.
    fn find_fun(&self, name: &str) -> (r: Option<usize>)
        ensures
            match r {
                Option::Some(i) => i < self.functions@.len() && self.functions@[i as int].0@
                    == name@,
                Option::None => forall|i: int|
                    0 <= i < self.functions@.len() ==> (#[trigger] self.functions@[i]).0@ != name@,
            },
    {
        let mut i: usize = 0;
        while i < self.functions.len()
            invariant
                i <= self.functions@.len(),
                forall|k: int| 0 <= k < i ==> (#[trigger] self.functions@[k]).0@ != name@,
            decreases self.functions@.len() - i,
        {
            if str_eq(self.functions[i].0.as_str(), name) {
                return Option::Some(i);
            }
            i += 1;
        }
        Option::None
    }

    /// Binds `name` to `value`, overwriting any earlier binding; an
    /// assignment always succeeds.
    pub fn assign(&mut self, name: &str, value: AbstractValue)
        requires
            old(self).inv(),
        ensures
            final(self).inv(),
            final(self)@.vars == old(self)@.vars.insert(name@, value@),
            final(self)@.funs == old(self)@.funs,
    {
        let ghost vs0 = self.variables@;
        match self.find_var(name) {
            Option::Some(i) => {
                proof {
                    lemma_vars_map_remove(vs0, i as int);
                }
                self.variables.remove(i);
                proof {
                    assert forall|i1: int, i2: int|
                        0 <= i1 < i2 < self.variables@.len() implies (
                    #[trigger] self.variables@[i1]).0@ != (#[trigger] self.variables@[i2]).0@ by {
                        assert(self.variables@[i1] == if i1 < i {
                            vs0[i1]
                        } else {
                            vs0[i1 + 1]
                        });
                        assert(self.variables@[i2] == if i2 < i {
                            vs0[i2]
                        } else {
                            vs0[i2 + 1]
                        });
                    }
                }
            },
            Option::None => {
                proof {
                    lemma_vars_map_absent(vs0, name@);
                    assert(vars_map(vs0).remove(name@) =~= vars_map(vs0));
                }
            },
        }
        let ghost vs1 = self.variables@;
        proof {
            assert(vars_map(vs1) == vars_map(vs0).remove(name@));
            assert(forall|i: int| 0 <= i < vs1.len() ==> (#[trigger] vs1[i]).0@ != name@) by {
                if exists|i: int| 0 <= i < vs1.len() && (#[trigger] vs1[i]).0@ == name@ {
                    let i = choose|i: int| 0 <= i < vs1.len() && (#[trigger] vs1[i]).0@ == name@;
                    assert(vars_map(vs1).contains_key(name@)) by {
                        lemma_vars_map_get_weak(vs1, i);
                    }
                }
            }
        }
        self.variables.push((name.to_owned(), value));
        proof {
            assert(self.variables@.drop_last() =~= vs1);
            assert(vars_map(self.variables@) == vars_map(vs1).insert(name@, value@));
            assert(vars_map(vs0).remove(name@).insert(name@, value@) =~= vars_map(vs0).insert(
                name@,
                value@,
            ));
            assert forall|i1: int, i2: int|
                0 <= i1 < i2 < self.variables@.len() implies (#[trigger] self.variables@[i1]).0@
                != (#[trigger] self.variables@[i2]).0@ by {
                if i2 == self.variables@.len() - 1 {
                    assert(self.variables@[i1] == vs1[i1]);
                } else {
                    assert(self.variables@[i1] == vs1[i1] && self.variables@[i2] == vs1[i2]);
                }
            }
        }
    }

    /// The value bound to `name`, if any; an unbound name reads as no
    /// binding, never as an error.
    pub fn get(&self, name: &str) -> (r: Option<&AbstractValue>)
        requires
            self.inv(),
        ensures
            match r {
                Option::Some(v) => self@.vars.contains_key(name@) && v@ == self@.vars[name@],
                Option::None => !self@.vars.contains_key(name@),
            },
    {
        match self.find_var(name) {
            Option::Some(i) => {
                proof {
                    lemma_vars_map_get(self.variables@, i as int);
                }
                Option::Some(&self.variables[i].1)
            },
            Option::None => {
                proof {
                    lemma_vars_map_absent(self.variables@, name@);
                }
                Option::None
            },
        }
    }

    /// Declares `name` as a function, overwriting any earlier declaration.
    pub fn declare_function(&mut self, name: &str, f: Function)
        requires
            old(self).inv(),
        ensures
            final(self).inv(),
            final(self)@.funs == old(self)@.funs.insert(name@, f@),
            final(self)@.vars == old(self)@.vars,
    {
        let ghost fs0 = self.functions@;
        match self.find_fun(name) {
            Option::Some(i) => {
                proof {
                    lemma_funs_map_remove(fs0, i as int);
                }
                self.functions.remove(i);
                proof {
                    assert forall|i1: int, i2: int|
                        0 <= i1 < i2 < self.functions@.len() implies (
                    #[trigger] self.functions@[i1]).0@ != (#[trigger] self.functions@[i2]).0@ by {
                        assert(self.functions@[i1] == if i1 < i {
                            fs0[i1]
                        } else {
                            fs0[i1 + 1]
                        });
                        assert(self.functions@[i2] == if i2 < i {
                            fs0[i2]
                        } else {
                            fs0[i2 + 1]
                        });
                    }
                }
            },
            Option::None => {
                proof {
                    lemma_funs_map_absent(fs0, name@);
                    assert(funs_map(fs0).remove(name@) =~= funs_map(fs0));
                }
            },
        }
        let ghost fs1 = self.functions@;
        proof {
            assert(funs_map(fs1) == funs_map(fs0).remove(name@));
            assert(forall|i: int| 0 <= i < fs1.len() ==> (#[trigger] fs1[i]).0@ != name@) by {
                if exists|i: int| 0 <= i < fs1.len() && (#[trigger] fs1[i]).0@ == name@ {
                    let i = choose|i: int| 0 <= i < fs1.len() && (#[trigger] fs1[i]).0@ == name@;
                    lemma_funs_map_get_weak(fs1, i);
                }
            }
        }
        self.functions.push((name.to_owned(), f));
        proof {
            assert(self.functions@.drop_last() =~= fs1);
            assert(funs_map(self.functions@) == funs_map(fs1).insert(
                name@,
                fun_of(self.functions@.last().1),
            ));
            assert(funs_map(fs0).remove(name@).insert(name@, fun_of(self.functions@.last().1))
                =~= funs_map(fs0).insert(name@, fun_of(self.functions@.last().1)));
            assert forall|i1: int, i2: int|
                0 <= i1 < i2 < self.functions@.len() implies (#[trigger] self.functions@[i1]).0@
                != (#[trigger] self.functions@[i2]).0@ by {
                if i2 == self.functions@.len() - 1 {
                    assert(self.functions@[i1] == fs1[i1]);
                } else {
                    assert(self.functions@[i1] == fs1[i1] && self.functions@[i2] == fs1[i2]);
                }
            }
        }
    }

    /// A copy of the declaration of `name`, if any.
    pub fn get_function(&self, name: &str) -> (r: Option<Function>)
        requires
            self.inv(),
        ensures
            match r {
                Option::Some(f) => self@.funs.contains_key(name@) && f@ == self@.funs[name@],
                Option::None => !self@.funs.contains_key(name@),
            },
    {
        match self.find_fun(name) {
            Option::Some(i) => {
                proof {
                    lemma_funs_map_get(self.functions@, i as int);
                }
                Option::Some(self.functions[i].1.clone())
            },
            Option::None => {
                proof {
                    lemma_funs_map_absent(self.functions@, name@);
                }
                Option::None
            },
        }
    }

    /// A deep copy of the state, with the same model: what control-flow
    /// splits evaluate speculatively.
    pub fn duplicate(&self) -> (r: Self)
        requires
            self.inv(),
        ensures
            r.inv(),
            r@ == self@,
    {
        self.clone()
    }
}

impl Clone for AbstractState {
    /// A clone of a state has the same model.
    fn clone(&self) -> (r: Self)
        ensures
            r@ == self@,
            self.inv() ==> r.inv(),
    {
        let mut vs: Vec<(String, AbstractValue)> = Vec::new();
        let mut i: usize = 0;
        while i < self.variables.len()
            invariant
                i <= self.variables@.len(),
                vs@.len() == i,
                forall|k: int|
                    0 <= k < i ==> (#[trigger] vs@[k]).0@ == self.variables@[k].0@ && vs@[k].1@
                        == self.variables@[k].1@,
            decreases self.variables@.len() - i,
        {
            let key = self.variables[i].0.clone();
            let val = value_clone(&self.variables[i].1);
            vs.push((key, val));
            i += 1;
        }
        let mut fs: Vec<(String, Function)> = Vec::new();
        let mut j: usize = 0;
        while j < self.functions.len()
            invariant
                j <= self.functions@.len(),
                fs@.len() == j,
                forall|k: int|
                    0 <= k < j ==> (#[trigger] fs@[k]).0@ == self.functions@[k].0@ && fun_of(
                        fs@[k].1,
                    ) == fun_of(self.functions@[k].1),
            decreases self.functions@.len() - j,
        {
            let key = self.functions[j].0.clone();
            let f = self.functions[j].1.clone();
            fs.push((key, f));
            j += 1;
        }
        let r = AbstractState { variables: vs, functions: fs };
        proof {
            lemma_vars_map_congruent(r.variables@, self.variables@);
            lemma_funs_map_congruent(r.functions@, self.functions@);
            assert(r@ =~= self@) by {
                assert(r@.vars == self@.vars && r@.funs == self@.funs);
            }
        }
        r
    }
}

impl AbstractState {
    /// Joins another state into this one: every variable of `other` is
    /// joined into `self` with the value lattice's merge (a variable absent
    /// here is copied in), and every function of `other` overrides.
    pub fn merge(&mut self, other: &Self)
        requires
            old(self).inv(),
            other.inv(),
        ensures
            final(self).inv(),
            final(self)@ == state_merge(old(self)@, other@),
    {
        let ghost a0 = self@;
        let ghost ovs = other.variables@;
        let mut i: usize = 0;
        while i < other.variables.len()
            invariant
                self.inv(),
                other.inv(),
                i <= ovs.len(),
                ovs == other.variables@,
                self@.funs == a0.funs,
                self@.vars == state_merge(
                    a0,
                    StateModel { vars: vars_map(ovs.take(i as int)), funs: a0.funs },
                ).vars,
            decreases ovs.len() - i,
        {
            let ghost pre = self@;
            let name = &other.variables[i].0;
            let v = &other.variables[i].1;
            let merged = match self.get(name.as_str()) {
                Option::Some(existing) => crate::interpret::merge_values(existing, v),
                Option::None => value_clone(v),
            };
            self.assign(name.as_str(), merged);
            proof {
                lemma_vars_map_get(ovs, i as int);
                assert(ovs.take(i as int + 1).drop_last() =~= ovs.take(i as int));
                assert(ovs.take(i as int + 1).last() == ovs[i as int]);
                assert(vars_map(ovs.take(i as int + 1)) == vars_map(ovs.take(i as int)).insert(
                    ovs[i as int].0@,
                    ovs[i as int].1@,
                ));
                assert(forall|k: int|
                    0 <= k < i ==> (#[trigger] ovs[k]).0@ != ovs[i as int].0@);
                assert(!vars_map(ovs.take(i as int)).contains_key(ovs[i as int].0@)) by {
                    lemma_vars_map_absent_take(ovs, i as int);
                }
                assert(self@.vars =~= state_merge(
                    a0,
                    StateModel { vars: vars_map(ovs.take(i as int + 1)), funs: a0.funs },
                ).vars);
            }
            i += 1;
        }
        proof {
            assert(ovs.take(i as int) =~= ovs);
        }
        let mut j: usize = 0;
        let ghost mid_vars = self@.vars;
        let ghost ofs = other.functions@;
        while j < other.functions.len()
            invariant
                self.inv(),
                other.inv(),
                j <= ofs.len(),
                ofs == other.functions@,
                self@.vars == mid_vars,
                self@.funs == a0.funs.union_prefer_right(funs_map(ofs.take(j as int))),
            decreases ofs.len() - j,
        {
            let name = &other.functions[j].0;
            let f = other.functions[j].1.clone();
            self.declare_function(name.as_str(), f);
            proof {
                lemma_funs_map_get(ofs, j as int);
                assert(ofs.take(j as int + 1).drop_last() =~= ofs.take(j as int));
                assert(ofs.take(j as int + 1).last() == ofs[j as int]);
                assert(funs_map(ofs.take(j as int + 1)) == funs_map(ofs.take(j as int)).insert(
                    ofs[j as int].0@,
                    fun_of(ofs[j as int].1),
                ));
                assert(self@.funs =~= a0.funs.union_prefer_right(
                    funs_map(ofs.take(j as int + 1)),
                ));
            }
            j += 1;
        }
        proof {
            assert(ofs.take(j as int) =~= ofs);
            assert(self@ =~= state_merge(a0, other@));
        }
    }
}

/// As `lemma_vars_map_get`, without uniqueness: an entry's name is in the
/// map.
proof fn lemma_vars_map_get_weak(s: Seq<(String, AbstractValue)>, i: int)
    requires
        0 <= i < s.len(),
    ensures
        vars_map(s).contains_key(s[i].0@),
    decreases s.len(),
{
    assert(s.last() == s[s.len() - 1]);
    if i < s.len() - 1 {
        lemma_vars_map_get_weak(s.drop_last(), i);
        assert(s.drop_last()[i] == s[i]);
    }
}

/// As `lemma_funs_map_get`, without uniqueness: an entry's name is in the
/// map.
proof fn lemma_funs_map_get_weak(s: Seq<(String, Function)>, i: int)
    requires
        0 <= i < s.len(),
    ensures
        funs_map(s).contains_key(s[i].0@),
    decreases s.len(),
{
    assert(s.last() == s[s.len() - 1]);
    if i < s.len() - 1 {
        lemma_funs_map_get_weak(s.drop_last(), i);
        assert(s.drop_last()[i] == s[i]);
    }
}

/// The name at `i` of a unique-keyed list is absent from the map of the
/// first `i` entries.
proof fn lemma_vars_map_absent_take(s: Seq<(String, AbstractValue)>, i: int)
    requires
        forall|i1: int, i2: int|
            0 <= i1 < i2 < s.len() ==> (#[trigger] s[i1]).0@ != (#[trigger] s[i2]).0@,
        0 <= i < s.len(),
    ensures
        !vars_map(s.take(i)).contains_key(s[i].0@),
{
    assert(forall|k: int| 0 <= k < i ==> (#[trigger] s.take(i)[k]).0@ != s[i].0@) by {
        assert(forall|k: int| 0 <= k < i ==> s.take(i)[k] == #[trigger] s[k]);
    }
    lemma_vars_map_absent(s.take(i), s[i].0@);
}

/// Association lists with elementwise equal models denote the same
/// variable map.
proof fn lemma_vars_map_congruent(
    a: Seq<(String, AbstractValue)>,
    b: Seq<(String, AbstractValue)>,
)
    requires
        a.len() == b.len(),
        forall|k: int|
            0 <= k < a.len() ==> (#[trigger] a[k]).0@ == b[k].0@ && a[k].1@ == b[k].1@,
    ensures
        vars_map(a) == vars_map(b),
    decreases a.len(),
{
    if a.len() > 0 {
        assert(a.last() == a[a.len() - 1] && b.last() == b[b.len() - 1]);
        lemma_vars_map_congruent(a.drop_last(), b.drop_last());
        assert(vars_map(a) =~= vars_map(b));
    } else {
        assert(vars_map(a) =~= vars_map(b));
    }
}

/// Association lists with elementwise equal models denote the same
/// function map.
proof fn lemma_funs_map_congruent(a: Seq<(String, Function)>, b: Seq<(String, Function)>)
    requires
        a.len() == b.len(),
        forall|k: int|
            0 <= k < a.len() ==> (#[trigger] a[k]).0@ == b[k].0@ && fun_of(a[k].1) == fun_of(
                b[k].1,
            ),
    ensures
        funs_map(a) == funs_map(b),
    decreases a.len(),
{
    if a.len() > 0 {
        assert(a.last() == a[a.len() - 1] && b.last() == b[b.len() - 1]);
        lemma_funs_map_congruent(a.drop_last(), b.drop_last());
        assert(funs_map(a) =~= funs_map(b));
    } else {
        assert(funs_map(a) =~= funs_map(b));
    }
}

impl crate::interpret::Merge for AbstractValue {
    /// The model of the join is `shape::merge_shape`.
    open spec fn merged(&self, other: &Self) -> Shape {
        crate::shape::merge_shape(self@, other@)
    }

    /// Joins two abstract values, as described in `shape::merge_shape`:
    /// equal values join to themselves, `Undefined` is the identity, two
    /// arrays join pairwise, two objects join keywise, and any other pair
    /// becomes one canonical union of variants.
    fn merge(&self, other: &Self) -> (r: Self) {
        merge_core(self, other)
    }
}

impl Clone for AbstractValue {
    /// A clone of a value has the same model.
    fn clone(&self) -> (r: Self)
        ensures
            r@ == self@,
    {
        value_clone(self)
    }
}

impl Clone for AbstractObject {
    /// A clone of an object has the same properties.
    fn clone(&self) -> (r: Self)
        ensures
            props_of(r.props@) == props_of(self.props@),
    {
        AbstractObject { props: props_clone(&self.props) }
    }
}

} // verus!
