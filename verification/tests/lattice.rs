// The join of the abstract-value lattice on concrete values: identity,
// idempotence, commutativity, associativity, and the array, object and
// union rules.

use abst::interpret::{merge_values, Merge};
use abst::types::{AbstractObject, AbstractState, AbstractValue};

fn obj(props: Vec<(&str, AbstractValue)>) -> AbstractValue {
    AbstractValue::Object(AbstractObject {
        props: props.into_iter().map(|(k, v)| (k.to_string(), v)).collect(),
    })
}

// Undefined is the identity on both sides, also for composite values.
#[test]
fn merge_identity() {
    let a = AbstractValue::Array(vec![AbstractValue::Number, AbstractValue::String]);
    assert_eq!(merge_values(&a, &AbstractValue::Undefined), a);
    assert_eq!(merge_values(&AbstractValue::Undefined, &a), a);
    let u = AbstractValue::Union(vec![AbstractValue::Null, AbstractValue::Boolean]);
    assert_eq!(merge_values(&u, &AbstractValue::Undefined), u);
    assert_eq!(merge_values(&AbstractValue::Undefined, &u), u);
}

// Merging a value with itself yields the same value.
#[test]
fn merge_idempotent() {
    let o = obj(vec![("k", AbstractValue::Number)]);
    assert_eq!(merge_values(&o, &o), o);
    let n = AbstractValue::Number;
    assert_eq!(merge_values(&n, &n), n);
}

// The order of operands does not affect the result.
#[test]
fn merge_commutative() {
    let a = AbstractValue::Array(vec![AbstractValue::Number]);
    let b = AbstractValue::String;
    assert_eq!(merge_values(&a, &b), merge_values(&b, &a));
    let x = obj(vec![("k", AbstractValue::Number)]);
    let y = obj(vec![("m", AbstractValue::String)]);
    assert_eq!(merge_values(&x, &y), merge_values(&y, &x));
}

// The grouping of merges does not affect the result on flat values.
#[test]
fn merge_associative() {
    let a = AbstractValue::Number;
    let b = AbstractValue::String;
    let c = AbstractValue::Boolean;
    let left = merge_values(&merge_values(&a, &b), &c);
    let right = merge_values(&a, &merge_values(&b, &c));
    assert_eq!(left, right);
    assert_eq!(
        left,
        AbstractValue::Union(vec![
            AbstractValue::Boolean,
            AbstractValue::Number,
            AbstractValue::String,
        ])
    );
}

// Number joined with String is exactly the union of the two, whichever
// side each stands on: the representation is canonical.
#[test]
fn merge_number_string_union() {
    let expected = AbstractValue::Union(vec![AbstractValue::Number, AbstractValue::String]);
    assert_eq!(
        merge_values(&AbstractValue::Number, &AbstractValue::String),
        expected
    );
    assert_eq!(
        merge_values(&AbstractValue::String, &AbstractValue::Number),
        expected
    );
}

// Arrays of different lengths join slot by slot up to the longer length;
// a missing slot joins as Undefined, keeping the longer tail unchanged.
#[test]
fn merge_arrays_of_different_lengths() {
    let a = AbstractValue::Array(vec![AbstractValue::Number, AbstractValue::Boolean]);
    let b = AbstractValue::Array(vec![AbstractValue::String]);
    assert_eq!(
        merge_values(&a, &b),
        AbstractValue::Array(vec![
            AbstractValue::Union(vec![AbstractValue::Number, AbstractValue::String]),
            AbstractValue::Boolean,
        ])
    );
}

// Objects join over the union of their keys: a key on both sides joins
// its two values, a key on one side keeps its value unchanged.
#[test]
fn merge_objects_key_union() {
    let a = obj(vec![
        ("both", AbstractValue::Number),
        ("only_a", AbstractValue::Null),
    ]);
    let b = obj(vec![
        ("both", AbstractValue::String),
        ("only_b", AbstractValue::Boolean),
    ]);
    assert_eq!(
        merge_values(&a, &b),
        obj(vec![
            (
                "both",
                AbstractValue::Union(vec![AbstractValue::Number, AbstractValue::String]),
            ),
            ("only_a", AbstractValue::Null),
            ("only_b", AbstractValue::Boolean),
        ])
    );
}

// Object keys come out sorted whichever operand they come from.
#[test]
fn merge_objects_orders_keys() {
    let a = obj(vec![("b", AbstractValue::Number)]);
    let b = obj(vec![("a", AbstractValue::String)]);
    assert_eq!(
        merge_values(&a, &b),
        obj(vec![
            ("a", AbstractValue::String),
            ("b", AbstractValue::Number),
        ])
    );
}

// Nested unions flatten and deduplicate; a union that collapses to one
// variant stands alone.
#[test]
fn merge_flattens_and_deduplicates() {
    let u = AbstractValue::Union(vec![AbstractValue::Number, AbstractValue::String]);
    assert_eq!(
        merge_values(&u, &AbstractValue::Number),
        AbstractValue::Union(vec![AbstractValue::Number, AbstractValue::String])
    );
    let v = AbstractValue::Union(vec![AbstractValue::Boolean, AbstractValue::Null]);
    assert_eq!(
        merge_values(&u, &v),
        AbstractValue::Union(vec![
            AbstractValue::Null,
            AbstractValue::Boolean,
            AbstractValue::Number,
            AbstractValue::String,
        ])
    );
}

// Generic values participate as opaque union variants, ordered by name.
#[test]
fn merge_generics_as_variants() {
    let t = AbstractValue::Generic("T".to_string(), Box::new(AbstractValue::Number));
    let u = AbstractValue::Generic("U".to_string(), Box::new(AbstractValue::String));
    assert_eq!(
        merge_values(&u, &t),
        AbstractValue::Union(vec![t.clone(), u.clone()])
    );
    assert_eq!(merge_values(&t, &t), t);
}

// Merging one state into another joins shared variables, copies the
// rest in, and is idempotent under repeated application of the same
// other state.
#[test]
fn state_merge_and_repeat() {
    let mut a = AbstractState::new();
    a.assign("x", AbstractValue::Number);
    let mut b = AbstractState::new();
    b.assign("x", AbstractValue::String);
    b.assign("y", AbstractValue::Null);
    a.merge(&b);
    let expected_x = AbstractValue::Union(vec![AbstractValue::Number, AbstractValue::String]);
    assert_eq!(a.get("x").cloned().unwrap(), expected_x);
    assert_eq!(a.get("y").cloned().unwrap(), AbstractValue::Null);
    a.merge(&b);
    assert_eq!(a.get("x").cloned().unwrap(), expected_x);
    assert_eq!(a.get("y").cloned().unwrap(), AbstractValue::Null);
}

// The trait entry point joins exactly as `merge_values` does.
#[test]
fn merge_trait_matches_free_function() {
    let a = AbstractValue::Number;
    let b = AbstractValue::String;
    assert_eq!(a.merge(&b), merge_values(&a, &b));
}
