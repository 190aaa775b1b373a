//! Abstract interpretation of the syntax tree.
//!
//! The evaluator walks an `ast::ASTNode` once, producing an abstract value
//! for every expression and threading one mutable `types::AbstractState`
//! through sequencing, branching, looping and constrained generic calls.
//! Where control bifurcates the state is cloned, each branch is evaluated
//! against its own copy, and the copies are joined back with the lattice's
//! merge — so the result conservatively covers every path.  No input is an
//! error: every unresolvable case degrades to `Undefined`.

use vstd::prelude::*;

use crate::ast::{size_ast, size_asts, ASTNode, AstModel};
use crate::shape::{merge_shape, Shape};
use crate::types::{
    state_merge, value_clone, AbstractState, AbstractValue, FunctionModel, StateModel,
};

verus! {

/// The value a variable reads as: its binding, or `Undefined` when it is
/// unbound (an unbound read is not an error).
pub open spec fn lookup(st: StateModel, name: Seq<char>) -> Shape {
    if st.vars.contains_key(name) {
        st.vars[name]
    } else {
        Shape::Undefined
    }
}

/// The abstract `+`: numbers add to a number; a string on either side
/// concatenates to a string; anything else could coerce either way.
pub open spec fn add_shape(l: Shape, r: Shape) -> Shape {
    if l is Number && r is Number {
        Shape::Number
    } else if l is String || r is String {
        Shape::String
    } else {
        Shape::Union(seq![Shape::Number, Shape::String])
    }
}

/// The abstract `-`, `*` and `/`: a number only from two numbers.
pub open spec fn numeric_shape(l: Shape, r: Shape) -> Shape {
    if l is Number && r is Number {
        Shape::Number
    } else {
        Shape::Undefined
    }
}

/// The abstract transfer function of one binary operator.
pub open spec fn binop_shape(op: Seq<char>, l: Shape, r: Shape) -> Shape {
    if op == "+"@ {
        add_shape(l, r)
    } else if op == "-"@ {
        numeric_shape(l, r)
    } else if op == "*"@ {
        numeric_shape(l, r)
    } else if op == "/"@ {
        numeric_shape(l, r)
    } else if op == "=="@ {
        Shape::Boolean
    } else {
        Shape::Undefined
    }
}

/// Whether a value satisfies a constraint tag: `Number`, `String` and
/// `Boolean` ask for exactly that shape; any other tag never holds.
pub open spec fn satisfies(v: Shape, tag: Seq<char>) -> bool {
    if tag == "Number"@ {
        v is Number
    } else if tag == "String"@ {
        v is String
    } else if tag == "Boolean"@ {
        v is Boolean
    } else {
        false
    }
}

/// Whether some constrained generic parameter at position `i` or later is
/// matched by an argument value that fails its constraint.
pub open spec fn constraint_fails(
    generics: Seq<(Seq<char>, Option<Seq<char>>)>,
    vals: Seq<Shape>,
    i: nat,
) -> bool
    decreases generics.len() - i,
{
    if i >= generics.len() {
        false
    } else if i < vals.len() && generics[i as int].1 is Some && !satisfies(
        vals[i as int],
        generics[i as int].1->0,
    ) {
        true
    } else {
        constraint_fails(generics, vals, i + 1)
    }
}

/// The callee's variable bindings: formal parameters bound positionally to
/// the first `n` argument values (unmatched ones on either side ignored);
/// a repeated parameter name keeps the later binding.
pub open spec fn bind_params(params: Seq<Seq<char>>, vals: Seq<Shape>, n: nat) -> Map<
    Seq<char>,
    Shape,
>
    decreases n,
{
    if n == 0 || n > params.len() || n > vals.len() {
        Map::empty()
    } else {
        bind_params(params, vals, (n - 1) as nat).insert(params[n - 1], vals[n - 1])
    }
}

/// The join of the first `n` element shapes, from `Undefined` up: what an
/// index read of an array could be, since the index is not tracked.
pub open spec fn join_prefix(es: Seq<Shape>, n: nat) -> Shape
    decreases n,
{
    if n == 0 || n > es.len() {
        Shape::Undefined
    } else {
        merge_shape(join_prefix(es, (n - 1) as nat), es[n - 1])
    }
}

/// The join over the first `n` union variants of each array variant's
/// element join; a non-array variant contributes `Undefined`.
pub open spec fn join_union(vs: Seq<Shape>, n: nat) -> Shape
    decreases n,
{
    if n == 0 || n > vs.len() {
        Shape::Undefined
    } else {
        merge_shape(
            join_union(vs, (n - 1) as nat),
            match vs[n - 1] {
                Shape::Array(es) => join_prefix(es, es.len()),
                _ => Shape::Undefined,
            },
        )
    }
}

/// What an index read yields for each shape of the array expression.
pub open spec fn index_shape(av: Shape) -> Shape {
    match av {
        Shape::Array(es) => join_prefix(es, es.len()),
        Shape::Union(vs) => join_union(vs, vs.len()),
        _ => Shape::Undefined,
    }
}

/// Fuel sufficient to evaluate `n` in state `st`: more than the tree's own
/// node count, and enough beyond it for the body of any function the state
/// declares.  Evaluation spends one unit per tree level, and a call spends
/// the rest on the callee's body in a fresh state.
pub open spec fn fuel_ok(fuel: nat, n: AstModel, st: StateModel) -> bool {
    &&& fuel > size_ast(n)
    &&& forall|k: Seq<char>| #[trigger]
        st.funs.contains_key(k) ==> fuel > size_ast(n) + size_ast(st.funs[k].body)
}

/// As `fuel_ok`, for the evaluation of the node sequence `nodes[i..]`.
pub open spec fn fuel_ok_seq(fuel: nat, nodes: Seq<AstModel>, i: nat, st: StateModel) -> bool {
    &&& fuel > size_asts(nodes, i)
    &&& forall|k: Seq<char>| #[trigger]
        st.funs.contains_key(k) ==> fuel > size_asts(nodes, i) + size_ast(st.funs[k].body)
}

/// One pass of the abstract evaluator over a node: the state after the
/// node and the node's abstract value.  `fuel` bounds the recursion and
/// decreases by one per tree level; with `fuel_ok` fuel the cutoff branch
/// is never reached, and the result does not depend on the fuel
/// (`lemma_interp_fuel`).
pub open spec fn interp(n: AstModel, st: StateModel, fuel: nat) -> (StateModel, Shape)
    decreases fuel, 0int,
{
    if fuel == 0 {
        (st, Shape::Undefined)
    } else {
        let f1 = (fuel - 1) as nat;
        match n {
            AstModel::Literal(v) => (st, v),
            AstModel::Variable(name) => (st, lookup(st, name)),
            AstModel::Assignment { target, value } => {
                let (st1, v) = interp(*value, st, f1);
                (StateModel { vars: st1.vars.insert(target, v), funs: st1.funs }, v)
            },
            AstModel::BinaryOp { op, left, right } => {
                let (st1, lv) = interp(*left, st, f1);
                let (st2, rv) = interp(*right, st1, f1);
                (st2, binop_shape(op, lv, rv))
            },
            AstModel::IfStatement { condition, then_branch, else_branch } => {
                let (st1, _cv) = interp(*condition, st, f1);
                let (then_st, tv) = interp(*then_branch, st1, f1);
                let (else_st, ev) = match else_branch {
                    Option::Some(e) => interp(*e, st1, f1),
                    Option::None => (st1, Shape::Undefined),
                };
                (state_merge(state_merge(st1, then_st), else_st), merge_shape(tv, ev))
            },
            AstModel::WhileLoop { condition: _, body } => {
                let (loop_st, _bv) = interp(*body, st, f1);
                (state_merge(st, loop_st), Shape::Undefined)
            },
            AstModel::Block { statements } => {
                let (st1, vals) = interp_seq(statements, 0, st, f1);
                (
                    st1,
                    if vals.len() == 0 {
                        Shape::Undefined
                    } else {
                        vals.last()
                    },
                )
            },
            AstModel::FunctionDeclaration { name, params, generics, body } => {
                let f = FunctionModel { params, generics, body: *body };
                (StateModel { vars: st.vars, funs: st.funs.insert(name, f) }, Shape::Undefined)
            },
            AstModel::FunctionCall { function, arguments } => {
                match *function {
                    AstModel::Variable(fname) => {
                        if st.funs.contains_key(fname) {
                            let f = st.funs[fname];
                            let (st1, argvals) = interp_seq(arguments, 0, st, f1);
                            if constraint_fails(f.generics, argvals, 0) {
                                (st1, Shape::Undefined)
                            } else {
                                let m = if f.params.len() <= argvals.len() {
                                    f.params.len()
                                } else {
                                    argvals.len()
                                };
                                let callee = StateModel {
                                    vars: bind_params(f.params, argvals, m),
                                    funs: Map::empty(),
                                };
                                let (_callee_st, rv) = interp(f.body, callee, f1);
                                (st1, rv)
                            }
                        } else {
                            (st, Shape::Undefined)
                        }
                    },
                    _ => (st, Shape::Undefined),
                }
            },
            AstModel::ArrayLiteral(elements) => {
                let (st1, vals) = interp_seq(elements, 0, st, f1);
                (st1, Shape::Array(vals))
            },
            AstModel::ArrayIndex { array, index } => {
                let (st1, av) = interp(*array, st, f1);
                let (st2, iv) = interp(*index, st1, f1);
                if !(iv is Number) {
                    (st2, Shape::Undefined)
                } else {
                    (st2, index_shape(av))
                }
            },
        }
    }
}

/// Evaluates `nodes[i..]` in order against one threaded state, collecting
/// each node's abstract value.
pub open spec fn interp_seq(nodes: Seq<AstModel>, i: nat, st: StateModel, fuel: nat) -> (
    StateModel,
    Seq<Shape>,
)
    decreases fuel, nodes.len() - i,
{
    if i >= nodes.len() {
        (st, Seq::empty())
    } else {
        let (st1, v) = interp(nodes[i as int], st, fuel);
        let (st2, vs) = interp_seq(nodes, i + 1, st1, fuel);
        (st2, seq![v] + vs)
    }
}

/// The join operation of the abstract-value lattice.
pub trait Merge: View + Sized {
    /// The model of the join of `self` and `other`.
    spec fn merged(&self, other: &Self) -> Self::V;

    /// Joins two values into one that covers both.
    fn merge(&self, other: &Self) -> (r: Self)
        ensures
            r@ == self.merged(other),
    ;
}

/// A tree whose literals all carry canonical (well-formed) shapes.
pub open spec fn wf_ast(n: AstModel) -> bool
    decreases n, 0int,
{
    match n {
        AstModel::Literal(v) => crate::shape::wf(v),
        AstModel::Variable(_) => true,
        AstModel::Assignment { value, .. } => wf_ast(*value),
        AstModel::BinaryOp { left, right, .. } => wf_ast(*left) && wf_ast(*right),
        AstModel::IfStatement { condition, then_branch, else_branch } => wf_ast(*condition)
            && wf_ast(*then_branch) && (match else_branch {
            Option::Some(e) => wf_ast(*e),
            Option::None => true,
        }),
        AstModel::WhileLoop { condition, body } => wf_ast(*condition) && wf_ast(*body),
        AstModel::Block { statements } => wf_asts(statements, 0),
        AstModel::FunctionDeclaration { body, .. } => wf_ast(*body),
        AstModel::FunctionCall { function, arguments } => wf_ast(*function) && wf_asts(
            arguments,
            0,
        ),
        AstModel::ArrayLiteral(es) => wf_asts(es, 0),
        AstModel::ArrayIndex { array, index } => wf_ast(*array) && wf_ast(*index),
    }
}

/// As `wf_ast`, for the nodes `s[i..]`.
pub open spec fn wf_asts(s: Seq<AstModel>, i: nat) -> bool
    decreases s, s.len() - i,
{
    if i >= s.len() {
        true
    } else {
        wf_ast(s[i as int]) && wf_asts(s, i + 1)
    }
}

/// A state whose variables hold canonical shapes and whose declared
/// function bodies have canonical literals.
pub open spec fn wf_state(st: StateModel) -> bool {
    &&& forall|k: Seq<char>| #[trigger] st.vars.contains_key(k) ==> crate::shape::wf(st.vars[k])
    &&& forall|k: Seq<char>| #[trigger] st.funs.contains_key(k) ==> wf_ast(st.funs[k].body)
}

/// Merging two well-formed states gives a well-formed state.
proof fn lemma_state_merge_wf(a: StateModel, b: StateModel)
    requires
        wf_state(a),
        wf_state(b),
    ensures
        wf_state(state_merge(a, b)),
{
    let m = state_merge(a, b);
    assert forall|k: Seq<char>| #[trigger] m.vars.contains_key(k) implies crate::shape::wf(
        m.vars[k],
    ) by {
        if a.vars.contains_key(k) && b.vars.contains_key(k) {
            crate::laws::lemma_merge_wf(a.vars[k], b.vars[k]);
        }
    }
}

/// The operator transfer functions give canonical shapes.
proof fn lemma_binop_wf(op: Seq<char>, l: Shape, r: Shape)
    ensures
        crate::shape::wf(binop_shape(op, l, r)),
{
    let ms = seq![Shape::Number, Shape::String];
    assert(crate::shape::wf(Shape::Union(ms))) by {
        assert(ms[0] == Shape::Number && ms[1] == Shape::String && ms.len() == 2);
        assert(crate::shape::shape_lt(Shape::Number, Shape::String));
        assert forall|i: int| 0 <= i < ms.len() implies crate::shape::wf(#[trigger] ms[i]) && !(
        ms[i] is Undefined) && !(ms[i] is Union) by {
            if i == 0 {
                assert(ms[i] == Shape::Number);
            } else {
                assert(ms[i] == Shape::String);
            }
        }
        assert forall|i: int, j: int| 0 <= i < j < ms.len() implies crate::shape::shape_lt(
            #[trigger] ms[i],
            #[trigger] ms[j],
        ) by {
            assert(ms[i] == Shape::Number && ms[j] == Shape::String);
        }
    }
}

/// The join of the first `n` members of a sequence of canonical shapes is
/// canonical.
proof fn lemma_join_prefix_wf(es: Seq<Shape>, n: nat)
    requires
        forall|i: int| 0 <= i < es.len() ==> crate::shape::wf(#[trigger] es[i]),
    ensures
        crate::shape::wf(join_prefix(es, n)),
    decreases n,
{
    if n == 0 || n > es.len() {
    } else {
        lemma_join_prefix_wf(es, (n - 1) as nat);
        crate::laws::lemma_merge_wf(join_prefix(es, (n - 1) as nat), es[n - 1]);
    }
}

/// The element join over the first `n` variants of a canonical union is
/// canonical.
proof fn lemma_join_union_wf(vs: Seq<Shape>, n: nat)
    requires
        forall|i: int| 0 <= i < vs.len() ==> crate::shape::wf(#[trigger] vs[i]),
    ensures
        crate::shape::wf(join_union(vs, n)),
    decreases n,
{
    if n == 0 || n > vs.len() {
    } else {
        lemma_join_union_wf(vs, (n - 1) as nat);
        let c = match vs[n - 1] {
            Shape::Array(es) => join_prefix(es, es.len()),
            _ => Shape::Undefined,
        };
        assert(crate::shape::wf(c)) by {
            match vs[n - 1] {
                Shape::Array(es) => {
                    assert(crate::shape::wf(vs[n - 1]));
                    lemma_join_prefix_wf(es, es.len());
                },
                _ => {},
            }
        }
        crate::laws::lemma_merge_wf(join_union(vs, (n - 1) as nat), c);
    }
}

/// Evaluation preserves canonical form: from a well-formed state and a
/// tree with well-formed literals, every value produced and every value
/// stored is well-formed — union members stay deduplicated, flattened and
/// sorted, and object properties stay sorted by key.
pub proof fn lemma_interp_wf(n: AstModel, st: StateModel, fuel: nat)
    requires
        wf_ast(n),
        wf_state(st),
    ensures
        wf_state(interp(n, st, fuel).0),
        crate::shape::wf(interp(n, st, fuel).1),
    decreases fuel, 0int,
{
    if fuel == 0 {
    } else {
        let f1 = (fuel - 1) as nat;
        match n {
            AstModel::Literal(_) => {},
            AstModel::Variable(_) => {},
            AstModel::Assignment { target, value } => {
                lemma_interp_wf(*value, st, f1);
            },
            AstModel::BinaryOp { op, left, right } => {
                lemma_interp_wf(*left, st, f1);
                let st1 = interp(*left, st, f1).0;
                lemma_interp_wf(*right, st1, f1);
                let lv = interp(*left, st, f1).1;
                let rv = interp(*right, st1, f1).1;
                lemma_binop_wf(op, lv, rv);
            },
            AstModel::IfStatement { condition, then_branch, else_branch } => {
                lemma_interp_wf(*condition, st, f1);
                let st1 = interp(*condition, st, f1).0;
                lemma_interp_wf(*then_branch, st1, f1);
                let (then_st, tv) = interp(*then_branch, st1, f1);
                let (else_st, ev) = match else_branch {
                    Option::Some(e) => {
                        lemma_interp_wf(*e, st1, f1);
                        interp(*e, st1, f1)
                    },
                    Option::None => (st1, Shape::Undefined),
                };
                lemma_state_merge_wf(st1, then_st);
                lemma_state_merge_wf(state_merge(st1, then_st), else_st);
                crate::laws::lemma_merge_wf(tv, ev);
            },
            AstModel::WhileLoop { condition: _, body } => {
                lemma_interp_wf(*body, st, f1);
                lemma_state_merge_wf(st, interp(*body, st, f1).0);
            },
            AstModel::Block { statements } => {
                lemma_interp_seq_wf(statements, 0, st, f1);
                let vals = interp_seq(statements, 0, st, f1).1;
                if vals.len() > 0 {
                    assert(crate::shape::wf(vals[vals.len() - 1]));
                }
            },
            AstModel::FunctionDeclaration { name, params, generics, body } => {},
            AstModel::FunctionCall { function, arguments } => {
                match *function {
                    AstModel::Variable(fname) => {
                        if st.funs.contains_key(fname) {
                            let f = st.funs[fname];
                            lemma_interp_seq_wf(arguments, 0, st, f1);
                            let (st1, argvals) = interp_seq(arguments, 0, st, f1);
                            if !constraint_fails(f.generics, argvals, 0) {
                                let m = if f.params.len() <= argvals.len() {
                                    f.params.len()
                                } else {
                                    argvals.len()
                                };
                                let callee = StateModel {
                                    vars: bind_params(f.params, argvals, m),
                                    funs: Map::empty(),
                                };
                                assert(wf_state(callee)) by {
                                    lemma_bind_params_wf(f.params, argvals, m);
                                }
                                lemma_interp_wf(f.body, callee, f1);
                            }
                        }
                    },
                    _ => {},
                }
            },
            AstModel::ArrayLiteral(elements) => {
                lemma_interp_seq_wf(elements, 0, st, f1);
            },
            AstModel::ArrayIndex { array, index } => {
                lemma_interp_wf(*array, st, f1);
                let (st1, av) = interp(*array, st, f1);
                lemma_interp_wf(*index, st1, f1);
                match av {
                    Shape::Array(es) => {
                        lemma_join_prefix_wf(es, es.len());
                    },
                    Shape::Union(vs) => {
                        lemma_join_union_wf(vs, vs.len());
                    },
                    _ => {},
                }
            },
        }
    }
}

/// As `lemma_interp_wf`, for a node sequence: the threaded state and every
/// collected value stay well-formed.
proof fn lemma_interp_seq_wf(nodes: Seq<AstModel>, i: nat, st: StateModel, fuel: nat)
    requires
        wf_asts(nodes, i),
        wf_state(st),
    ensures
        wf_state(interp_seq(nodes, i, st, fuel).0),
        forall|k: int|
            0 <= k < interp_seq(nodes, i, st, fuel).1.len() ==> crate::shape::wf(
                #[trigger] interp_seq(nodes, i, st, fuel).1[k],
            ),
    decreases fuel, nodes.len() - i,
{
    if i < nodes.len() {
        lemma_interp_wf(nodes[i as int], st, fuel);
        let (st1, v) = interp(nodes[i as int], st, fuel);
        lemma_interp_seq_wf(nodes, i + 1, st1, fuel);
        let rest = interp_seq(nodes, i + 1, st1, fuel).1;
        assert forall|k: int|
            0 <= k < interp_seq(nodes, i, st, fuel).1.len() implies crate::shape::wf(
            #[trigger] interp_seq(nodes, i, st, fuel).1[k],
        ) by {
            if k > 0 {
                assert(interp_seq(nodes, i, st, fuel).1[k] == rest[k - 1]);
            }
        }
    }
}

/// Binding well-formed argument values to parameters gives well-formed
/// variables.
proof fn lemma_bind_params_wf(params: Seq<Seq<char>>, vals: Seq<Shape>, n: nat)
    requires
        forall|k: int| 0 <= k < vals.len() ==> crate::shape::wf(#[trigger] vals[k]),
    ensures
        forall|k: Seq<char>| #[trigger]
            bind_params(params, vals, n).contains_key(k) ==> crate::shape::wf(
                bind_params(params, vals, n)[k],
            ),
    decreases n,
{
    if n == 0 || n > params.len() || n > vals.len() {
    } else {
        lemma_bind_params_wf(params, vals, (n - 1) as nat);
        assert forall|k: Seq<char>| #[trigger]
            bind_params(params, vals, n).contains_key(k) implies crate::shape::wf(
            bind_params(params, vals, n)[k],
        ) by {
            if k != params[n - 1] {
                assert(bind_params(params, vals, (n - 1) as nat).contains_key(k));
            }
        }
    }
}

/// Evaluation only adds function declarations whose bodies are proper
/// subtrees of the evaluated node: any function of the resulting state is
/// either one of the input state, unchanged, or has a body smaller than
/// the node.
pub proof fn lemma_interp_evolution(n: AstModel, st: StateModel, fuel: nat)
    ensures
        ({
            let st2 = interp(n, st, fuel).0;
            forall|k: Seq<char>| #[trigger]
                st2.funs.contains_key(k) ==> (st.funs.contains_key(k) && st2.funs[k]
                    == st.funs[k]) || size_ast(st2.funs[k].body) < size_ast(n)
        }),
    decreases fuel, 0int,
{
    if fuel == 0 {
    } else {
        let f1 = (fuel - 1) as nat;
        match n {
            AstModel::Literal(_) => {},
            AstModel::Variable(_) => {},
            AstModel::Assignment { target, value } => {
                lemma_interp_evolution(*value, st, f1);
            },
            AstModel::BinaryOp { op, left, right } => {
                lemma_interp_evolution(*left, st, f1);
                let st1 = interp(*left, st, f1).0;
                lemma_interp_evolution(*right, st1, f1);
            },
            AstModel::IfStatement { condition, then_branch, else_branch } => {
                lemma_interp_evolution(*condition, st, f1);
                let st1 = interp(*condition, st, f1).0;
                lemma_interp_evolution(*then_branch, st1, f1);
                let then_st = interp(*then_branch, st1, f1).0;
                let else_st = match else_branch {
                    Option::Some(e) => {
                        lemma_interp_evolution(*e, st1, f1);
                        interp(*e, st1, f1).0
                    },
                    Option::None => st1,
                };
                let merged = state_merge(state_merge(st1, then_st), else_st);
                assert forall|k: Seq<char>| #[trigger] merged.funs.contains_key(k) implies (
                st.funs.contains_key(k) && merged.funs[k] == st.funs[k]) || size_ast(
                    merged.funs[k].body,
                ) < size_ast(n) by {
                    if else_st.funs.contains_key(k) {
                        assert(merged.funs[k] == else_st.funs[k]);
                    } else if then_st.funs.contains_key(k) {
                        assert(merged.funs[k] == then_st.funs[k]);
                    } else {
                        assert(merged.funs[k] == st1.funs[k]);
                    }
                }
            },
            AstModel::WhileLoop { condition: _, body } => {
                lemma_interp_evolution(*body, st, f1);
                let loop_st = interp(*body, st, f1).0;
                let merged = state_merge(st, loop_st);
                assert forall|k: Seq<char>| #[trigger] merged.funs.contains_key(k) implies (
                st.funs.contains_key(k) && merged.funs[k] == st.funs[k]) || size_ast(
                    merged.funs[k].body,
                ) < size_ast(n) by {
                    if loop_st.funs.contains_key(k) {
                        assert(merged.funs[k] == loop_st.funs[k]);
                    } else {
                        assert(merged.funs[k] == st.funs[k]);
                    }
                }
            },
            AstModel::Block { statements } => {
                lemma_interp_seq_evolution(statements, 0, st, f1);
            },
            AstModel::FunctionDeclaration { name, params, generics, body } => {},
            AstModel::FunctionCall { function, arguments } => {
                match *function {
                    AstModel::Variable(fname) => {
                        if st.funs.contains_key(fname) {
                            lemma_interp_seq_evolution(arguments, 0, st, f1);
                        }
                    },
                    _ => {},
                }
            },
            AstModel::ArrayLiteral(elements) => {
                lemma_interp_seq_evolution(elements, 0, st, f1);
            },
            AstModel::ArrayIndex { array, index } => {
                lemma_interp_evolution(*array, st, f1);
                let st1 = interp(*array, st, f1).0;
                lemma_interp_evolution(*index, st1, f1);
            },
        }
    }
}

/// As `lemma_interp_evolution`, for a node sequence: any added function
/// body is smaller than the remaining nodes together.
proof fn lemma_interp_seq_evolution(
    nodes: Seq<AstModel>,
    i: nat,
    st: StateModel,
    fuel: nat,
)
    ensures
        ({
            let st2 = interp_seq(nodes, i, st, fuel).0;
            forall|k: Seq<char>| #[trigger]
                st2.funs.contains_key(k) ==> (st.funs.contains_key(k) && st2.funs[k]
                    == st.funs[k]) || size_ast(st2.funs[k].body) < size_asts(nodes, i)
        }),
    decreases fuel, nodes.len() - i,
{
    if i < nodes.len() {
        lemma_interp_evolution(nodes[i as int], st, fuel);
        let st1 = interp(nodes[i as int], st, fuel).0;
        lemma_interp_seq_evolution(nodes, i + 1, st1, fuel);
        crate::ast::lemma_size_asts_member(nodes, i, i as int);
    }
}

/// With sufficient fuel the evaluator's result does not depend on the
/// fuel: the cutoff is never reached.
pub proof fn lemma_interp_fuel(n: AstModel, st: StateModel, fa: nat, fb: nat)
    requires
        fuel_ok(fa, n, st),
        fuel_ok(fb, n, st),
    ensures
        interp(n, st, fa) == interp(n, st, fb),
    decreases fa, 0int,
{
    crate::ast::lemma_size_ast_pos(n);
    let fa1 = (fa - 1) as nat;
    let fb1 = (fb - 1) as nat;
    match n {
        AstModel::Literal(_) => {},
        AstModel::Variable(_) => {},
        AstModel::Assignment { target, value } => {
            lemma_interp_fuel(*value, st, fa1, fb1);
        },
        AstModel::BinaryOp { op, left, right } => {
            lemma_interp_fuel(*left, st, fa1, fb1);
            let st1 = interp(*left, st, fa1).0;
            lemma_interp_evolution(*left, st, fa1);
            assert(fuel_ok(fa1, *right, st1) && fuel_ok(fb1, *right, st1)) by {
                assert forall|k: Seq<char>| #[trigger] st1.funs.contains_key(k) implies fa1
                    > size_ast(*right) + size_ast(st1.funs[k].body) && fb1 > size_ast(*right)
                    + size_ast(st1.funs[k].body) by {
                    if !(st.funs.contains_key(k) && st1.funs[k] == st.funs[k]) {
                        assert(size_ast(st1.funs[k].body) < size_ast(*left));
                    }
                }
            }
            lemma_interp_fuel(*right, st1, fa1, fb1);
        },
        AstModel::IfStatement { condition, then_branch, else_branch } => {
            lemma_interp_fuel(*condition, st, fa1, fb1);
            let st1 = interp(*condition, st, fa1).0;
            lemma_interp_evolution(*condition, st, fa1);
            assert(fuel_ok(fa1, *then_branch, st1) && fuel_ok(fb1, *then_branch, st1)) by {
                assert forall|k: Seq<char>| #[trigger] st1.funs.contains_key(k) implies fa1
                    > size_ast(*then_branch) + size_ast(st1.funs[k].body) && fb1 > size_ast(
                    *then_branch,
                ) + size_ast(st1.funs[k].body) by {
                    if !(st.funs.contains_key(k) && st1.funs[k] == st.funs[k]) {
                        assert(size_ast(st1.funs[k].body) < size_ast(*condition));
                    }
                }
            }
            lemma_interp_fuel(*then_branch, st1, fa1, fb1);
            match else_branch {
                Option::Some(e) => {
                    assert(fuel_ok(fa1, *e, st1) && fuel_ok(fb1, *e, st1)) by {
                        assert forall|k: Seq<char>| #[trigger] st1.funs.contains_key(k) implies fa1
                            > size_ast(*e) + size_ast(st1.funs[k].body) && fb1 > size_ast(*e)
                            + size_ast(st1.funs[k].body) by {
                            if !(st.funs.contains_key(k) && st1.funs[k] == st.funs[k]) {
                                assert(size_ast(st1.funs[k].body) < size_ast(*condition));
                            }
                        }
                    }
                    lemma_interp_fuel(*e, st1, fa1, fb1);
                },
                Option::None => {},
            }
        },
        AstModel::WhileLoop { condition: _, body } => {
            lemma_interp_fuel(*body, st, fa1, fb1);
        },
        AstModel::Block { statements } => {
            assert(fuel_ok_seq(fa1, statements, 0, st) && fuel_ok_seq(fb1, statements, 0, st));
            lemma_interp_seq_fuel(statements, 0, st, fa1, fb1);
        },
        AstModel::FunctionDeclaration { .. } => {},
        AstModel::FunctionCall { function, arguments } => {
            match *function {
                AstModel::Variable(fname) => {
                    if st.funs.contains_key(fname) {
                        let f = st.funs[fname];
                        assert(fuel_ok_seq(fa1, arguments, 0, st) && fuel_ok_seq(
                            fb1,
                            arguments,
                            0,
                            st,
                        ));
                        lemma_interp_seq_fuel(arguments, 0, st, fa1, fb1);
                        let (st1, argvals) = interp_seq(arguments, 0, st, fa1);
                        if !constraint_fails(f.generics, argvals, 0) {
                            let m = if f.params.len() <= argvals.len() {
                                f.params.len()
                            } else {
                                argvals.len()
                            };
                            let callee = StateModel {
                                vars: bind_params(f.params, argvals, m),
                                funs: Map::empty(),
                            };
                            assert(fuel_ok(fa1, f.body, callee) && fuel_ok(fb1, f.body, callee));
                            lemma_interp_fuel(f.body, callee, fa1, fb1);
                        }
                    }
                },
                _ => {},
            }
        },
        AstModel::ArrayLiteral(elements) => {
            assert(fuel_ok_seq(fa1, elements, 0, st) && fuel_ok_seq(fb1, elements, 0, st));
            lemma_interp_seq_fuel(elements, 0, st, fa1, fb1);
        },
        AstModel::ArrayIndex { array, index } => {
            lemma_interp_fuel(*array, st, fa1, fb1);
            let st1 = interp(*array, st, fa1).0;
            lemma_interp_evolution(*array, st, fa1);
            assert(fuel_ok(fa1, *index, st1) && fuel_ok(fb1, *index, st1)) by {
                assert forall|k: Seq<char>| #[trigger] st1.funs.contains_key(k) implies fa1
                    > size_ast(*index) + size_ast(st1.funs[k].body) && fb1 > size_ast(*index)
                    + size_ast(st1.funs[k].body) by {
                    if !(st.funs.contains_key(k) && st1.funs[k] == st.funs[k]) {
                        assert(size_ast(st1.funs[k].body) < size_ast(*array));
                    }
                }
            }
            lemma_interp_fuel(*index, st1, fa1, fb1);
        },
    }
}

/// As `lemma_interp_fuel`, for a node sequence.
proof fn lemma_interp_seq_fuel(
    nodes: Seq<AstModel>,
    i: nat,
    st: StateModel,
    fa: nat,
    fb: nat,
)
    requires
        fuel_ok_seq(fa, nodes, i, st),
        fuel_ok_seq(fb, nodes, i, st),
    ensures
        interp_seq(nodes, i, st, fa) == interp_seq(nodes, i, st, fb),
    decreases fa, nodes.len() - i,
{
    if i < nodes.len() {
        crate::ast::lemma_size_asts_member(nodes, i, i as int);
        assert(fuel_ok(fa, nodes[i as int], st) && fuel_ok(fb, nodes[i as int], st));
        lemma_interp_fuel(nodes[i as int], st, fa, fb);
        let st1 = interp(nodes[i as int], st, fa).0;
        lemma_interp_evolution(nodes[i as int], st, fa);
        assert(fuel_ok_seq(fa, nodes, i + 1, st1) && fuel_ok_seq(fb, nodes, i + 1, st1)) by {
            assert forall|k: Seq<char>| #[trigger] st1.funs.contains_key(k) implies fa
                > size_asts(nodes, i + 1) + size_ast(st1.funs[k].body) && fb > size_asts(
                nodes,
                i + 1,
            ) + size_ast(st1.funs[k].body) by {
                if !(st.funs.contains_key(k) && st1.funs[k] == st.funs[k]) {
                    assert(size_ast(st1.funs[k].body) < size_ast(nodes[i as int]));
                }
            }
        }
        lemma_interp_seq_fuel(nodes, i + 1, st1, fa, fb);
    }
}

/// Joins two abstract values with the lattice's merge.
pub fn merge_values(a: &AbstractValue, b: &AbstractValue) -> (r: AbstractValue)
    ensures
        r@ == merge_shape(a@, b@),
{
    a.merge(b)
}

/// The abstract `+` on two operand values.
fn abstract_add(left: &AbstractValue, right: &AbstractValue) -> (r: AbstractValue)
    ensures
        r@ == add_shape(left@, right@),
{
    match (left, right) {
        (AbstractValue::Number, AbstractValue::Number) => AbstractValue::Number,
        (AbstractValue::String, _) | (_, AbstractValue::String) => AbstractValue::String,
        _ => {
            let mut ms: Vec<AbstractValue> = Vec::new();
            ms.push(AbstractValue::Number);
            ms.push(AbstractValue::String);
            proof {
                assert(crate::types::shapes_of(ms@) =~= seq![Shape::Number, Shape::String]);
            }
            AbstractValue::Union(ms)
        },
    }
}

/// The abstract `-` on two operand values.
fn abstract_subtract(left: &AbstractValue, right: &AbstractValue) -> (r: AbstractValue)
    ensures
        r@ == numeric_shape(left@, right@),
{
    if matches!(left, AbstractValue::Number) && matches!(right, AbstractValue::Number) {
        AbstractValue::Number
    } else {
        AbstractValue::Undefined
    }
}

/// The abstract `*` on two operand values.
fn abstract_multiply(left: &AbstractValue, right: &AbstractValue) -> (r: AbstractValue)
    ensures
        r@ == numeric_shape(left@, right@),
{
    if matches!(left, AbstractValue::Number) && matches!(right, AbstractValue::Number) {
        AbstractValue::Number
    } else {
        AbstractValue::Undefined
    }
}

/// The abstract `/` on two operand values.
fn abstract_divide(left: &AbstractValue, right: &AbstractValue) -> (r: AbstractValue)
    ensures
        r@ == numeric_shape(left@, right@),
{
    if matches!(left, AbstractValue::Number) && matches!(right, AbstractValue::Number) {
        AbstractValue::Number
    } else {
        AbstractValue::Undefined
    }
}

/// The abstract `==`: a boolean whatever the operands are.
fn abstract_equal(_left: &AbstractValue, _right: &AbstractValue) -> (r: AbstractValue)
    ensures
        r@ == Shape::Boolean,
{
    AbstractValue::Boolean
}

/// Whether a value satisfies a generic parameter's constraint tag.
fn satisfies_constraint(v: &AbstractValue, constraint: &str) -> (r: bool)
    ensures
        r == satisfies(v@, constraint@),
{
    if crate::types::str_eq(constraint, "Number") {
        matches!(v, AbstractValue::Number)
    } else if crate::types::str_eq(constraint, "String") {
        matches!(v, AbstractValue::String)
    } else if crate::types::str_eq(constraint, "Boolean") {
        matches!(v, AbstractValue::Boolean)
    } else {
        false
    }
}

/// The largest function-body size a state's function list declares; fuel
/// beyond it is enough for any call.
pub open spec fn funs_fuel(s: Seq<(String, crate::types::Function)>) -> nat
    decreases s.len(),
{
    if s.len() == 0 {
        0
    } else {
        let rest = funs_fuel(s.drop_last());
        let cur = size_ast(crate::ast::ast_of(s.last().1.body));
        if cur >= rest {
            cur
        } else {
            rest
        }
    }
}

/// Every body in the function map of a list is bounded by `funs_fuel`.
proof fn lemma_funs_fuel(s: Seq<(String, crate::types::Function)>)
    ensures
        forall|k: Seq<char>| #[trigger]
            crate::types::funs_map(s).contains_key(k) ==> size_ast(
                crate::types::funs_map(s)[k].body,
            ) <= funs_fuel(s),
    decreases s.len(),
{
    if s.len() > 0 {
        lemma_funs_fuel(s.drop_last());
    }
}

/// Abstractly evaluates one node against the given state, updating the
/// state in place and returning the node's abstract value.  The result and
/// the state afterwards are exactly those of the one-pass evaluation
/// `interp`, at any sufficient fuel.  No input is an error: every
/// unresolvable case yields `Undefined`.
pub fn interpret(node: &ASTNode, state: &mut AbstractState) -> (r: AbstractValue)
    requires
        old(state).inv(),
    ensures
        final(state).inv(),
        fuel_ok(
            size_ast(node@) + funs_fuel(old(state).functions@) + 1,
            node@,
            old(state)@,
        ),
        forall|fuel: nat|
            fuel_ok(fuel, node@, old(state)@) ==> (final(state)@, r@) == interp(
                node@,
                old(state)@,
                fuel,
            ),
{
    let ghost fuel0 = size_ast(node@) + funs_fuel(state.functions@) + 1;
    proof {
        lemma_funs_fuel(state.functions@);
        crate::ast::lemma_size_ast_pos(node@);
    }
    let r = interpret_inner(node, state, Ghost(fuel0));
    proof {
        assert forall|fuel: nat| fuel_ok(fuel, node@, old(state)@) implies (final(state)@, r@)
            == interp(node@, old(state)@, fuel) by {
            lemma_interp_fuel(node@, old(state)@, fuel0, fuel);
        }
    }
    r
}

/// As `interpret`, at one explicit (ghost) fuel.
fn interpret_inner(node: &ASTNode, state: &mut AbstractState, Ghost(fuel): Ghost<nat>) -> (r:
    AbstractValue)
    requires
        old(state).inv(),
        fuel_ok(fuel, node@, old(state)@),
    ensures
        final(state).inv(),
        (final(state)@, r@) == interp(node@, old(state)@, fuel),
    decreases fuel, 1int,
{
    let ghost st0 = state@;
    let ghost f1 = (fuel - 1) as nat;
    proof {
        crate::ast::lemma_size_ast_pos(node@);
    }
    match node {
        ASTNode::Literal(v) => value_clone(v),
        ASTNode::Variable(name) => {
            match state.get(name.as_str()) {
                Option::Some(v) => value_clone(v),
                Option::None => AbstractValue::Undefined,
            }
        },
        ASTNode::Assignment { target, value } => {
            proof {
                assert(fuel_ok(f1, value@, st0));
            }
            let v = interpret_inner(value, state, Ghost(f1));
            let v2 = value_clone(&v);
            state.assign(target.as_str(), v2);
            v
        },
        ASTNode::BinaryOp { op, left, right } => {
            proof {
                assert(fuel_ok(f1, left@, st0));
            }
            let lv = interpret_inner(left, state, Ghost(f1));
            proof {
                lemma_interp_evolution(left@, st0, f1);
                assert(fuel_ok(f1, right@, state@)) by {
                    assert forall|k: Seq<char>| #[trigger] state@.funs.contains_key(k) implies f1
                        > size_ast(right@) + size_ast(state@.funs[k].body) by {
                        if !(st0.funs.contains_key(k) && state@.funs[k] == st0.funs[k]) {
                            assert(size_ast(state@.funs[k].body) < size_ast(left@));
                        }
                    }
                }
            }
            let rv = interpret_inner(right, state, Ghost(f1));
            if crate::types::str_eq(op.as_str(), "+") {
                abstract_add(&lv, &rv)
            } else if crate::types::str_eq(op.as_str(), "-") {
                abstract_subtract(&lv, &rv)
            } else if crate::types::str_eq(op.as_str(), "*") {
                abstract_multiply(&lv, &rv)
            } else if crate::types::str_eq(op.as_str(), "/") {
                abstract_divide(&lv, &rv)
            } else if crate::types::str_eq(op.as_str(), "==") {
                abstract_equal(&lv, &rv)
            } else {
                AbstractValue::Undefined
            }
        },
        ASTNode::IfStatement { .. } => eval_if(node, state, Ghost(fuel)),
        ASTNode::WhileLoop { condition: _, body } => {
            // The loop is summarized by one pass of its body: it may run
            // zero or more times, so the body's effects are joined into
            // the incoming state.
            let mut loop_state = state.duplicate();
            proof {
                assert(fuel_ok(f1, body@, st0));
            }
            let _body_value = interpret_inner(body, &mut loop_state, Ghost(f1));
            state.merge(&loop_state);
            AbstractValue::Undefined
        },


        ASTNode::Block { .. } => eval_block(node, state, Ghost(fuel)),
        ASTNode::FunctionDeclaration { name, params, generics, body } => {
            // The declaration is stored whole; it is retrieved and its
            // body evaluated when a call names it.
            let f = crate::types::Function {
                params: crate::ast::names_clone(params),
                generics: crate::ast::generics_clone(generics),
                body: crate::ast::ast_clone(body),
            };
            proof {
                assert(f@ =~= crate::types::FunctionModel {
                    params: crate::ast::names_of(params@),
                    generics: crate::ast::generics_of(generics@),
                    body: body@,
                });
            }
            state.declare_function(name.as_str(), f);
            AbstractValue::Undefined
        },


        ASTNode::FunctionCall { .. } => eval_call(node, state, Ghost(fuel)),

        ASTNode::ArrayLiteral(_) => eval_array_literal(node, state, Ghost(fuel)),

        ASTNode::ArrayIndex { .. } => eval_array_index(node, state, Ghost(fuel)),
    }
}

/// Evaluates one `IfStatement` node, as `interpret_inner` does.
#[verifier::rlimit(100)]
fn eval_if(node: &ASTNode, state: &mut AbstractState, Ghost(fuel): Ghost<nat>) -> (r:
    AbstractValue)
    requires
        old(state).inv(),
        fuel_ok(fuel, node@, old(state)@),
        node@ is IfStatement,
    ensures
        final(state).inv(),
        (final(state)@, r@) == interp(node@, old(state)@, fuel),
    decreases fuel, 0int,
{
    let ghost st0 = state@;
    let ghost f1 = (fuel - 1) as nat;
    proof {
        crate::ast::lemma_size_ast_pos(node@);
    }
    match node {
        ASTNode::IfStatement { condition, then_branch, else_branch } => {
            proof {
                assert(fuel_ok(f1, condition@, st0));
            }
            let _condition_value = interpret_inner(condition, state, Ghost(f1));
            let ghost st1 = state@;
            proof {
                lemma_interp_evolution(condition@, st0, f1);
            }
            // Branch selection is not resolved: both paths are explored
            // against their own copies of the state and joined back.
            let mut then_state = state.duplicate();
            let mut else_state = state.duplicate();
            proof {
                assert(fuel_ok(f1, then_branch@, st1)) by {
                    assert forall|k: Seq<char>| #[trigger] st1.funs.contains_key(k) implies f1
                        > size_ast(then_branch@) + size_ast(st1.funs[k].body) by {
                        if !(st0.funs.contains_key(k) && st1.funs[k] == st0.funs[k]) {
                            assert(size_ast(st1.funs[k].body) < size_ast(condition@));
                        }
                    }
                }
            }
            let then_value = interpret_inner(then_branch, &mut then_state, Ghost(f1));
            let else_value = match else_branch {
                Option::Some(e) => {
                    proof {
                        assert(fuel_ok(f1, e@, st1)) by {
                            assert forall|k: Seq<char>| #[trigger]
                                st1.funs.contains_key(k) implies f1 > size_ast(e@) + size_ast(
                                st1.funs[k].body,
                            ) by {
                                if !(st0.funs.contains_key(k) && st1.funs[k] == st0.funs[k]) {
                                    assert(size_ast(st1.funs[k].body) < size_ast(condition@));
                                }
                            }
                        }
                    }
                    interpret_inner(e, &mut else_state, Ghost(f1))
                },
                Option::None => AbstractValue::Undefined,
            };
            state.merge(&then_state);
            state.merge(&else_state);
            merge_values(&then_value, &else_value)
        },
        _ => {
            proof {
                assert(false);
            }
            AbstractValue::Undefined
        },
    }
}

/// Evaluates one `Block` node, as `interpret_inner` does.
#[verifier::rlimit(100)]
fn eval_block(node: &ASTNode, state: &mut AbstractState, Ghost(fuel): Ghost<nat>) -> (r:
    AbstractValue)
    requires
        old(state).inv(),
        fuel_ok(fuel, node@, old(state)@),
        node@ is Block,
    ensures
        final(state).inv(),
        (final(state)@, r@) == interp(node@, old(state)@, fuel),
    decreases fuel, 0int,
{
    let ghost st0 = state@;
    let ghost f1 = (fuel - 1) as nat;
    proof {
        crate::ast::lemma_size_ast_pos(node@);
    }
    match node {
        ASTNode::Block { statements } => {
            let ghost sm = crate::ast::asts_of(statements@);
            let mut result = AbstractValue::Undefined;
            let ghost mut vp: Seq<Shape> = Seq::empty();
            let mut i: usize = 0;
            proof {
                assert(fuel_ok_seq(f1, sm, 0, st0));
            }
            while i < statements.len()
                invariant
                    state.inv(),
                    fuel >= 1,
                    f1 == (fuel - 1) as nat,
                    i <= statements@.len(),
                    sm == crate::ast::asts_of(statements@),
                    fuel_ok_seq(f1, sm, i as nat, state@),
                    interp_seq(sm, 0, st0, f1) == {
                        let (stf, rest) = interp_seq(sm, i as nat, state@, f1);
                        (stf, vp + rest)
                    },
                    vp.len() == i,
                    result@ == if vp.len() == 0 {
                        Shape::Undefined
                    } else {
                        vp.last()
                    },
                decreases statements@.len() - i,
            {
                let ghost pre = state@;
                proof {
                    crate::ast::lemma_size_asts_member(sm, i as nat, i as int);
                    assert(fuel_ok(f1, sm[i as int], pre));
                    assert(statements[i as int]@ == sm[i as int]);
                }
                result = interpret_inner(&statements[i], state, Ghost(f1));
                proof {
                    lemma_interp_evolution(sm[i as int], pre, f1);
                    assert(fuel_ok_seq(f1, sm, i as nat + 1, state@)) by {
                        assert forall|k: Seq<char>| #[trigger]
                            state@.funs.contains_key(k) implies f1 > size_asts(sm, i as nat + 1)
                            + size_ast(state@.funs[k].body) by {
                            if !(pre.funs.contains_key(k) && state@.funs[k] == pre.funs[k]) {
                                assert(size_ast(state@.funs[k].body) < size_ast(sm[i as int]));
                            }
                        }
                    }
                    vp = vp.push(result@);
                    let (stf, rest) = interp_seq(sm, i as nat + 1, state@, f1);
                    assert(vp.drop_last() + (seq![result@] + rest) =~= vp + rest);
                }
                i += 1;
            }
            proof {
                let (stf, rest) = interp_seq(sm, i as nat, state@, f1);
                assert(rest.len() == 0);
                assert(vp + rest =~= vp);
            }
            result
        },
        _ => {
            proof {
                assert(false);
            }
            AbstractValue::Undefined
        },
    }
}

/// Evaluates one `FunctionCall` node, as `interpret_inner` does.
#[verifier::rlimit(100)]
fn eval_call(node: &ASTNode, state: &mut AbstractState, Ghost(fuel): Ghost<nat>) -> (r:
    AbstractValue)
    requires
        old(state).inv(),
        fuel_ok(fuel, node@, old(state)@),
        node@ is FunctionCall,
    ensures
        final(state).inv(),
        (final(state)@, r@) == interp(node@, old(state)@, fuel),
    decreases fuel, 0int,
{
    let ghost st0 = state@;
    let ghost f1 = (fuel - 1) as nat;
    proof {
        crate::ast::lemma_size_ast_pos(node@);
    }
    match node {
        ASTNode::FunctionCall { function, arguments } => {
            // The callee must be a direct variable reference naming a
            // declared function; anything else reads as `Undefined`, and
            // an undeclared name is answered before any argument runs.
            match &**function {
                ASTNode::Variable(func_name) => {
                    match state.get_function(func_name.as_str()) {
                        Option::Some(func) => {
                            let ghost fm = st0.funs[func_name@];
                            let ghost am = crate::ast::asts_of(arguments@);
                            proof {
                                assert(crate::ast::ast_of(**function) == AstModel::Variable(
                                    func_name@,
                                ));
                                assert(node@ == (AstModel::FunctionCall {
                                    function: Box::new(AstModel::Variable(func_name@)),
                                    arguments: am,
                                }));
                            }
                            // Evaluate every argument against the caller's
                            // state, left to right.
                            let mut argvals: Vec<AbstractValue> = Vec::new();
                            let ghost mut vp: Seq<Shape> = Seq::empty();
                            let mut i: usize = 0;
                            proof {
                                assert(fuel_ok_seq(f1, am, 0, st0));
                            }
                            while i < arguments.len()
                                invariant
                                    state.inv(),
                                    fuel >= 1,
                                    f1 == (fuel - 1) as nat,
                                    i <= arguments@.len(),
                                    am == crate::ast::asts_of(arguments@),
                                    fuel_ok_seq(f1, am, i as nat, state@),
                                    interp_seq(am, 0, st0, f1) == {
                                        let (stf, rest) = interp_seq(am, i as nat, state@, f1);
                                        (stf, vp + rest)
                                    },
                                    vp.len() == i,
                                    argvals@.len() == i,
                                    crate::types::shapes_of(argvals@) == vp,
                                decreases arguments@.len() - i,
                            {
                                let ghost pre = state@;
                                proof {
                                    crate::ast::lemma_size_asts_member(am, i as nat, i as int);
                                    assert(fuel_ok(f1, am[i as int], pre));
                                    assert(arguments[i as int]@ == am[i as int]);
                                }
                                let v = interpret_inner(&arguments[i], state, Ghost(f1));
                                proof {
                                    lemma_interp_evolution(am[i as int], pre, f1);
                                    assert(fuel_ok_seq(f1, am, i as nat + 1, state@)) by {
                                        assert forall|k: Seq<char>| #[trigger]
                                            state@.funs.contains_key(k) implies f1 > size_asts(
                                            am,
                                            i as nat + 1,
                                        ) + size_ast(state@.funs[k].body) by {
                                            if !(pre.funs.contains_key(k) && state@.funs[k]
                                                == pre.funs[k]) {
                                                assert(size_ast(state@.funs[k].body) < size_ast(
                                                    am[i as int],
                                                ));
                                            }
                                        }
                                    }
                                    vp = vp.push(v@);
                                    let (stf, rest) = interp_seq(am, i as nat + 1, state@, f1);
                                    assert(vp.drop_last() + (seq![v@] + rest) =~= vp + rest);
                                }
                                argvals.push(v);
                                proof {
                                    assert(crate::types::shapes_of(argvals@) =~= vp);
                                }
                                i += 1;
                            }
                            proof {
                                let (stf, rest) = interp_seq(am, i as nat, state@, f1);
                                assert(rest.len() == 0);
                                assert(vp + rest =~= vp);
                            }
                            // Check each declared generic's constraint
                            // against its positional argument; a failure
                            // short-circuits the call.
                            let mut g: usize = 0;
                            while g < func.generics.len()
                                invariant
                                    state.inv(),
                                    st0 == old(state)@,
                                    fuel >= 1,
                                    f1 == (fuel - 1) as nat,
                                    node@ == (AstModel::FunctionCall {
                                        function: Box::new(AstModel::Variable(func_name@)),
                                        arguments: am,
                                    }),
                                    st0.funs.contains_key(func_name@),
                                    fm == st0.funs[func_name@],
                                    interp_seq(am, 0, st0, f1) == (state@, vp),
                                    g <= func.generics@.len(),
                                    fm == func@,
                                    vp == crate::types::shapes_of(argvals@),
                                    argvals@.len() == arguments@.len(),
                                    constraint_fails(fm.generics, vp, 0) == constraint_fails(
                                        fm.generics,
                                        vp,
                                        g as nat,
                                    ),
                                decreases func.generics@.len() - g,
                            {
                                if g < argvals.len() {
                                    match &func.generics[g].1 {
                                        Option::Some(tag) => {
                                            if !satisfies_constraint(&argvals[g], tag.as_str()) {
                                                proof {
                                                    assert(constraint_fails(
                                                        fm.generics,
                                                        vp,
                                                        g as nat,
                                                    ));
                                                }
                                                return AbstractValue::Undefined;
                                            }
                                        },
                                        Option::None => {},
                                    }
                                }
                                g += 1;
                            }
                            proof {
                                assert(!constraint_fails(fm.generics, vp, g as nat));
                            }
                            // A fresh state for the callee: only the
                            // formal parameters are bound, positionally.
                            let mut func_state = AbstractState::new();
                            let m = if func.params.len() <= argvals.len() {
                                func.params.len()
                            } else {
                                argvals.len()
                            };
                            let mut k: usize = 0;
                            while k < m
                                invariant
                                    func_state.inv(),
                                    k <= m,
                                    fm == func@,
                                    vp == crate::types::shapes_of(argvals@),
                                    m == if fm.params.len() <= vp.len() {
                                        fm.params.len()
                                    } else {
                                        vp.len()
                                    },
                                    m <= func.params@.len(),
                                    m <= argvals@.len(),
                                    func_state@.vars == bind_params(fm.params, vp, k as nat),
                                    func_state@.funs == Map::<
                                        Seq<char>,
                                        crate::types::FunctionModel,
                                    >::empty(),
                                decreases m - k,
                            {
                                let v = value_clone(&argvals[k]);
                                func_state.assign(func.params[k].as_str(), v);
                                k += 1;
                            }
                            proof {
                                assert(fuel_ok(f1, fm.body, func_state@)) by {
                                    assert(func.body@ == fm.body);
                                    assert(fuel > size_ast(node@) + size_ast(fm.body));
                                }
                                assert(func.body@ == fm.body);
                            }
                            let rv = interpret_inner(&func.body, &mut func_state, Ghost(f1));
                            rv
                        },
                        Option::None => AbstractValue::Undefined,
                    }
                },
                _ => AbstractValue::Undefined,
            }
        },
        _ => {
            proof {
                assert(false);
            }
            AbstractValue::Undefined
        },
    }
}

/// Evaluates one `ArrayLiteral` node, as `interpret_inner` does.
#[verifier::rlimit(100)]
fn eval_array_literal(node: &ASTNode, state: &mut AbstractState, Ghost(fuel): Ghost<nat>) -> (r:
    AbstractValue)
    requires
        old(state).inv(),
        fuel_ok(fuel, node@, old(state)@),
        node@ is ArrayLiteral,
    ensures
        final(state).inv(),
        (final(state)@, r@) == interp(node@, old(state)@, fuel),
    decreases fuel, 0int,
{
    let ghost st0 = state@;
    let ghost f1 = (fuel - 1) as nat;
    proof {
        crate::ast::lemma_size_ast_pos(node@);
    }
    match node {
        ASTNode::ArrayLiteral(elements) => {
            let ghost am = crate::ast::asts_of(elements@);
            let mut vals: Vec<AbstractValue> = Vec::new();
            let ghost mut vp: Seq<Shape> = Seq::empty();
            let mut i: usize = 0;
            proof {
                assert(fuel_ok_seq(f1, am, 0, st0));
            }
            while i < elements.len()
                invariant
                    state.inv(),
                    fuel >= 1,
                    f1 == (fuel - 1) as nat,
                    i <= elements@.len(),
                    am == crate::ast::asts_of(elements@),
                    fuel_ok_seq(f1, am, i as nat, state@),
                    interp_seq(am, 0, st0, f1) == {
                        let (stf, rest) = interp_seq(am, i as nat, state@, f1);
                        (stf, vp + rest)
                    },
                    vp.len() == i,
                    vals@.len() == i,
                    crate::types::shapes_of(vals@) == vp,
                decreases elements@.len() - i,
            {
                let ghost pre = state@;
                proof {
                    crate::ast::lemma_size_asts_member(am, i as nat, i as int);
                    assert(fuel_ok(f1, am[i as int], pre));
                    assert(elements[i as int]@ == am[i as int]);
                }
                let v = interpret_inner(&elements[i], state, Ghost(f1));
                proof {
                    lemma_interp_evolution(am[i as int], pre, f1);
                    assert(fuel_ok_seq(f1, am, i as nat + 1, state@)) by {
                        assert forall|k: Seq<char>| #[trigger]
                            state@.funs.contains_key(k) implies f1 > size_asts(am, i as nat + 1)
                            + size_ast(state@.funs[k].body) by {
                            if !(pre.funs.contains_key(k) && state@.funs[k] == pre.funs[k]) {
                                assert(size_ast(state@.funs[k].body) < size_ast(am[i as int]));
                            }
                        }
                    }
                    vp = vp.push(v@);
                    let (stf, rest) = interp_seq(am, i as nat + 1, state@, f1);
                    assert(vp.drop_last() + (seq![v@] + rest) =~= vp + rest);
                }
                vals.push(v);
                proof {
                    assert(crate::types::shapes_of(vals@) =~= vp);
                }
                i += 1;
            }
            proof {
                let (stf, rest) = interp_seq(am, i as nat, state@, f1);
                assert(rest.len() == 0);
                assert(vp + rest =~= vp);
            }
            AbstractValue::Array(vals)
        },
        _ => {
            proof {
                assert(false);
            }
            AbstractValue::Undefined
        },
    }
}

/// Evaluates one `ArrayIndex` node, as `interpret_inner` does.
#[verifier::rlimit(100)]
fn eval_array_index(node: &ASTNode, state: &mut AbstractState, Ghost(fuel): Ghost<nat>) -> (r:
    AbstractValue)
    requires
        old(state).inv(),
        fuel_ok(fuel, node@, old(state)@),
        node@ is ArrayIndex,
    ensures
        final(state).inv(),
        (final(state)@, r@) == interp(node@, old(state)@, fuel),
    decreases fuel, 0int,
{
    let ghost st0 = state@;
    let ghost f1 = (fuel - 1) as nat;
    proof {
        crate::ast::lemma_size_ast_pos(node@);
    }
    match node {
        ASTNode::ArrayIndex { array, index } => {
            proof {
                assert(fuel_ok(f1, array@, st0));
            }
            let array_value = interpret_inner(array, state, Ghost(f1));
            proof {
                lemma_interp_evolution(array@, st0, f1);
                assert(fuel_ok(f1, index@, state@)) by {
                    assert forall|k: Seq<char>| #[trigger] state@.funs.contains_key(k) implies f1
                        > size_ast(index@) + size_ast(state@.funs[k].body) by {
                        if !(st0.funs.contains_key(k) && state@.funs[k] == st0.funs[k]) {
                            assert(size_ast(state@.funs[k].body) < size_ast(array@));
                        }
                    }
                }
            }
            let index_value = interpret_inner(index, state, Ghost(f1));
            if !matches!(index_value, AbstractValue::Number) {
                return AbstractValue::Undefined;
            }
            // The index is not tracked concretely: the read could be any
            // element, so all element shapes are joined.
            match &array_value {
                AbstractValue::Array(es) => {
                    let ghost esm = crate::types::shapes_of(es@);
                    let mut acc = AbstractValue::Undefined;
                    let mut i: usize = 0;
                    while i < es.len()
                        invariant
                            i <= es@.len(),
                            esm == crate::types::shapes_of(es@),
                            acc@ == join_prefix(esm, i as nat),
                        decreases es@.len() - i,
                    {
                        acc = merge_values(&acc, &es[i]);
                        i += 1;
                    }
                    proof {
                        assert(array_value@ == Shape::Array(esm));
                    }
                    acc
                },
                AbstractValue::Union(variants) => {
                    let ghost vsm = crate::types::shapes_of(variants@);
                    let mut acc = AbstractValue::Undefined;
                    let mut i: usize = 0;
                    while i < variants.len()
                        invariant
                            i <= variants@.len(),
                            vsm == crate::types::shapes_of(variants@),
                            acc@ == join_union(vsm, i as nat),
                        decreases variants@.len() - i,
                    {
                        match &variants[i] {
                            AbstractValue::Array(es) => {
                                let ghost esm = crate::types::shapes_of(es@);
                                let mut elem = AbstractValue::Undefined;
                                let mut j: usize = 0;
                                while j < es.len()
                                    invariant
                                        j <= es@.len(),
                                        esm == crate::types::shapes_of(es@),
                                        elem@ == join_prefix(esm, j as nat),
                                    decreases es@.len() - j,
                                {
                                    elem = merge_values(&elem, &es[j]);
                                    j += 1;
                                }
                                proof {
                                    assert(vsm[i as int] == Shape::Array(esm));
                                }
                                acc = merge_values(&acc, &elem);
                            },
                            _ => {
                                acc = merge_values(&acc, &AbstractValue::Undefined);
                            },
                        }
                        i += 1;
                    }
                    proof {
                        assert(array_value@ == Shape::Union(vsm));
                    }
                    acc
                },
                _ => AbstractValue::Undefined,
            }
        },
        _ => {
            proof {
                assert(false);
            }
            AbstractValue::Undefined
        },
    }
}

} // verus!
