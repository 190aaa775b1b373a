//! The abstract syntax tree that the evaluator consumes.
//!
//! `ASTNode` is pure data: it is built by an external parser (out of scope
//! here) and handed to `interpret::interpret`.  `AstModel` is its
//! specification-level mirror, with mathematical sequences in place of
//! vectors and character sequences in place of strings, together with a
//! node-count measure used to bound evaluation.

use vstd::prelude::*;

use crate::shape::Shape;
use crate::types::AbstractValue;

verus! {

/// One node of the analyzed program's syntax tree.
#[derive(Debug)]
pub enum ASTNode {
    Literal(AbstractValue),
    Variable(String),
    Assignment { target: String, value: Box<ASTNode> },
    BinaryOp { op: String, left: Box<ASTNode>, right: Box<ASTNode> },
    IfStatement {
        condition: Box<ASTNode>,
        then_branch: Box<ASTNode>,
        else_branch: Option<Box<ASTNode>>,
    },
    WhileLoop { condition: Box<ASTNode>, body: Box<ASTNode> },
    Block { statements: Vec<ASTNode> },
    FunctionDeclaration {
        name: String,
        params: Vec<String>,
        generics: Vec<(String, Option<String>)>,
        body: Box<ASTNode>,
    },
    FunctionCall { function: Box<ASTNode>, arguments: Vec<ASTNode> },
    ArrayLiteral(Vec<ASTNode>),
    ArrayIndex { array: Box<ASTNode>, index: Box<ASTNode> },
}

/// The specification-level mirror of `ASTNode`.
pub enum AstModel {
    Literal(Shape),
    Variable(Seq<char>),
    Assignment { target: Seq<char>, value: Box<AstModel> },
    BinaryOp { op: Seq<char>, left: Box<AstModel>, right: Box<AstModel> },
    IfStatement {
        condition: Box<AstModel>,
        then_branch: Box<AstModel>,
        else_branch: Option<Box<AstModel>>,
    },
    WhileLoop { condition: Box<AstModel>, body: Box<AstModel> },
    Block { statements: Seq<AstModel> },
    FunctionDeclaration {
        name: Seq<char>,
        params: Seq<Seq<char>>,
        generics: Seq<(Seq<char>, Option<Seq<char>>)>,
        body: Box<AstModel>,
    },
    FunctionCall { function: Box<AstModel>, arguments: Seq<AstModel> },
    ArrayLiteral(Seq<AstModel>),
    ArrayIndex { array: Box<AstModel>, index: Box<AstModel> },
}

/// The model of a sequence of nodes.
pub open spec fn asts_of(s: Seq<ASTNode>) -> Seq<AstModel>
    decreases s,
{
    Seq::new(
        s.len(),
        |i: int|
            if 0 <= i < s.len() {
                ast_of(s[i])
            } else {
                AstModel::Literal(Shape::Undefined)
            },
    )
}

/// The model of a sequence of names.
pub open spec fn names_of(s: Seq<String>) -> Seq<Seq<char>> {
    Seq::new(s.len(), |i: int| s[i]@)
}

/// The model of a sequence of generic parameters with optional constraint
/// tags.
pub open spec fn generics_of(s: Seq<(String, Option<String>)>) -> Seq<(Seq<char>, Option<
    Seq<char>,
>)> {
    Seq::new(
        s.len(),
        |i: int|
            (
                s[i].0@,
                match s[i].1 {
                    Option::Some(c) => Option::Some(c@),
                    Option::None => Option::None,
                },
            ),
    )
}

/// The model of one node.
pub open spec fn ast_of(n: ASTNode) -> AstModel
    decreases n,
{
    match n {
        ASTNode::Literal(v) => AstModel::Literal(v@),
        ASTNode::Variable(name) => AstModel::Variable(name@),
        ASTNode::Assignment { target, value } => AstModel::Assignment {
            target: target@,
            value: Box::new(ast_of(*value)),
        },
        ASTNode::BinaryOp { op, left, right } => AstModel::BinaryOp {
            op: op@,
            left: Box::new(ast_of(*left)),
            right: Box::new(ast_of(*right)),
        },
        ASTNode::IfStatement { condition, then_branch, else_branch } => AstModel::IfStatement {
            condition: Box::new(ast_of(*condition)),
            then_branch: Box::new(ast_of(*then_branch)),
            else_branch: match else_branch {
                Option::Some(e) => Option::Some(Box::new(ast_of(*e))),
                Option::None => Option::None,
            },
        },
        ASTNode::WhileLoop { condition, body } => AstModel::WhileLoop {
            condition: Box::new(ast_of(*condition)),
            body: Box::new(ast_of(*body)),
        },
        ASTNode::Block { statements } => AstModel::Block { statements: asts_of(statements@) },
        ASTNode::FunctionDeclaration { name, params, generics, body } => {
            AstModel::FunctionDeclaration {
                name: name@,
                params: names_of(params@),
                generics: generics_of(generics@),
                body: Box::new(ast_of(*body)),
            }
        },
        ASTNode::FunctionCall { function, arguments } => AstModel::FunctionCall {
            function: Box::new(ast_of(*function)),
            arguments: asts_of(arguments@),
        },
        ASTNode::ArrayLiteral(elements) => AstModel::ArrayLiteral(asts_of(elements@)),
        ASTNode::ArrayIndex { array, index } => AstModel::ArrayIndex {
            array: Box::new(ast_of(*array)),
            index: Box::new(ast_of(*index)),
        },
    }
}

impl View for ASTNode {
    type V = AstModel;

    open spec fn view(&self) -> AstModel {
        ast_of(*self)
    }
}

/// The number of nodes in a tree; every node counts one.  This measure
/// bounds the depth of any evaluation of the tree.
pub open spec fn size_ast(n: AstModel) -> nat
    decreases n, 0int,
{
    match n {
        AstModel::Literal(_) => 1,
        AstModel::Variable(_) => 1,
        AstModel::Assignment { value, .. } => 1 + size_ast(*value),
        AstModel::BinaryOp { left, right, .. } => 1 + size_ast(*left) + size_ast(*right),
        AstModel::IfStatement { condition, then_branch, else_branch } => 1 + size_ast(*condition)
            + size_ast(*then_branch) + (match else_branch {
            Option::Some(e) => size_ast(*e),
            Option::None => 0,
        }),
        AstModel::WhileLoop { condition, body } => 1 + size_ast(*condition) + size_ast(*body),
        AstModel::Block { statements } => 1 + size_asts(statements, 0),
        AstModel::FunctionDeclaration { body, .. } => 1 + size_ast(*body),
        AstModel::FunctionCall { function, arguments } => 1 + size_ast(*function) + size_asts(
            arguments,
            0,
        ),
        AstModel::ArrayLiteral(es) => 1 + size_asts(es, 0),
        AstModel::ArrayIndex { array, index } => 1 + size_ast(*array) + size_ast(*index),
    }
}

/// The total node count of `s[i..]`.
pub open spec fn size_asts(s: Seq<AstModel>, i: nat) -> nat
    decreases s, s.len() - i,
{
    if i >= s.len() {
        0
    } else {
        size_ast(s[i as int]) + size_asts(s, i + 1)
    }
}

/// Every tree has at least one node.
pub proof fn lemma_size_ast_pos(n: AstModel)
    ensures
        size_ast(n) >= 1,
{
}

/// A member of `s[i..]` counts toward the total of `s[i..]`.
pub proof fn lemma_size_asts_member(s: Seq<AstModel>, i: nat, k: int)
    requires
        i <= k < s.len(),
    ensures
        size_ast(s[k]) <= size_asts(s, i),
    decreases s.len() - i,
{
    if k > i {
        lemma_size_asts_member(s, i + 1, k);
    }
}

/// Two members of `s[i..]` count toward the total of `s[i..]`.
pub proof fn lemma_size_asts_two_members(s: Seq<AstModel>, i: nat, k1: int, k2: int)
    requires
        i <= k1 < k2 < s.len(),
    ensures
        size_ast(s[k1]) + size_ast(s[k2]) <= size_asts(s, i),
    decreases s.len() - i,
{
    if k1 > i {
        lemma_size_asts_two_members(s, i + 1, k1, k2);
    } else {
        lemma_size_asts_member(s, i + 1, k2);
    }
}

/// A deep copy of a node, with the same model.
pub(crate) fn ast_clone(n: &ASTNode) -> (r: ASTNode)
    ensures
        r@ == n@,
    decreases n,
{
    match n {
        ASTNode::Literal(v) => ASTNode::Literal(crate::types::value_clone(v)),
        ASTNode::Variable(name) => ASTNode::Variable(name.clone()),
        ASTNode::Assignment { target, value } => ASTNode::Assignment {
            target: target.clone(),
            value: Box::new(ast_clone(value)),
        },
        ASTNode::BinaryOp { op, left, right } => ASTNode::BinaryOp {
            op: op.clone(),
            left: Box::new(ast_clone(left)),
            right: Box::new(ast_clone(right)),
        },
        ASTNode::IfStatement { condition, then_branch, else_branch } => ASTNode::IfStatement {
            condition: Box::new(ast_clone(condition)),
            then_branch: Box::new(ast_clone(then_branch)),
            else_branch: match else_branch {
                Option::Some(e) => Option::Some(Box::new(ast_clone(e))),
                Option::None => Option::None,
            },
        },
        ASTNode::WhileLoop { condition, body } => ASTNode::WhileLoop {
            condition: Box::new(ast_clone(condition)),
            body: Box::new(ast_clone(body)),
        },
        ASTNode::Block { statements } => ASTNode::Block { statements: asts_clone(statements) },
        ASTNode::FunctionDeclaration { name, params, generics, body } => {
            ASTNode::FunctionDeclaration {
                name: name.clone(),
                params: names_clone(params),
                generics: generics_clone(generics),
                body: Box::new(ast_clone(body)),
            }
        },
        ASTNode::FunctionCall { function, arguments } => ASTNode::FunctionCall {
            function: Box::new(ast_clone(function)),
            arguments: asts_clone(arguments),
        },
        ASTNode::ArrayLiteral(elements) => ASTNode::ArrayLiteral(asts_clone(elements)),
        ASTNode::ArrayIndex { array, index } => ASTNode::ArrayIndex {
            array: Box::new(ast_clone(array)),
            index: Box::new(ast_clone(index)),
        },
    }
}

/// A deep copy of a node sequence, with the same models.
fn asts_clone(x: &Vec<ASTNode>) -> (r: Vec<ASTNode>)
    ensures
        asts_of(r@) == asts_of(x@),
    decreases x,
{
    let mut r: Vec<ASTNode> = Vec::new();
    let mut i: usize = 0;
    while i < x.len()
        invariant
            i <= x@.len(),
            r@.len() == i,
            forall|k: int| 0 <= k < i ==> asts_of(r@)[k] == asts_of(x@)[k],
        decreases x@.len() - i,
    {
        let e = ast_clone(&x[i]);
        r.push(e);
        i += 1;
    }
    proof {
        assert(asts_of(r@) =~= asts_of(x@));
    }
    r
}

/// A copy of a name sequence, with the same models.
pub(crate) fn names_clone(x: &Vec<String>) -> (r: Vec<String>)
    ensures
        names_of(r@) == names_of(x@),
{
    let mut r: Vec<String> = Vec::new();
    let mut i: usize = 0;
    while i < x.len()
        invariant
            i <= x@.len(),
            r@.len() == i,
            forall|k: int| 0 <= k < i ==> names_of(r@)[k] == names_of(x@)[k],
        decreases x@.len() - i,
    {
        let e = x[i].clone();
        r.push(e);
        i += 1;
    }
    proof {
        assert(names_of(r@) =~= names_of(x@));
    }
    r
}

/// A copy of a generic-parameter sequence, with the same models.
pub(crate) fn generics_clone(x: &Vec<(String, Option<String>)>) -> (r: Vec<
    (String, Option<String>),
>)
    ensures
        generics_of(r@) == generics_of(x@),
{
    let mut r: Vec<(String, Option<String>)> = Vec::new();
    let mut i: usize = 0;
    while i < x.len()
        invariant
            i <= x@.len(),
            r@.len() == i,
            forall|k: int| 0 <= k < i ==> generics_of(r@)[k] == generics_of(x@)[k],
        decreases x@.len() - i,
    {
        let name = x[i].0.clone();
        let tag = match &x[i].1 {
            Option::Some(c) => Option::Some(c.clone()),
            Option::None => Option::None,
        };
        r.push((name, tag));
        i += 1;
    }
    proof {
        assert(generics_of(r@) =~= generics_of(x@));
    }
    r
}

impl Clone for ASTNode {
    /// A clone of a node has the same model.
    fn clone(&self) -> (r: Self)
        ensures
            r@ == self@,
    {
        ast_clone(self)
    }
}

} // verus!
