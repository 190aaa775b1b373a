// Evaluator behaviour: scenarios driven through `interpret` against one
// mutable state.

use abst::ast::ASTNode;
use abst::interpret::interpret;
use abst::types::{AbstractState, AbstractValue};

#[test]
fn test_generic_function_call() {
    let mut state = AbstractState::new();

    // function identity<T>(x: T) { return x; }
    let function_identity = ASTNode::FunctionDeclaration {
        name: "identity".to_string(),
        params: vec!["x".to_string()],
        generics: vec![("T".to_string(), None)],
        body: Box::new(ASTNode::Variable("x".to_string())),
    };

    interpret(&function_identity, &mut state);

    // y = identity(42);
    let call_identity_number = ASTNode::Assignment {
        target: "y".to_string(),
        value: Box::new(ASTNode::FunctionCall {
            function: Box::new(ASTNode::Variable("identity".to_string())),
            arguments: vec![ASTNode::Literal(AbstractValue::Number)],
        }),
    };

    interpret(&call_identity_number, &mut state);

    assert_eq!(
        state.get("y").cloned().unwrap(),
        AbstractValue::Number,
        "Expected y to be a Number"
    );

    // z = identity("hello");
    let call_identity_string = ASTNode::Assignment {
        target: "z".to_string(),
        value: Box::new(ASTNode::FunctionCall {
            function: Box::new(ASTNode::Variable("identity".to_string())),
            arguments: vec![ASTNode::Literal(AbstractValue::String)],
        }),
    };

    interpret(&call_identity_string, &mut state);

    assert_eq!(
        state.get("z").cloned().unwrap(),
        AbstractValue::String,
        "Expected z to be a String"
    );
}

#[test]
fn test_bounded_generic_function_call() {
    let mut state = AbstractState::new();

    // function add<T: Number>(a: T, b: T) { return a + b; }
    let function_add = ASTNode::FunctionDeclaration {
        name: "add".to_string(),
        params: vec!["a".to_string(), "b".to_string()],
        generics: vec![("T".to_string(), Some("Number".to_string()))], // generic with constraint
        body: Box::new(ASTNode::BinaryOp {
            op: "+".to_string(),
            left: Box::new(ASTNode::Variable("a".to_string())),
            right: Box::new(ASTNode::Variable("b".to_string())),
        }),
    };

    interpret(&function_add, &mut state);

    // result = add(5, 10);
    let call_add_correct = ASTNode::Assignment {
        target: "result".to_string(),
        value: Box::new(ASTNode::FunctionCall {
            function: Box::new(ASTNode::Variable("add".to_string())),
            arguments: vec![
                ASTNode::Literal(AbstractValue::Number),
                ASTNode::Literal(AbstractValue::Number),
            ],
        }),
    };

    interpret(&call_add_correct, &mut state);

    assert_eq!(
        state.get("result").cloned().unwrap(),
        AbstractValue::Number,
        "Expected result to be a Number"
    );

    // invalid_result = add("hello", 10);
    let call_add_invalid = ASTNode::Assignment {
        target: "invalid_result".to_string(),
        value: Box::new(ASTNode::FunctionCall {
            function: Box::new(ASTNode::Variable("add".to_string())),
            arguments: vec![
                ASTNode::Literal(AbstractValue::String),
                ASTNode::Literal(AbstractValue::Number),
            ],
        }),
    };

    interpret(&call_add_invalid, &mut state);

    assert_eq!(
        state.get("invalid_result").cloned().unwrap(),
        AbstractValue::Undefined,
        "Expected invalid_result to be Undefined due to type mismatch"
    );
}

// Scenario: x = Number; y = Number; if (x == y) { w = String } else
// { w = Number } — both branches may run, so w covers both values, and x
// keeps its binding.
#[test]
fn branch_join_covers_both_assignments() {
    let mut state = AbstractState::new();
    let program = ASTNode::Block {
        statements: vec![
            ASTNode::Assignment {
                target: "x".to_string(),
                value: Box::new(ASTNode::Literal(AbstractValue::Number)),
            },
            ASTNode::Assignment {
                target: "y".to_string(),
                value: Box::new(ASTNode::Literal(AbstractValue::Number)),
            },
            ASTNode::IfStatement {
                condition: Box::new(ASTNode::BinaryOp {
                    op: "==".to_string(),
                    left: Box::new(ASTNode::Variable("x".to_string())),
                    right: Box::new(ASTNode::Variable("y".to_string())),
                }),
                then_branch: Box::new(ASTNode::Assignment {
                    target: "w".to_string(),
                    value: Box::new(ASTNode::Literal(AbstractValue::String)),
                }),
                else_branch: Some(Box::new(ASTNode::Assignment {
                    target: "w".to_string(),
                    value: Box::new(ASTNode::Literal(AbstractValue::Number)),
                })),
            },
        ],
    };
    interpret(&program, &mut state);
    assert_eq!(
        state.get("w").cloned().unwrap(),
        AbstractValue::Union(vec![AbstractValue::Number, AbstractValue::String])
    );
    assert_eq!(state.get("x").cloned().unwrap(), AbstractValue::Number);
}

// Scenario: arr = [Number, String, Boolean]; elem = arr[0] — the index is
// not tracked, so the read covers every element's shape.
#[test]
fn index_read_joins_all_elements() {
    let mut state = AbstractState::new();
    let program = ASTNode::Block {
        statements: vec![
            ASTNode::Assignment {
                target: "arr".to_string(),
                value: Box::new(ASTNode::ArrayLiteral(vec![
                    ASTNode::Literal(AbstractValue::Number),
                    ASTNode::Literal(AbstractValue::String),
                    ASTNode::Literal(AbstractValue::Boolean),
                ])),
            },
            ASTNode::Assignment {
                target: "elem".to_string(),
                value: Box::new(ASTNode::ArrayIndex {
                    array: Box::new(ASTNode::Variable("arr".to_string())),
                    index: Box::new(ASTNode::Literal(AbstractValue::Number)),
                }),
            },
        ],
    };
    interpret(&program, &mut state);
    assert_eq!(
        state.get("elem").cloned().unwrap(),
        AbstractValue::Union(vec![
            AbstractValue::Boolean,
            AbstractValue::Number,
            AbstractValue::String,
        ])
    );
}

// Scenario: while (cond) { i = i + Number } with i unbound — the body's
// add sees an undefined left operand, so it yields Union{Number, String},
// and the one-pass loop summary keeps that for i.
#[test]
fn loop_summary_documents_add_coercion() {
    let mut state = AbstractState::new();
    let while_loop = ASTNode::WhileLoop {
        condition: Box::new(ASTNode::Variable("cond".to_string())),
        body: Box::new(ASTNode::Assignment {
            target: "i".to_string(),
            value: Box::new(ASTNode::BinaryOp {
                op: "+".to_string(),
                left: Box::new(ASTNode::Variable("i".to_string())),
                right: Box::new(ASTNode::Literal(AbstractValue::Number)),
            }),
        }),
    };
    let result = interpret(&while_loop, &mut state);
    assert_eq!(result, AbstractValue::Undefined);
    assert_eq!(
        state.get("i").cloned().unwrap(),
        AbstractValue::Union(vec![AbstractValue::Number, AbstractValue::String])
    );
}

// An assignment is an expression: it returns the assigned value.
#[test]
fn assignment_returns_its_value() {
    let mut state = AbstractState::new();
    let node = ASTNode::Assignment {
        target: "x".to_string(),
        value: Box::new(ASTNode::Literal(AbstractValue::Boolean)),
    };
    assert_eq!(interpret(&node, &mut state), AbstractValue::Boolean);
    assert_eq!(state.get("x").cloned().unwrap(), AbstractValue::Boolean);
}

// Unresolvable cases degrade to Undefined instead of failing: an unbound
// variable, an unknown operator, an undeclared function, a computed
// callee, a non-numeric index, and an index into a non-array.
#[test]
fn unresolvable_cases_degrade_to_undefined() {
    let mut state = AbstractState::new();
    assert_eq!(
        interpret(&ASTNode::Variable("missing".to_string()), &mut state),
        AbstractValue::Undefined
    );
    let unknown_op = ASTNode::BinaryOp {
        op: "%".to_string(),
        left: Box::new(ASTNode::Literal(AbstractValue::Number)),
        right: Box::new(ASTNode::Literal(AbstractValue::Number)),
    };
    assert_eq!(interpret(&unknown_op, &mut state), AbstractValue::Undefined);
    let undeclared_call = ASTNode::FunctionCall {
        function: Box::new(ASTNode::Variable("nope".to_string())),
        arguments: vec![ASTNode::Literal(AbstractValue::Number)],
    };
    assert_eq!(interpret(&undeclared_call, &mut state), AbstractValue::Undefined);
    let computed_callee = ASTNode::FunctionCall {
        function: Box::new(ASTNode::Literal(AbstractValue::Number)),
        arguments: vec![],
    };
    assert_eq!(interpret(&computed_callee, &mut state), AbstractValue::Undefined);
    let string_index = ASTNode::ArrayIndex {
        array: Box::new(ASTNode::ArrayLiteral(vec![ASTNode::Literal(
            AbstractValue::Number,
        )])),
        index: Box::new(ASTNode::Literal(AbstractValue::String)),
    };
    assert_eq!(interpret(&string_index, &mut state), AbstractValue::Undefined);
    let index_into_number = ASTNode::ArrayIndex {
        array: Box::new(ASTNode::Literal(AbstractValue::Number)),
        index: Box::new(ASTNode::Literal(AbstractValue::Number)),
    };
    assert_eq!(interpret(&index_into_number, &mut state), AbstractValue::Undefined);
}

// The abstract operators: +, -, *, / and == over number and string
// operands.
#[test]
fn binary_operator_transfer_functions() {
    let mut state = AbstractState::new();
    let binop = |op: &str, l: AbstractValue, r: AbstractValue| ASTNode::BinaryOp {
        op: op.to_string(),
        left: Box::new(ASTNode::Literal(l)),
        right: Box::new(ASTNode::Literal(r)),
    };
    assert_eq!(
        interpret(
            &binop("+", AbstractValue::Number, AbstractValue::Number),
            &mut state
        ),
        AbstractValue::Number
    );
    assert_eq!(
        interpret(
            &binop("+", AbstractValue::Number, AbstractValue::String),
            &mut state
        ),
        AbstractValue::String
    );
    assert_eq!(
        interpret(
            &binop("+", AbstractValue::Boolean, AbstractValue::Number),
            &mut state
        ),
        AbstractValue::Union(vec![AbstractValue::Number, AbstractValue::String])
    );
    assert_eq!(
        interpret(
            &binop("-", AbstractValue::Number, AbstractValue::Number),
            &mut state
        ),
        AbstractValue::Number
    );
    assert_eq!(
        interpret(
            &binop("-", AbstractValue::String, AbstractValue::Number),
            &mut state
        ),
        AbstractValue::Undefined
    );
    assert_eq!(
        interpret(
            &binop("*", AbstractValue::Number, AbstractValue::Number),
            &mut state
        ),
        AbstractValue::Number
    );
    assert_eq!(
        interpret(
            &binop("/", AbstractValue::Number, AbstractValue::Boolean),
            &mut state
        ),
        AbstractValue::Undefined
    );
    assert_eq!(
        interpret(
            &binop("==", AbstractValue::String, AbstractValue::Number),
            &mut state
        ),
        AbstractValue::Boolean
    );
}

// Calls do not leak: callee-local variables stay out of the caller's
// state, and the callee starts from an empty function table.
#[test]
fn callee_state_is_isolated() {
    let mut state = AbstractState::new();
    // function f(p) { local = p; local }
    let decl = ASTNode::FunctionDeclaration {
        name: "f".to_string(),
        params: vec!["p".to_string()],
        generics: vec![],
        body: Box::new(ASTNode::Block {
            statements: vec![
                ASTNode::Assignment {
                    target: "local".to_string(),
                    value: Box::new(ASTNode::Variable("p".to_string())),
                },
                ASTNode::Variable("local".to_string()),
            ],
        }),
    };
    interpret(&decl, &mut state);
    let call = ASTNode::FunctionCall {
        function: Box::new(ASTNode::Variable("f".to_string())),
        arguments: vec![ASTNode::Literal(AbstractValue::Null)],
    };
    assert_eq!(interpret(&call, &mut state), AbstractValue::Null);
    assert!(state.get("local").is_none());
    assert!(state.get("p").is_none());
}

// An index read of a union joins the element shapes of its array variants
// only.
#[test]
fn union_index_read_joins_array_variants() {
    let mut state = AbstractState::new();
    // u = if-joined value of [Number] and Boolean; elem = u[0]
    let program = ASTNode::Block {
        statements: vec![
            ASTNode::IfStatement {
                condition: Box::new(ASTNode::Literal(AbstractValue::Boolean)),
                then_branch: Box::new(ASTNode::Assignment {
                    target: "u".to_string(),
                    value: Box::new(ASTNode::ArrayLiteral(vec![ASTNode::Literal(
                        AbstractValue::Number,
                    )])),
                }),
                else_branch: Some(Box::new(ASTNode::Assignment {
                    target: "u".to_string(),
                    value: Box::new(ASTNode::Literal(AbstractValue::Boolean)),
                })),
            },
            ASTNode::Assignment {
                target: "elem".to_string(),
                value: Box::new(ASTNode::ArrayIndex {
                    array: Box::new(ASTNode::Variable("u".to_string())),
                    index: Box::new(ASTNode::Literal(AbstractValue::Number)),
                }),
            },
        ],
    };
    interpret(&program, &mut state);
    // Only the array variant contributes: its single Number element.
    assert_eq!(state.get("elem").cloned().unwrap(), AbstractValue::Number);
}
