//! End-to-end runs: compile a statement tree, execute it, inspect globals.

use msgvm::ast::{Execution, Expr, Ident, Literal, Span, Stmt};
use msgvm::bytecode::OpCode;
use msgvm::compiler::compile_stmt;
use msgvm::errors::VmError;
use msgvm::interp::exe;
use msgvm::runtime::Runtime;
use msgvm::value::Value;

const FUEL: u64 = 1_000_000;

fn span() -> Span {
    Span { start: 0, end: 0 }
}

fn ident(rt: &mut Runtime, name: &[u8]) -> Ident {
    Ident { id: rt.globals.idents.add(name) as u64, span: span() }
}

fn var(rt: &mut Runtime, name: &[u8]) -> Expr {
    Expr::Ident(ident(rt, name))
}

fn int_lit(i: i32) -> Expr {
    Expr::Lit(Literal::Int(i))
}

fn assign(rt: &mut Runtime, name: &[u8], rhs: Execution) -> Stmt {
    Stmt::Assignment { dst: ident(rt, name), rhs }
}

fn compile_into(rt: &mut Runtime, stmts: Vec<Stmt>) {
    let mut code: Vec<OpCode> = Vec::new();
    for stmt in &stmts {
        compile_stmt(stmt, &mut code, &mut rt.heap).unwrap();
    }
    for op in code {
        rt.push_op(op);
    }
}

fn global(rt: &Runtime, id: Ident) -> Option<Value> {
    rt.globals.vars.get(&rt.heap, &Value::from_uint(id.id))
}

/// `x = 3; y = 4; z = x + y;` leaves `z` bound to the integer 7.
#[test]
fn scenario_arithmetic() {
    let mut rt = Runtime::new();
    let plus = var(&mut rt, b"+");
    let x = var(&mut rt, b"x");
    let z_id = ident(&mut rt, b"z");
    let stmts = vec![
        assign(&mut rt, b"x", Execution::Single(int_lit(3))),
        assign(&mut rt, b"y", Execution::Single(int_lit(4))),
        Stmt::Assignment {
            dst: z_id,
            rhs: Execution::Called(x, plus, vec![var(&mut rt, b"y")]),
        },
    ];
    compile_into(&mut rt, stmts);
    exe(&mut rt, FUEL).unwrap();
    let z = global(&rt, z_id).expect("z must be bound");
    assert!(z.is_int());
    assert_eq!(z.as_int(), 7);
}

/// `true ifTrue [x = 1;];` binds `x`; with a false receiver it stays
/// unbound.
#[test]
fn scenario_conditional() {
    for (receiver, expect_bound) in [(true, true), (false, false)] {
        let mut rt = Runtime::new();
        let if_true = var(&mut rt, b"ifTrue");
        let x_id = ident(&mut rt, b"x");
        let block = Expr::Block(vec![Stmt::Assignment {
            dst: x_id,
            rhs: Execution::Single(int_lit(1)),
        }]);
        let stmts = vec![Stmt::Exe(Execution::Called(
            Expr::Lit(Literal::Bool(receiver)),
            if_true,
            vec![block],
        ))];
        compile_into(&mut rt, stmts);
        exe(&mut rt, FUEL).unwrap();
        match global(&rt, x_id) {
            Some(v) => {
                assert!(expect_bound, "x must stay unbound for a false receiver");
                assert_eq!(v.as_int(), 1);
            },
            None => assert!(!expect_bound, "x must be bound for a true receiver"),
        }
    }
}

/// An unregistered message is the unknown-message fault, and nothing after
/// it runs.
#[test]
fn scenario_unknown_message() {
    let mut rt = Runtime::new();
    let frob = var(&mut rt, b"frobnicate");
    let x_id = ident(&mut rt, b"x");
    let stmts = vec![
        Stmt::Exe(Execution::Called(int_lit(3), frob, vec![])),
        Stmt::Assignment { dst: x_id, rhs: Execution::Single(int_lit(5)) },
    ];
    compile_into(&mut rt, stmts);
    let r = exe(&mut rt, FUEL);
    assert!(matches!(r, Err(VmError::UnknownMessage { .. })));
    assert!(global(&rt, x_id).is_none(), "nothing after the fault may run");
}

/// A block value invoked twice re-executes its statements both times.
#[test]
fn scenario_block_restartable() {
    let mut rt = Runtime::new();
    let value_msg_a = var(&mut rt, b"value");
    let value_msg_b = var(&mut rt, b"value");
    let g = var(&mut rt, b"g");
    let g2 = var(&mut rt, b"g");
    let x_id = ident(&mut rt, b"x");
    let block = Expr::Block(vec![Stmt::Assignment {
        dst: x_id,
        rhs: Execution::Single(int_lit(7)),
    }]);
    let stmts = vec![
        assign(&mut rt, b"g", Execution::Single(block)),
        Stmt::Exe(Execution::Called(g, value_msg_a, vec![])),
        // Clobber x, then run the same block again.
        Stmt::Assignment { dst: x_id, rhs: Execution::Single(int_lit(0)) },
        Stmt::Exe(Execution::Called(g2, value_msg_b, vec![])),
    ];
    compile_into(&mut rt, stmts);
    exe(&mut rt, FUEL).unwrap();
    assert_eq!(global(&rt, x_id).unwrap().as_int(), 7);
}

#[test]
fn int_messages() {
    let cases: Vec<(&[u8], i32, i32, Option<i32>, Option<bool>)> = vec![
        (b"+", 20, 22, Some(42), None),
        (b"+", i32::MAX, 1, Some(i32::MIN), None),
        (b"*", -6, 7, Some(-42), None),
        (b"==", 5, 5, None, Some(true)),
        (b"==", 5, 6, None, Some(false)),
        (b"!=", 5, 6, None, Some(true)),
        (b"!=", 5, 5, None, Some(false)),
    ];
    for (msg, a, b, int_result, bool_result) in cases {
        let mut rt = Runtime::new();
        let m = var(&mut rt, msg);
        let r_id = ident(&mut rt, b"r");
        let stmts = vec![Stmt::Assignment {
            dst: r_id,
            rhs: Execution::Called(int_lit(a), m, vec![int_lit(b)]),
        }];
        compile_into(&mut rt, stmts);
        exe(&mut rt, FUEL).unwrap();
        let v = global(&rt, r_id).unwrap();
        if let Some(i) = int_result {
            assert_eq!(v.as_int(), i);
        }
        if let Some(t) = bool_result {
            assert_eq!(v.is_true(), t);
            assert_eq!(v.is_false(), !t);
        }
    }
}

#[test]
fn sum_all_message() {
    let mut rt = Runtime::new();
    let m = var(&mut rt, b"+allof");
    let r_id = ident(&mut rt, b"r");
    let stmts = vec![Stmt::Assignment {
        dst: r_id,
        rhs: Execution::Called(int_lit(1), m, vec![int_lit(2), int_lit(3), int_lit(4)]),
    }];
    compile_into(&mut rt, stmts);
    exe(&mut rt, FUEL).unwrap();
    assert_eq!(global(&rt, r_id).unwrap().as_int(), 10);
}

#[test]
fn conditional_with_else_block() {
    for receiver in [true, false] {
        let mut rt = Runtime::new();
        let if_true = var(&mut rt, b"ifTrue");
        let x_id = ident(&mut rt, b"x");
        let then_block = Expr::Block(vec![Stmt::Assignment {
            dst: x_id,
            rhs: Execution::Single(int_lit(1)),
        }]);
        let else_block = Expr::Block(vec![Stmt::Assignment {
            dst: x_id,
            rhs: Execution::Single(int_lit(2)),
        }]);
        let stmts = vec![Stmt::Exe(Execution::Called(
            Expr::Lit(Literal::Bool(receiver)),
            if_true,
            vec![then_block, else_block],
        ))];
        compile_into(&mut rt, stmts);
        exe(&mut rt, FUEL).unwrap();
        let expected = if receiver { 1 } else { 2 };
        assert_eq!(global(&rt, x_id).unwrap().as_int(), expected);
    }
}

#[test]
fn display_writes_output() {
    let mut rt = Runtime::new();
    let display = var(&mut rt, b"display");
    let stmts = vec![Stmt::Exe(Execution::Called(int_lit(-42), display, vec![]))];
    compile_into(&mut rt, stmts);
    exe(&mut rt, FUEL).unwrap();
    assert_eq!(rt.output, b"(Int) -42\n");
}

#[test]
fn string_display_and_output() {
    let mut rt = Runtime::new();
    let display = var(&mut rt, b"display");
    let out = var(&mut rt, b">>");
    let lit = || Expr::Lit(Literal::Str(b"hello".to_vec()));
    let stmts = vec![
        Stmt::Exe(Execution::Called(lit(), display, vec![])),
        Stmt::Exe(Execution::Called(lit(), out, vec![])),
    ];
    compile_into(&mut rt, stmts);
    exe(&mut rt, FUEL).unwrap();
    assert_eq!(rt.output, b"(String) hello\nhello\n");
}

#[test]
fn undefined_global_faults() {
    let mut rt = Runtime::new();
    let x_id = ident(&mut rt, b"x");
    let y = var(&mut rt, b"y");
    let stmts = vec![Stmt::Assignment { dst: x_id, rhs: Execution::Single(y) }];
    compile_into(&mut rt, stmts);
    let r = exe(&mut rt, FUEL);
    assert!(matches!(r, Err(VmError::UndefinedGlobal { .. })));
}

#[test]
fn unknown_type_faults() {
    // No handlers are registered for floats, so the float type is not in
    // the registry at all.
    let mut rt = Runtime::new();
    let display = var(&mut rt, b"display");
    let stmts = vec![Stmt::Exe(Execution::Called(
        Expr::Lit(Literal::Float(1.5f64.to_bits())),
        display,
        vec![],
    ))];
    compile_into(&mut rt, stmts);
    let r = exe(&mut rt, FUEL);
    assert!(matches!(r, Err(VmError::UnknownType { .. })));
}

#[test]
fn arity_mismatch_faults() {
    let mut rt = Runtime::new();
    let plus = var(&mut rt, b"+");
    let stmts = vec![Stmt::Exe(Execution::Called(
        int_lit(1),
        plus,
        vec![int_lit(2), int_lit(3)],
    ))];
    compile_into(&mut rt, stmts);
    let r = exe(&mut rt, FUEL);
    assert!(matches!(r, Err(VmError::ArityMismatch { arg_count: 2 })));
}

#[test]
fn type_mismatch_faults() {
    let mut rt = Runtime::new();
    let plus = var(&mut rt, b"+");
    let stmts = vec![Stmt::Exe(Execution::Called(
        int_lit(1),
        plus,
        vec![Expr::Lit(Literal::Bool(true))],
    ))];
    compile_into(&mut rt, stmts);
    let r = exe(&mut rt, FUEL);
    assert!(matches!(r, Err(VmError::TypeMismatch)));
}

#[test]
fn stack_underflow_faults() {
    let mut rt = Runtime::new();
    // Hand-built bytecode: a store with nothing on the stack.
    rt.push_op(OpCode::SetGlobal(0));
    let r = exe(&mut rt, FUEL);
    assert!(matches!(r, Err(VmError::StackUnderflow)));
}

#[test]
fn looping_block_hits_the_step_limit() {
    let mut rt = Runtime::new();
    let loop_msg = var(&mut rt, b"loop");
    let x_id = ident(&mut rt, b"x");
    let block = Expr::Block(vec![Stmt::Assignment {
        dst: x_id,
        rhs: Execution::Single(int_lit(1)),
    }]);
    let stmts = vec![Stmt::Exe(Execution::Called(block, loop_msg, vec![]))];
    compile_into(&mut rt, stmts);
    let r = exe(&mut rt, 10_000);
    assert!(matches!(r, Err(VmError::StepLimit)));
    // The loop body did run.
    assert_eq!(global(&rt, x_id).unwrap().as_int(), 1);
}

#[test]
fn flush_runtime_clears_code() {
    let mut rt = Runtime::new();
    let x_id = ident(&mut rt, b"x");
    let stmts = vec![Stmt::Assignment { dst: x_id, rhs: Execution::Single(int_lit(3)) }];
    compile_into(&mut rt, stmts);
    msgvm::interp::flush_runtime(&mut rt, FUEL).unwrap();
    assert!(rt.code.is_empty());
    assert_eq!(global(&rt, x_id).unwrap().as_int(), 3);
}

#[test]
fn run_block_directly() {
    let mut rt = Runtime::new();
    let x_id = ident(&mut rt, b"x");
    let block = Expr::Block(vec![Stmt::Assignment {
        dst: x_id,
        rhs: Execution::Single(int_lit(11)),
    }]);
    let mut code: Vec<OpCode> = Vec::new();
    compile_stmt(
        &Stmt::Exe(Execution::Single(block)),
        &mut code,
        &mut rt.heap,
    )
    .unwrap();
    for op in code {
        rt.push_op(op);
    }
    exe(&mut rt, FUEL).unwrap();
    // The block pointer now sits on the operand stack.
    let ptr = rt.stack.last().unwrap().as_ptr();
    msgvm::interp::run_block(&mut rt, ptr, FUEL).unwrap();
    assert_eq!(global(&rt, x_id).unwrap().as_int(), 11);
}

#[test]
fn string_literal_contents_are_readable() {
    let mut rt = Runtime::new();
    let s_id = ident(&mut rt, b"s");
    let stmts = vec![Stmt::Assignment {
        dst: s_id,
        rhs: Execution::Single(Expr::Lit(Literal::Str(b"hi there".to_vec()))),
    }];
    compile_into(&mut rt, stmts);
    exe(&mut rt, FUEL).unwrap();
    let v = global(&rt, s_id).unwrap();
    let bytes = msgvm::stdlib::as_string(&rt.heap, v).unwrap();
    assert_eq!(bytes, b"hi there");
    // A non-pointer value is not a string.
    assert!(msgvm::stdlib::as_string(&rt.heap, Value::from_int(1)).is_err());
}

#[test]
fn default_boots_with_registrations() {
    // `Default` boots exactly as `new` does: the built-in messages answer.
    let mut rt = Runtime::default();
    let plus = var(&mut rt, b"+");
    let r_id = ident(&mut rt, b"r");
    let stmts = vec![Stmt::Assignment {
        dst: r_id,
        rhs: Execution::Called(int_lit(2), plus, vec![int_lit(5)]),
    }];
    compile_into(&mut rt, stmts);
    exe(&mut rt, FUEL).unwrap();
    assert_eq!(global(&rt, r_id).unwrap().as_int(), 7);
}

#[test]
fn zero_fuel_stops_before_any_instruction() {
    let mut rt = Runtime::new();
    let x_id = ident(&mut rt, b"x");
    let stmts = vec![Stmt::Assignment { dst: x_id, rhs: Execution::Single(int_lit(1)) }];
    compile_into(&mut rt, stmts);
    let r = exe(&mut rt, 0);
    assert!(matches!(r, Err(VmError::StepLimit)));
    assert!(global(&rt, x_id).is_none());
}
