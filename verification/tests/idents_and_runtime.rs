//! The identifier table and the runtime's stack and registration API.

use msgvm::bytecode::Handler;
use msgvm::idents::IdentArena;
use msgvm::runtime::Runtime;
use msgvm::value::{TypeId, Value};

#[test]
fn interning_is_stable() {
    let mut a = IdentArena::new();
    let x = a.add(b"x");
    let y = a.add(b"y");
    assert_ne!(x, y);
    assert_eq!(a.add(b"x"), x);
    assert_eq!(a.add(b"y"), y);
    assert_eq!(a.len(), 2);
    assert_eq!(a.get(x).unwrap().as_slice(), b"x");
    assert_eq!(a.get(y).unwrap().as_slice(), b"y");
    assert!(a.get(2).is_none());
}

#[test]
fn stack_operations() {
    let mut rt = Runtime::new();
    rt.push_stack(Value::from_int(1));
    rt.push_stack(Value::from_int(2));
    rt.push_stack(Value::from_int(3));
    assert_eq!(rt.peek().as_int(), 3);
    assert_eq!(rt.peek_at(0).as_int(), 3);
    assert_eq!(rt.peek_at(2).as_int(), 1);
    assert_eq!(rt.pop_stack().as_int(), 3);
    assert_eq!(rt.pop_stack().as_int(), 2);
    assert_eq!(rt.peek().as_int(), 1);
}

#[test]
fn fresh_runtime_is_empty() {
    let rt = Runtime::new();
    assert!(rt.stack.is_empty());
    assert!(rt.code.is_empty());
    assert!(rt.output.is_empty());
}

#[test]
fn registering_a_new_type_and_handler() {
    let mut rt = Runtime::new();
    // The nil type has no handlers at boot; sending display to nil is an
    // unknown type.  After defining it and attaching a handler, dispatch
    // finds it.
    rt.define_type(TypeId::Nil).unwrap();
    rt.register_handler(b"display", Handler::IntDisplay, TypeId::Nil).unwrap();
    // Dispatch through the interpreter: nil display (arity 0) reaches the
    // integer display handler, which then rejects the non-integer receiver.
    rt.push_stack(Value::nil());
    let id = rt.globals.idents.add(b"display") as u64;
    rt.push_op(msgvm::bytecode::OpCode::SendMessage { id, arg_count: 0 });
    let r = msgvm::interp::exe(&mut rt, 1000);
    assert!(matches!(r, Err(msgvm::errors::VmError::TypeMismatch)));
}
