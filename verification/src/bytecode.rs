//! The flat instruction set, the closed set of built-in handlers, and the
//! word encoding under which a compiled block lives in the heap.
//!
//! A compiled block is a heap object tagged `CompiledBytecode`: one length
//! word, then three words per instruction (tag and two payload words).  That
//! is what lets a block be pushed as a pointer value and invoked repeatedly.

use vstd::prelude::*;

use crate::heap::Heap;
use crate::value::{type_id_code_spec, TypeId, Value};

verus! {

/// One stack-machine instruction.
#[derive(Clone, Copy, Debug, PartialEq, Eq, Structural)]
pub enum OpCode {
    PushLit(Value),
    PushGlobal(u64),
    SetGlobal(u64),
    SendMessage { id: u64, arg_count: u64 },
}

/// A registered message handler: a closed set of built-in behaviours,
/// stored in a handler table as a small integer code (never as a smuggled
/// function pointer).
#[derive(Clone, Copy, Debug, PartialEq, Eq, Structural)]
pub enum Handler {
    IntAdd,
    IntEq,
    IntNeq,
    IntSumAll,
    IntMul,
    IntDisplay,
    /// Runs a block argument; the payload says whether the receiver was the
    /// true constant (the false receiver runs the else block, if any).
    IfTrue(bool),
    BlockValue,
    BlockLoop,
    StringDisplay,
    StringOutput,
}

/// The code under which a handler is stored in a handler table.
pub open spec fn handler_code_spec(h: Handler) -> u64 {
    match h {
        Handler::IntAdd => 1,
        Handler::IntEq => 2,
        Handler::IntNeq => 3,
        Handler::IntSumAll => 4,
        Handler::IntMul => 5,
        Handler::IntDisplay => 6,
        Handler::IfTrue(b) => if b {
            7
        } else {
            8
        },
        Handler::BlockValue => 9,
        Handler::BlockLoop => 10,
        Handler::StringDisplay => 11,
        Handler::StringOutput => 12,
    }
}

/// The handler a code denotes, if any.
pub open spec fn handler_from_code_spec(c: u64) -> Option<Handler> {
    if c == 1 {
        Some(Handler::IntAdd)
    } else if c == 2 {
        Some(Handler::IntEq)
    } else if c == 3 {
        Some(Handler::IntNeq)
    } else if c == 4 {
        Some(Handler::IntSumAll)
    } else if c == 5 {
        Some(Handler::IntMul)
    } else if c == 6 {
        Some(Handler::IntDisplay)
    } else if c == 7 {
        Some(Handler::IfTrue(true))
    } else if c == 8 {
        Some(Handler::IfTrue(false))
    } else if c == 9 {
        Some(Handler::BlockValue)
    } else if c == 10 {
        Some(Handler::BlockLoop)
    } else if c == 11 {
        Some(Handler::StringDisplay)
    } else if c == 12 {
        Some(Handler::StringOutput)
    } else {
        None
    }
}

pub fn handler_code(h: Handler) -> (r: u64)
    ensures
        r == handler_code_spec(h),
{
    match h {
        Handler::IntAdd => 1,
        Handler::IntEq => 2,
        Handler::IntNeq => 3,
        Handler::IntSumAll => 4,
        Handler::IntMul => 5,
        Handler::IntDisplay => 6,
        Handler::IfTrue(b) => if b {
            7
        } else {
            8
        },
        Handler::BlockValue => 9,
        Handler::BlockLoop => 10,
        Handler::StringDisplay => 11,
        Handler::StringOutput => 12,
    }
}

pub fn handler_from_code(c: u64) -> (r: Option<Handler>)
    ensures
        r == handler_from_code_spec(c),
{
    if c == 1 {
        Some(Handler::IntAdd)
    } else if c == 2 {
        Some(Handler::IntEq)
    } else if c == 3 {
        Some(Handler::IntNeq)
    } else if c == 4 {
        Some(Handler::IntSumAll)
    } else if c == 5 {
        Some(Handler::IntMul)
    } else if c == 6 {
        Some(Handler::IntDisplay)
    } else if c == 7 {
        Some(Handler::IfTrue(true))
    } else if c == 8 {
        Some(Handler::IfTrue(false))
    } else if c == 9 {
        Some(Handler::BlockValue)
    } else if c == 10 {
        Some(Handler::BlockLoop)
    } else if c == 11 {
        Some(Handler::StringDisplay)
    } else if c == 12 {
        Some(Handler::StringOutput)
    } else {
        None
    }
}

/// The three words under which an instruction is stored in a compiled
/// block.
pub fn encode_op(op: &OpCode) -> (r: (u64, u64, u64))
    ensures
        r.0 == op_tag(*op),
        r.1 == op_a(*op),
        r.2 == op_b(*op),
{
    match op {
        OpCode::PushLit(v) => (1, v.bits(), 0),
        OpCode::PushGlobal(g) => (2, *g, 0),
        OpCode::SetGlobal(g) => (3, *g, 0),
        OpCode::SendMessage { id, arg_count } => (4, *id, *arg_count),
    }
}

/// Decoding a handler's code returns the handler.
pub proof fn lemma_handler_code_round_trip(h: Handler)
    ensures
        handler_from_code_spec(handler_code_spec(h)) == Some(h),
{
}

// The three words of one encoded instruction.

pub open spec fn op_tag(op: OpCode) -> u64 {
    match op {
        OpCode::PushLit(_) => 1,
        OpCode::PushGlobal(_) => 2,
        OpCode::SetGlobal(_) => 3,
        OpCode::SendMessage { .. } => 4,
    }
}

pub open spec fn op_a(op: OpCode) -> u64 {
    match op {
        OpCode::PushLit(v) => v@,
        OpCode::PushGlobal(g) => g,
        OpCode::SetGlobal(g) => g,
        OpCode::SendMessage { id, .. } => id,
    }
}

pub open spec fn op_b(op: OpCode) -> u64 {
    match op {
        OpCode::SendMessage { arg_count, .. } => arg_count,
        _ => 0,
    }
}

/// The instruction three words denote, if the tag is meaningful.
pub open spec fn decode_op_spec(t: u64, a: u64, b: u64) -> Option<OpCode> {
    if t == 1 {
        Some(OpCode::PushLit(Value::spec_from_bits(a)))
    } else if t == 2 {
        Some(OpCode::PushGlobal(a))
    } else if t == 3 {
        Some(OpCode::SetGlobal(a))
    } else if t == 4 {
        Some(OpCode::SendMessage { id: a, arg_count: b })
    } else {
        None
    }
}

pub fn decode_op(t: u64, a: u64, b: u64) -> (r: Option<OpCode>)
    ensures
        r == decode_op_spec(t, a, b),
{
    if t == 1 {
        Some(OpCode::PushLit(Value::from_bits(a)))
    } else if t == 2 {
        Some(OpCode::PushGlobal(a))
    } else if t == 3 {
        Some(OpCode::SetGlobal(a))
    } else if t == 4 {
        Some(OpCode::SendMessage { id: a, arg_count: b })
    } else {
        None
    }
}

/// Encoding an instruction and decoding its words returns the instruction.
pub proof fn lemma_op_code_round_trip(op: OpCode)
    ensures
        decode_op_spec(op_tag(op), op_a(op), op_b(op)) == Some(op),
{
    if let OpCode::PushLit(v) = op {
        crate::value::lemma_bits_from_value(v);
    }
}

/// A compiled block of instructions `ops` lives at heap offset `p`: a
/// `CompiledBytecode` header, the instruction count, then each instruction's
/// three words.
pub open spec fn block_at(h: Heap, p: int, ops: Seq<OpCode>) -> bool {
    &&& p % 16 == 0
    &&& p >= 16
    &&& h.type_code_at(p) == type_id_code_spec(TypeId::CompiledBytecode)
    &&& h.words()[p / 8] == ops.len()
    &&& p + 8 + 24 * ops.len() <= h.cursor()
    &&& forall|i: int|
        0 <= i < ops.len() ==> {
            &&& h.words()[p / 8 + 1 + 3 * i] == op_tag(#[trigger] ops[i])
            &&& h.words()[p / 8 + 2 + 3 * i] == op_a(ops[i])
            &&& h.words()[p / 8 + 3 + 3 * i] == op_b(ops[i])
        }
}

} // verus!
