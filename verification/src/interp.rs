//! The stack-machine interpreter.
//!
//! Execution is a loop over a stack of frames: the bottom frame walks the
//! runtime's own instruction buffer, and invoking a block pushes a frame
//! that walks the block's heap object (a looping block restarts instead of
//! popping).  `SendMessage` is strict single dispatch on the receiver's
//! runtime type: the type registry yields the type's handler table, the
//! message id yields the handler code, and the handler runs against the
//! operand stack.  A handler pops its receiver and arguments and pushes at
//! most one result; the block handlers push a frame instead.
//!
//! Every instruction's effect, including each built-in handler's, is pinned
//! by [`op_effect`].  The interpreter runs under an explicit step budget:
//! a program that outlives it (such as a block sent `loop`) stops with a
//! step-limit report instead of running forever.

use vstd::prelude::*;

use crate::bytecode::{decode_op, decode_op_spec, handler_from_code, handler_from_code_spec, Handler, OpCode};
use crate::errors::VmError;
use crate::heap::Heap;
use crate::heapmap::{insert_fits, map_model, region_hi, region_lo, HeapMap};
use crate::runtime::{
    handler_ptr, int_key, lemma_tables_after_vars_op, type_entry_preserved, unchanged_but_stack,
    Runtime,
};
use crate::value::{type_id_code, type_id_code_spec, Value, LOW_MASK};

verus! {

/// One execution frame: the bottom (`main`) frame reads the runtime's
/// instruction buffer, every other frame reads the compiled block at
/// `block`; a `repeat` frame restarts from its beginning instead of
/// popping.
#[derive(Clone, Copy, Debug, PartialEq, Eq, Structural)]
pub struct Frame {
    pub main: bool,
    pub block: u64,
    pub pc: u64,
    pub repeat: bool,
}

// Rendered output of the display handlers.

/// The decimal digits of `n`.
pub open spec fn dec_nat_bytes(n: nat) -> Seq<u8>
    decreases n,
{
    if n < 10 {
        seq![(48 + n) as u8]
    } else {
        dec_nat_bytes(n / 10).push((48 + n % 10) as u8)
    }
}

/// The decimal rendering of `i`, with a leading minus sign if negative.
pub open spec fn dec_i32_bytes(i: int) -> Seq<u8> {
    if i < 0 {
        seq![45u8] + dec_nat_bytes((-i) as nat)
    } else {
        dec_nat_bytes(i as nat)
    }
}

/// What `display` prints for an integer: `(Int) `, the digits, a newline.
pub open spec fn int_display_bytes(i: int) -> Seq<u8> {
    seq![40u8, 73u8, 110u8, 116u8, 41u8, 32u8] + dec_i32_bytes(i) + seq![10u8]
}

/// What `display` prints for a string: `(String) `, the bytes, a newline.
pub open spec fn string_display_bytes(s: Seq<u8>) -> Seq<u8> {
    seq![40u8, 83u8, 116u8, 114u8, 105u8, 110u8, 103u8, 41u8, 32u8] + s + seq![10u8]
}

/// What `>>` prints for a string: the bytes and a newline.
pub open spec fn string_output_bytes(s: Seq<u8>) -> Seq<u8> {
    s + seq![10u8]
}

/// Heap, tables, instruction buffer and counter are untouched (handlers
/// only work on the operand stack, the output, and the frame stack).
pub open spec fn handler_frame(rt0: Runtime, rt1: Runtime) -> bool {
    &&& rt1.heap == rt0.heap
    &&& rt1.globals == rt0.globals
    &&& rt1.code == rt0.code
    &&& rt1.pc == rt0.pc
}

/// The exact effect of one handler invocation with `n` arguments, given
/// that the stack holds at least the receiver and the arguments.
pub open spec fn handler_effect(
    h: Handler,
    n: u64,
    rt0: Runtime,
    rt1: Runtime,
    fr0: Seq<Frame>,
    fr1: Seq<Frame>,
    r: Result<(), VmError>,
) -> bool {
    let len = rt0.stack@.len() as int;
    let top = rt0.stack@[len - 1];
    let under = rt0.stack@[len - 2];
    &&& handler_frame(rt0, rt1)
    &&& match h {
        Handler::IntAdd | Handler::IntEq | Handler::IntNeq | Handler::IntMul => {
            if n != 1 {
                r == Err::<(), VmError>(VmError::ArityMismatch { arg_count: n }) && rt1 == rt0
                    && fr1 == fr0
            } else if !under.is_int_spec() || !top.is_int_spec() {
                r == Err::<(), VmError>(VmError::TypeMismatch) && rt1 == rt0 && fr1 == fr0
            } else {
                let a = under.as_int_spec() as i32;
                let b = top.as_int_spec() as i32;
                &&& r is Ok
                &&& fr1 == fr0
                &&& rt1.output == rt0.output
                &&& rt1.stack@.len() == len - 1
                &&& rt1.stack@.drop_last() == rt0.stack@.drop_last().drop_last()
                &&& match h {
                    Handler::IntAdd => rt1.stack@.last().is_int_spec()
                        && rt1.stack@.last().as_int_spec()
                        == vstd::wrapping::i32_specs::wrapping_add(a, b) as int,
                    Handler::IntMul => rt1.stack@.last().is_int_spec()
                        && rt1.stack@.last().as_int_spec()
                        == vstd::wrapping::i32_specs::wrapping_mul(a, b) as int,
                    Handler::IntEq => if a == b {
                        rt1.stack@.last().is_true_spec()
                    } else {
                        rt1.stack@.last().is_false_spec()
                    },
                    Handler::IntNeq => if a != b {
                        rt1.stack@.last().is_true_spec()
                    } else {
                        rt1.stack@.last().is_false_spec()
                    },
                    _ => false,
                }
            }
        },
        Handler::IntSumAll => {
            let popped = rt0.stack@.skip(len - (n + 1));
            if !(forall|i: int| 0 <= i < popped.len() ==> (#[trigger] popped[i]).is_int_spec()) {
                r == Err::<(), VmError>(VmError::TypeMismatch) && rt1 == rt0 && fr1 == fr0
            } else {
                &&& r is Ok
                &&& fr1 == fr0
                &&& rt1.output == rt0.output
                &&& rt1.stack@.len() == len - n
                &&& rt1.stack@.drop_last() == rt0.stack@.take(len - (n + 1))
                &&& rt1.stack@.last().is_int_spec()
                &&& rt1.stack@.last().as_int_spec() == sum_wrapped(popped) as int
            }
        },
        Handler::IntDisplay => {
            if n != 0 {
                r == Err::<(), VmError>(VmError::ArityMismatch { arg_count: n }) && rt1 == rt0
                    && fr1 == fr0
            } else if !top.is_int_spec() {
                r == Err::<(), VmError>(VmError::TypeMismatch) && rt1 == rt0 && fr1 == fr0
            } else {
                &&& r is Ok
                &&& fr1 == fr0
                &&& rt1.stack@ == rt0.stack@.drop_last()
                &&& rt1.output@ == rt0.output@ + int_display_bytes(top.as_int_spec())
            }
        },
        Handler::IfTrue(b) => {
            if n != 1 && n != 2 {
                r == Err::<(), VmError>(VmError::ArityMismatch { arg_count: n }) && rt1 == rt0
                    && fr1 == fr0
            } else if n == 1 {
                if !top.is_ptr_spec() {
                    r == Err::<(), VmError>(VmError::TypeMismatch) && rt1 == rt0 && fr1 == fr0
                } else {
                    &&& r is Ok
                    &&& rt1.output == rt0.output
                    &&& rt1.stack@ == rt0.stack@.drop_last().drop_last()
                    &&& fr1 == if b {
                        fr0.push(
                            Frame {
                                main: false,
                                block: top.as_ptr_spec(),
                                pc: 0,
                                repeat: false,
                            },
                        )
                    } else {
                        fr0
                    }
                }
            } else {
                if !top.is_ptr_spec() || !under.is_ptr_spec() {
                    r == Err::<(), VmError>(VmError::TypeMismatch) && rt1 == rt0 && fr1 == fr0
                } else {
                    &&& r is Ok
                    &&& rt1.output == rt0.output
                    &&& rt1.stack@ == rt0.stack@.drop_last().drop_last().drop_last()
                    &&& fr1 == fr0.push(
                        Frame {
                            main: false,
                            block: if b {
                                under.as_ptr_spec()
                            } else {
                                top.as_ptr_spec()
                            },
                            pc: 0,
                            repeat: false,
                        },
                    )
                }
            }
        },
        Handler::BlockValue | Handler::BlockLoop => {
            if n != 0 {
                r == Err::<(), VmError>(VmError::ArityMismatch { arg_count: n }) && rt1 == rt0
                    && fr1 == fr0
            } else if !top.is_ptr_spec() {
                r == Err::<(), VmError>(VmError::TypeMismatch) && rt1 == rt0 && fr1 == fr0
            } else {
                &&& r is Ok
                &&& rt1.output == rt0.output
                &&& rt1.stack@ == rt0.stack@.drop_last()
                &&& fr1 == fr0.push(
                    Frame {
                        main: false,
                        block: top.as_ptr_spec(),
                        pc: 0,
                        repeat: h is BlockLoop,
                    },
                )
            }
        },
        Handler::StringDisplay | Handler::StringOutput => {
            if n != 0 {
                r == Err::<(), VmError>(VmError::ArityMismatch { arg_count: n }) && rt1 == rt0
                    && fr1 == fr0
            } else if !top.is_ptr_spec() {
                r == Err::<(), VmError>(VmError::TypeMismatch) && rt1 == rt0 && fr1 == fr0
            } else if !(exists|s: Seq<u8>|
                crate::value::string_at(rt0.heap, top.as_ptr_spec() as int, s)) {
                r == Err::<(), VmError>(VmError::MalformedObject) && rt1 == rt0 && fr1 == fr0
            } else {
                &&& r is Ok
                &&& fr1 == fr0
                &&& rt1.stack@ == rt0.stack@.drop_last()
                &&& exists|s: Seq<u8>|
                    crate::value::string_at(rt0.heap, top.as_ptr_spec() as int, s)
                        && rt1.output@ == rt0.output@ + (if h is StringDisplay {
                        string_display_bytes(s)
                    } else {
                        string_output_bytes(s)
                    })
            }
        },
    }
}

/// The receiver and arguments summed with 32-bit wraparound, in pop order:
/// the top of the stack is added first, the receiver last.
pub open spec fn sum_wrapped(vals: Seq<Value>) -> i32
    decreases vals.len(),
{
    if vals.len() == 0 {
        0i32
    } else {
        vstd::wrapping::i32_specs::wrapping_add(
            sum_wrapped(vals.skip(1)),
            vals[0].as_int_spec() as i32,
        )
    }
}

/// What dispatching one `SendMessage` does, per the registry and the
/// receiver's runtime type.
pub open spec fn send_effect(
    id: u64,
    n: u64,
    rt0: Runtime,
    rt1: Runtime,
    fr0: Seq<Frame>,
    fr1: Seq<Frame>,
    r: Result<(), VmError>,
) -> bool {
    if rt0.stack@.len() <= n {
        r == Err::<(), VmError>(VmError::StackUnderflow) && rt1 == rt0 && fr1 == fr0
    } else {
        let recv = rt0.stack@[rt0.stack@.len() - 1 - n];
        let tcode = type_id_code_spec(recv.type_of_spec(rt0.heap));
        let tc = int_key(tcode);
        if !rt0.types_model().dom().contains(tc) {
            r == Err::<(), VmError>(VmError::UnknownType { type_code: tcode }) && rt1 == rt0
                && fr1 == fr0
        } else if id > LOW_MASK || !rt0.handlers_model(tc).dom().contains(int_key(id)) {
            r == Err::<(), VmError>(VmError::UnknownMessage { type_code: tcode, id }) && rt1 == rt0
                && fr1 == fr0
        } else {
            let hcode = rt0.handlers_model(tc)[int_key(id)] & LOW_MASK;
            match handler_from_code_spec(hcode) {
                Option::None => r == Err::<(), VmError>(VmError::MalformedObject) && rt1 == rt0
                    && fr1 == fr0,
                Option::Some(h) => handler_effect(h, n, rt0, rt1, fr0, fr1, r),
            }
        }
    }
}

/// The exact effect of one instruction: push a literal, read or write a
/// global, or dispatch a message.
pub open spec fn op_effect(
    op: OpCode,
    rt0: Runtime,
    rt1: Runtime,
    fr0: Seq<Frame>,
    fr1: Seq<Frame>,
    r: Result<(), VmError>,
) -> bool {
    match op {
        OpCode::PushLit(v) => {
            &&& r is Ok
            &&& rt1.stack@ == rt0.stack@.push(v)
            &&& unchanged_but_stack(rt0, rt1)
            &&& fr1 == fr0
        },
        OpCode::PushGlobal(g) => {
            if g <= LOW_MASK && rt0.vars_model().dom().contains(int_key(g)) {
                &&& r is Ok
                &&& rt1.stack@ == rt0.stack@.push(
                    Value::spec_from_bits(rt0.vars_model()[int_key(g)]),
                )
                &&& unchanged_but_stack(rt0, rt1)
                &&& fr1 == fr0
            } else {
                r == Err::<(), VmError>(VmError::UndefinedGlobal { id: g }) && rt1 == rt0 && fr1
                    == fr0
            }
        },
        OpCode::SetGlobal(g) => {
            if rt0.stack@.len() == 0 {
                r == Err::<(), VmError>(VmError::StackUnderflow) && rt1 == rt0 && fr1 == fr0
            } else if g > LOW_MASK {
                r == Err::<(), VmError>(VmError::MalformedObject) && rt1 == rt0 && fr1 == fr0
            } else if insert_fits(rt0.heap, rt0.globals.vars.ptr) {
                &&& r is Ok
                &&& fr1 == fr0
                &&& rt1.stack@ == rt0.stack@.drop_last()
                &&& rt1.vars_model() == rt0.vars_model().insert(int_key(g), rt0.stack@.last()@)
                &&& rt1.code == rt0.code
                &&& rt1.pc == rt0.pc
                &&& rt1.output == rt0.output
                &&& rt1.globals.idents == rt0.globals.idents
                &&& rt1.globals.types == rt0.globals.types
                // Only the variable table's storage (or fresh space past the
                // old cursor) changes: compiled blocks and strings survive.
                &&& crate::heapmap::preserved_outside(
                    rt0.heap,
                    rt1.heap,
                    region_lo(rt0.heap, rt0.globals.vars.ptr as int),
                    region_hi(rt0.heap, rt0.globals.vars.ptr as int),
                )
            } else {
                r == Err::<(), VmError>(VmError::OutOfMemory) && rt1 == rt0 && fr1 == fr0
            }
        },
        OpCode::SendMessage { id, arg_count } => send_effect(id, arg_count, rt0, rt1, fr0, fr1, r),
    }
}

/// The instruction count recorded in the block object a frame walks, when
/// the heap can be read there at all.
pub open spec fn frame_code_len(rt: Runtime, f: Frame) -> Option<u64> {
    if f.main {
        Option::Some(rt.code@.len() as u64)
    } else if f.block % 8 == 0 && f.block + 8 <= rt.heap.cursor() {
        Option::Some(rt.heap.word_at(f.block as int))
    } else {
        Option::None
    }
}

/// True when a readable word sits at byte offset `off`.
pub open spec fn word_readable(h: Heap, off: int) -> bool {
    off >= 0 && off % 8 == 0 && off + 8 <= h.cursor()
}

/// The instruction a frame is about to execute, if its program counter is
/// in range and the encoding decodes.
pub open spec fn fetched_op(rt: Runtime, f: Frame) -> Option<OpCode> {
    if f.main {
        if f.pc < rt.code@.len() {
            Option::Some(rt.code@[f.pc as int])
        } else {
            Option::None
        }
    } else {
        match frame_code_len(rt, f) {
            Option::Some(lw) => {
                let base = f.block + 8 + 24 * (f.pc as int);
                if f.pc < lw && word_readable(rt.heap, base) && word_readable(rt.heap, base + 8)
                    && word_readable(rt.heap, base + 16) {
                    decode_op_spec(
                        rt.heap.word_at(base),
                        rt.heap.word_at(base + 8),
                        rt.heap.word_at(base + 16),
                    )
                } else {
                    Option::None
                }
            },
            Option::None => Option::None,
        }
    }
}

/// The top frame has run past its last instruction.
pub open spec fn frame_finished(rt: Runtime, f: Frame) -> bool {
    match frame_code_len(rt, f) {
        Option::Some(lw) => f.pc >= lw,
        Option::None => false,
    }
}

/// One step of the machine: pop a finished frame, restart a finished
/// looping frame at its beginning, or fetch, decode and execute the top
/// frame's next instruction (the program counter advancing first, as a
/// pushed block frame must sit above the already-advanced caller).
pub open spec fn config_step(rt0: Runtime, fr0: Seq<Frame>, rt1: Runtime, fr1: Seq<Frame>) -> bool {
    &&& fr0.len() > 0
    &&& {
        let f = fr0.last();
        ||| {
            &&& frame_finished(rt0, f)
            &&& f.main || !f.repeat
            &&& rt1 == rt0
            &&& fr1 == fr0.drop_last()
        }
        ||| {
            &&& frame_finished(rt0, f)
            &&& !f.main && f.repeat
            &&& rt1 == rt0
            &&& fr1 == fr0.update(
                fr0.len() - 1,
                Frame { main: false, block: f.block, pc: 0, repeat: true },
            )
        }
        ||| exists|op: OpCode|
            #![trigger op_effect(op, rt0, rt1, fr0.update(fr0.len() - 1, Frame { main: f.main, block: f.block, pc: (f.pc + 1) as u64, repeat: f.repeat }), fr1, Result::<(), VmError>::Ok(()))]
            fetched_op(rt0, f) == Option::Some(op) && op_effect(
                op,
                rt0,
                rt1,
                fr0.update(
                    fr0.len() - 1,
                    Frame { main: f.main, block: f.block, pc: (f.pc + 1) as u64, repeat: f.repeat },
                ),
                fr1,
                Result::<(), VmError>::Ok(()),
            )
    }
}

/// The machine carries one configuration to another in exactly `n` steps.
pub open spec fn reaches(
    rt0: Runtime,
    fr0: Seq<Frame>,
    rt1: Runtime,
    fr1: Seq<Frame>,
    n: nat,
) -> bool
    decreases n,
{
    if n == 0 {
        rt1 == rt0 && fr1 == fr0
    } else {
        exists|rt_m: Runtime, fr_m: Seq<Frame>|
            reaches(rt0, fr0, rt_m, fr_m, (n - 1) as nat) && #[trigger] config_step(
                rt_m,
                fr_m,
                rt1,
                fr1,
            )
    }
}

/// A configuration that must fail: the top frame has work left, and either
/// its block cannot be read or decoded (a malformed object), or the fetched
/// instruction's own effect is exactly the error `e`.
pub open spec fn config_fails(rt: Runtime, frs: Seq<Frame>, e: VmError) -> bool {
    &&& frs.len() > 0
    &&& {
        let f = frs.last();
        let bumped = frs.update(
            frs.len() - 1,
            Frame { main: f.main, block: f.block, pc: (f.pc + 1) as u64, repeat: f.repeat },
        );
        &&& !frame_finished(rt, f)
        &&& {
            ||| (fetched_op(rt, f) is None && e == VmError::MalformedObject)
            ||| exists|op: OpCode|
                #![trigger op_effect(op, rt, rt, bumped, bumped, Result::<(), VmError>::Err(e))]
                fetched_op(rt, f) == Option::Some(op) && op_effect(
                    op,
                    rt,
                    rt,
                    bumped,
                    bumped,
                    Result::<(), VmError>::Err(e),
                )
        }
    }
}

/// The result of a run from `start`, pinned to the small-step semantics: a
/// success reaches an empty frame stack; a step-limit report reaches a
/// configuration at least `fuel` steps away with work still pending; any
/// other error reaches a configuration whose very next step must produce
/// that error.
pub open spec fn run_result_reached(
    rt0: Runtime,
    start: Frame,
    rt1: Runtime,
    fuel: u64,
    r: Result<(), VmError>,
) -> bool {
    match r {
        Ok(()) => exists|n: nat| reaches(rt0, seq![start], rt1, Seq::<Frame>::empty(), n),
        Err(e) => {
            if e == VmError::StepLimit {
                exists|n: nat, fr_m: Seq<Frame>|
                    n >= fuel && fr_m.len() > 0 && reaches(rt0, seq![start], rt1, fr_m, n)
            } else {
                exists|n: nat, fr_m: Seq<Frame>|
                    reaches(rt0, seq![start], rt1, fr_m, n) && config_fails(rt1, fr_m, e)
            }
        },
    }
}

/// The registry and every handler table are untouched.
pub open spec fn registry_preserved(rt0: Runtime, rt1: Runtime) -> bool {
    &&& rt1.types_model().dom() == rt0.types_model().dom()
    &&& forall|tc: u64|
        rt0.types_model().dom().contains(tc) ==> #[trigger] type_entry_preserved(rt0, rt1, tc)
}

/// Executes one instruction against the runtime and the frame stack; its
/// entire effect is pinned by [`op_effect`].
pub fn step_op(rt: &mut Runtime, frames: &mut Vec<Frame>, op: OpCode) -> (r: Result<(), VmError>)
    requires
        old(rt).wf(),
    ensures
        final(rt).wf(),
        final(rt).code == old(rt).code,
        final(rt).globals.idents == old(rt).globals.idents,
        registry_preserved(*old(rt), *final(rt)),
        op_effect(op, *old(rt), *final(rt), old(frames)@, final(frames)@, r),
{
    match op {
        OpCode::PushLit(v) => {
            rt.push_stack(v);
            proof {
                lemma_registry_reflexive(*old(rt), *rt);
            }
            Ok(())
        },
        OpCode::PushGlobal(g) => {
            proof {
                lemma_registry_reflexive(*old(rt), *rt);
            }
            if g > LOW_MASK {
                return Err(VmError::UndefinedGlobal { id: g });
            }
            let key = Value::from_uint(g);
            match rt.globals.vars.get(&rt.heap, &key) {
                Some(v) => {
                    rt.push_stack(v);
                    proof {
                        lemma_registry_reflexive(*old(rt), *rt);
                        crate::value::lemma_bits_from_value(v);
                    }
                    Ok(())
                },
                None => Err(VmError::UndefinedGlobal { id: g }),
            }
        },
        OpCode::SetGlobal(g) => {
            proof {
                lemma_registry_reflexive(*old(rt), *rt);
            }
            if rt.stack.len() == 0 {
                return Err(VmError::StackUnderflow);
            }
            if g > LOW_MASK {
                return Err(VmError::MalformedObject);
            }
            let key = Value::from_uint(g);
            let v = *rt.peek();
            let ghost h0 = rt.heap;
            let ghost pv0 = rt.globals.vars.ptr;
            let ghost pt0 = rt.globals.types.ptr;
            let res = rt.globals.vars.insert(&mut rt.heap, key, v);
            match res {
                Ok(()) => {
                    rt.pop_stack();
                    proof {
                        lemma_tables_after_vars_op(
                            h0,
                            rt.heap,
                            pv0,
                            rt.globals.vars.ptr,
                            pt0,
                        );
                        assert forall|tc: u64|
                            old(rt).types_model().dom().contains(tc) implies #[trigger] type_entry_preserved(
                            *old(rt),
                            *rt,
                            tc,
                        ) by {
                            assert(crate::runtime::handler_entry_preserved(
                                h0,
                                rt.heap,
                                pt0,
                                pt0,
                                tc,
                            ));
                        }
                        assert(rt.stack@ =~= old(rt).stack@.drop_last());
                    }
                    Ok(())
                },
                Err(e) => {
                    proof {
                        lemma_registry_reflexive(*old(rt), *rt);
                    }
                    Err(VmError::OutOfMemory)
                },
            }
        },
        OpCode::SendMessage { id, arg_count } => {
            proof {
                lemma_registry_reflexive(*old(rt), *rt);
            }
            let n = arg_count;
            if rt.stack.len() as u64 <= n {
                return Err(VmError::StackUnderflow);
            }
            let recv = rt.peek_at(n);
            let tid = recv.type_of(&rt.heap);
            let tcode = type_id_code(tid);
            let tkey = Value::from_uint(tcode);
            let tv = match rt.globals.types.get(&rt.heap, &tkey) {
                Some(tv) => tv,
                None => {
                    return Err(VmError::UnknownType { type_code: tcode });
                },
            };
            proof {
                assert(crate::runtime::entry_ok(
                    rt.heap,
                    rt.globals.vars.ptr,
                    rt.globals.types.ptr,
                    int_key(tcode),
                ));
            }
            let hmap = HeapMap::from_ptr(tv.as_ptr());
            if id > LOW_MASK {
                return Err(VmError::UnknownMessage { type_code: tcode, id });
            }
            let hv = match hmap.get(&rt.heap, &Value::from_uint(id)) {
                Some(hv) => hv,
                None => {
                    return Err(VmError::UnknownMessage { type_code: tcode, id });
                },
            };
            let hcode = hv.as_uint();
            let h = match handler_from_code(hcode) {
                Some(h) => h,
                None => {
                    return Err(VmError::MalformedObject);
                },
            };
            run_handler(rt, frames, h, n)
        },
    }
}

/// The registry-preservation facts for a step that left the heap and the
/// table handles alone.
proof fn lemma_registry_reflexive(rt0: Runtime, rt1: Runtime)
    requires
        rt1.heap == rt0.heap,
        rt1.globals.types == rt0.globals.types,
    ensures
        registry_preserved(rt0, rt1),
{
    assert forall|tc: u64| rt0.types_model().dom().contains(tc) implies #[trigger] type_entry_preserved(
        rt0,
        rt1,
        tc,
    ) by {}
}

/// Runs one built-in handler with `n` arguments on the stack.
#[verifier::loop_isolation(false)]
fn run_handler(rt: &mut Runtime, frames: &mut Vec<Frame>, h: Handler, n: u64) -> (r: Result<
    (),
    VmError,
>)
    requires
        old(rt).wf(),
        old(rt).stack@.len() > n,
    ensures
        final(rt).wf(),
        final(rt).code == old(rt).code,
        final(rt).globals.idents == old(rt).globals.idents,
        registry_preserved(*old(rt), *final(rt)),
        handler_effect(h, n, *old(rt), *final(rt), old(frames)@, final(frames)@, r),
{
    proof {
        lemma_registry_reflexive(*old(rt), *rt);
    }
    match h {
        Handler::IntAdd | Handler::IntEq | Handler::IntNeq | Handler::IntMul => {
            if n != 1 {
                return Err(VmError::ArityMismatch { arg_count: n });
            }
            let top = rt.peek_at(0);
            let under = rt.peek_at(1);
            if !under.is_int() || !top.is_int() {
                return Err(VmError::TypeMismatch);
            }
            let b = rt.pop_stack().as_int();
            let a = rt.pop_stack().as_int();
            let result = match h {
                Handler::IntAdd => Value::from_int(a.wrapping_add(b)),
                Handler::IntMul => Value::from_int(a.wrapping_mul(b)),
                Handler::IntEq => Value::from_bool(a == b),
                Handler::IntNeq => Value::from_bool(a != b),
                _ => Value::nil(),
            };
            rt.push_stack(result);
            proof {
                lemma_registry_reflexive(*old(rt), *rt);
                assert(rt.stack@.drop_last() =~= old(rt).stack@.drop_last().drop_last());
            }
            Ok(())
        },
        Handler::IntSumAll => {
            let ghost popped = old(rt).stack@.skip(old(rt).stack@.len() - (n + 1));
            let sl = rt.stack.len();
            proof {
                assert(n < sl as u64);
            }
            // All summed operands must be integers; check before popping.
            let mut t: u64 = 0;
            while t < n + 1
                invariant
                    t <= n + 1,
                    forall|i: int|
                        popped.len() - t <= i < popped.len() ==> (#[trigger] popped[i]).is_int_spec(),
                decreases n + 1 - t,
            {
                let v = rt.peek_at(t);
                if !v.is_int() {
                    proof {
                        assert(popped[popped.len() - 1 - t] == v);
                    }
                    return Err(VmError::TypeMismatch);
                }
                proof {
                    assert(popped[popped.len() - 1 - t] == v);
                }
                t = t + 1;
            }
            let mut sum: i32 = 0;
            let mut k: u64 = 0;
            while k < n + 1
                invariant
                    k <= n + 1,
                    rt.stack@ == old(rt).stack@.take(old(rt).stack@.len() - k),
                    rt.heap == old(rt).heap,
                    rt.globals == old(rt).globals,
                    rt.code == old(rt).code,
                    rt.pc == old(rt).pc,
                    rt.output == old(rt).output,
                    sum == sum_wrapped(popped.skip(popped.len() - k)),
                decreases n + 1 - k,
            {
                proof {
                    assert(rt.stack@.last() == popped[popped.len() - 1 - k]);
                }
                let v = rt.pop_stack();
                sum = sum.wrapping_add(v.as_int());
                proof {
                    assert(popped.skip(popped.len() - (k + 1)).skip(1) =~= popped.skip(
                        popped.len() - k,
                    ));
                    assert(popped.skip(popped.len() - (k + 1))[0] == v);
                    assert(rt.stack@ =~= old(rt).stack@.take(old(rt).stack@.len() - (k + 1)));
                }
                k = k + 1;
            }
            proof {
                assert(popped.skip(0) =~= popped);
            }
            rt.push_stack(Value::from_int(sum));
            proof {
                lemma_registry_reflexive(*old(rt), *rt);
                assert(rt.stack@.drop_last() =~= old(rt).stack@.take(
                    old(rt).stack@.len() - (n + 1),
                ));
            }
            Ok(())
        },
        Handler::IntDisplay => {
            if n != 0 {
                return Err(VmError::ArityMismatch { arg_count: n });
            }
            let top = rt.peek_at(0);
            if !top.is_int() {
                return Err(VmError::TypeMismatch);
            }
            let v = rt.pop_stack();
            let i = v.as_int();
            rt.output.push(40);
            rt.output.push(73);
            rt.output.push(110);
            rt.output.push(116);
            rt.output.push(41);
            rt.output.push(32);
            push_dec_i32(&mut rt.output, i);
            rt.output.push(10);
            proof {
                lemma_registry_reflexive(*old(rt), *rt);
                assert(rt.output@ =~= old(rt).output@ + int_display_bytes(top.as_int_spec()));
            }
            Ok(())
        },
        Handler::IfTrue(b) => {
            if n != 1 && n != 2 {
                return Err(VmError::ArityMismatch { arg_count: n });
            }
            if n == 1 {
                let blk = rt.peek_at(0);
                if !blk.is_ptr() {
                    return Err(VmError::TypeMismatch);
                }
                let p = blk.as_ptr();
                rt.pop_stack();
                rt.pop_stack();
                if b {
                    frames.push(Frame { main: false, block: p, pc: 0, repeat: false });
                }
                proof {
                    lemma_registry_reflexive(*old(rt), *rt);
                    assert(rt.stack@ =~= old(rt).stack@.drop_last().drop_last());
                }
                Ok(())
            } else {
                let els = rt.peek_at(0);
                let thn = rt.peek_at(1);
                if !els.is_ptr() || !thn.is_ptr() {
                    return Err(VmError::TypeMismatch);
                }
                let p = if b {
                    thn.as_ptr()
                } else {
                    els.as_ptr()
                };
                rt.pop_stack();
                rt.pop_stack();
                rt.pop_stack();
                frames.push(Frame { main: false, block: p, pc: 0, repeat: false });
                proof {
                    lemma_registry_reflexive(*old(rt), *rt);
                    assert(rt.stack@ =~= old(rt).stack@.drop_last().drop_last().drop_last());
                }
                Ok(())
            }
        },
        Handler::BlockValue | Handler::BlockLoop => {
            if n != 0 {
                return Err(VmError::ArityMismatch { arg_count: n });
            }
            let blk = rt.peek_at(0);
            if !blk.is_ptr() {
                return Err(VmError::TypeMismatch);
            }
            let p = blk.as_ptr();
            rt.pop_stack();
            let repeat = match h {
                Handler::BlockLoop => true,
                _ => false,
            };
            frames.push(Frame { main: false, block: p, pc: 0, repeat });
            proof {
                lemma_registry_reflexive(*old(rt), *rt);
            }
            Ok(())
        },
        Handler::StringDisplay | Handler::StringOutput => {
            if n != 0 {
                return Err(VmError::ArityMismatch { arg_count: n });
            }
            let top = rt.peek_at(0);
            if !top.is_ptr() {
                return Err(VmError::TypeMismatch);
            }
            let bytes = match read_string(&rt.heap, top.as_ptr()) {
                Ok(bytes) => bytes,
                Err(e) => {
                    return Err(e);
                },
            };
            rt.pop_stack();
            let ghost out0 = rt.output@;
            let display = match h {
                Handler::StringDisplay => true,
                _ => false,
            };
            if display {
                rt.output.push(40);
                rt.output.push(83);
                rt.output.push(116);
                rt.output.push(114);
                rt.output.push(105);
                rt.output.push(110);
                rt.output.push(103);
                rt.output.push(41);
                rt.output.push(32);
            }
            let mut t: usize = 0;
            while t < bytes.len()
                invariant
                    t <= bytes.len(),
                    rt.output@ == out0 + (if display {
                        seq![40u8, 83u8, 116u8, 114u8, 105u8, 110u8, 103u8, 41u8, 32u8]
                    } else {
                        Seq::<u8>::empty()
                    }) + bytes@.take(t as int),
                    rt.stack@ == old(rt).stack@.drop_last(),
                    rt.heap == old(rt).heap,
                    rt.globals == old(rt).globals,
                    rt.code == old(rt).code,
                    rt.pc == old(rt).pc,
                decreases bytes.len() - t,
            {
                rt.output.push(bytes[t]);
                proof {
                    assert(bytes@.take(t as int).push(bytes@[t as int]) =~= bytes@.take(
                        t as int + 1,
                    ));
                }
                t = t + 1;
            }
            rt.output.push(10);
            proof {
                lemma_registry_reflexive(*old(rt), *rt);
                assert(bytes@.take(bytes@.len() as int) =~= bytes@);
                if display {
                    assert(rt.output@ =~= old(rt).output@ + string_display_bytes(bytes@));
                } else {
                    assert(rt.output@ =~= old(rt).output@ + string_output_bytes(bytes@));
                }
            }
            Ok(())
        },
    }
}

/// Drives a frame stack to completion (or to the first error, or until the
/// step budget runs out).  Each executed instruction obeys [`op_effect`];
/// the instruction buffer, the identifier table, the type registry and
/// every handler table come through unchanged.
#[verifier::loop_isolation(false)]
fn run_frames(rt: &mut Runtime, start: Frame, fuel: u64) -> (r: Result<(), VmError>)
    requires
        old(rt).wf(),
    ensures
        final(rt).wf(),
        final(rt).code == old(rt).code,
        final(rt).globals.idents == old(rt).globals.idents,
        registry_preserved(*old(rt), *final(rt)),
        run_result_reached(*old(rt), start, *final(rt), fuel, r),
{
    let mut frames: Vec<Frame> = Vec::new();
    frames.push(start);
    let mut used: u64 = 0;
    proof {
        lemma_registry_reflexive(*old(rt), *rt);
        assert(frames@ =~= seq![start]);
        assert(reaches(*old(rt), seq![start], *rt, frames@, 0));
    }
    while frames.len() > 0
        invariant
            rt.wf(),
            rt.code == old(rt).code,
            rt.globals.idents == old(rt).globals.idents,
            registry_preserved(*old(rt), *rt),
            used <= fuel,
            exists|n: nat| n >= used && reaches(*old(rt), seq![start], *rt, frames@, n),
        decreases fuel - used, frames@.len(),
    {
        let ghost n0 = choose|n: nat|
            n >= used && reaches(*old(rt), seq![start], *rt, frames@, n);
        let ghost rt_at = *rt;
        let ghost fr_at = frames@;
        let fi = frames.len() - 1;
        let fr = frames[fi];
        if fr.main {
            let cl = rt.code.len();
            if fr.pc >= cl as u64 {
                frames.pop();
                proof {
                    assert(config_step(rt_at, fr_at, *rt, frames@)) by {
                        assert(frames@ =~= fr_at.drop_last());
                    }
                    assert(reaches(*old(rt), seq![start], *rt, frames@, n0 + 1));
                }
            } else {
                if used == fuel {
                    proof {
                        assert(fr_at.len() > 0 && n0 >= fuel);
                    }
                    return Err(VmError::StepLimit);
                }
                used = used + 1;
                let op = rt.code[fr.pc as usize];
                frames[fi] = Frame { main: true, block: fr.block, pc: fr.pc + 1, repeat: fr.repeat };
                let ghost fr_b = frames@;
                proof {
                    assert(fr_b =~= fr_at.update(
                        fr_at.len() - 1,
                        Frame { main: fr.main, block: fr.block, pc: (fr.pc + 1) as u64, repeat: fr.repeat },
                    ));
                    assert(fetched_op(rt_at, fr) == Option::Some(op));
                }
                let ghost rt_pre = *rt;
                match step_op(rt, &mut frames, op) {
                    Ok(()) => {
                        proof {
                            lemma_registry_transitive(*old(rt), rt_pre, *rt);
                            assert(op_effect(
                                op,
                                rt_at,
                                *rt,
                                fr_at.update(
                                    fr_at.len() - 1,
                                    Frame { main: fr.main, block: fr.block, pc: (fr.pc + 1) as u64, repeat: fr.repeat },
                                ),
                                frames@,
                                Result::<(), VmError>::Ok(()),
                            ));
                            assert(config_step(rt_at, fr_at, *rt, frames@));
                            assert(reaches(*old(rt), seq![start], *rt, frames@, n0 + 1));
                        }
                    },
                    Err(e) => {
                        proof {
                            lemma_registry_transitive(*old(rt), rt_pre, *rt);
                            assert(*rt == rt_at);
                            assert(frames@ == fr_b);
                            assert(op_effect(op, *rt, *rt, fr_b, fr_b, Result::<(), VmError>::Err(e)));
                            assert(e != VmError::StepLimit);
                            assert(config_fails(*rt, fr_at, e));
                            assert(reaches(*old(rt), seq![start], *rt, fr_at, n0));
                        }
                        return Err(e);
                    },
                }
            }
        } else {
            let lw = match rt.heap.load(fr.block) {
                Some(w) => w,
                None => {
                    proof {
                        assert(frame_code_len(*rt, fr) is None);
                        assert(config_fails(*rt, fr_at, VmError::MalformedObject));
                        assert(reaches(*old(rt), seq![start], *rt, fr_at, n0));
                    }
                    return Err(VmError::MalformedObject);
                },
            };
            if fr.pc >= lw {
                if fr.repeat {
                    // A looping block restarts; the restart costs a step, so
                    // the budget still bounds the run.
                    if used == fuel {
                        proof {
                            assert(fr_at.len() > 0 && n0 >= fuel);
                        }
                        return Err(VmError::StepLimit);
                    }
                    used = used + 1;
                    frames[fi] = Frame { main: false, block: fr.block, pc: 0, repeat: true };
                    proof {
                        assert(config_step(rt_at, fr_at, *rt, frames@)) by {
                            assert(frames@ =~= fr_at.update(
                                fr_at.len() - 1,
                                Frame { main: false, block: fr.block, pc: 0, repeat: true },
                            ));
                        }
                        assert(reaches(*old(rt), seq![start], *rt, frames@, n0 + 1));
                    }
                } else {
                    frames.pop();
                    proof {
                        assert(config_step(rt_at, fr_at, *rt, frames@)) by {
                            assert(frames@ =~= fr_at.drop_last());
                        }
                        assert(reaches(*old(rt), seq![start], *rt, frames@, n0 + 1));
                    }
                }
            } else {
                if fr.pc >= 0x0020_0000_0000_0000u64 {
                    // The word offsets such a counter would need lie past
                    // any heap.
                    proof {
                        assert(fr.block + 8 + 24 * (fr.pc as int) > rt.heap.cursor());
                        assert(fetched_op(*rt, fr) is None);
                        assert(config_fails(*rt, fr_at, VmError::MalformedObject));
                        assert(reaches(*old(rt), seq![start], *rt, fr_at, n0));
                    }
                    return Err(VmError::MalformedObject);
                }
                let base = fr.block + 8 + 24 * fr.pc;
                let t = match rt.heap.load(base) {
                    Some(w) => w,
                    None => {
                        proof {
                            assert(fetched_op(*rt, fr) is None);
                            assert(config_fails(*rt, fr_at, VmError::MalformedObject));
                            assert(reaches(*old(rt), seq![start], *rt, fr_at, n0));
                        }
                        return Err(VmError::MalformedObject);
                    },
                };
                let a = match rt.heap.load(base + 8) {
                    Some(w) => w,
                    None => {
                        proof {
                            assert(fetched_op(*rt, fr) is None);
                            assert(config_fails(*rt, fr_at, VmError::MalformedObject));
                            assert(reaches(*old(rt), seq![start], *rt, fr_at, n0));
                        }
                        return Err(VmError::MalformedObject);
                    },
                };
                let b = match rt.heap.load(base + 16) {
                    Some(w) => w,
                    None => {
                        proof {
                            assert(fetched_op(*rt, fr) is None);
                            assert(config_fails(*rt, fr_at, VmError::MalformedObject));
                            assert(reaches(*old(rt), seq![start], *rt, fr_at, n0));
                        }
                        return Err(VmError::MalformedObject);
                    },
                };
                let op = match decode_op(t, a, b) {
                    Some(op) => op,
                    None => {
                        proof {
                            assert(fetched_op(*rt, fr) is None);
                            assert(config_fails(*rt, fr_at, VmError::MalformedObject));
                            assert(reaches(*old(rt), seq![start], *rt, fr_at, n0));
                        }
                        return Err(VmError::MalformedObject);
                    },
                };
                if used == fuel {
                    proof {
                        assert(fr_at.len() > 0 && n0 >= fuel);
                    }
                    return Err(VmError::StepLimit);
                }
                used = used + 1;
                frames[fi] = Frame {
                    main: false,
                    block: fr.block,
                    pc: fr.pc + 1,
                    repeat: fr.repeat,
                };
                let ghost fr_b = frames@;
                proof {
                    assert(fr_b =~= fr_at.update(
                        fr_at.len() - 1,
                        Frame { main: fr.main, block: fr.block, pc: (fr.pc + 1) as u64, repeat: fr.repeat },
                    ));
                    assert(fetched_op(rt_at, fr) == Option::Some(op));
                }
                let ghost rt_pre = *rt;
                match step_op(rt, &mut frames, op) {
                    Ok(()) => {
                        proof {
                            lemma_registry_transitive(*old(rt), rt_pre, *rt);
                            assert(op_effect(
                                op,
                                rt_at,
                                *rt,
                                fr_at.update(
                                    fr_at.len() - 1,
                                    Frame { main: fr.main, block: fr.block, pc: (fr.pc + 1) as u64, repeat: fr.repeat },
                                ),
                                frames@,
                                Result::<(), VmError>::Ok(()),
                            ));
                            assert(config_step(rt_at, fr_at, *rt, frames@));
                            assert(reaches(*old(rt), seq![start], *rt, frames@, n0 + 1));
                        }
                    },
                    Err(e) => {
                        proof {
                            lemma_registry_transitive(*old(rt), rt_pre, *rt);
                            assert(*rt == rt_at);
                            assert(frames@ == fr_b);
                            assert(op_effect(op, *rt, *rt, fr_b, fr_b, Result::<(), VmError>::Err(e)));
                            assert(e != VmError::StepLimit);
                            assert(config_fails(*rt, fr_at, e));
                            assert(reaches(*old(rt), seq![start], *rt, fr_at, n0));
                        }
                        return Err(e);
                    },
                }
            }
        }
    }
    proof {
        assert(frames@ =~= Seq::<Frame>::empty());
    }
    Ok(())
}

/// Registry preservation composes across consecutive states.
proof fn lemma_registry_transitive(rt0: Runtime, rt1: Runtime, rt2: Runtime)
    requires
        registry_preserved(rt0, rt1),
        registry_preserved(rt1, rt2),
    ensures
        registry_preserved(rt0, rt2),
{
    assert forall|tc: u64| rt0.types_model().dom().contains(tc) implies #[trigger] type_entry_preserved(
        rt0,
        rt2,
        tc,
    ) by {
        assert(type_entry_preserved(rt0, rt1, tc));
        assert(type_entry_preserved(rt1, rt2, tc));
    }
}

/// Executes the runtime's instruction buffer from the beginning, under a
/// step budget.
pub fn exe(rt: &mut Runtime, fuel: u64) -> (r: Result<(), VmError>)
    requires
        old(rt).wf(),
    ensures
        final(rt).wf(),
        final(rt).code == old(rt).code,
        final(rt).globals.idents == old(rt).globals.idents,
        registry_preserved(*old(rt), *final(rt)),
        run_result_reached(
            *old(rt),
            Frame { main: true, block: 0, pc: 0, repeat: false },
            *final(rt),
            fuel,
            r,
        ),
{
    run_frames(rt, Frame { main: true, block: 0, pc: 0, repeat: false }, fuel)
}

/// Runs the compiled block at heap offset `ptr` to completion as its own
/// instruction sequence, sharing the runtime's stack, globals and registry.
pub fn run_block(rt: &mut Runtime, ptr: u64, fuel: u64) -> (r: Result<(), VmError>)
    requires
        old(rt).wf(),
    ensures
        final(rt).wf(),
        final(rt).code == old(rt).code,
        final(rt).globals.idents == old(rt).globals.idents,
        registry_preserved(*old(rt), *final(rt)),
        run_result_reached(
            *old(rt),
            Frame { main: false, block: ptr, pc: 0, repeat: false },
            *final(rt),
            fuel,
            r,
        ),
{
    run_frames(rt, Frame { main: false, block: ptr, pc: 0, repeat: false }, fuel)
}

/// Executes the accumulated instruction buffer and then clears it, ready
/// for the next batch.
pub fn flush_runtime(rt: &mut Runtime, fuel: u64) -> (r: Result<(), VmError>)
    requires
        old(rt).wf(),
    ensures
        final(rt).wf(),
        final(rt).code@.len() == 0,
        final(rt).globals.idents == old(rt).globals.idents,
        registry_preserved(*old(rt), *final(rt)),
        exists|rt_m: Runtime|
            {
                &&& #[trigger] run_result_reached(
                    *old(rt),
                    Frame { main: true, block: 0, pc: 0, repeat: false },
                    rt_m,
                    fuel,
                    r,
                )
                &&& final(rt).stack == rt_m.stack
                &&& final(rt).heap == rt_m.heap
                &&& final(rt).globals == rt_m.globals
                &&& final(rt).output == rt_m.output
                &&& final(rt).pc == rt_m.pc
            },
{
    let r = exe(rt, fuel);
    let ghost rt_mid = *rt;
    rt.code = Vec::new();
    proof {
        assert(run_result_reached(
            *old(rt),
            Frame { main: true, block: 0, pc: 0, repeat: false },
            rt_mid,
            fuel,
            r,
        ));
        assert forall|tc: u64|
            old(rt).types_model().dom().contains(tc) implies #[trigger] type_entry_preserved(
            *old(rt),
            *rt,
            tc,
        ) by {
            assert(type_entry_preserved(*old(rt), rt_mid, tc));
        }
    }
    r
}

/// Reads the string object at heap offset `p`; reports a malformed object
/// when the pointer does not lead to a well-formed string.
#[verifier::loop_isolation(false)]
pub(crate) fn read_string(heap: &Heap, p: u64) -> (r: Result<Vec<u8>, VmError>)
    requires
        heap.wf(),
    ensures
        match r {
            Ok(bytes) => crate::value::string_at(*heap, p as int, bytes@),
            Err(e) => e == VmError::MalformedObject,
        },
        forall|s: Seq<u8>|
            crate::value::string_at(*heap, p as int, s) ==> r is Ok && r->Ok_0@ == s,
{
    let code = match heap.type_code_of(p) {
        Some(code) => code,
        None => {
            return Err(VmError::MalformedObject);
        },
    };
    if code != type_id_code(crate::value::TypeId::String) {
        return Err(VmError::MalformedObject);
    }
    proof {
        assert(p as int % 8 == 0) by (nonlinear_arith)
            requires p % 16 == 0;
    }
    let lenw = match heap.load(p) {
        Some(w) => w,
        None => {
            return Err(VmError::MalformedObject);
        },
    };
    let mut bytes: Vec<u8> = Vec::new();
    let mut i: u64 = 0;
    while i < lenw
        invariant
            i <= lenw,
            bytes@.len() == i,
            p + 8 + 8 * i <= heap.cursor(),
            forall|t: int| 0 <= t < i ==> heap.words()[p as int / 8 + 1 + t] == bytes@[t],
        decreases lenw - i,
    {
        proof {
            crate::value::lemma_string_offset(p, i as int);
        }
        if i > 0x1_0000_0000_0000u64 {
            return Err(VmError::MalformedObject);
        }
        let w = match heap.load(p + 8 + 8 * i) {
            Some(w) => w,
            None => {
                proof {
                    lemma_no_string_here(*heap, p, i, lenw);
                }
                return Err(VmError::MalformedObject);
            },
        };
        if w > 255 {
            proof {
                lemma_no_string_here_byte(*heap, p, i, lenw);
            }
            return Err(VmError::MalformedObject);
        }
        bytes.push(w as u8);
        i = i + 1;
    }
    proof {
        assert(crate::value::string_at(*heap, p as int, bytes@));
        assert forall|s: Seq<u8>|
            crate::value::string_at(*heap, p as int, s) implies s =~= bytes@ by {
            assert(s.len() == lenw);
            assert forall|t: int| 0 <= t < lenw implies s[t] == bytes@[t] by {
                assert(heap.words()[p as int / 8 + 1 + t] == s[t]);
            }
        }
    }
    Ok(bytes)
}

/// A failed word read inside the claimed byte range refutes any string at
/// `p`.
proof fn lemma_no_string_here(h: Heap, p: u64, i: u64, lenw: u64)
    requires
        h.wf(),
        p % 16 == 0,
        i < lenw,
        h.words()[p as int / 8] == lenw,
        !((p + 8 + 8 * i) % 8 == 0 && p + 8 + 8 * i + 8 <= h.cursor()),
    ensures
        forall|s: Seq<u8>| !crate::value::string_at(h, p as int, s),
{
    crate::value::lemma_string_offset(p, i as int);
    assert forall|s: Seq<u8>| !crate::value::string_at(h, p as int, s) by {
        if crate::value::string_at(h, p as int, s) {
            assert(s.len() == lenw);
            assert(p + 8 + 8 * s.len() <= h.cursor());
        }
    }
}

/// A non-byte word inside the byte range refutes any string at `p`.
proof fn lemma_no_string_here_byte(h: Heap, p: u64, i: u64, lenw: u64)
    requires
        h.wf(),
        p % 16 == 0,
        i < lenw,
        h.words()[p as int / 8] == lenw,
        h.words()[p as int / 8 + 1 + i] > 255,
    ensures
        forall|s: Seq<u8>| !crate::value::string_at(h, p as int, s),
{
    assert forall|s: Seq<u8>| !crate::value::string_at(h, p as int, s) by {
        if crate::value::string_at(h, p as int, s) {
            assert(s.len() == lenw);
            assert(h.words()[p as int / 8 + 1 + i] == s[i as int]);
        }
    }
}

/// Appends the decimal digits of `m`.
fn push_dec_u64(out: &mut Vec<u8>, m: u64)
    ensures
        final(out)@ == old(out)@ + dec_nat_bytes(m as nat),
    decreases m,
{
    if m < 10 {
        out.push((48 + m) as u8);
        proof {
            assert(final(out)@ =~= old(out)@ + dec_nat_bytes(m as nat));
        }
    } else {
        proof {
            assert(m / 10 < m) by (nonlinear_arith)
                requires m >= 10;
        }
        push_dec_u64(out, m / 10);
        out.push(48 + (m % 10) as u8);
        proof {
            assert(final(out)@ =~= old(out)@ + dec_nat_bytes(m as nat));
        }
    }
}

/// Appends the decimal rendering of `i`, minus sign included.
fn push_dec_i32(out: &mut Vec<u8>, i: i32)
    ensures
        final(out)@ == old(out)@ + dec_i32_bytes(i as int),
{
    if i < 0 {
        out.push(45);
        let m = (-(i as i64)) as u64;
        push_dec_u64(out, m);
        proof {
            assert(final(out)@ =~= old(out)@ + dec_i32_bytes(i as int));
        }
    } else {
        push_dec_u64(out, i as u64);
    }
}

} // verus!
