//! Registration of the built-in types and their message handlers.
//!
//! These are ordinary consumers of the core's registration API: they define
//! the primitive types in the registry and attach the closed set of
//! built-in handlers under their message names.  The handlers' behaviour
//! itself lives in the interpreter's dispatch.  Each registration function
//! states exactly which bindings it installs, that every other type's table
//! is untouched, and that it succeeds whenever heap, registry and
//! identifier table have room ([`boot_room`]).

use vstd::prelude::*;

use crate::bytecode::{handler_code_spec, Handler};
use crate::errors::VmError;
use crate::heap::{round_up_align, Heap};
use crate::heapmap::{lemma_empty_model_count_zero, map_cap, map_count};
use crate::idents::{lemma_id_after_add, lemma_prefix_trans};
use crate::runtime::{
    entry_ok, handler_ptr, int_key, lemma_int_key_injective, type_entry_preserved, Runtime,
    HANDLERS_CAPACITY,
};
use crate::value::{string_at, type_id_code_spec, TypeId, Value, LOW_MASK};

verus! {

// The built-in message names, as byte strings.

pub open spec fn plus_name() -> Seq<u8> {
    seq![43u8]
}

pub open spec fn sumall_name() -> Seq<u8> {
    seq![43u8, 97u8, 108u8, 108u8, 111u8, 102u8]
}

pub open spec fn display_name() -> Seq<u8> {
    seq![100u8, 105u8, 115u8, 112u8, 108u8, 97u8, 121u8]
}

pub open spec fn mul_name() -> Seq<u8> {
    seq![42u8]
}

pub open spec fn eq_name() -> Seq<u8> {
    seq![61u8, 61u8]
}

pub open spec fn neq_name() -> Seq<u8> {
    seq![33u8, 61u8]
}

pub open spec fn value_name() -> Seq<u8> {
    seq![118u8, 97u8, 108u8, 117u8, 101u8]
}

pub open spec fn loop_name() -> Seq<u8> {
    seq![108u8, 111u8, 111u8, 112u8]
}

pub open spec fn if_true_name() -> Seq<u8> {
    seq![105u8, 102u8, 84u8, 114u8, 117u8, 101u8]
}

pub open spec fn output_name() -> Seq<u8> {
    seq![62u8, 62u8]
}

/// Sending message `name` to a value of type `t` dispatches to handler `h`:
/// the registry holds the type, and its handler table binds the interned id
/// of the name to the handler's code.
pub open spec fn msg_bound(rt: Runtime, t: TypeId, name: Seq<u8>, h: Handler) -> bool {
    let tc = int_key(type_id_code_spec(t));
    let key = int_key(rt.globals.idents.spec_id_of(name) as u64);
    &&& rt.types_model().dom().contains(tc)
    &&& rt.globals.idents.contains_name(name)
    &&& rt.globals.idents.spec_id_of(name) <= LOW_MASK
    &&& rt.handlers_model(tc).dom().contains(key)
    &&& rt.handlers_model(tc)[key] == int_key(handler_code_spec(h))
}

/// The whole standard registration: every built-in type present, with its
/// messages bound to the matching built-in handlers.
pub open spec fn std_types_registered(rt: Runtime) -> bool {
    &&& msg_bound(rt, TypeId::Int, plus_name(), Handler::IntAdd)
    &&& msg_bound(rt, TypeId::Int, sumall_name(), Handler::IntSumAll)
    &&& msg_bound(rt, TypeId::Int, display_name(), Handler::IntDisplay)
    &&& msg_bound(rt, TypeId::Int, mul_name(), Handler::IntMul)
    &&& msg_bound(rt, TypeId::Int, eq_name(), Handler::IntEq)
    &&& msg_bound(rt, TypeId::Int, neq_name(), Handler::IntNeq)
    &&& msg_bound(rt, TypeId::CompiledBytecode, value_name(), Handler::BlockValue)
    &&& msg_bound(rt, TypeId::CompiledBytecode, loop_name(), Handler::BlockLoop)
    &&& msg_bound(rt, TypeId::True, if_true_name(), Handler::IfTrue(true))
    &&& msg_bound(rt, TypeId::False, if_true_name(), Handler::IfTrue(false))
    &&& msg_bound(rt, TypeId::String, display_name(), Handler::StringDisplay)
    &&& msg_bound(rt, TypeId::String, output_name(), Handler::StringOutput)
}

/// Room for a registration stage: the heap fits `new_types` fresh handler
/// tables, the registry can take them without growing, and the identifier
/// table can intern `new_names` more names within the id payload range.
pub open spec fn boot_room(rt: Runtime, new_types: int, new_names: int) -> bool {
    &&& round_up_align(rt.heap.cursor() as int) + new_types * (32 + 16 * HANDLERS_CAPACITY)
        <= rt.heap.capacity()
    &&& 10 * (map_count(rt.heap, rt.globals.types.ptr as int) + new_types) <= 7 * map_cap(
        rt.heap,
        rt.globals.types.ptr as int,
    )
    &&& rt.globals.idents.view_names().len() + new_names <= LOW_MASK
}

/// The state-independent facts every registration step preserves.
pub open spec fn stage_frame(rt0: Runtime, rt1: Runtime) -> bool {
    &&& rt1.wf()
    &&& rt1.stack == rt0.stack
    &&& rt1.code == rt0.code
    &&& rt1.output == rt0.output
    &&& rt1.vars_model() == rt0.vars_model()
    &&& rt1.heap.capacity() == rt0.heap.capacity()
    &&& rt1.pc == rt0.pc
    &&& rt0.globals.idents.view_names().is_prefix_of(rt1.globals.idents.view_names())
}

/// What registering one message on type `t` guarantees.
pub open spec fn register_post(
    rt0: Runtime,
    rt1: Runtime,
    r: Result<(), VmError>,
    t: TypeId,
    name: Seq<u8>,
    h: Handler,
) -> bool {
    let tc = int_key(type_id_code_spec(t));
    let hp = handler_ptr(rt0.heap, rt0.globals.types.ptr, tc);
    &&& stage_frame(rt0, rt1)
    &&& rt1.types_model().dom() == rt0.types_model().dom()
    &&& rt1.globals.idents.view_names().len() <= rt0.globals.idents.view_names().len() + 1
    &&& match r {
        Ok(()) => {
            &&& rt0.globals.idents.spec_id_of(name) <= LOW_MASK
            &&& rt1.handlers_model(tc) == rt0.handlers_model(tc).insert(
                int_key(rt0.globals.idents.spec_id_of(name) as u64),
                int_key(handler_code_spec(h)),
            )
            &&& msg_bound(rt1, t, name, h)
            &&& forall|tc2: u64|
                rt0.types_model().dom().contains(tc2) && tc2 != tc
                    ==> #[trigger] type_entry_preserved(rt0, rt1, tc2)
        },
        Err(e) => e == VmError::OutOfMemory,
    }
    &&& (10 * map_count(rt0.heap, hp as int) <= 7 * map_cap(rt0.heap, hp as int)
        && rt0.globals.idents.view_names().len() < LOW_MASK) ==> {
        &&& r is Ok
        &&& rt1.heap.cursor() == rt0.heap.cursor()
        &&& rt1.globals.types == rt0.globals.types
        &&& rt1.types_model() == rt0.types_model()
        &&& map_cap(rt1.heap, rt1.globals.types.ptr as int) == map_cap(
            rt0.heap,
            rt0.globals.types.ptr as int,
        )
        &&& map_count(rt1.heap, rt1.globals.types.ptr as int) == map_count(
            rt0.heap,
            rt0.globals.types.ptr as int,
        )
        &&& map_cap(rt1.heap, hp as int) == map_cap(rt0.heap, hp as int)
        &&& map_count(rt1.heap, hp as int) <= map_count(rt0.heap, hp as int) + 1
    }
}

/// A binding survives any later work that leaves the type's registry entry
/// alone and only grows the identifier table.
proof fn lemma_msg_bound_preserved(rt1: Runtime, rt2: Runtime, t: TypeId, name: Seq<u8>, h: Handler)
    requires
        msg_bound(rt1, t, name, h),
        rt1.globals.idents.wf(),
        rt2.globals.idents.wf(),
        rt1.globals.idents.view_names().is_prefix_of(rt2.globals.idents.view_names()),
        rt2.types_model().dom().contains(int_key(type_id_code_spec(t))),
        type_entry_preserved(rt1, rt2, int_key(type_id_code_spec(t))),
    ensures
        msg_bound(rt2, t, name, h),
{
    crate::idents::lemma_id_stable(rt1.globals.idents, rt2.globals.idents, name);
}

/// A binding survives a later registration of a different message on the
/// same type.
proof fn lemma_msg_bound_after_insert(
    rt1: Runtime,
    rt2: Runtime,
    t: TypeId,
    name: Seq<u8>,
    h: Handler,
    new_name: Seq<u8>,
    new_h: Handler,
)
    requires
        msg_bound(rt1, t, name, h),
        name != new_name,
        rt1.globals.idents.wf(),
        rt2.globals.idents.wf(),
        rt1.globals.idents.view_names().is_prefix_of(rt2.globals.idents.view_names()),
        rt1.globals.idents.spec_id_of(new_name) <= LOW_MASK,
        rt2.types_model().dom().contains(int_key(type_id_code_spec(t))),
        rt2.handlers_model(int_key(type_id_code_spec(t))) == rt1.handlers_model(
            int_key(type_id_code_spec(t)),
        ).insert(
            int_key(rt1.globals.idents.spec_id_of(new_name) as u64),
            int_key(handler_code_spec(new_h)),
        ),
    ensures
        msg_bound(rt2, t, name, h),
{
    let a1 = rt1.globals.idents;
    let a2 = rt2.globals.idents;
    crate::idents::lemma_id_stable(a1, a2, name);
    let id_old = a1.spec_id_of(name);
    assert(0 <= id_old < a1.view_names().len() && a1.view_names()[id_old] == name);
    let id_new = a1.spec_id_of(new_name);
    if a1.contains_name(new_name) {
        crate::idents::lemma_distinct_ids(a1, name, new_name);
        assert(0 <= id_new < a1.view_names().len());
    } else {
        assert(id_new == a1.view_names().len());
    }
    assert(id_old != id_new);
    lemma_int_key_injective(id_old as u64, id_new as u64);
}

/// The message names attached to any one type are pairwise distinct.
proof fn lemma_msg_names_distinct()
    ensures
        plus_name() != sumall_name(),
        plus_name() != display_name(),
        plus_name() != mul_name(),
        plus_name() != eq_name(),
        plus_name() != neq_name(),
        sumall_name() != display_name(),
        sumall_name() != mul_name(),
        sumall_name() != eq_name(),
        sumall_name() != neq_name(),
        display_name() != mul_name(),
        display_name() != eq_name(),
        display_name() != neq_name(),
        mul_name() != eq_name(),
        mul_name() != neq_name(),
        eq_name() != neq_name(),
        value_name() != loop_name(),
        display_name() != output_name(),
{
    assert(plus_name()[0] != mul_name()[0]);
    assert(sumall_name()[0] != display_name()[0]);
    assert(eq_name()[0] != neq_name()[0]);
    assert(display_name()[0] != output_name()[0]);
    assert(value_name().len() != loop_name().len());
    assert(sumall_name().len() != eq_name().len());
    assert(sumall_name().len() != neq_name().len());
    assert(sumall_name().len() != mul_name().len());
    assert(display_name().len() != mul_name().len());
    assert(display_name().len() != eq_name().len());
    assert(display_name().len() != neq_name().len());
}

/// Reads a string value's bytes out of its heap object; anything that is
/// not a pointer to a well-formed string is reported.
pub fn as_string(heap: &Heap, v: Value) -> (r: Result<Vec<u8>, VmError>)
    requires
        heap.wf(),
    ensures
        match r {
            Ok(bytes) => v.is_ptr_spec() && string_at(*heap, v.as_ptr_spec() as int, bytes@),
            Err(e) => e == VmError::TypeMismatch || e == VmError::MalformedObject,
        },
        forall|s: Seq<u8>|
            v.is_ptr_spec() && string_at(*heap, v.as_ptr_spec() as int, s) ==> r is Ok
                && r->Ok_0@ == s,
{
    if !v.is_ptr() {
        return Err(VmError::TypeMismatch);
    }
    crate::interp::read_string(heap, v.as_ptr())
}

/// Registers one message name to a handler on an already-defined type.
fn register_one(rt: &mut Runtime, name: &[u8], h: Handler, t: TypeId, Ghost(spec_name): Ghost<
    Seq<u8>,
>) -> (r: Result<(), VmError>)
    requires
        old(rt).wf(),
        old(rt).types_model().dom().contains(int_key(type_id_code_spec(t))),
        name@ == spec_name,
    ensures
        register_post(*old(rt), *final(rt), r, t, spec_name, h),
{
    let ghost rt0 = *old(rt);
    let res = rt.register_handler(name, h, t);
    proof {
        lemma_id_after_add(rt0.globals.idents, rt.globals.idents, spec_name);
        if res is Ok {
            assert(msg_bound(*rt, t, spec_name, h));
        }
    }
    match res {
        Ok(()) => Ok(()),
        Err(e) => Err(e),
    }
}

/// Installs an empty handler table for type `t` and checks the stage
/// bookkeeping.
fn define_one_type(rt: &mut Runtime, t: TypeId) -> (r: Result<(), VmError>)
    requires
        old(rt).wf(),
    ensures
        stage_frame(*old(rt), *final(rt)),
        final(rt).globals.idents == old(rt).globals.idents,
        match r {
            Ok(()) => {
                &&& final(rt).types_model().dom() == old(rt).types_model().dom().insert(
                    int_key(type_id_code_spec(t)),
                )
                &&& final(rt).handlers_model(int_key(type_id_code_spec(t))) == Map::<
                    u64,
                    u64,
                >::empty()
                &&& map_cap(
                    final(rt).heap,
                    handler_ptr(
                        final(rt).heap,
                        final(rt).globals.types.ptr,
                        int_key(type_id_code_spec(t)),
                    ) as int,
                ) == HANDLERS_CAPACITY
                &&& map_count(
                    final(rt).heap,
                    handler_ptr(
                        final(rt).heap,
                        final(rt).globals.types.ptr,
                        int_key(type_id_code_spec(t)),
                    ) as int,
                ) == 0
                &&& forall|tc2: u64|
                    old(rt).types_model().dom().contains(tc2) && tc2 != int_key(
                        type_id_code_spec(t),
                    ) ==> #[trigger] type_entry_preserved(*old(rt), *final(rt), tc2)
            },
            Err(e) => e == VmError::OutOfMemory,
        },
        (10 * map_count(old(rt).heap, old(rt).globals.types.ptr as int) <= 7 * map_cap(
            old(rt).heap,
            old(rt).globals.types.ptr as int,
        ) && round_up_align(old(rt).heap.cursor() as int) + 32 + 16 * HANDLERS_CAPACITY <= old(
            rt,
        ).heap.capacity()) ==> {
            &&& r is Ok
            &&& final(rt).globals.types.ptr == old(rt).globals.types.ptr
            &&& map_cap(final(rt).heap, final(rt).globals.types.ptr as int) == map_cap(
                old(rt).heap,
                old(rt).globals.types.ptr as int,
            )
            &&& map_count(final(rt).heap, final(rt).globals.types.ptr as int) <= map_count(
                old(rt).heap,
                old(rt).globals.types.ptr as int,
            ) + 1
            &&& final(rt).heap.cursor() == round_up_align(old(rt).heap.cursor() as int) + 32 + 16
                * HANDLERS_CAPACITY
        },
{
    let res = rt.define_type(t);
    proof {
        if res is Ok {
            // The fresh empty table holds no entries, so its count is zero.
            let tc = int_key(type_id_code_spec(t));
            assert(entry_ok(rt.heap, rt.globals.vars.ptr, rt.globals.types.ptr, tc));
            lemma_empty_model_count_zero(
                rt.heap,
                handler_ptr(rt.heap, rt.globals.types.ptr, tc),
            );
        }
    }
    match res {
        Ok(()) => Ok(()),
        Err(e) => Err(e),
    }
}

/// Defines the integer type and its arithmetic, comparison and display
/// messages.
#[verifier::rlimit(100)]
#[verifier::spinoff_prover]
pub fn define_int(rt: &mut Runtime) -> (r: Result<(), VmError>)
    requires
        old(rt).wf(),
    ensures
        stage_frame(*old(rt), *final(rt)),
        final(rt).globals.idents.view_names().len() <= old(
            rt,
        ).globals.idents.view_names().len() + 6,
        match r {
            Ok(()) => {
                &&& final(rt).types_model().dom() == old(rt).types_model().dom().insert(
                    int_key(type_id_code_spec(TypeId::Int)),
                )
                &&& msg_bound(*final(rt), TypeId::Int, plus_name(), Handler::IntAdd)
                &&& msg_bound(*final(rt), TypeId::Int, sumall_name(), Handler::IntSumAll)
                &&& msg_bound(*final(rt), TypeId::Int, display_name(), Handler::IntDisplay)
                &&& msg_bound(*final(rt), TypeId::Int, mul_name(), Handler::IntMul)
                &&& msg_bound(*final(rt), TypeId::Int, eq_name(), Handler::IntEq)
                &&& msg_bound(*final(rt), TypeId::Int, neq_name(), Handler::IntNeq)
                &&& forall|tc2: u64|
                    old(rt).types_model().dom().contains(tc2) && tc2 != int_key(
                        type_id_code_spec(TypeId::Int),
                    ) ==> #[trigger] type_entry_preserved(*old(rt), *final(rt), tc2)
            },
            Err(e) => e == VmError::OutOfMemory,
        },
        boot_room(*old(rt), 1, 6) ==> {
            &&& r is Ok
            &&& final(rt).heap.cursor() == round_up_align(old(rt).heap.cursor() as int) + 32 + 16
                * HANDLERS_CAPACITY
            &&& final(rt).globals.types.ptr == old(rt).globals.types.ptr
            &&& map_cap(final(rt).heap, final(rt).globals.types.ptr as int) == map_cap(
                old(rt).heap,
                old(rt).globals.types.ptr as int,
            )
            &&& map_count(final(rt).heap, final(rt).globals.types.ptr as int) <= map_count(
                old(rt).heap,
                old(rt).globals.types.ptr as int,
            ) + 1
        },
{
    let id = TypeId::Int;
    let ghost rt0 = *old(rt);
    match define_one_type(rt, id) {
        Ok(()) => {},
        Err(e) => {
            proof {
                if boot_room(rt0, 1, 6) {
                    assert(false);
                }
            }
            return Err(e);
        },
    }
    let ghost rt_d = *rt;
    match define_int_add(rt, id) {
        Ok(()) => {},
        Err(e) => {
            proof {
                if boot_room(rt0, 1, 6) {
                    assert(false);
                }
            }
            return Err(e);
        },
    }
    let ghost rt_a = *rt;
    match define_int_sumall(rt, id) {
        Ok(()) => {},
        Err(e) => {
            proof {
                lemma_chain_room(rt0, rt_d, rt_a, 1, 6);
                if boot_room(rt0, 1, 6) {
                    assert(false);
                }
            }
            return Err(e);
        },
    }
    let ghost rt_b = *rt;
    proof {
        lemma_msg_names_distinct();
        lemma_msg_bound_after_insert(
            rt_a,
            rt_b,
            id,
            plus_name(),
            Handler::IntAdd,
            sumall_name(),
            Handler::IntSumAll,
        );
    }
    match define_int_display(rt, id) {
        Ok(()) => {},
        Err(e) => {
            proof {
                lemma_chain_room(rt0, rt_d, rt_a, 2, 6);
                lemma_chain_room(rt0, rt_d, rt_b, 2, 6);
                if boot_room(rt0, 1, 6) {
                    assert(false);
                }
            }
            return Err(e);
        },
    }
    let ghost rt_c = *rt;
    proof {
        lemma_msg_names_distinct();
        lemma_msg_bound_after_insert(
            rt_b,
            rt_c,
            id,
            plus_name(),
            Handler::IntAdd,
            display_name(),
            Handler::IntDisplay,
        );
        lemma_msg_bound_after_insert(
            rt_b,
            rt_c,
            id,
            sumall_name(),
            Handler::IntSumAll,
            display_name(),
            Handler::IntDisplay,
        );
    }
    match define_int_mul(rt, id) {
        Ok(()) => {},
        Err(e) => {
            proof {
                if boot_room(rt0, 1, 6) {
                    assert(false);
                }
            }
            return Err(e);
        },
    }
    let ghost rt_e = *rt;
    proof {
        lemma_msg_names_distinct();
        lemma_msg_bound_after_insert(
            rt_c,
            rt_e,
            id,
            plus_name(),
            Handler::IntAdd,
            mul_name(),
            Handler::IntMul,
        );
        lemma_msg_bound_after_insert(
            rt_c,
            rt_e,
            id,
            sumall_name(),
            Handler::IntSumAll,
            mul_name(),
            Handler::IntMul,
        );
        lemma_msg_bound_after_insert(
            rt_c,
            rt_e,
            id,
            display_name(),
            Handler::IntDisplay,
            mul_name(),
            Handler::IntMul,
        );
    }
    match define_int_eq(rt, id) {
        Ok(()) => {},
        Err(e) => {
            proof {
                if boot_room(rt0, 1, 6) {
                    assert(false);
                }
            }
            return Err(e);
        },
    }
    let ghost rt_f = *rt;
    proof {
        lemma_msg_names_distinct();
        lemma_msg_bound_after_insert(
            rt_e,
            rt_f,
            id,
            plus_name(),
            Handler::IntAdd,
            eq_name(),
            Handler::IntEq,
        );
        lemma_msg_bound_after_insert(
            rt_e,
            rt_f,
            id,
            sumall_name(),
            Handler::IntSumAll,
            eq_name(),
            Handler::IntEq,
        );
        lemma_msg_bound_after_insert(
            rt_e,
            rt_f,
            id,
            display_name(),
            Handler::IntDisplay,
            eq_name(),
            Handler::IntEq,
        );
        lemma_msg_bound_after_insert(
            rt_e,
            rt_f,
            id,
            mul_name(),
            Handler::IntMul,
            eq_name(),
            Handler::IntEq,
        );
    }
    match define_int_neq(rt, id) {
        Ok(()) => {},
        Err(e) => {
            proof {
                if boot_room(rt0, 1, 6) {
                    assert(false);
                }
            }
            return Err(e);
        },
    }
    let ghost rt_g = *rt;
    proof {
        lemma_msg_names_distinct();
        lemma_msg_bound_after_insert(
            rt_f,
            rt_g,
            id,
            plus_name(),
            Handler::IntAdd,
            neq_name(),
            Handler::IntNeq,
        );
        lemma_msg_bound_after_insert(
            rt_f,
            rt_g,
            id,
            sumall_name(),
            Handler::IntSumAll,
            neq_name(),
            Handler::IntNeq,
        );
        lemma_msg_bound_after_insert(
            rt_f,
            rt_g,
            id,
            display_name(),
            Handler::IntDisplay,
            neq_name(),
            Handler::IntNeq,
        );
        lemma_msg_bound_after_insert(
            rt_f,
            rt_g,
            id,
            mul_name(),
            Handler::IntMul,
            neq_name(),
            Handler::IntNeq,
        );
        lemma_msg_bound_after_insert(
            rt_f,
            rt_g,
            id,
            eq_name(),
            Handler::IntEq,
            neq_name(),
            Handler::IntNeq,
        );
        let v = |x: Runtime| x.globals.idents.view_names();
        lemma_prefix_trans(v(rt0), v(rt_a), v(rt_b));
        lemma_prefix_trans(v(rt0), v(rt_b), v(rt_c));
        lemma_prefix_trans(v(rt0), v(rt_c), v(rt_e));
        lemma_prefix_trans(v(rt0), v(rt_e), v(rt_f));
        lemma_prefix_trans(v(rt0), v(rt_f), v(rt_g));
        let key = int_key(type_id_code_spec(TypeId::Int));
        assert forall|tc2: u64|
            rt0.types_model().dom().contains(tc2) && tc2 != key implies #[trigger] type_entry_preserved(
            rt0,
            rt_g,
            tc2,
        ) by {
            assert(type_entry_preserved(rt0, rt_d, tc2));
            assert(type_entry_preserved(rt_d, rt_a, tc2));
            assert(type_entry_preserved(rt_a, rt_b, tc2));
            assert(type_entry_preserved(rt_b, rt_c, tc2));
            assert(type_entry_preserved(rt_c, rt_e, tc2));
            assert(type_entry_preserved(rt_e, rt_f, tc2));
            assert(type_entry_preserved(rt_f, rt_g, tc2));
        }
    }
    Ok(())
}

/// Identifier-table growth bounds compose over two registration steps.
proof fn lemma_chain_room(rt0: Runtime, rt1: Runtime, rt2: Runtime, steps: int, total: int)
    requires
        rt1.globals.idents.view_names().len() <= rt0.globals.idents.view_names().len(),
        rt2.globals.idents.view_names().len() <= rt1.globals.idents.view_names().len() + steps,
        0 <= steps <= total,
    ensures
        rt2.globals.idents.view_names().len() <= rt0.globals.idents.view_names().len() + total,
{
}

fn define_int_add(rt: &mut Runtime, id: TypeId) -> (r: Result<(), VmError>)
    requires
        old(rt).wf(),
        old(rt).types_model().dom().contains(int_key(type_id_code_spec(id))),
    ensures
        register_post(*old(rt), *final(rt), r, id, plus_name(), Handler::IntAdd),
{
    let name: [u8; 1] = [43];  // "+"
    proof {
        assert(name@ =~= plus_name());
    }
    register_one(rt, name.as_slice(), Handler::IntAdd, id, Ghost(plus_name()))
}

fn define_int_eq(rt: &mut Runtime, id: TypeId) -> (r: Result<(), VmError>)
    requires
        old(rt).wf(),
        old(rt).types_model().dom().contains(int_key(type_id_code_spec(id))),
    ensures
        register_post(*old(rt), *final(rt), r, id, eq_name(), Handler::IntEq),
{
    let name: [u8; 2] = [61, 61];  // "=="
    proof {
        assert(name@ =~= eq_name());
    }
    register_one(rt, name.as_slice(), Handler::IntEq, id, Ghost(eq_name()))
}

fn define_int_neq(rt: &mut Runtime, id: TypeId) -> (r: Result<(), VmError>)
    requires
        old(rt).wf(),
        old(rt).types_model().dom().contains(int_key(type_id_code_spec(id))),
    ensures
        register_post(*old(rt), *final(rt), r, id, neq_name(), Handler::IntNeq),
{
    let name: [u8; 2] = [33, 61];  // "!="
    proof {
        assert(name@ =~= neq_name());
    }
    register_one(rt, name.as_slice(), Handler::IntNeq, id, Ghost(neq_name()))
}

fn define_int_sumall(rt: &mut Runtime, id: TypeId) -> (r: Result<(), VmError>)
    requires
        old(rt).wf(),
        old(rt).types_model().dom().contains(int_key(type_id_code_spec(id))),
    ensures
        register_post(*old(rt), *final(rt), r, id, sumall_name(), Handler::IntSumAll),
{
    let name: [u8; 6] = [43, 97, 108, 108, 111, 102];  // "+allof"
    proof {
        assert(name@ =~= sumall_name());
    }
    register_one(rt, name.as_slice(), Handler::IntSumAll, id, Ghost(sumall_name()))
}

fn define_int_mul(rt: &mut Runtime, id: TypeId) -> (r: Result<(), VmError>)
    requires
        old(rt).wf(),
        old(rt).types_model().dom().contains(int_key(type_id_code_spec(id))),
    ensures
        register_post(*old(rt), *final(rt), r, id, mul_name(), Handler::IntMul),
{
    let name: [u8; 1] = [42];  // "*"
    proof {
        assert(name@ =~= mul_name());
    }
    register_one(rt, name.as_slice(), Handler::IntMul, id, Ghost(mul_name()))
}

fn define_int_display(rt: &mut Runtime, id: TypeId) -> (r: Result<(), VmError>)
    requires
        old(rt).wf(),
        old(rt).types_model().dom().contains(int_key(type_id_code_spec(id))),
    ensures
        register_post(*old(rt), *final(rt), r, id, display_name(), Handler::IntDisplay),
{
    let name: [u8; 7] = [100, 105, 115, 112, 108, 97, 121];  // "display"
    proof {
        assert(name@ =~= display_name());
    }
    register_one(rt, name.as_slice(), Handler::IntDisplay, id, Ghost(display_name()))
}

/// Defines the compiled-block type and its invocation messages.
#[verifier::rlimit(100)]
#[verifier::spinoff_prover]
pub fn define_block(rt: &mut Runtime) -> (r: Result<(), VmError>)
    requires
        old(rt).wf(),
    ensures
        stage_frame(*old(rt), *final(rt)),
        final(rt).globals.idents.view_names().len() <= old(
            rt,
        ).globals.idents.view_names().len() + 2,
        match r {
            Ok(()) => {
                &&& final(rt).types_model().dom() == old(rt).types_model().dom().insert(
                    int_key(type_id_code_spec(TypeId::CompiledBytecode)),
                )
                &&& msg_bound(*final(rt), TypeId::CompiledBytecode, value_name(), Handler::BlockValue)
                &&& msg_bound(*final(rt), TypeId::CompiledBytecode, loop_name(), Handler::BlockLoop)
                &&& forall|tc2: u64|
                    old(rt).types_model().dom().contains(tc2) && tc2 != int_key(
                        type_id_code_spec(TypeId::CompiledBytecode),
                    ) ==> #[trigger] type_entry_preserved(*old(rt), *final(rt), tc2)
            },
            Err(e) => e == VmError::OutOfMemory,
        },
        boot_room(*old(rt), 1, 2) ==> {
            &&& r is Ok
            &&& final(rt).heap.cursor() == round_up_align(old(rt).heap.cursor() as int) + 32 + 16
                * HANDLERS_CAPACITY
            &&& final(rt).globals.types.ptr == old(rt).globals.types.ptr
            &&& map_cap(final(rt).heap, final(rt).globals.types.ptr as int) == map_cap(
                old(rt).heap,
                old(rt).globals.types.ptr as int,
            )
            &&& map_count(final(rt).heap, final(rt).globals.types.ptr as int) <= map_count(
                old(rt).heap,
                old(rt).globals.types.ptr as int,
            ) + 1
        },
{
    let ghost rt0 = *old(rt);
    let id = TypeId::CompiledBytecode;
    match define_one_type(rt, id) {
        Ok(()) => {},
        Err(e) => {
            proof {
                if boot_room(rt0, 1, 2) {
                    assert(false);
                }
            }
            return Err(e);
        },
    }
    let ghost rt_d = *rt;
    match define_block_run(rt, id) {
        Ok(()) => {},
        Err(e) => {
            proof {
                if boot_room(rt0, 1, 2) {
                    assert(false);
                }
            }
            return Err(e);
        },
    }
    let ghost rt_a = *rt;
    match define_block_loop(rt, id) {
        Ok(()) => {},
        Err(e) => {
            proof {
                if boot_room(rt0, 1, 2) {
                    assert(false);
                }
            }
            return Err(e);
        },
    }
    let ghost rt_b = *rt;
    proof {
        lemma_msg_names_distinct();
        lemma_msg_bound_after_insert(
            rt_a,
            rt_b,
            id,
            value_name(),
            Handler::BlockValue,
            loop_name(),
            Handler::BlockLoop,
        );
        let v = |x: Runtime| x.globals.idents.view_names();
        lemma_prefix_trans(v(rt0), v(rt_a), v(rt_b));
        let key = int_key(type_id_code_spec(id));
        assert forall|tc2: u64|
            rt0.types_model().dom().contains(tc2) && tc2 != key implies #[trigger] type_entry_preserved(
            rt0,
            rt_b,
            tc2,
        ) by {
            assert(type_entry_preserved(rt0, rt_d, tc2));
            assert(type_entry_preserved(rt_d, rt_a, tc2));
            assert(type_entry_preserved(rt_a, rt_b, tc2));
        }
    }
    Ok(())
}

fn define_block_run(rt: &mut Runtime, id: TypeId) -> (r: Result<(), VmError>)
    requires
        old(rt).wf(),
        old(rt).types_model().dom().contains(int_key(type_id_code_spec(id))),
    ensures
        register_post(*old(rt), *final(rt), r, id, value_name(), Handler::BlockValue),
{
    let name: [u8; 5] = [118, 97, 108, 117, 101];  // "value"
    proof {
        assert(name@ =~= value_name());
    }
    register_one(rt, name.as_slice(), Handler::BlockValue, id, Ghost(value_name()))
}

fn define_block_loop(rt: &mut Runtime, id: TypeId) -> (r: Result<(), VmError>)
    requires
        old(rt).wf(),
        old(rt).types_model().dom().contains(int_key(type_id_code_spec(id))),
    ensures
        register_post(*old(rt), *final(rt), r, id, loop_name(), Handler::BlockLoop),
{
    let name: [u8; 4] = [108, 111, 111, 112];  // "loop"
    proof {
        assert(name@ =~= loop_name());
    }
    register_one(rt, name.as_slice(), Handler::BlockLoop, id, Ghost(loop_name()))
}

/// Defines the two boolean types; each answers `ifTrue` with its own branch
/// behaviour, which is what makes conditionals ordinary messages.
#[verifier::rlimit(100)]
#[verifier::spinoff_prover]
pub fn define_bool(rt: &mut Runtime) -> (r: Result<(), VmError>)
    requires
        old(rt).wf(),
    ensures
        stage_frame(*old(rt), *final(rt)),
        final(rt).globals.idents.view_names().len() <= old(
            rt,
        ).globals.idents.view_names().len() + 2,
        match r {
            Ok(()) => {
                &&& final(rt).types_model().dom() == old(rt).types_model().dom().insert(
                    int_key(type_id_code_spec(TypeId::True)),
                ).insert(int_key(type_id_code_spec(TypeId::False)))
                &&& msg_bound(*final(rt), TypeId::True, if_true_name(), Handler::IfTrue(true))
                &&& msg_bound(*final(rt), TypeId::False, if_true_name(), Handler::IfTrue(false))
                &&& forall|tc2: u64|
                    old(rt).types_model().dom().contains(tc2) && tc2 != int_key(
                        type_id_code_spec(TypeId::True),
                    ) && tc2 != int_key(type_id_code_spec(TypeId::False))
                        ==> #[trigger] type_entry_preserved(*old(rt), *final(rt), tc2)
            },
            Err(e) => e == VmError::OutOfMemory,
        },
        boot_room(*old(rt), 2, 2) ==> {
            &&& r is Ok
            &&& final(rt).heap.cursor() == round_up_align(old(rt).heap.cursor() as int) + 2 * (32
                + 16 * HANDLERS_CAPACITY)
            &&& final(rt).globals.types.ptr == old(rt).globals.types.ptr
            &&& map_cap(final(rt).heap, final(rt).globals.types.ptr as int) == map_cap(
                old(rt).heap,
                old(rt).globals.types.ptr as int,
            )
            &&& map_count(final(rt).heap, final(rt).globals.types.ptr as int) <= map_count(
                old(rt).heap,
                old(rt).globals.types.ptr as int,
            ) + 2
        },
{
    let ghost rt0 = *old(rt);
    let ghost kt = int_key(type_id_code_spec(TypeId::True));
    let ghost kf = int_key(type_id_code_spec(TypeId::False));
    proof {
        lemma_int_key_injective(type_id_code_spec(TypeId::True), type_id_code_spec(TypeId::False));
    }
    match define_one_type(rt, TypeId::True) {
        Ok(()) => {},
        Err(e) => {
            proof {
                if boot_room(rt0, 2, 2) {
                    assert(false);
                }
            }
            return Err(e);
        },
    }
    let ghost rt_t = *rt;
    proof {
        if boot_room(rt0, 2, 2) {
            lemma_room_shift(rt0, rt_t, 2, 2, 1, 0);
        }
    }
    match define_one_type(rt, TypeId::False) {
        Ok(()) => {},
        Err(e) => {
            proof {
                if boot_room(rt0, 2, 2) {
                    assert(boot_room(rt_t, 1, 2));
                    assert(false);
                }
            }
            return Err(e);
        },
    }
    let ghost rt_f = *rt;
    proof {
        // The fresh True table survived the False definition and is still
        // empty, so registering on it has room.
        assert(type_entry_preserved(rt_t, rt_f, kt));
        assert(entry_ok(rt_f.heap, rt_f.globals.vars.ptr, rt_f.globals.types.ptr, kt));
        lemma_empty_model_count_zero(
            rt_f.heap,
            handler_ptr(rt_f.heap, rt_f.globals.types.ptr, kt),
        );
    }
    match define_if(rt, true) {
        Ok(()) => {},
        Err(e) => {
            proof {
                if boot_room(rt0, 2, 2) {
                    assert(false);
                }
            }
            return Err(e);
        },
    }
    let ghost rt_a = *rt;
    proof {
        // Likewise the False table across the True registration.
        assert(type_entry_preserved(rt_f, rt_a, kf));
        assert(entry_ok(rt_a.heap, rt_a.globals.vars.ptr, rt_a.globals.types.ptr, kf));
        lemma_empty_model_count_zero(
            rt_a.heap,
            handler_ptr(rt_a.heap, rt_a.globals.types.ptr, kf),
        );
    }
    match define_if(rt, false) {
        Ok(()) => {},
        Err(e) => {
            proof {
                if boot_room(rt0, 2, 2) {
                    assert(false);
                }
            }
            return Err(e);
        },
    }
    let ghost rt_b = *rt;
    proof {
        lemma_msg_bound_preserved(rt_a, rt_b, TypeId::True, if_true_name(), Handler::IfTrue(true));
        let v = |x: Runtime| x.globals.idents.view_names();
        lemma_prefix_trans(v(rt0), v(rt_a), v(rt_b));
        assert forall|tc2: u64|
            rt0.types_model().dom().contains(tc2) && tc2 != kt && tc2
                != kf implies #[trigger] type_entry_preserved(rt0, rt_b, tc2) by {
            assert(type_entry_preserved(rt0, rt_t, tc2));
            assert(type_entry_preserved(rt_t, rt_f, tc2));
            assert(type_entry_preserved(rt_f, rt_a, tc2));
            assert(type_entry_preserved(rt_a, rt_b, tc2));
        }
        if boot_room(rt0, 2, 2) {
            lemma_cursor_chain(
                rt0.heap.cursor() as int,
                rt_t.heap.cursor() as int,
                rt_f.heap.cursor() as int,
                1,
                1,
            );
        }
    }
    Ok(())
}

fn define_if(rt: &mut Runtime, receiver_true: bool) -> (r: Result<(), VmError>)
    requires
        old(rt).wf(),
        old(rt).types_model().dom().contains(
            int_key(
                type_id_code_spec(
                    if receiver_true {
                        TypeId::True
                    } else {
                        TypeId::False
                    },
                ),
            ),
        ),
    ensures
        register_post(
            *old(rt),
            *final(rt),
            r,
            if receiver_true {
                TypeId::True
            } else {
                TypeId::False
            },
            if_true_name(),
            Handler::IfTrue(receiver_true),
        ),
{
    let id = if receiver_true {
        TypeId::True
    } else {
        TypeId::False
    };
    let name: [u8; 6] = [105, 102, 84, 114, 117, 101];  // "ifTrue"
    proof {
        assert(name@ =~= if_true_name());
    }
    register_one(rt, name.as_slice(), Handler::IfTrue(receiver_true), id, Ghost(if_true_name()))
}

/// Defines the string type and its display messages.
#[verifier::rlimit(100)]
#[verifier::spinoff_prover]
pub fn define_string(rt: &mut Runtime) -> (r: Result<(), VmError>)
    requires
        old(rt).wf(),
    ensures
        stage_frame(*old(rt), *final(rt)),
        final(rt).globals.idents.view_names().len() <= old(
            rt,
        ).globals.idents.view_names().len() + 2,
        match r {
            Ok(()) => {
                &&& final(rt).types_model().dom() == old(rt).types_model().dom().insert(
                    int_key(type_id_code_spec(TypeId::String)),
                )
                &&& msg_bound(*final(rt), TypeId::String, display_name(), Handler::StringDisplay)
                &&& msg_bound(*final(rt), TypeId::String, output_name(), Handler::StringOutput)
                &&& forall|tc2: u64|
                    old(rt).types_model().dom().contains(tc2) && tc2 != int_key(
                        type_id_code_spec(TypeId::String),
                    ) ==> #[trigger] type_entry_preserved(*old(rt), *final(rt), tc2)
            },
            Err(e) => e == VmError::OutOfMemory,
        },
        boot_room(*old(rt), 1, 2) ==> {
            &&& r is Ok
            &&& final(rt).heap.cursor() == round_up_align(old(rt).heap.cursor() as int) + 32 + 16
                * HANDLERS_CAPACITY
            &&& final(rt).globals.types.ptr == old(rt).globals.types.ptr
            &&& map_cap(final(rt).heap, final(rt).globals.types.ptr as int) == map_cap(
                old(rt).heap,
                old(rt).globals.types.ptr as int,
            )
            &&& map_count(final(rt).heap, final(rt).globals.types.ptr as int) <= map_count(
                old(rt).heap,
                old(rt).globals.types.ptr as int,
            ) + 1
        },
{
    let ghost rt0 = *old(rt);
    let id = TypeId::String;
    match define_one_type(rt, id) {
        Ok(()) => {},
        Err(e) => {
            proof {
                if boot_room(rt0, 1, 2) {
                    assert(false);
                }
            }
            return Err(e);
        },
    }
    let ghost rt_d = *rt;
    match define_string_display(rt, id) {
        Ok(()) => {},
        Err(e) => {
            proof {
                if boot_room(rt0, 1, 2) {
                    assert(false);
                }
            }
            return Err(e);
        },
    }
    let ghost rt_a = *rt;
    match define_string_output(rt, id) {
        Ok(()) => {},
        Err(e) => {
            proof {
                if boot_room(rt0, 1, 2) {
                    assert(false);
                }
            }
            return Err(e);
        },
    }
    let ghost rt_b = *rt;
    proof {
        lemma_msg_names_distinct();
        lemma_msg_bound_after_insert(
            rt_a,
            rt_b,
            id,
            display_name(),
            Handler::StringDisplay,
            output_name(),
            Handler::StringOutput,
        );
        let v = |x: Runtime| x.globals.idents.view_names();
        lemma_prefix_trans(v(rt0), v(rt_a), v(rt_b));
        let key = int_key(type_id_code_spec(TypeId::String));
        assert forall|tc2: u64|
            rt0.types_model().dom().contains(tc2) && tc2 != key implies #[trigger] type_entry_preserved(
            rt0,
            rt_b,
            tc2,
        ) by {
            assert(type_entry_preserved(rt0, rt_d, tc2));
            assert(type_entry_preserved(rt_d, rt_a, tc2));
            assert(type_entry_preserved(rt_a, rt_b, tc2));
        }
    }
    Ok(())
}

fn define_string_display(rt: &mut Runtime, id: TypeId) -> (r: Result<(), VmError>)
    requires
        old(rt).wf(),
        old(rt).types_model().dom().contains(int_key(type_id_code_spec(id))),
    ensures
        register_post(*old(rt), *final(rt), r, id, display_name(), Handler::StringDisplay),
{
    let name: [u8; 7] = [100, 105, 115, 112, 108, 97, 121];  // "display"
    proof {
        assert(name@ =~= display_name());
    }
    register_one(rt, name.as_slice(), Handler::StringDisplay, id, Ghost(display_name()))
}

fn define_string_output(rt: &mut Runtime, id: TypeId) -> (r: Result<(), VmError>)
    requires
        old(rt).wf(),
        old(rt).types_model().dom().contains(int_key(type_id_code_spec(id))),
    ensures
        register_post(*old(rt), *final(rt), r, id, output_name(), Handler::StringOutput),
{
    let name: [u8; 2] = [62, 62];  // ">>"
    proof {
        assert(name@ =~= output_name());
    }
    register_one(rt, name.as_slice(), Handler::StringOutput, id, Ghost(output_name()))
}

/// Registers every built-in type: integers, blocks, booleans, strings.
#[verifier::rlimit(100)]
#[verifier::spinoff_prover]
pub fn define_std_types(rt: &mut Runtime) -> (r: Result<(), VmError>)
    requires
        old(rt).wf(),
    ensures
        stage_frame(*old(rt), *final(rt)),
        match r {
            Ok(()) => std_types_registered(*final(rt)),
            Err(e) => e == VmError::OutOfMemory,
        },
        boot_room(*old(rt), 5, 12) ==> r is Ok,
{
    let ghost rt0 = *old(rt);
    proof {
        lemma_type_keys_distinct();
    }
    match define_int(rt) {
        Ok(()) => {},
        Err(e) => {
            proof {
                if boot_room(rt0, 5, 12) {
                    assert(boot_room(rt0, 1, 6));
                    assert(false);
                }
            }
            return Err(e);
        },
    }
    let ghost rt1 = *rt;
    proof {
        if boot_room(rt0, 5, 12) {
            lemma_room_shift(rt0, rt1, 5, 12, 1, 6);
        }
    }
    match define_block(rt) {
        Ok(()) => {},
        Err(e) => {
            proof {
                if boot_room(rt0, 5, 12) {
                    assert(boot_room(rt1, 1, 2));
                    assert(false);
                }
            }
            return Err(e);
        },
    }
    let ghost rt2 = *rt;
    proof {
        if boot_room(rt0, 5, 12) {
            lemma_cursor_chain(
                rt0.heap.cursor() as int,
                rt1.heap.cursor() as int,
                rt2.heap.cursor() as int,
                1,
                1,
            );
            lemma_room_shift(rt0, rt2, 5, 12, 2, 8);
        }
        lemma_cross_stage(rt1, rt2, TypeId::Int, int_key(type_id_code_spec(TypeId::CompiledBytecode)));
    }
    match define_bool(rt) {
        Ok(()) => {},
        Err(e) => {
            proof {
                if boot_room(rt0, 5, 12) {
                    assert(boot_room(rt2, 2, 2));
                    assert(false);
                }
            }
            return Err(e);
        },
    }
    let ghost rt3 = *rt;
    proof {
        if boot_room(rt0, 5, 12) {
            lemma_cursor_chain(
                rt0.heap.cursor() as int,
                rt2.heap.cursor() as int,
                rt3.heap.cursor() as int,
                2,
                2,
            );
            lemma_room_shift(rt0, rt3, 5, 12, 4, 10);
        }
        lemma_cross_stage2(
            rt2,
            rt3,
            TypeId::Int,
            int_key(type_id_code_spec(TypeId::True)),
            int_key(type_id_code_spec(TypeId::False)),
        );
        lemma_cross_stage2(
            rt2,
            rt3,
            TypeId::CompiledBytecode,
            int_key(type_id_code_spec(TypeId::True)),
            int_key(type_id_code_spec(TypeId::False)),
        );
    }
    match define_string(rt) {
        Ok(()) => {},
        Err(e) => {
            proof {
                if boot_room(rt0, 5, 12) {
                    assert(boot_room(rt3, 1, 2));
                    assert(false);
                }
            }
            return Err(e);
        },
    }
    let ghost rt4 = *rt;
    proof {
        lemma_cross_stage(rt3, rt4, TypeId::Int, int_key(type_id_code_spec(TypeId::String)));
        lemma_cross_stage(
            rt3,
            rt4,
            TypeId::CompiledBytecode,
            int_key(type_id_code_spec(TypeId::String)),
        );
        lemma_cross_stage(rt3, rt4, TypeId::True, int_key(type_id_code_spec(TypeId::String)));
        lemma_cross_stage(rt3, rt4, TypeId::False, int_key(type_id_code_spec(TypeId::String)));
        let v = |x: Runtime| x.globals.idents.view_names();
        lemma_prefix_trans(v(rt0), v(rt1), v(rt2));
        lemma_prefix_trans(v(rt0), v(rt2), v(rt3));
        lemma_prefix_trans(v(rt0), v(rt3), v(rt4));
    }
    Ok(())
}

/// After some stages consumed their tables and names, room for the
/// remaining ones is still there.
proof fn lemma_room_shift(
    rt0: Runtime,
    rt1: Runtime,
    total_types: int,
    total_names: int,
    done_types: int,
    used_names: int,
)
    requires
        boot_room(rt0, total_types, total_names),
        0 < done_types <= total_types,
        0 <= used_names <= total_names,
        rt1.heap.capacity() == rt0.heap.capacity(),
        rt1.globals.types.ptr == rt0.globals.types.ptr,
        rt1.heap.cursor() == round_up_align(rt0.heap.cursor() as int) + done_types * (32 + 16
            * HANDLERS_CAPACITY),
        map_cap(rt1.heap, rt1.globals.types.ptr as int) == map_cap(
            rt0.heap,
            rt0.globals.types.ptr as int,
        ),
        map_count(rt1.heap, rt1.globals.types.ptr as int) <= map_count(
            rt0.heap,
            rt0.globals.types.ptr as int,
        ) + done_types,
        rt1.globals.idents.view_names().len() <= rt0.globals.idents.view_names().len()
            + used_names,
    ensures
        boot_room(rt1, total_types - done_types, total_names - used_names),
{
    crate::heap::lemma_round_up_bounds(rt0.heap.cursor() as int);
    assert(rt1.heap.cursor() as int % 16 == 0) by (nonlinear_arith)
        requires rt1.heap.cursor() == round_up_align(rt0.heap.cursor() as int) + done_types * 288,
            round_up_align(rt0.heap.cursor() as int) % 16 == 0;
    assert(round_up_align(rt1.heap.cursor() as int) == rt1.heap.cursor());
}

/// The five built-in types' registry keys are pairwise distinct.
proof fn lemma_type_keys_distinct()
    ensures
        int_key(type_id_code_spec(TypeId::Int)) != int_key(
            type_id_code_spec(TypeId::CompiledBytecode),
        ),
        int_key(type_id_code_spec(TypeId::Int)) != int_key(type_id_code_spec(TypeId::True)),
        int_key(type_id_code_spec(TypeId::Int)) != int_key(type_id_code_spec(TypeId::False)),
        int_key(type_id_code_spec(TypeId::Int)) != int_key(type_id_code_spec(TypeId::String)),
        int_key(type_id_code_spec(TypeId::CompiledBytecode)) != int_key(
            type_id_code_spec(TypeId::True),
        ),
        int_key(type_id_code_spec(TypeId::CompiledBytecode)) != int_key(
            type_id_code_spec(TypeId::False),
        ),
        int_key(type_id_code_spec(TypeId::CompiledBytecode)) != int_key(
            type_id_code_spec(TypeId::String),
        ),
        int_key(type_id_code_spec(TypeId::True)) != int_key(type_id_code_spec(TypeId::False)),
        int_key(type_id_code_spec(TypeId::True)) != int_key(type_id_code_spec(TypeId::String)),
        int_key(type_id_code_spec(TypeId::False)) != int_key(type_id_code_spec(TypeId::String)),
{
    lemma_int_key_injective(
        type_id_code_spec(TypeId::Int),
        type_id_code_spec(TypeId::CompiledBytecode),
    );
    lemma_int_key_injective(type_id_code_spec(TypeId::Int), type_id_code_spec(TypeId::True));
    lemma_int_key_injective(type_id_code_spec(TypeId::Int), type_id_code_spec(TypeId::False));
    lemma_int_key_injective(type_id_code_spec(TypeId::Int), type_id_code_spec(TypeId::String));
    lemma_int_key_injective(
        type_id_code_spec(TypeId::CompiledBytecode),
        type_id_code_spec(TypeId::True),
    );
    lemma_int_key_injective(
        type_id_code_spec(TypeId::CompiledBytecode),
        type_id_code_spec(TypeId::False),
    );
    lemma_int_key_injective(
        type_id_code_spec(TypeId::CompiledBytecode),
        type_id_code_spec(TypeId::String),
    );
    lemma_int_key_injective(type_id_code_spec(TypeId::True), type_id_code_spec(TypeId::False));
    lemma_int_key_injective(type_id_code_spec(TypeId::True), type_id_code_spec(TypeId::String));
    lemma_int_key_injective(type_id_code_spec(TypeId::False), type_id_code_spec(TypeId::String));
}

/// Aligned cursor advances compose across stages.
proof fn lemma_cursor_chain(c0: int, c1: int, c2: int, k1: int, k2: int)
    requires
        0 <= c0,
        c1 == round_up_align(c0) + k1 * (32 + 16 * HANDLERS_CAPACITY),
        c2 == round_up_align(c1) + k2 * (32 + 16 * HANDLERS_CAPACITY),
        k1 >= 1,
        k2 >= 1,
    ensures
        c2 == round_up_align(c0) + (k1 + k2) * (32 + 16 * HANDLERS_CAPACITY),
{
    crate::heap::lemma_round_up_bounds(c0);
    assert(c1 % 16 == 0) by (nonlinear_arith)
        requires c1 == round_up_align(c0) + k1 * 288, round_up_align(c0) % 16 == 0;
    assert(round_up_align(c1) == c1);
    assert(c2 == round_up_align(c0) + (k1 + k2) * 288) by (nonlinear_arith)
        requires c1 == round_up_align(c0) + k1 * 288, c2 == c1 + k2 * 288;
}

/// Bindings of type `t` survive a stage that added one other type.
proof fn lemma_cross_stage(rt1: Runtime, rt2: Runtime, t: TypeId, added: u64)
    requires
        rt1.wf(),
        rt2.wf(),
        rt1.globals.idents.view_names().is_prefix_of(rt2.globals.idents.view_names()),
        rt2.types_model().dom() == rt1.types_model().dom().insert(added),
        int_key(type_id_code_spec(t)) != added,
        forall|tc2: u64|
            rt1.types_model().dom().contains(tc2) && tc2 != added
                ==> #[trigger] type_entry_preserved(rt1, rt2, tc2),
    ensures
        forall|name: Seq<u8>, h: Handler|
            #[trigger] msg_bound(rt1, t, name, h) ==> msg_bound(rt2, t, name, h),
{
    assert forall|name: Seq<u8>, h: Handler| #[trigger] msg_bound(rt1, t, name, h) implies msg_bound(
        rt2,
        t,
        name,
        h,
    ) by {
        lemma_msg_bound_preserved(rt1, rt2, t, name, h);
    }
}

/// Bindings of type `t` survive a stage that added two other types.
proof fn lemma_cross_stage2(rt1: Runtime, rt2: Runtime, t: TypeId, added1: u64, added2: u64)
    requires
        rt1.wf(),
        rt2.wf(),
        rt1.globals.idents.view_names().is_prefix_of(rt2.globals.idents.view_names()),
        rt2.types_model().dom() == rt1.types_model().dom().insert(added1).insert(added2),
        int_key(type_id_code_spec(t)) != added1,
        int_key(type_id_code_spec(t)) != added2,
        forall|tc2: u64|
            rt1.types_model().dom().contains(tc2) && tc2 != added1 && tc2 != added2
                ==> #[trigger] type_entry_preserved(rt1, rt2, tc2),
    ensures
        forall|name: Seq<u8>, h: Handler|
            #[trigger] msg_bound(rt1, t, name, h) ==> msg_bound(rt2, t, name, h),
{
    assert forall|name: Seq<u8>, h: Handler| #[trigger] msg_bound(rt1, t, name, h) implies msg_bound(
        rt2,
        t,
        name,
        h,
    ) by {
        lemma_msg_bound_preserved(rt1, rt2, t, name, h);
    }
}

} // verus!
