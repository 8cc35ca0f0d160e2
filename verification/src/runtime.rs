//! The runtime: heap, operand stack, global-variable table and type
//! registry, with the registration API the standard library uses.
//!
//! The registry maps a type-id code (boxed as an integer value) to a
//! pointer value referencing that type's handler table, itself a `HeapMap`
//! of message id to handler code.  The well-formedness invariant keeps every
//! table valid and all their storages disjoint, so an operation on one table
//! never disturbs another.

use vstd::prelude::*;

use crate::bytecode::{handler_code, handler_code_spec, Handler, OpCode};
use crate::errors::VmError;
use crate::heap::{round_up_align, Heap};
use crate::heapmap::{
    heap_extended, insert_fits, lemma_map_framed, lemma_region_in_cursor, map_cap, map_count,
    map_model, preserved_outside, region_hi, region_lo, regions_disjoint, valid_map, HeapMap,
    MAX_SLOTS,
};
use crate::idents::IdentArena;
use crate::value::{type_id_code, type_id_code_spec, TypeId, Value, HIGH_MASK, INT, LOW_MASK, PTR};

verus! {

/// Slot count of the global-variable table at boot.
pub const VARS_CAPACITY: u64 = 4096;

/// Slot count of the type registry at boot.
pub const TYPES_CAPACITY: u64 = 64;

/// Slot count of each type's handler table at creation.
pub const HANDLERS_CAPACITY: u64 = 16;

pub struct Globals {
    pub idents: IdentArena,
    /// Identifier id -> bound value.
    pub vars: HeapMap,
    /// Type-id code -> pointer to that type's handler table.
    pub types: HeapMap,
}

pub struct Runtime {
    pub stack: Vec<Value>,
    pub code: Vec<OpCode>,
    pub pc: u64,
    pub heap: Heap,
    pub globals: Globals,
    /// Text the display handlers produce, for the embedder to flush.
    pub output: Vec<u8>,
}

/// The word under which a small integer is stored as a table key or value:
/// its boxed integer bit pattern.
pub open spec fn int_key(x: u64) -> u64 {
    INT | x
}

/// Distinct payloads box to distinct integer keys.
pub proof fn lemma_int_key_injective(a: u64, b: u64)
    requires
        a <= LOW_MASK,
        b <= LOW_MASK,
        a != b,
    ensures
        int_key(a) != int_key(b),
{
    assert(a <= 0x0000_FFFF_FFFF_FFFFu64 && b <= 0x0000_FFFF_FFFF_FFFFu64 && a != b
        ==> (0xFFFD_0000_0000_0000u64 | a) != (0xFFFD_0000_0000_0000u64 | b)) by (bit_vector);
}

/// The handler-table pointer the registry stores for type-id code `tc`.
pub open spec fn handler_ptr(h: Heap, pt: u64, tc: u64) -> u64 {
    map_model(h, pt as int)[tc] & LOW_MASK
}

/// A registry entry is a pointer value to a valid handler table whose
/// storage overlaps neither the variable table's nor the registry's.
pub open spec fn entry_ok(h: Heap, pv: u64, pt: u64, tc: u64) -> bool {
    &&& map_model(h, pt as int)[tc] & HIGH_MASK == PTR
    &&& valid_map(h, handler_ptr(h, pt, tc))
    &&& regions_disjoint(h, handler_ptr(h, pt, tc), pv)
    &&& regions_disjoint(h, handler_ptr(h, pt, tc), pt)
}

/// Defining a type succeeds exactly when the heap fits a fresh handler
/// table (its allocation header, two header words and sixteen slots), and
/// then the registry insert (which may itself have to grow).
pub open spec fn define_type_fits(h: Heap, pt: u64) -> bool {
    let c1 = round_up_align(h.cursor() as int) + 32 + 16 * HANDLERS_CAPACITY;
    &&& c1 <= h.capacity()
    &&& (10 * map_count(h, pt as int) <= 7 * map_cap(h, pt as int) || (2 * map_cap(h, pt as int)
        <= MAX_SLOTS && c1 + 32 + 32 * map_cap(h, pt as int) <= h.capacity()))
}

/// Registry entry `tc` resolves to the same handler table with the same
/// contents in both heaps (the registry possibly having moved).
pub open spec fn handler_entry_preserved(h0: Heap, h1: Heap, pt0: u64, pt1: u64, tc: u64) -> bool {
    &&& handler_ptr(h1, pt1, tc) == handler_ptr(h0, pt0, tc)
    &&& map_model(h1, handler_ptr(h0, pt0, tc) as int) == map_model(
        h0,
        handler_ptr(h0, pt0, tc) as int,
    )
}

/// Registry entry `tc` is untouched between two runtime states: same
/// stored pointer word, same handler-table contents.
pub open spec fn type_entry_preserved(rt0: Runtime, rt1: Runtime, tc: u64) -> bool {
    &&& rt1.types_model()[tc] == rt0.types_model()[tc]
    &&& rt1.handlers_model(tc) == rt0.handlers_model(tc)
}

/// All the runtime's tables are valid and pairwise disjoint.
pub open spec fn tables_wf(h: Heap, pv: u64, pt: u64) -> bool {
    &&& h.wf()
    &&& valid_map(h, pv)
    &&& valid_map(h, pt)
    &&& regions_disjoint(h, pv, pt)
    &&& forall|tc: u64|
        map_model(h, pt as int).dom().contains(tc) ==> #[trigger] entry_ok(h, pv, pt, tc)
    &&& forall|t1: u64, t2: u64|
        map_model(h, pt as int).dom().contains(t1) && map_model(h, pt as int).dom().contains(t2)
            && t1 != t2 ==> regions_disjoint(
            h,
            #[trigger] handler_ptr(h, pt, t1),
            #[trigger] handler_ptr(h, pt, t2),
        )
}

/// A table survives a heap change whose written words all lie in the hole
/// `[lo, hi)`, disjoint from the table's storage, or past the old cursor.
pub proof fn lemma_table_survives(h0: Heap, h1: Heap, p: u64, lo: int, hi: int)
    requires
        valid_map(h0, p),
        h1.wf(),
        h1.capacity() == h0.capacity(),
        h1.words().len() == h0.words().len(),
        h0.cursor() <= h1.cursor(),
        preserved_outside(h0, h1, lo, hi),
        hi <= region_lo(h0, p as int) || region_hi(h0, p as int) <= lo,
    ensures
        valid_map(h1, p),
        map_cap(h1, p as int) == map_cap(h0, p as int),
        map_count(h1, p as int) == map_count(h0, p as int),
        map_model(h1, p as int) == map_model(h0, p as int),
        region_lo(h1, p as int) == region_lo(h0, p as int),
        region_hi(h1, p as int) == region_hi(h0, p as int),
{
    lemma_region_in_cursor(h0, p);
    assert forall|w: int|
        region_lo(h0, p as int) <= w < region_hi(h0, p as int) implies h1.words()[w]
        == h0.words()[w] by {
        assert(8 * w + 8 <= 8 * region_hi(h0, p as int));
    }
    lemma_map_framed(h0, h1, p);
}

/// All tables survive an operation that rewrote only the variable table
/// (possibly moving it to a fresh region), and the registry and every
/// handler table keep their contents.
pub proof fn lemma_tables_after_vars_op(h0: Heap, h1: Heap, pv0: u64, pv1: u64, pt: u64)
    requires
        tables_wf(h0, pv0, pt),
        h1.wf(),
        h1.capacity() == h0.capacity(),
        h1.words().len() == h0.words().len(),
        h0.cursor() <= h1.cursor(),
        valid_map(h1, pv1),
        preserved_outside(h0, h1, region_lo(h0, pv0 as int), region_hi(h0, pv0 as int)),
        pv1 == pv0 || pv1 as int - 16 >= h0.cursor(),
        pv1 == pv0 ==> map_cap(h1, pv1 as int) == map_cap(h0, pv0 as int),
    ensures
        tables_wf(h1, pv1, pt),
        map_model(h1, pt as int) == map_model(h0, pt as int),
        forall|tc: u64|
            map_model(h0, pt as int).dom().contains(tc)
                ==> #[trigger] handler_entry_preserved(h0, h1, pt, pt, tc),
{
    let hole_lo = region_lo(h0, pv0 as int);
    let hole_hi = region_hi(h0, pv0 as int);
    lemma_region_in_cursor(h0, pv0);
    lemma_region_in_cursor(h1, pv1);
    lemma_table_survives(h0, h1, pt, hole_lo, hole_hi);
    assert forall|tc: u64| map_model(h0, pt as int).dom().contains(tc) implies {
        &&& #[trigger] handler_entry_preserved(h0, h1, pt, pt, tc)
        &&& valid_map(h1, handler_ptr(h0, pt, tc))
        &&& region_lo(h1, handler_ptr(h0, pt, tc) as int) == region_lo(
            h0,
            handler_ptr(h0, pt, tc) as int,
        )
        &&& region_hi(h1, handler_ptr(h0, pt, tc) as int) == region_hi(
            h0,
            handler_ptr(h0, pt, tc) as int,
        )
    } by {
        assert(entry_ok(h0, pv0, pt, tc));
        lemma_table_survives(h0, h1, handler_ptr(h0, pt, tc), hole_lo, hole_hi);
    }
    // The (possibly moved) variable table is disjoint from everything else.
    assert forall|tc: u64| map_model(h1, pt as int).dom().contains(tc) implies #[trigger] entry_ok(
        h1,
        pv1,
        pt,
        tc,
    ) by {
        assert(entry_ok(h0, pv0, pt, tc));
        assert(handler_entry_preserved(h0, h1, pt, pt, tc));
        let hp = handler_ptr(h0, pt, tc);
        lemma_region_in_cursor(h0, hp);
        if pv1 != pv0 {
            assert(8 * region_lo(h1, pv1 as int) == pv1 - 16);
        }
    }
    assert forall|t1: u64, t2: u64|
        map_model(h1, pt as int).dom().contains(t1) && map_model(h1, pt as int).dom().contains(t2)
            && t1 != t2 implies regions_disjoint(
        h1,
        #[trigger] handler_ptr(h1, pt, t1),
        #[trigger] handler_ptr(h1, pt, t2),
    ) by {
        assert(entry_ok(h0, pv0, pt, t1));
        assert(entry_ok(h0, pv0, pt, t2));
        assert(handler_entry_preserved(h0, h1, pt, pt, t1));
        assert(handler_entry_preserved(h0, h1, pt, pt, t2));
        assert(regions_disjoint(h0, handler_ptr(h0, pt, t1), handler_ptr(h0, pt, t2)));
    }
    assert(regions_disjoint(h1, pv1, pt)) by {
        if pv1 != pv0 {
            assert(8 * region_lo(h1, pv1 as int) == pv1 - 16);
        }
    }
}

impl Runtime {
    pub open spec fn wf(self) -> bool {
        &&& self.globals.idents.wf()
        &&& tables_wf(self.heap, self.globals.vars.ptr, self.globals.types.ptr)
    }

    /// The global-variable bindings: identifier id to value bits.
    pub open spec fn vars_model(self) -> Map<u64, u64> {
        map_model(self.heap, self.globals.vars.ptr as int)
    }

    /// The registry: type-id code to handler-table pointer value.
    pub open spec fn types_model(self) -> Map<u64, u64> {
        map_model(self.heap, self.globals.types.ptr as int)
    }

    /// The handler table stored under registry key `tc` (a boxed type-id
    /// code): boxed message id to boxed handler code.
    pub open spec fn handlers_model(self, tc: u64) -> Map<u64, u64> {
        map_model(self.heap, handler_ptr(self.heap, self.globals.types.ptr, tc) as int)
    }

    /// A fresh runtime: heap at the default capacity, empty tables, and the
    /// standard types registered.
    pub fn new() -> (r: Self)
        ensures
            r.wf(),
            r.stack@.len() == 0,
            r.code@.len() == 0,
            r.output@.len() == 0,
            r.pc == 0,
            r.vars_model() == Map::<u64, u64>::empty(),
            crate::stdlib::std_types_registered(r),
    {
        let mut heap = Heap::default();
        proof {
            crate::heapmap::lemma_small_pow2();
        }
        let vars = match HeapMap::new(&mut heap, VARS_CAPACITY) {
            Some(m) => m,
            None => {
                proof {
                    assert(false);
                }
                HeapMap::from_ptr(16)
            },
        };
        let ghost h1 = heap;
        let types = match HeapMap::new(&mut heap, TYPES_CAPACITY) {
            Some(m) => m,
            None => {
                proof {
                    assert(false);
                }
                HeapMap::from_ptr(16)
            },
        };
        let ghost h2 = heap;
        proof {
            lemma_region_in_cursor(h1, vars.ptr);
            lemma_table_survives(h1, h2, vars.ptr, 0, 0);
            lemma_region_in_cursor(h2, vars.ptr);
            lemma_region_in_cursor(h2, types.ptr);
            assert(8 * region_lo(h2, types.ptr as int) == types.ptr - 16);
            assert(regions_disjoint(h2, vars.ptr, types.ptr));
        }
        let mut rt = Runtime {
            stack: Vec::new(),
            code: Vec::new(),
            pc: 0,
            heap,
            globals: Globals { idents: IdentArena::new(), vars, types },
            output: Vec::new(),
        };
        proof {
            assert(rt.types_model() =~= Map::<u64, u64>::empty());
            assert(rt.vars_model() =~= Map::<u64, u64>::empty());
            assert(rt.wf());
            // The fresh runtime has ample room for the whole boot
            // registration: five handler tables, twelve names, an empty
            // registry of sixty-four slots.
            crate::heapmap::lemma_empty_model_count_zero(rt.heap, rt.globals.types.ptr);
            assert(rt.heap.cursor() as int % 16 == 0) by (nonlinear_arith)
                requires rt.heap.cursor() == 66624;
            assert(crate::stdlib::boot_room(rt, 5, 12));
        }
        let ghost rt_boot = rt;
        match crate::stdlib::define_std_types(&mut rt) {
            Ok(()) => {},
            Err(_) => {
                proof {
                    assert(false);
                }
            },
        }
        rt
    }

    pub fn push_stack(&mut self, v: Value)
        ensures
            final(self).stack@ == old(self).stack@.push(v),
            unchanged_but_stack(*old(self), *final(self)),
    {
        self.stack.push(v);
    }

    pub fn pop_stack(&mut self) -> (r: Value)
        requires
            old(self).stack@.len() > 0,
        ensures
            r == old(self).stack@.last(),
            final(self).stack@ == old(self).stack@.drop_last(),
            unchanged_but_stack(*old(self), *final(self)),
    {
        let r = self.stack.pop().unwrap();
        proof {
            assert(final(self).stack@ =~= old(self).stack@.drop_last());
        }
        r
    }

    pub fn peek(&self) -> (r: &Value)
        requires
            self.stack@.len() > 0,
        ensures
            *r == self.stack@.last(),
    {
        &self.stack[self.stack.len() - 1]
    }

    /// The stack slot `n` below the top (0 is the top itself).
    pub fn peek_at(&self, n: u64) -> (r: Value)
        requires
            n < self.stack@.len(),
        ensures
            r == self.stack@[self.stack@.len() - 1 - n],
    {
        let len = self.stack.len();
        self.stack[len - 1 - (n as usize)]
    }

    pub fn push_op(&mut self, op: OpCode)
        ensures
            final(self).code@ == old(self).code@.push(op),
            final(self).stack == old(self).stack,
            final(self).heap == old(self).heap,
            final(self).globals == old(self).globals,
            final(self).output == old(self).output,
            final(self).pc == old(self).pc,
    {
        self.code.push(op);
    }

    /// Installs an empty handler table for `id` in the type registry; must
    /// be called before any message is sent to a value of that type.
    pub fn define_type(&mut self, id: TypeId) -> (r: Result<(), VmError>)
        requires
            old(self).wf(),
        ensures
            final(self).wf(),
            final(self).stack == old(self).stack,
            final(self).code == old(self).code,
            final(self).output == old(self).output,
            final(self).globals.idents == old(self).globals.idents,
            final(self).heap.capacity() == old(self).heap.capacity(),
            final(self).pc == old(self).pc,
            r is Ok <==> define_type_fits(old(self).heap, old(self).globals.types.ptr),
            match r {
                Ok(()) => {
                    &&& final(self).types_model().dom() == old(self).types_model().dom().insert(
                        int_key(type_id_code_spec(id)),
                    )
                    &&& final(self).handlers_model(int_key(type_id_code_spec(id))) == Map::<
                        u64,
                        u64,
                    >::empty()
                    &&& map_cap(
                        final(self).heap,
                        handler_ptr(
                            final(self).heap,
                            final(self).globals.types.ptr,
                            int_key(type_id_code_spec(id)),
                        ) as int,
                    ) == HANDLERS_CAPACITY
                    &&& (10 * map_count(old(self).heap, old(self).globals.types.ptr as int) <= 7
                        * map_cap(old(self).heap, old(self).globals.types.ptr as int) ==> {
                        &&& final(self).globals.types.ptr == old(self).globals.types.ptr
                        &&& map_cap(final(self).heap, final(self).globals.types.ptr as int)
                            == map_cap(old(self).heap, old(self).globals.types.ptr as int)
                        &&& map_count(final(self).heap, final(self).globals.types.ptr as int)
                            <= map_count(old(self).heap, old(self).globals.types.ptr as int) + 1
                        &&& final(self).heap.cursor() == round_up_align(
                            old(self).heap.cursor() as int,
                        ) + 32 + 16 * HANDLERS_CAPACITY
                    })
                    &&& forall|tc: u64|
                        old(self).types_model().dom().contains(tc) && tc != int_key(
                            type_id_code_spec(id),
                        ) ==> #[trigger] type_entry_preserved(*old(self), *final(self), tc)
                    &&& final(self).vars_model() == old(self).vars_model()
                },
                Err(e) => {
                    &&& e == VmError::OutOfMemory
                    &&& final(self).types_model() == old(self).types_model()
                    &&& final(self).vars_model() == old(self).vars_model()
                    &&& forall|tc: u64|
                        old(self).types_model().dom().contains(tc)
                            ==> #[trigger] type_entry_preserved(*old(self), *final(self), tc)
                },
            },
    {
        let ghost h0 = self.heap;
        let ghost pv0 = self.globals.vars.ptr;
        let ghost pt0 = self.globals.types.ptr;
        proof {
            crate::heapmap::lemma_small_pow2();
        }
        let table = match HeapMap::new(&mut self.heap, HANDLERS_CAPACITY) {
            Some(m) => m,
            None => {
                proof {
                    assert forall|tc: u64|
                        old(self).types_model().dom().contains(tc) implies #[trigger] type_entry_preserved(
                        *old(self),
                        *self,
                        tc,
                    ) by {}
                }
                return Err(VmError::OutOfMemory);
            },
        };
        let ghost h1 = self.heap;
        proof {
            lemma_tables_extended_all(h0, h1, pv0, pt0);
        }
        let key = Value::from_uint(type_id_code(id));
        let ptr_val = Value::from_ptr(table.ptr);
        let res = self.globals.types.insert(&mut self.heap, key, ptr_val);
        let ghost h2 = self.heap;
        let ghost pt2 = self.globals.types.ptr;
        match res {
            Ok(()) => {
                proof {
                    lemma_define_type_ok(h0, h1, h2, pv0, pt0, pt2, table.ptr, id);
                    assert forall|tc: u64|
                        old(self).types_model().dom().contains(tc) && tc != int_key(
                            type_id_code_spec(id),
                        ) implies #[trigger] type_entry_preserved(*old(self), *self, tc) by {
                        assert(handler_entry_preserved(h0, h2, pt0, pt2, tc));
                    }
                }
                Ok(())
            },
            Err(e) => {
                proof {
                    assert(h2 == h1);
                    assert forall|tc: u64|
                        old(self).types_model().dom().contains(tc) implies #[trigger] type_entry_preserved(
                        *old(self),
                        *self,
                        tc,
                    ) by {
                        assert(handler_entry_preserved(h0, h1, pt0, pt0, tc));
                    }
                }
                Err(VmError::OutOfMemory)
            },
        }
    }

    /// Interns `name` and records `handler` under it in `type_id`'s handler
    /// table; the type must have been defined.  If the handler table had to
    /// grow, its fresh pointer is re-installed in the registry.
    pub fn register_handler(&mut self, name: &[u8], handler: Handler, type_id: TypeId) -> (r:
        Result<(), VmError>)
        requires
            old(self).wf(),
            old(self).types_model().dom().contains(int_key(type_id_code_spec(type_id))),
        ensures
            final(self).wf(),
            final(self).stack == old(self).stack,
            final(self).code == old(self).code,
            final(self).output == old(self).output,
            final(self).globals.idents.view_names() == if old(self).globals.idents.contains_name(
                name@,
            ) {
                old(self).globals.idents.view_names()
            } else {
                old(self).globals.idents.view_names().push(name@)
            },
            final(self).vars_model() == old(self).vars_model(),
            final(self).types_model().dom() == old(self).types_model().dom(),
            final(self).heap.capacity() == old(self).heap.capacity(),
            final(self).pc == old(self).pc,
            // Success is owed whenever the type's handler table has room
            // without growing and identifier ids are in payload range.
            ({
                let hp = handler_ptr(
                    old(self).heap,
                    old(self).globals.types.ptr,
                    int_key(type_id_code_spec(type_id)),
                );
                10 * map_count(old(self).heap, hp as int) <= 7 * map_cap(old(self).heap, hp as int)
                    && old(self).globals.idents.view_names().len() < LOW_MASK
            }) ==> {
                let hp = handler_ptr(
                    old(self).heap,
                    old(self).globals.types.ptr,
                    int_key(type_id_code_spec(type_id)),
                );
                &&& r is Ok
                &&& final(self).heap.cursor() == old(self).heap.cursor()
                &&& final(self).globals.types == old(self).globals.types
                &&& final(self).types_model() == old(self).types_model()
                &&& map_cap(final(self).heap, old(self).globals.types.ptr as int) == map_cap(
                    old(self).heap,
                    old(self).globals.types.ptr as int,
                )
                &&& map_count(final(self).heap, old(self).globals.types.ptr as int) == map_count(
                    old(self).heap,
                    old(self).globals.types.ptr as int,
                )
                &&& map_cap(final(self).heap, hp as int) == map_cap(old(self).heap, hp as int)
                &&& map_count(final(self).heap, hp as int) <= map_count(old(self).heap, hp as int)
                    + 1
            },
            match r {
                Ok(()) => {
                    &&& old(self).globals.idents.spec_id_of(name@) <= LOW_MASK
                    &&& final(self).handlers_model(int_key(type_id_code_spec(type_id))) == old(
                        self,
                    ).handlers_model(int_key(type_id_code_spec(type_id))).insert(
                        int_key(old(self).globals.idents.spec_id_of(name@) as u64),
                        int_key(handler_code_spec(handler)),
                    )
                    &&& forall|tc: u64|
                        old(self).types_model().dom().contains(tc) && tc != int_key(
                            type_id_code_spec(type_id),
                        ) ==> #[trigger] type_entry_preserved(*old(self), *final(self), tc)
                },
                Err(e) => {
                    &&& e == VmError::OutOfMemory
                    &&& forall|tc: u64|
                        old(self).types_model().dom().contains(tc)
                            ==> #[trigger] type_entry_preserved(*old(self), *final(self), tc)
                },
            },
    {
        let id = self.globals.idents.add(name) as u64;
        if id > LOW_MASK {
            // More interned names than a value payload can index; treated
            // as resource exhaustion (unreachable before memory runs out).
            proof {
                assert forall|tc: u64|
                    old(self).types_model().dom().contains(tc) implies #[trigger] type_entry_preserved(
                    *old(self),
                    *self,
                    tc,
                ) by {}
            }
            return Err(VmError::OutOfMemory);
        }
        let ghost h0 = self.heap;
        let ghost pv0 = self.globals.vars.ptr;
        let ghost pt0 = self.globals.types.ptr;
        let ghost tc = int_key(type_id_code_spec(type_id));
        let key = Value::from_uint(type_id_code(type_id));
        let ty_val = match self.globals.types.get(&self.heap, &key) {
            Some(v) => v,
            None => {
                proof {
                    assert(false);
                }
                return Err(VmError::OutOfMemory);
            },
        };
        proof {
            assert(entry_ok(h0, pv0, pt0, tc));
        }
        let hptr = ty_val.as_ptr();
        let mut table = HeapMap::from_ptr(hptr);
        let res = table.insert(&mut self.heap, Value::from_uint(id), Value::from_uint(
            handler_code(handler),
        ));
        let ghost h1 = self.heap;
        match res {
            Ok(()) => {},
            Err(e) => {
                proof {
                    assert(h1 == h0);
                    assert forall|t2: u64|
                        old(self).types_model().dom().contains(t2) implies #[trigger] type_entry_preserved(
                        *old(self),
                        *self,
                        t2,
                    ) by {}
                }
                return Err(VmError::OutOfMemory);
            },
        }
        proof {
            lemma_tables_after_handler_op(h0, h1, pv0, pt0, tc, hptr, table.ptr);
        }
        if table.ptr != hptr {
            // The table moved; refresh the registry so future dispatches
            // see the grown table.
            let res2 = self.globals.types.insert(
                &mut self.heap,
                key,
                Value::from_ptr(table.ptr),
            );
            let ghost h2 = self.heap;
            let ghost pt2 = self.globals.types.ptr;
            match res2 {
                Ok(()) => {
                    proof {
                        lemma_registry_refresh(h0, h1, h2, pv0, pt0, pt2, tc, hptr, table.ptr);
                        assert forall|t2: u64|
                            old(self).types_model().dom().contains(t2) && t2 != tc
                                implies #[trigger] type_entry_preserved(*old(self), *self, t2) by {
                            assert(handler_entry_preserved(h0, h2, pt0, pt2, t2));
                        }
                        assert(self.handlers_model(tc) =~= old(self).handlers_model(tc).insert(
                            int_key(id),
                            int_key(handler_code_spec(handler)),
                        ));
                    }
                },
                Err(e) => {
                    // The grown table is unreachable; the registry still
                    // points at the old, unchanged copy.
                    proof {
                        assert(h2 == h1);
                        assert forall|t2: u64|
                            old(self).types_model().dom().contains(t2) implies #[trigger] type_entry_preserved(
                            *old(self),
                            *self,
                            t2,
                        ) by {
                            if t2 != tc {
                                assert(handler_entry_preserved(h0, h1, pt0, pt0, t2));
                            } else {
                                assert(handler_ptr(h1, pt0, tc) == hptr);
                                assert(map_model(h1, hptr as int) == map_model(h0, hptr as int));
                            }
                        }
                    }
                    return Err(VmError::OutOfMemory);
                },
            }
        } else {
            proof {
                assert forall|t2: u64|
                    old(self).types_model().dom().contains(t2) && t2 != tc
                        implies #[trigger] type_entry_preserved(*old(self), *self, t2) by {
                    assert(handler_entry_preserved(h0, h1, pt0, pt0, t2));
                }
                assert(handler_ptr(h1, pt0, tc) == hptr);
                assert(self.handlers_model(tc) =~= old(self).handlers_model(tc).insert(
                    int_key(id),
                    int_key(handler_code_spec(handler)),
                ));
            }
        }
        Ok(())
    }
}

impl Default for Runtime {
    /// Boots exactly as `new` does: the default heap capacity, empty
    /// tables, and the standard types registered.
    fn default() -> (r: Self)
        ensures
            r.wf(),
            r.stack@.len() == 0,
            r.code@.len() == 0,
            r.output@.len() == 0,
            r.pc == 0,
            r.vars_model() == Map::<u64, u64>::empty(),
            crate::stdlib::std_types_registered(r),
    {
        Self::new()
    }
}

/// Everything except the operand stack is unchanged.
pub open spec fn unchanged_but_stack(rt0: Runtime, rt1: Runtime) -> bool {
    &&& rt1.code == rt0.code
    &&& rt1.pc == rt0.pc
    &&& rt1.heap == rt0.heap
    &&& rt1.globals == rt0.globals
    &&& rt1.output == rt0.output
}

/// Growth of the heap beyond its old cursor leaves every table intact.
pub proof fn lemma_tables_extended_all(h0: Heap, h1: Heap, pv: u64, pt: u64)
    requires
        tables_wf(h0, pv, pt),
        h1.wf(),
        h1.capacity() == h0.capacity(),
        h1.words().len() == h0.words().len(),
        heap_extended(h0, h1),
    ensures
        tables_wf(h1, pv, pt),
        map_model(h1, pv as int) == map_model(h0, pv as int),
        map_model(h1, pt as int) == map_model(h0, pt as int),
        map_cap(h1, pt as int) == map_cap(h0, pt as int),
        map_count(h1, pt as int) == map_count(h0, pt as int),
        forall|tc: u64|
            map_model(h0, pt as int).dom().contains(tc)
                ==> #[trigger] handler_entry_preserved(h0, h1, pt, pt, tc),
{
    lemma_region_in_cursor(h0, pv);
    lemma_table_survives(h0, h1, pv, 0, 0);
    lemma_region_in_cursor(h0, pt);
    lemma_table_survives(h0, h1, pt, 0, 0);
    assert forall|tc: u64| map_model(h0, pt as int).dom().contains(tc) implies {
        &&& #[trigger] handler_entry_preserved(h0, h1, pt, pt, tc)
        &&& valid_map(h1, handler_ptr(h0, pt, tc))
        &&& region_lo(h1, handler_ptr(h0, pt, tc) as int) == region_lo(
            h0,
            handler_ptr(h0, pt, tc) as int,
        )
        &&& region_hi(h1, handler_ptr(h0, pt, tc) as int) == region_hi(
            h0,
            handler_ptr(h0, pt, tc) as int,
        )
    } by {
        assert(entry_ok(h0, pv, pt, tc));
        lemma_region_in_cursor(h0, handler_ptr(h0, pt, tc));
        lemma_table_survives(h0, h1, handler_ptr(h0, pt, tc), 0, 0);
    }
    assert forall|tc: u64| map_model(h1, pt as int).dom().contains(tc) implies #[trigger] entry_ok(
        h1,
        pv,
        pt,
        tc,
    ) by {
        assert(entry_ok(h0, pv, pt, tc));
        assert(handler_entry_preserved(h0, h1, pt, pt, tc));
    }
    assert forall|t1: u64, t2: u64|
        map_model(h1, pt as int).dom().contains(t1) && map_model(h1, pt as int).dom().contains(t2)
            && t1 != t2 implies regions_disjoint(
        h1,
        #[trigger] handler_ptr(h1, pt, t1),
        #[trigger] handler_ptr(h1, pt, t2),
    ) by {
        assert(entry_ok(h0, pv, pt, t1));
        assert(entry_ok(h0, pv, pt, t2));
        assert(handler_entry_preserved(h0, h1, pt, pt, t1));
        assert(handler_entry_preserved(h0, h1, pt, pt, t2));
        assert(regions_disjoint(h0, handler_ptr(h0, pt, t1), handler_ptr(h0, pt, t2)));
    }
}

/// All tables survive an operation that rewrote only the handler table of
/// `tc0` (possibly moving it to a fresh region past the old cursor).
/// The registry still stores the old pointer for `tc0`; the old copy of a
/// moved table is untouched and keeps its old contents.
proof fn lemma_tables_after_handler_op(
    h0: Heap,
    h1: Heap,
    pv: u64,
    pt: u64,
    tc0: u64,
    hp0: u64,
    hp1: u64,
)
    requires
        tables_wf(h0, pv, pt),
        map_model(h0, pt as int).dom().contains(tc0),
        hp0 == handler_ptr(h0, pt, tc0),
        h1.wf(),
        h1.capacity() == h0.capacity(),
        h1.words().len() == h0.words().len(),
        h0.cursor() <= h1.cursor(),
        valid_map(h1, hp1),
        preserved_outside(h0, h1, region_lo(h0, hp0 as int), region_hi(h0, hp0 as int)),
        hp1 == hp0 || hp1 as int - 16 >= h0.cursor(),
        hp1 == hp0 ==> map_cap(h1, hp1 as int) == map_cap(h0, hp0 as int),
        hp1 != hp0 ==> heap_extended(h0, h1),
    ensures
        tables_wf(h1, pv, pt),
        map_model(h1, pv as int) == map_model(h0, pv as int),
        map_model(h1, pt as int) == map_model(h0, pt as int),
        map_cap(h1, pt as int) == map_cap(h0, pt as int),
        map_count(h1, pt as int) == map_count(h0, pt as int),
        forall|tc: u64|
            map_model(h0, pt as int).dom().contains(tc) && tc != tc0
                ==> #[trigger] handler_entry_preserved(h0, h1, pt, pt, tc),
        hp1 != hp0 ==> map_model(h1, hp0 as int) == map_model(h0, hp0 as int),
        regions_disjoint(h1, hp1, pv),
        regions_disjoint(h1, hp1, pt),
        forall|tc: u64|
            map_model(h0, pt as int).dom().contains(tc) && tc != tc0 ==> #[trigger] regions_disjoint(
                h1,
                hp1,
                handler_ptr(h0, pt, tc),
            ),
        hp1 + 16 + 16 * map_cap(h1, hp1 as int) <= h1.cursor(),
{
    let hole_lo = region_lo(h0, hp0 as int);
    let hole_hi = region_hi(h0, hp0 as int);
    assert(entry_ok(h0, pv, pt, tc0));
    lemma_region_in_cursor(h0, hp0);
    lemma_region_in_cursor(h1, hp1);
    lemma_table_survives(h0, h1, pv, hole_lo, hole_hi);
    lemma_table_survives(h0, h1, pt, hole_lo, hole_hi);
    if hp1 != hp0 {
        lemma_table_survives(h0, h1, hp0, 0, 0);
        assert(8 * region_lo(h1, hp1 as int) == hp1 - 16);
    }
    assert forall|tc: u64|
        map_model(h0, pt as int).dom().contains(tc) && tc != tc0 implies {
        &&& #[trigger] handler_entry_preserved(h0, h1, pt, pt, tc)
        &&& valid_map(h1, handler_ptr(h0, pt, tc))
        &&& region_lo(h1, handler_ptr(h0, pt, tc) as int) == region_lo(
            h0,
            handler_ptr(h0, pt, tc) as int,
        )
        &&& region_hi(h1, handler_ptr(h0, pt, tc) as int) == region_hi(
            h0,
            handler_ptr(h0, pt, tc) as int,
        )
        &&& regions_disjoint(h1, hp1, handler_ptr(h0, pt, tc))
    } by {
        assert(entry_ok(h0, pv, pt, tc));
        let hp = handler_ptr(h0, pt, tc);
        lemma_region_in_cursor(h0, hp);
        lemma_table_survives(h0, h1, hp, hole_lo, hole_hi);
        if hp1 != hp0 {
            assert(8 * region_hi(h0, hp as int) <= h0.cursor());
        } else {
            assert(regions_disjoint(h0, handler_ptr(h0, pt, tc0), handler_ptr(h0, pt, tc)));
            assert(region_lo(h1, hp1 as int) == region_lo(h0, hp0 as int));
            assert(region_hi(h1, hp1 as int) == region_hi(h0, hp0 as int));
        }
    }
    assert forall|tc: u64|
        map_model(h0, pt as int).dom().contains(tc) && tc != tc0 implies #[trigger] regions_disjoint(
        h1,
        hp1,
        handler_ptr(h0, pt, tc),
    ) by {
        assert(handler_entry_preserved(h0, h1, pt, pt, tc));
    }
    assert(regions_disjoint(h1, hp1, pv) && regions_disjoint(h1, hp1, pt)) by {
        if hp1 != hp0 {
            lemma_region_in_cursor(h0, pv);
            lemma_region_in_cursor(h0, pt);
        } else {
            assert(region_lo(h1, hp1 as int) == region_lo(h0, hp0 as int));
            assert(region_hi(h1, hp1 as int) == region_hi(h0, hp0 as int));
        }
    }
    assert forall|tc: u64| map_model(h1, pt as int).dom().contains(tc) implies #[trigger] entry_ok(
        h1,
        pv,
        pt,
        tc,
    ) by {
        assert(entry_ok(h0, pv, pt, tc));
        if tc != tc0 {
            assert(handler_entry_preserved(h0, h1, pt, pt, tc));
        }
        if tc == tc0 && hp1 != hp0 {
            // The registry still stores hp0; the old copy is intact.
            assert(valid_map(h1, hp0));
        }
    }
    assert forall|t1: u64, t2: u64|
        map_model(h1, pt as int).dom().contains(t1) && map_model(h1, pt as int).dom().contains(
            t2,
        ) && t1 != t2 implies regions_disjoint(
        h1,
        #[trigger] handler_ptr(h1, pt, t1),
        #[trigger] handler_ptr(h1, pt, t2),
    ) by {
        assert(entry_ok(h0, pv, pt, t1));
        assert(entry_ok(h0, pv, pt, t2));
        if t1 != tc0 {
            assert(handler_entry_preserved(h0, h1, pt, pt, t1));
        }
        if t2 != tc0 {
            assert(handler_entry_preserved(h0, h1, pt, pt, t2));
        }
        assert(regions_disjoint(h0, handler_ptr(h0, pt, t1), handler_ptr(h0, pt, t2)));
        if hp1 != hp0 {
            lemma_region_in_cursor(h0, handler_ptr(h0, pt, t1));
            lemma_region_in_cursor(h0, handler_ptr(h0, pt, t2));
        }
    }
    assert(tables_wf(h1, pv, pt));
}

/// After a successful registration of a fresh handler table for `id`: the
/// registry gained (or overwrote) the entry, everything else is intact.
proof fn lemma_define_type_ok(
    h0: Heap,
    h1: Heap,
    h2: Heap,
    pv: u64,
    pt0: u64,
    pt2: u64,
    table_ptr: u64,
    id: TypeId,
)
    requires
        tables_wf(h0, pv, pt0),
        // After the fresh table was allocated:
        tables_wf(h1, pv, pt0),
        h1.capacity() == h0.capacity(),
        h1.words().len() == h0.words().len(),
        heap_extended(h0, h1),
        map_model(h1, pv as int) == map_model(h0, pv as int),
        map_model(h1, pt0 as int) == map_model(h0, pt0 as int),
        forall|tc: u64|
            map_model(h0, pt0 as int).dom().contains(tc)
                ==> #[trigger] handler_entry_preserved(h0, h1, pt0, pt0, tc),
        valid_map(h1, table_ptr),
        map_model(h1, table_ptr as int) == Map::<u64, u64>::empty(),
        table_ptr as int - 16 >= h0.cursor(),
        table_ptr + 16 + 16 * map_cap(h1, table_ptr as int) == h1.cursor(),
        // After the registry insert:
        h2.wf(),
        h2.capacity() == h1.capacity(),
        h2.words().len() == h1.words().len(),
        h1.cursor() <= h2.cursor(),
        valid_map(h2, pt2),
        map_model(h2, pt2 as int) == map_model(h1, pt0 as int).insert(
            int_key(type_id_code_spec(id)),
            PTR | table_ptr,
        ),
        preserved_outside(h1, h2, region_lo(h1, pt0 as int), region_hi(h1, pt0 as int)),
        pt2 == pt0 || pt2 as int - 16 >= h1.cursor(),
        pt2 == pt0 ==> map_cap(h2, pt2 as int) == map_cap(h1, pt0 as int),
        table_ptr <= LOW_MASK,
    ensures
        tables_wf(h2, pv, pt2),
        map_model(h2, pv as int) == map_model(h0, pv as int),
        map_model(h2, pt2 as int).dom() == map_model(h0, pt0 as int).dom().insert(
            int_key(type_id_code_spec(id)),
        ),
        handler_ptr(h2, pt2, int_key(type_id_code_spec(id))) == table_ptr,
        map_model(h2, table_ptr as int) == Map::<u64, u64>::empty(),
        forall|tc: u64|
            map_model(h0, pt0 as int).dom().contains(tc) && tc != int_key(type_id_code_spec(id))
                ==> #[trigger] handler_entry_preserved(h0, h2, pt0, pt2, tc) && map_model(
                h2,
                pt2 as int,
            )[tc] == map_model(h0, pt0 as int)[tc],
{
    let tcode = int_key(type_id_code_spec(id));
    let hole_lo = region_lo(h1, pt0 as int);
    let hole_hi = region_hi(h1, pt0 as int);
    lemma_region_in_cursor(h1, pt0);
    lemma_region_in_cursor(h1, table_ptr);
    lemma_region_in_cursor(h2, pt2);
    lemma_table_survives(h1, h2, pv, hole_lo, hole_hi);
    lemma_table_survives(h1, h2, table_ptr, hole_lo, hole_hi);
    assert((PTR | table_ptr) & HIGH_MASK == PTR && (PTR | table_ptr) & LOW_MASK == table_ptr) by {
        assert(table_ptr <= 0x0000_FFFF_FFFF_FFFFu64 ==> (0xFFFC_0000_0000_0000u64 | table_ptr)
            & 0xFFFF_0000_0000_0000u64 == 0xFFFC_0000_0000_0000u64 && (0xFFFC_0000_0000_0000u64
            | table_ptr) & 0x0000_FFFF_FFFF_FFFFu64 == table_ptr) by (bit_vector);
    }
    assert(handler_ptr(h2, pt2, tcode) == table_ptr);
    assert forall|tc: u64|
        map_model(h0, pt0 as int).dom().contains(tc) && tc != tcode implies #[trigger] handler_ptr(
        h2,
        pt2,
        tc,
    ) == handler_ptr(h0, pt0, tc) && map_model(h2, handler_ptr(h0, pt0, tc) as int) == map_model(
        h0,
        handler_ptr(h0, pt0, tc) as int,
    ) && valid_map(h2, handler_ptr(h0, pt0, tc)) && region_lo(h2, handler_ptr(h0, pt0, tc) as int)
        == region_lo(h0, handler_ptr(h0, pt0, tc) as int) && region_hi(
        h2,
        handler_ptr(h0, pt0, tc) as int,
    ) == region_hi(h0, handler_ptr(h0, pt0, tc) as int) by {
        assert(entry_ok(h0, pv, pt0, tc));
        let hp = handler_ptr(h0, pt0, tc);
        lemma_region_in_cursor(h0, hp);
        lemma_table_survives(h0, h1, hp, 0, 0);
        lemma_table_survives(h1, h2, hp, hole_lo, hole_hi);
    }
    assert forall|tc: u64| map_model(h2, pt2 as int).dom().contains(tc) implies #[trigger] entry_ok(
        h2,
        pv,
        pt2,
        tc,
    ) by {
        if tc == tcode {
            assert(8 * region_lo(h1, table_ptr as int) == table_ptr - 16);
            assert(8 * region_hi(h0, pv as int) <= h0.cursor()) by {
                lemma_region_in_cursor(h0, pv);
            }
            if pt2 != pt0 {
                assert(8 * region_lo(h2, pt2 as int) == pt2 - 16);
            }
        } else {
            assert(entry_ok(h0, pv, pt0, tc));
            assert(8 * region_hi(h0, handler_ptr(h0, pt0, tc) as int) <= h0.cursor()) by {
                lemma_region_in_cursor(h0, handler_ptr(h0, pt0, tc));
            }
            if pt2 != pt0 {
                assert(8 * region_lo(h2, pt2 as int) == pt2 - 16);
            }
        }
    }
    assert(regions_disjoint(h2, pv, pt2)) by {
        lemma_region_in_cursor(h0, pv);
        if pt2 != pt0 {
            assert(8 * region_lo(h2, pt2 as int) == pt2 - 16);
        }
    }
    assert forall|t1: u64, t2: u64|
        map_model(h2, pt2 as int).dom().contains(t1) && map_model(h2, pt2 as int).dom().contains(
            t2,
        ) && t1 != t2 implies regions_disjoint(
        h2,
        #[trigger] handler_ptr(h2, pt2, t1),
        #[trigger] handler_ptr(h2, pt2, t2),
    ) by {
        if t1 != tcode && t2 != tcode {
            assert(entry_ok(h0, pv, pt0, t1));
            assert(entry_ok(h0, pv, pt0, t2));
        } else {
            let other = if t1 == tcode {
                t2
            } else {
                t1
            };
            assert(entry_ok(h0, pv, pt0, other));
            lemma_region_in_cursor(h0, handler_ptr(h0, pt0, other));
            assert(8 * region_lo(h1, table_ptr as int) == table_ptr - 16);
        }
    }
    assert(tables_wf(h2, pv, pt2));
    assert(map_model(h2, pt2 as int).dom() =~= map_model(h0, pt0 as int).dom().insert(tcode));
}

/// After re-installing a moved handler table's pointer in the registry:
/// everything is intact and `tc0` now resolves to the new table.
proof fn lemma_registry_refresh(
    h0: Heap,
    h1: Heap,
    h2: Heap,
    pv: u64,
    pt0: u64,
    pt2: u64,
    tc0: u64,
    hp0: u64,
    hp1: u64,
)
    requires
        tables_wf(h0, pv, pt0),
        map_model(h0, pt0 as int).dom().contains(tc0),
        hp0 == handler_ptr(h0, pt0, tc0),
        // After the handler-table operation:
        tables_wf(h1, pv, pt0),
        h1.capacity() == h0.capacity(),
        h1.words().len() == h0.words().len(),
        h0.cursor() <= h1.cursor(),
        map_model(h1, pv as int) == map_model(h0, pv as int),
        map_model(h1, pt0 as int) == map_model(h0, pt0 as int),
        valid_map(h1, hp1),
        hp1 as int - 16 >= h0.cursor(),
        hp1 + 16 + 16 * map_cap(h1, hp1 as int) <= h1.cursor(),
        regions_disjoint(h1, hp1, pv),
        regions_disjoint(h1, hp1, pt0),
        forall|tc: u64|
            map_model(h0, pt0 as int).dom().contains(tc) && tc != tc0 ==> #[trigger] regions_disjoint(
                h1,
                hp1,
                handler_ptr(h0, pt0, tc),
            ),
        forall|tc: u64|
            map_model(h0, pt0 as int).dom().contains(tc) && tc != tc0
                ==> #[trigger] handler_entry_preserved(h0, h1, pt0, pt0, tc),
        // After the registry insert:
        h2.wf(),
        h2.capacity() == h1.capacity(),
        h2.words().len() == h1.words().len(),
        h1.cursor() <= h2.cursor(),
        valid_map(h2, pt2),
        map_model(h2, pt2 as int) == map_model(h1, pt0 as int).insert(tc0, PTR | hp1),
        preserved_outside(h1, h2, region_lo(h1, pt0 as int), region_hi(h1, pt0 as int)),
        pt2 == pt0 || pt2 as int - 16 >= h1.cursor(),
        pt2 == pt0 ==> map_cap(h2, pt2 as int) == map_cap(h1, pt0 as int),
        hp1 <= LOW_MASK,
    ensures
        tables_wf(h2, pv, pt2),
        map_model(h2, pv as int) == map_model(h0, pv as int),
        map_model(h2, pt2 as int).dom() == map_model(h0, pt0 as int).dom(),
        handler_ptr(h2, pt2, tc0) == hp1,
        map_model(h2, hp1 as int) == map_model(h1, hp1 as int),
        forall|tc: u64|
            map_model(h0, pt0 as int).dom().contains(tc) && tc != tc0
                ==> #[trigger] handler_entry_preserved(h0, h2, pt0, pt2, tc),
{
    let hole_lo = region_lo(h1, pt0 as int);
    let hole_hi = region_hi(h1, pt0 as int);
    lemma_region_in_cursor(h1, pt0);
    lemma_region_in_cursor(h1, hp1);
    lemma_region_in_cursor(h2, pt2);
    lemma_region_in_cursor(h1, pv);
    lemma_table_survives(h1, h2, pv, hole_lo, hole_hi);
    lemma_table_survives(h1, h2, hp1, hole_lo, hole_hi);
    assert((PTR | hp1) & HIGH_MASK == PTR && (PTR | hp1) & LOW_MASK == hp1) by {
        assert(hp1 <= 0x0000_FFFF_FFFF_FFFFu64 ==> (0xFFFC_0000_0000_0000u64 | hp1)
            & 0xFFFF_0000_0000_0000u64 == 0xFFFC_0000_0000_0000u64 && (0xFFFC_0000_0000_0000u64
            | hp1) & 0x0000_FFFF_FFFF_FFFFu64 == hp1) by (bit_vector);
    }
    assert(handler_ptr(h2, pt2, tc0) == hp1);
    assert forall|tc: u64|
        map_model(h0, pt0 as int).dom().contains(tc) && tc != tc0 implies {
        &&& #[trigger] handler_entry_preserved(h0, h2, pt0, pt2, tc)
        &&& valid_map(h2, handler_ptr(h0, pt0, tc))
        &&& region_lo(h2, handler_ptr(h0, pt0, tc) as int) == region_lo(
            h1,
            handler_ptr(h0, pt0, tc) as int,
        )
        &&& region_hi(h2, handler_ptr(h0, pt0, tc) as int) == region_hi(
            h1,
            handler_ptr(h0, pt0, tc) as int,
        )
    } by {
        assert(handler_entry_preserved(h0, h1, pt0, pt0, tc));
        assert(entry_ok(h1, pv, pt0, tc));
        let hp = handler_ptr(h0, pt0, tc);
        lemma_region_in_cursor(h1, hp);
        lemma_table_survives(h1, h2, hp, hole_lo, hole_hi);
    }
    assert forall|tc: u64| map_model(h2, pt2 as int).dom().contains(tc) implies #[trigger] entry_ok(
        h2,
        pv,
        pt2,
        tc,
    ) by {
        assert(entry_ok(h1, pv, pt0, tc));
        if tc != tc0 {
            assert(handler_entry_preserved(h0, h1, pt0, pt0, tc));
            assert(handler_entry_preserved(h0, h2, pt0, pt2, tc));
        }
        if pt2 != pt0 {
            assert(8 * region_lo(h2, pt2 as int) == pt2 - 16);
            lemma_region_in_cursor(h1, handler_ptr(h1, pt0, tc));
        }
        if tc == tc0 {
            assert(regions_disjoint(h1, hp1, pv));
            assert(region_lo(h2, hp1 as int) == region_lo(h1, hp1 as int));
            assert(region_hi(h2, hp1 as int) == region_hi(h1, hp1 as int));
            if pt2 == pt0 {
                assert(regions_disjoint(h1, hp1, pt0));
                assert(region_lo(h2, pt2 as int) == region_lo(h1, pt0 as int));
                assert(region_hi(h2, pt2 as int) == region_hi(h1, pt0 as int)) by {
                    assert(map_cap(h2, pt2 as int) == map_cap(h1, pt0 as int));
                }
            } else {
                assert(8 * region_hi(h1, hp1 as int) <= h1.cursor());
                assert(8 * region_lo(h2, pt2 as int) == pt2 - 16);
            }
        }
    }
    assert(regions_disjoint(h2, pv, pt2)) by {
        if pt2 != pt0 {
            assert(8 * region_lo(h2, pt2 as int) == pt2 - 16);
            assert(8 * region_hi(h1, pv as int) <= h1.cursor());
        } else {
            assert(region_lo(h2, pt2 as int) == region_lo(h1, pt0 as int));
            assert(region_hi(h2, pt2 as int) == region_hi(h1, pt0 as int)) by {
                assert(map_cap(h2, pt2 as int) == map_cap(h1, pt0 as int));
            }
        }
    }
    assert forall|t1: u64, t2: u64|
        map_model(h2, pt2 as int).dom().contains(t1) && map_model(h2, pt2 as int).dom().contains(
            t2,
        ) && t1 != t2 implies regions_disjoint(
        h2,
        #[trigger] handler_ptr(h2, pt2, t1),
        #[trigger] handler_ptr(h2, pt2, t2),
    ) by {
        assert(entry_ok(h1, pv, pt0, t1));
        assert(entry_ok(h1, pv, pt0, t2));
        if t1 != tc0 {
            assert(handler_entry_preserved(h0, h1, pt0, pt0, t1));
            assert(handler_entry_preserved(h0, h2, pt0, pt2, t1));
        }
        if t2 != tc0 {
            assert(handler_entry_preserved(h0, h1, pt0, pt0, t2));
            assert(handler_entry_preserved(h0, h2, pt0, pt2, t2));
        }
        if t1 != tc0 && t2 != tc0 {
            assert(regions_disjoint(h1, handler_ptr(h1, pt0, t1), handler_ptr(h1, pt0, t2)));
            lemma_region_in_cursor(h1, handler_ptr(h1, pt0, t1));
            lemma_region_in_cursor(h1, handler_ptr(h1, pt0, t2));
        } else {
            let other = if t1 == tc0 {
                t2
            } else {
                t1
            };
            assert(handler_entry_preserved(h0, h1, pt0, pt0, other));
            assert(handler_ptr(h1, pt0, other) == handler_ptr(h0, pt0, other));
            assert(regions_disjoint(h1, hp1, handler_ptr(h0, pt0, other)));
            lemma_region_in_cursor(h1, handler_ptr(h0, pt0, other));
            assert(region_lo(h2, hp1 as int) == region_lo(h1, hp1 as int));
            assert(region_hi(h2, hp1 as int) == region_hi(h1, hp1 as int));
        }
    }
    assert(tables_wf(h2, pv, pt2));
    assert(map_model(h2, pt2 as int).dom() =~= map_model(h0, pt0 as int).dom());
}

} // verus!
