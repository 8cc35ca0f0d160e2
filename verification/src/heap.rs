//! The arena heap: one contiguous buffer, a fixed capacity and a
//! monotonically increasing cursor.
//!
//! Offsets and sizes are in bytes; the buffer itself is held as 64-bit words
//! and every access goes through one pair of word accessors, so the layout is
//! defined exactly once.  Each allocation is preceded by a 16-byte header
//! (type-id code, then size), and the object body starts 16-byte aligned.
//! Nothing is ever freed or compacted: the cursor only grows, and a pointer
//! (a byte offset boxed into a value) stays valid for the heap's lifetime.

use vstd::arithmetic::div_mod::{
    lemma_div_is_ordered, lemma_div_multiples_vanish, lemma_fundamental_div_mod,
};
use vstd::prelude::*;

use crate::value::{type_id_code, type_id_code_spec, TypeId, LOW_MASK};

verus! {

/// Object bodies are aligned to this many bytes.
pub const ALIGN: u64 = 16;

/// Bytes of metadata written immediately before every object body.
pub const HEADER_SIZE: u64 = 16;

/// The largest capacity a heap may have: pointer payloads are 48 bits.
pub const MAX_CAPACITY: u64 = 0x0000_FFFF_FFFF_FFF8;

/// `c` rounded up to the next multiple of the body alignment.
pub open spec fn round_up_align(c: int) -> int {
    if c % 16 == 0 {
        c
    } else {
        c + 16 - c % 16
    }
}

/// Alignment rounding moves the cursor forward by at most fifteen bytes,
/// lands on a sixteen-byte boundary, and is monotonic.
pub proof fn lemma_round_up_bounds(c: int)
    requires
        0 <= c,
    ensures
        c <= round_up_align(c),
        round_up_align(c) <= c + 15,
        round_up_align(c) % 16 == 0,
{
    assert(c <= round_up_align(c) && round_up_align(c) <= c + 15 && round_up_align(c) % 16 == 0)
        by (nonlinear_arith)
        requires 0 <= c;
}

pub proof fn lemma_round_up_mono(x: int, y: int)
    requires
        0 <= x <= y,
    ensures
        round_up_align(x) <= round_up_align(y),
{
    assert(round_up_align(x) <= round_up_align(y)) by (nonlinear_arith)
        requires 0 <= x <= y;
}

/// The arena: `cap` bytes of word-addressed storage and a bump cursor.
pub struct Heap {
    mem: Vec<u64>,
    cap: u64,
    cursor: u64,
}

impl Heap {
    /// Total capacity in bytes (always a multiple of 8).
    pub closed spec fn capacity(self) -> u64 {
        self.cap
    }

    /// First byte offset that no allocation has reached yet.
    pub closed spec fn cursor(self) -> u64 {
        self.cursor
    }

    /// The storage as a sequence of 64-bit words.
    pub closed spec fn words(self) -> Seq<u64> {
        self.mem@
    }

    /// The word holding the bytes at offset `off` (which must be 8-aligned
    /// for the access to be meaningful).
    pub open spec fn word_at(self, off: int) -> u64 {
        self.words()[off / 8]
    }

    pub open spec fn wf(self) -> bool {
        &&& self.cursor() <= self.capacity()
        &&& self.capacity() <= MAX_CAPACITY
        &&& self.capacity() % 8 == 0
        &&& self.words().len() * 8 == self.capacity()
    }

    /// The type-id code in the header of the object whose body starts at `p`.
    pub open spec fn type_code_at(self, p: int) -> u64 {
        self.word_at(p - 16)
    }

    /// The size recorded in the header of the object whose body starts at `p`.
    pub open spec fn size_at(self, p: int) -> u64 {
        self.word_at(p - 8)
    }

    /// Builds a heap of (at least) `cap` bytes, all words zero, cursor at
    /// the start.
    pub fn new_with_capacity(cap: u64) -> (r: Self)
        requires
            cap <= MAX_CAPACITY,
        ensures
            r.wf(),
            r.cursor() == 0,
            cap <= r.capacity(),
            r.capacity() < cap + 8,
    {
        let words: u64 = (cap + 7) / 8;
        let mut mem: Vec<u64> = Vec::new();
        let mut i: u64 = 0;
        while i < words
            invariant
                i <= words,
                mem@.len() == i,
                words <= 0x2000_0000_0000u64,
            decreases words - i,
        {
            mem.push(0);
            i = i + 1;
        }
        proof {
            assert(words * 8 == ((cap + 7) / 8) * 8);
            assert(cap <= ((cap + 7) / 8) * 8 < cap + 8) by (nonlinear_arith);
            assert((((cap + 7) / 8) * 8) % 8 == 0) by (nonlinear_arith);
        }
        Self { mem, cap: words * 8, cursor: 0 }
    }

    /// Reads the word at byte offset `off`; callers must know the offset is
    /// aligned and within capacity.
    pub fn read_word(&self, off: u64) -> (r: u64)
        requires
            self.wf(),
            off % 8 == 0,
            off + 8 <= self.capacity(),
        ensures
            r == self.word_at(off as int),
    {
        let n: usize = self.mem.len();
        proof {
            lemma_word_index(off as int, n as int);
        }
        self.mem[(off / 8) as usize]
    }

    fn write_word(&mut self, off: u64, w: u64)
        requires
            old(self).wf(),
            off % 8 == 0,
            off + 8 <= old(self).capacity(),
        ensures
            final(self).wf(),
            final(self).capacity() == old(self).capacity(),
            final(self).cursor() == old(self).cursor(),
            final(self).words() == old(self).words().update(off as int / 8, w),
    {
        let n: usize = self.mem.len();
        proof {
            lemma_word_index(off as int, n as int);
        }
        self.mem[(off / 8) as usize] = w;
    }

    /// Bump-allocates `size` bytes tagged with `type_id`.
    ///
    /// On success the returned pointer is the 16-byte-aligned start of the
    /// body, the header behind it records the type and size, the cursor has
    /// advanced past the body, and no other word of the heap has changed.
    /// Returns `None` exactly when the allocation would push the cursor past
    /// the capacity, in which case the heap is left unchanged.
    pub fn allocate(&mut self, size: u64, type_id: TypeId) -> (r: Option<u64>)
        requires
            old(self).wf(),
        ensures
            final(self).wf(),
            final(self).capacity() == old(self).capacity(),
            r is Some <==> round_up_align(old(self).cursor() as int) + HEADER_SIZE + size
                <= old(self).capacity(),
            match r {
                Some(p) => alloc_post(*old(self), *final(self), p, size, type_id),
                None => *final(self) == *old(self),
            },
    {
        if size > self.cap {
            return None;
        }
        let rem = self.cursor % ALIGN;
        let padding = if rem == 0 { 0 } else { ALIGN - rem };
        let start = self.cursor + padding;
        let p = start + HEADER_SIZE;
        let new_cursor = p + size;
        if new_cursor > self.cap {
            return None;
        }
        proof {
            assert(start % 16 == 0 && start % 8 == 0 && p % 8 == 0 && p % 16 == 0) by {
                lemma_align_rounding(old(self).cursor() as int, start as int, p as int);
            }
        }
        self.write_word(start, type_id_code(type_id));
        self.write_word(start + 8, size);
        self.cursor = new_cursor;
        proof {
            let h0 = *old(self);
            let h1 = *self;
            assert(h1.words().len() == h0.words().len());
            assert((p - 16) / 8 != (p - 8) / 8) by {
                lemma_word_index_distinct(p as int);
            }
            assert(h1.word_at(p as int - 16) == type_id_code_spec(type_id)) by {
                lemma_word_index_distinct(p as int);
            }
        }
        Some(p)
    }

    /// Reads the type-id code of the object whose body starts at `p`,
    /// checking that `p` could be a pointer this heap handed out; `None` for
    /// offsets no allocation can have produced.
    pub fn type_code_of(&self, p: u64) -> (r: Option<u64>)
        requires
            self.wf(),
        ensures
            r is Some <==> p % 16 == 0 && HEADER_SIZE <= p && p <= self.cursor(),
            r is Some ==> r->Some_0 == self.type_code_at(p as int),
    {
        if p % 16 == 0 && p >= HEADER_SIZE && p <= self.cursor {
            Some(self.read_word(p - 16))
        } else {
            None
        }
    }

    /// Reads the word at byte offset `off`, if it lies inside the allocated
    /// part of the heap and is 8-aligned.
    pub fn load(&self, off: u64) -> (r: Option<u64>)
        requires
            self.wf(),
        ensures
            r is Some <==> off % 8 == 0 && off + 8 <= self.cursor(),
            r is Some ==> r->Some_0 == self.word_at(off as int),
    {
        if off % 8 == 0 && off <= self.cursor && self.cursor - off >= 8 {
            Some(self.read_word(off))
        } else {
            None
        }
    }

    /// Writes the word at byte offset `off`, which must lie inside the
    /// allocated part of the heap.
    pub fn store(&mut self, off: u64, w: u64)
        requires
            old(self).wf(),
            off % 8 == 0,
            off + 8 <= old(self).cursor(),
        ensures
            final(self).wf(),
            final(self).capacity() == old(self).capacity(),
            final(self).cursor() == old(self).cursor(),
            final(self).words() == old(self).words().update(off as int / 8, w),
    {
        self.write_word(off, w);
    }
}

impl Default for Heap {
    /// The capacity a runtime's heap gets when none is chosen explicitly.
    fn default() -> (r: Self)
        ensures
            r.wf(),
            r.cursor() == 0,
            r.capacity() == 32_000_000,
    {
        Self::new_with_capacity(32_000_000)
    }
}

/// Everything `alloc` guarantees about a successful allocation: placement,
/// alignment, header contents, cursor advance, and that every word outside
/// the two header words is untouched.
pub open spec fn alloc_post(h0: Heap, h1: Heap, p: u64, size: u64, type_id: TypeId) -> bool {
    &&& h1.capacity() == h0.capacity()
    &&& h1.words().len() == h0.words().len()
    &&& p == round_up_align(h0.cursor() as int) + HEADER_SIZE
    &&& p % 16 == 0
    &&& p <= LOW_MASK
    &&& h1.cursor() == p + size
    &&& h1.cursor() <= h1.capacity()
    &&& h1.type_code_at(p as int) == type_id_code_spec(type_id)
    &&& h1.size_at(p as int) == size
    &&& forall|w: int|
        0 <= w < h0.words().len() && w != (p - 16) / 8 && w != (p - 8) / 8
            ==> h1.words()[w] == h0.words()[w]
}

proof fn lemma_word_index(off: int, len: int)
    requires
        off % 8 == 0,
        0 <= off,
        off + 8 <= len * 8,
    ensures
        0 <= off / 8 < len,
        off == (off / 8) * 8,
{
    lemma_fundamental_div_mod(off, 8);
    assert(off + 8 <= len * 8 ==> off / 8 < len) by (nonlinear_arith)
        requires off % 8 == 0, 0 <= off, off == 8 * (off / 8) + off % 8;
}

proof fn lemma_word_index_distinct(p: int)
    requires
        p % 16 == 0,
        p >= 16,
    ensures
        (p - 16) / 8 + 1 == (p - 8) / 8,
        (p - 16) / 8 != (p - 8) / 8,
        (p - 16) % 8 == 0,
        (p - 8) % 8 == 0,
{
    assert(p % 16 == 0 && p >= 16 ==> (p - 16) % 8 == 0 && (p - 8) % 8 == 0
        && (p - 16) / 8 + 1 == (p - 8) / 8) by (nonlinear_arith);
}

proof fn lemma_align_rounding(c: int, start: int, p: int)
    requires
        0 <= c,
        start == round_up_align(c),
        p == start + 16,
    ensures
        start % 16 == 0,
        start % 8 == 0,
        p % 16 == 0,
        p % 8 == 0,
        start == c + (if c % 16 == 0 { 0int } else { 16 - c % 16 }),
{
    assert(start % 16 == 0) by (nonlinear_arith)
        requires 0 <= c, start == round_up_align(c);
    assert(start % 16 == 0 ==> start % 8 == 0 && (start + 16) % 16 == 0
        && (start + 16) % 8 == 0) by (nonlinear_arith);
}

/// Two allocations made one after the other occupy disjoint byte ranges, and
/// the first object's header (its type and size) survives the second
/// allocation untouched.
pub proof fn lemma_allocations_disjoint(
    h0: Heap,
    h1: Heap,
    h2: Heap,
    p1: u64,
    size1: u64,
    t1: TypeId,
    p2: u64,
    size2: u64,
    t2: TypeId,
)
    requires
        h0.wf(),
        alloc_post(h0, h1, p1, size1, t1),
        alloc_post(h1, h2, p2, size2, t2),
    ensures
        p1 + size1 <= p2,
        h2.type_code_at(p1 as int) == type_id_code_spec(t1),
        h2.size_at(p1 as int) == size1,
{
    assert(round_up_align(h1.cursor() as int) >= h1.cursor());
    assert((p1 - 16) / 8 < (p2 - 16) / 8 && (p1 - 8) / 8 < (p2 - 16) / 8) by {
        lemma_word_index_distinct(p1 as int);
        lemma_word_index_distinct(p2 as int);
        lemma_div_is_ordered(p1 as int - 8, p2 as int - 16, 8);
        assert(p1 - 8 <= p2 - 16);
        assert((p1 - 8) / 8 < (p1 - 8) / 8 + 1);
        assert((p2 - 16) / 8 >= (p1 - 8) / 8);
        assert((p1 - 8) % 8 == 0 && (p2 - 16) % 8 == 0 && p1 - 8 < p2 - 16
            ==> (p1 - 8) / 8 < (p2 - 16) / 8) by (nonlinear_arith);
    }
}

} // verus!
