//! The 64-bit tagged value representation ("NaN-boxing").
//!
//! A [`Value`] is one 64-bit word.  Every bit pattern below the first
//! reserved tag is an IEEE-754 double (floats are handled as their raw bit
//! patterns here, so that the encoding is pure integer logic); the reserved
//! top-16-bit tags select pointers, integers, and the three singleton
//! constants false, true and nil.  All tag regions are actual NaN patterns,
//! and every NaN produced by float construction is canonicalized to one fixed
//! pattern, so the categories never collide.

use vstd::prelude::*;

use crate::ast::Literal;
use crate::errors::VmError;
use crate::heap::{round_up_align, Heap};

verus! {

/// Exponent field of an IEEE-754 double: a pattern is a NaN iff all these
/// bits are set and the fraction is non-zero.
pub const NAN_MASK: u64 = 0x7FF0_0000_0000_0000;
/// Fraction field of an IEEE-754 double.
pub const FRAC_MASK: u64 = 0x000F_FFFF_FFFF_FFFF;
/// The one canonical NaN bit pattern that float construction produces.
pub const FLOAT_NAN: u64 = 0x7FF8_0000_0000_0000;
/// Tag of a pointer value: the low 48 bits are a heap offset.
pub const PTR: u64 = 0xFFFC_0000_0000_0000;
/// Tag of an integer value: the low 48 bits hold a sign-extended 32-bit
/// signed integer.
pub const INT: u64 = 0xFFFD_0000_0000_0000;
/// The boolean false constant.
pub const FALSE: u64 = 0xFFFE_0000_0000_0000;
/// The boolean true constant (false | 1).
pub const TRUE: u64 = 0xFFFE_0000_0000_0001;
/// The nil constant (false | 2).
pub const NIL: u64 = 0xFFFE_0000_0000_0002;
/// Selects the top 16 bits, where the tag lives.
pub const HIGH_MASK: u64 = 0xFFFF_0000_0000_0000;
/// Selects the low 48 bits, the payload of pointer and integer values.
pub const LOW_MASK: u64 = 0x0000_FFFF_FFFF_FFFF;

/// One runtime datum: a 64-bit word whose top bits decide how the rest is
/// read.
#[derive(Clone, Copy, Debug, Hash, PartialEq, Eq, Structural)]
pub struct Value(u64);

impl View for Value {
    type V = u64;

    closed spec fn view(&self) -> u64 {
        self.0
    }
}

/// True of the bit patterns that are IEEE-754 NaNs: exponent all ones,
/// fraction non-zero.
pub open spec fn is_nan_bits(b: u64) -> bool {
    b & NAN_MASK == NAN_MASK && b & FRAC_MASK != 0
}

/// What float construction does to a raw double bit pattern: every NaN is
/// canonicalized to the one fixed pattern, everything else is kept bit-exact.
pub open spec fn canonical_float_bits(b: u64) -> u64 {
    if is_nan_bits(b) {
        FLOAT_NAN
    } else {
        b
    }
}

/// The bit patterns a constructor can produce: canonical floats, tagged
/// integers, tagged pointers, and the three singleton constants.
pub open spec fn constructible(b: u64) -> bool {
    ||| b == canonical_float_bits(b) && b < PTR
    ||| b & HIGH_MASK == PTR
    ||| b & HIGH_MASK == INT
    ||| b == FALSE
    ||| b == TRUE
    ||| b == NIL
}

/// The signed 32-bit integer held in the low bits of `b`, as a mathematical
/// integer.
pub open spec fn low_bits_as_i32(b: u64) -> int {
    let low = b % 0x1_0000_0000;
    if low >= 0x8000_0000 {
        low - 0x1_0000_0000
    } else {
        low as int
    }
}

impl Value {
    /// A float is any pattern below the first reserved tag; this includes the
    /// canonical NaN.
    pub open spec fn is_float_spec(self) -> bool {
        self@ < PTR
    }

    pub open spec fn is_nan_spec(self) -> bool {
        self@ == FLOAT_NAN
    }

    pub open spec fn is_int_spec(self) -> bool {
        self@ & HIGH_MASK == INT
    }

    pub open spec fn is_ptr_spec(self) -> bool {
        self@ & HIGH_MASK == PTR
    }

    pub open spec fn is_true_spec(self) -> bool {
        self@ == TRUE
    }

    pub open spec fn is_false_spec(self) -> bool {
        self@ == FALSE
    }

    pub open spec fn is_nil_spec(self) -> bool {
        self@ == NIL
    }

    pub open spec fn as_int_spec(self) -> int {
        low_bits_as_i32(self@)
    }

    pub open spec fn as_uint_spec(self) -> u64 {
        self@ & LOW_MASK
    }

    pub open spec fn as_ptr_spec(self) -> u64 {
        self@ & LOW_MASK
    }

    // FROM_ METHODS

    /// Boxes a double given by its raw bit pattern, canonicalizing every NaN
    /// to one fixed pattern so that equality and hashing of float values are
    /// well defined.
    pub fn from_float_bits(bits: u64) -> (r: Self)
        ensures
            r@ == canonical_float_bits(bits),
            r.is_float_spec(),
            !is_nan_bits(bits) ==> r@ == bits,
    {
        proof {
            assert(!(bits & NAN_MASK == NAN_MASK && bits & FRAC_MASK != 0)
                ==> bits < 0xFFFC_0000_0000_0000u64) by (bit_vector);
        }
        if (bits & NAN_MASK) == NAN_MASK && (bits & FRAC_MASK) != 0 {
            Self(FLOAT_NAN)
        } else {
            Self(bits)
        }
    }

    pub fn from_int(i: i32) -> (r: Self)
        ensures
            r.is_int_spec(),
            r.as_int_spec() == i,
            constructible(r@),
    {
        #[verifier::truncate]
        let payload = (i as u64) & LOW_MASK;
        let r = Self(INT | payload);
        proof {
            assert({
                let p = (i as u64) & 0x0000_FFFF_FFFF_FFFFu64;
                let v = 0xFFFD_0000_0000_0000u64 | p;
                &&& v & 0xFFFF_0000_0000_0000u64 == 0xFFFD_0000_0000_0000u64
                &&& low_bits_as_i32(v) == i as int
            }) by (bit_vector);
        }
        r
    }

    /// Boxes a raw 48-bit payload as an integer value; used for identifier
    /// ids, type ids and table metadata.
    pub fn from_uint(i: u64) -> (r: Self)
        requires
            i <= LOW_MASK,
        ensures
            r.is_int_spec(),
            !r.is_nil_spec(),
            r.as_uint_spec() == i,
            r@ == INT | i,
            constructible(r@),
    {
        proof {
            assert(i <= 0x0000_FFFF_FFFF_FFFFu64 ==> {
                let v = 0xFFFD_0000_0000_0000u64 | i;
                &&& v & 0xFFFF_0000_0000_0000u64 == 0xFFFD_0000_0000_0000u64
                &&& v & 0x0000_FFFF_FFFF_FFFFu64 == i
                &&& v != 0xFFFE_0000_0000_0002u64
            }) by (bit_vector);
        }
        Self(INT | i)
    }

    pub fn from_bool(b: bool) -> (r: Self)
        ensures
            b ==> r.is_true_spec(),
            !b ==> r.is_false_spec(),
            constructible(r@),
    {
        if b {
            Self(TRUE)
        } else {
            Self(FALSE)
        }
    }

    pub fn nil() -> (r: Self)
        ensures
            r.is_nil_spec(),
            constructible(r@),
    {
        Self(NIL)
    }

    /// Boxes a heap offset as a pointer value.
    pub fn from_ptr(p: u64) -> (r: Self)
        requires
            p <= LOW_MASK,
        ensures
            r.is_ptr_spec(),
            r.as_ptr_spec() == p,
            r@ == PTR | p,
            constructible(r@),
    {
        proof {
            assert(p <= 0x0000_FFFF_FFFF_FFFFu64 ==> {
                let v = 0xFFFC_0000_0000_0000u64 | p;
                &&& v & 0xFFFF_0000_0000_0000u64 == 0xFFFC_0000_0000_0000u64
                &&& v & 0x0000_FFFF_FFFF_FFFFu64 == p
            }) by (bit_vector);
        }
        Self(PTR | p)
    }

    // IS_ METHODS

    pub fn is_float(&self) -> (r: bool)
        ensures
            r == self.is_float_spec(),
    {
        self.0 < PTR
    }

    pub fn is_nan(&self) -> (r: bool)
        ensures
            r == self.is_nan_spec(),
    {
        self.0 == FLOAT_NAN
    }

    pub fn is_int(&self) -> (r: bool)
        ensures
            r == self.is_int_spec(),
    {
        (self.0 & HIGH_MASK) == INT
    }

    pub fn is_ptr(&self) -> (r: bool)
        ensures
            r == self.is_ptr_spec(),
    {
        (self.0 & HIGH_MASK) == PTR
    }

    pub fn is_true(&self) -> (r: bool)
        ensures
            r == self.is_true_spec(),
    {
        self.0 == TRUE
    }

    pub fn is_false(&self) -> (r: bool)
        ensures
            r == self.is_false_spec(),
    {
        self.0 == FALSE
    }

    pub fn is_nil(&self) -> (r: bool)
        ensures
            r == self.is_nil_spec(),
    {
        self.0 == NIL
    }

    // AS_ METHODS

    /// The double held in a float value, as its raw bit pattern; the
    /// canonical NaN is returned unchanged.
    pub fn as_float_bits(&self) -> (r: u64)
        requires
            self.is_float_spec(),
        ensures
            r == self@,
    {
        self.0
    }

    pub fn as_int(&self) -> (r: i32)
        requires
            self.is_int_spec(),
        ensures
            r as int == self.as_int_spec(),
    {
        #[verifier::truncate]
        let r = ((self.0 & LOW_MASK) as i32);
        proof {
            let b = self.0;
            assert({
                let low = (b & 0x0000_FFFF_FFFF_FFFFu64) as i32;
                low as int == low_bits_as_i32(b)
            }) by (bit_vector);
        }
        r
    }

    pub fn as_uint(&self) -> (r: u64)
        ensures
            r == self.as_uint_spec(),
    {
        self.0 & LOW_MASK
    }

    pub fn as_ptr(&self) -> (r: u64)
        requires
            self.is_ptr_spec(),
        ensures
            r == self.as_ptr_spec(),
    {
        self.0 & LOW_MASK
    }

    /// The runtime type of this value: primitive tags directly, and for a
    /// pointer the type-id code recorded in the heap header behind it.  A
    /// word no constructor produces, or a pointer outside the heap's
    /// allocated range, has the type `NONE`, which no registry entry ever
    /// has.
    pub open spec fn type_of_spec(self, h: Heap) -> TypeId {
        if self.is_nil_spec() {
            TypeId::Nil
        } else if self.is_ptr_spec() {
            let p = self.as_ptr_spec();
            if p % 16 == 0 && 16 <= p && p <= h.cursor() {
                type_id_from_code_spec(h.type_code_at(p as int))
            } else {
                TypeId::NONE
            }
        } else if self.is_int_spec() {
            TypeId::Int
        } else if self.is_float_spec() {
            TypeId::Float
        } else if self.is_false_spec() {
            TypeId::False
        } else if self.is_true_spec() {
            TypeId::True
        } else {
            TypeId::NONE
        }
    }

    /// Computes the runtime type, reading the header for pointer values.
    pub fn type_of(&self, heap: &Heap) -> (r: TypeId)
        requires
            heap.wf(),
        ensures
            r == self.type_of_spec(*heap),
    {
        if self.is_nil() {
            TypeId::Nil
        } else if self.is_ptr() {
            match heap.type_code_of(self.as_ptr()) {
                Some(code) => type_id_from_code(code),
                None => TypeId::NONE,
            }
        } else if self.is_int() {
            TypeId::Int
        } else if self.is_float() {
            TypeId::Float
        } else if self.is_false() {
            TypeId::False
        } else if self.is_true() {
            TypeId::True
        } else {
            TypeId::NONE
        }
    }

    /// The value whose raw bit pattern is `bits` (ghost counterpart of
    /// `from_bits`).
    pub closed spec fn spec_from_bits(bits: u64) -> Self {
        Self(bits)
    }

    /// Rebuilds a value from its raw bit pattern; inverse of the view.
    pub fn from_bits(bits: u64) -> (r: Self)
        ensures
            r@ == bits,
            r == Self::spec_from_bits(bits),
    {
        Self(bits)
    }

    /// The raw bit pattern; values compare and hash exactly by this word.
    pub fn bits(&self) -> (r: u64)
        ensures
            r == self@,
    {
        self.0
    }
}

/// The runtime type of a value: a closed set of primitives plus the
/// heap-resident object kinds.
#[derive(Clone, Copy, Debug, PartialEq, Eq, Structural)]
pub enum TypeId {
    NONE,
    // Primitives
    Nil,
    Int,
    Float,
    True,
    False,
    String,
    HeapMap,
    CompiledBytecode,
}

/// The numeric code under which a type id is stored in an object header or
/// boxed into an integer value for the type registry.
pub open spec fn type_id_code_spec(t: TypeId) -> u64 {
    match t {
        TypeId::NONE => 0,
        TypeId::Nil => 1,
        TypeId::Int => 2,
        TypeId::Float => 3,
        TypeId::True => 4,
        TypeId::False => 5,
        TypeId::String => 6,
        TypeId::HeapMap => 7,
        TypeId::CompiledBytecode => 8,
    }
}

/// The type id denoted by a numeric code; unknown codes denote `NONE`.
pub open spec fn type_id_from_code_spec(c: u64) -> TypeId {
    if c == 1 {
        TypeId::Nil
    } else if c == 2 {
        TypeId::Int
    } else if c == 3 {
        TypeId::Float
    } else if c == 4 {
        TypeId::True
    } else if c == 5 {
        TypeId::False
    } else if c == 6 {
        TypeId::String
    } else if c == 7 {
        TypeId::HeapMap
    } else if c == 8 {
        TypeId::CompiledBytecode
    } else {
        TypeId::NONE
    }
}

pub fn type_id_code(t: TypeId) -> (r: u64)
    ensures
        r == type_id_code_spec(t),
{
    match t {
        TypeId::NONE => 0,
        TypeId::Nil => 1,
        TypeId::Int => 2,
        TypeId::Float => 3,
        TypeId::True => 4,
        TypeId::False => 5,
        TypeId::String => 6,
        TypeId::HeapMap => 7,
        TypeId::CompiledBytecode => 8,
    }
}

pub fn type_id_from_code(c: u64) -> (r: TypeId)
    ensures
        r == type_id_from_code_spec(c),
{
    if c == 1 {
        TypeId::Nil
    } else if c == 2 {
        TypeId::Int
    } else if c == 3 {
        TypeId::Float
    } else if c == 4 {
        TypeId::True
    } else if c == 5 {
        TypeId::False
    } else if c == 6 {
        TypeId::String
    } else if c == 7 {
        TypeId::HeapMap
    } else if c == 8 {
        TypeId::CompiledBytecode
    } else {
        TypeId::NONE
    }
}

/// Encoding a type id and decoding the code returns the same type id.
pub proof fn lemma_type_id_code_round_trip(t: TypeId)
    ensures
        type_id_from_code_spec(type_id_code_spec(t)) == t,
{
}

/// A heap-resident string object at offset `p` holding the bytes `s`: a
/// `String`-tagged allocation whose body is the length followed by one word
/// per byte.
pub open spec fn string_at(h: Heap, p: int, s: Seq<u8>) -> bool {
    &&& p % 16 == 0
    &&& p >= 16
    &&& h.type_code_at(p) == type_id_code_spec(TypeId::String)
    &&& h.words()[p / 8] == s.len()
    &&& p + 8 + 8 * s.len() <= h.cursor()
    &&& forall|i: int| 0 <= i < s.len() ==> h.words()[p / 8 + 1 + i] == s[i]
}

/// An upper bound on the heap bytes boxing a literal can consume: only a
/// string allocates (alignment padding, header, length word and one word
/// per byte).
pub open spec fn lit_budget(l: Literal) -> nat {
    match l {
        Literal::Str(s) => (40 + 8 * s@.len()) as nat,
        _ => 0,
    }
}

/// What boxing a literal produces: scalars become the matching tagged
/// word, a string becomes a pointer to a fresh heap string object.
pub open spec fn lit_value_ok(h: Heap, l: Literal, v: Value) -> bool {
    match l {
        Literal::Int(i) => v.is_int_spec() && v.as_int_spec() == i,
        Literal::Float(bits) => v@ == canonical_float_bits(bits),
        Literal::Bool(b) => if b {
            v.is_true_spec()
        } else {
            v.is_false_spec()
        },
        Literal::Nil => v.is_nil_spec(),
        Literal::Str(s) => v.is_ptr_spec() && string_at(h, v.as_ptr_spec() as int, s@),
    }
}

impl Value {
    /// Boxes a literal, allocating heap storage for a string; fails exactly
    /// when that allocation does not fit, leaving the heap unchanged.
    #[verifier::loop_isolation(false)]
    pub fn from_literal(l: &Literal, heap: &mut Heap) -> (r: Result<Self, VmError>)
        requires
            old(heap).wf(),
        ensures
            final(heap).wf(),
            final(heap).capacity() == old(heap).capacity(),
            final(heap).words().len() == old(heap).words().len(),
            crate::heapmap::heap_extended(*old(heap), *final(heap)),
            match r {
                Ok(v) => lit_value_ok(*final(heap), *l, v),
                Err(e) => e == VmError::OutOfMemory && *final(heap) == *old(heap),
            },
            r is Err ==> (l is Str && round_up_align(old(heap).cursor() as int) + 24 + 8
                * l->Str_0@.len() > old(heap).capacity()),
            !(l is Str) ==> *final(heap) == *old(heap),
            final(heap).cursor() <= old(heap).cursor() + lit_budget(*l),
            old(heap).cursor() + lit_budget(*l) <= old(heap).capacity() ==> r is Ok,
    {
        proof {
            crate::heap::lemma_round_up_bounds(old(heap).cursor() as int);
        }
        match l {
            Literal::Int(i) => Ok(Self::from_int(*i)),
            Literal::Float(bits) => Ok(Self::from_float_bits(*bits)),
            Literal::Bool(b) => Ok(Self::from_bool(*b)),
            Literal::Nil => Ok(Self::nil()),
            Literal::Str(s) => {
                let ghost h0 = *heap;
                let len = s.len();
                if len as u64 > crate::heap::MAX_CAPACITY / 8 {
                    proof {
                        assert(8 * s@.len() > old(heap).capacity());
                    }
                    return Err(VmError::OutOfMemory);
                }
                let size = 8 + 8 * (len as u64);
                let p = match heap.allocate(size, TypeId::String) {
                    Some(p) => p,
                    None => {
                        return Err(VmError::OutOfMemory);
                    },
                };
                proof {
                    crate::heapmap::lemma_map_offsets(p, 0);
                }
                heap.store(p, len as u64);
                let mut i: usize = 0;
                while i < len
                    invariant
                        heap.wf(),
                        heap.capacity() == h0.capacity(),
                        heap.cursor() == p + size,
                        heap.words().len() == h0.words().len(),
                        i <= len,
                        heap.words()[p as int / 8] == len as u64,
                        forall|t: int| 0 <= t < i ==> heap.words()[p as int / 8 + 1 + t] == s@[t],
                        heap.type_code_at(p as int) == type_id_code_spec(TypeId::String),
                        forall|w: int|
                            0 <= w && 8 * w + 8 <= h0.cursor() ==> heap.words()[w]
                                == h0.words()[w],
                    decreases len - i,
                {
                    let off = p + 8 + 8 * (i as u64);
                    proof {
                        lemma_string_offset(p, i as int);
                    }
                    heap.store(off, s[i] as u64);
                    proof {
                        assert forall|t: int| 0 <= t < i + 1 implies heap.words()[p as int / 8 + 1
                            + t] == s@[t] by {
                            lemma_string_offset(p, t);
                        }
                    }
                    i = i + 1;
                }
                let v = Self::from_ptr(p);
                proof {
                    assert(string_at(*heap, p as int, s@));
                }
                Ok(v)
            },
        }
    }
}

/// Word index of the `i`-th byte slot of a string object at `p`.
pub proof fn lemma_string_offset(p: u64, i: int)
    requires
        p % 16 == 0,
        0 <= i,
    ensures
        (p as int + 8 + 8 * i) % 8 == 0,
        (p as int + 8 + 8 * i) / 8 == p as int / 8 + 1 + i,
        8 * (p as int / 8 + 1 + i) == p + 8 + 8 * i,
{
    let pi = p as int;
    assert(pi % 8 == 0) by (nonlinear_arith)
        requires pi % 16 == 0, pi >= 0;
    vstd::arithmetic::div_mod::lemma_fundamental_div_mod(pi, 8);
    let q = pi / 8;
    assert(pi == 8 * q);
    vstd::arithmetic::div_mod::lemma_div_multiples_vanish(q + 1 + i, 8);
    assert((8 * (q + 1 + i)) % 8 == 0) by (nonlinear_arith);
    assert(pi + 8 + 8 * i == 8 * (q + 1 + i));
}

/// A value rebuilt from bits shows those bits.
pub broadcast proof fn lemma_from_bits_view(bits: u64)
    ensures
        (#[trigger] Value::spec_from_bits(bits))@ == bits,
{
}

/// A value is its own bit pattern rebuilt.
pub broadcast proof fn lemma_bits_from_value(v: Value)
    ensures
        Value::spec_from_bits(#[trigger] v@) == v,
{
}

/// Round trip of 32-bit integers through the integer tag: boxing any `i32`
/// and reading it back returns the same integer.
pub proof fn lemma_int_round_trip(i: i32)
    ensures
        low_bits_as_i32(INT | ((i as u64) & LOW_MASK)) == i as int,
{
    assert({
        let p = (i as u64) & 0x0000_FFFF_FFFF_FFFFu64;
        low_bits_as_i32(0xFFFD_0000_0000_0000u64 | p) == i as int
    }) by (bit_vector);
}

/// Round trip of doubles through float construction: every non-NaN bit
/// pattern survives bit-exactly, and every NaN pattern is mapped to the one
/// canonical NaN, which reads back as itself.
pub proof fn lemma_float_round_trip(bits: u64)
    ensures
        !is_nan_bits(bits) ==> canonical_float_bits(bits) == bits,
        is_nan_bits(bits) ==> canonical_float_bits(bits) == FLOAT_NAN,
        canonical_float_bits(bits) < PTR,
{
    assert(!(bits & NAN_MASK == NAN_MASK && bits & FRAC_MASK != 0)
        ==> bits < 0xFFFC_0000_0000_0000u64) by (bit_vector);
    assert(0x7FF8_0000_0000_0000u64 < 0xFFFC_0000_0000_0000u64) by (bit_vector);
}

/// The six category predicates are mutually exclusive over all 64-bit words,
/// and exhaustive over every word a constructor can produce.
pub proof fn lemma_predicates_partition(v: Value)
    ensures
        v.is_float_spec() ==> !v.is_int_spec() && !v.is_ptr_spec() && !v.is_true_spec()
            && !v.is_false_spec() && !v.is_nil_spec(),
        v.is_int_spec() ==> !v.is_float_spec() && !v.is_ptr_spec() && !v.is_true_spec()
            && !v.is_false_spec() && !v.is_nil_spec(),
        v.is_ptr_spec() ==> !v.is_float_spec() && !v.is_int_spec() && !v.is_true_spec()
            && !v.is_false_spec() && !v.is_nil_spec(),
        v.is_true_spec() ==> !v.is_float_spec() && !v.is_int_spec() && !v.is_ptr_spec()
            && !v.is_false_spec() && !v.is_nil_spec(),
        v.is_false_spec() ==> !v.is_float_spec() && !v.is_int_spec() && !v.is_ptr_spec()
            && !v.is_true_spec() && !v.is_nil_spec(),
        v.is_nil_spec() ==> !v.is_float_spec() && !v.is_int_spec() && !v.is_ptr_spec()
            && !v.is_true_spec() && !v.is_false_spec(),
        constructible(v@) ==> v.is_float_spec() || v.is_int_spec() || v.is_ptr_spec()
            || v.is_true_spec() || v.is_false_spec() || v.is_nil_spec(),
{
    let b = v@;
    assert({
        &&& b < 0xFFFC_0000_0000_0000u64
            ==> b & 0xFFFF_0000_0000_0000u64 != 0xFFFD_0000_0000_0000u64
                && b & 0xFFFF_0000_0000_0000u64 != 0xFFFC_0000_0000_0000u64
                && b != 0xFFFE_0000_0000_0001u64 && b != 0xFFFE_0000_0000_0000u64
                && b != 0xFFFE_0000_0000_0002u64
        &&& b & 0xFFFF_0000_0000_0000u64 == 0xFFFD_0000_0000_0000u64
            ==> b & 0xFFFF_0000_0000_0000u64 != 0xFFFC_0000_0000_0000u64
                && b != 0xFFFE_0000_0000_0001u64 && b != 0xFFFE_0000_0000_0000u64
                && b != 0xFFFE_0000_0000_0002u64 && !(b < 0xFFFC_0000_0000_0000u64)
        &&& b & 0xFFFF_0000_0000_0000u64 == 0xFFFC_0000_0000_0000u64
            ==> b != 0xFFFE_0000_0000_0001u64 && b != 0xFFFE_0000_0000_0000u64
                && b != 0xFFFE_0000_0000_0002u64 && !(b < 0xFFFC_0000_0000_0000u64)
        &&& b == 0xFFFE_0000_0000_0000u64 || b == 0xFFFE_0000_0000_0001u64
                || b == 0xFFFE_0000_0000_0002u64
            ==> b & 0xFFFF_0000_0000_0000u64 != 0xFFFD_0000_0000_0000u64
                && b & 0xFFFF_0000_0000_0000u64 != 0xFFFC_0000_0000_0000u64
                && !(b < 0xFFFC_0000_0000_0000u64)
    }) by (bit_vector);
}

} // verus!
