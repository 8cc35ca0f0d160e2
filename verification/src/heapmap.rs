//! The in-heap open-addressing hash table.
//!
//! A `HeapMap` maps value bit patterns to value bit patterns.  Its storage is
//! one heap allocation: a two-word header (capacity, count, both boxed as
//! integer values) followed by `capacity` slots of (key, value) pairs.  The
//! capacity is always a power of two; an all-nil key marks an empty slot;
//! collisions are resolved by linear probing, with the same probe sequence
//! for lookup and insertion.  When the load factor passes 7/10 the table is
//! rehashed into a fresh double-capacity allocation.

use vstd::arithmetic::div_mod::{
    lemma_add_mod_noop_right, lemma_div_multiples_vanish, lemma_fundamental_div_mod,
    lemma_mod_division_less_than_divisor, lemma_small_mod, lemma_sub_mod_noop,
};
use vstd::arithmetic::power2::{lemma_pow2_pos, lemma_pow2_unfold, pow2};
use vstd::bits::{lemma_u64_low_bits_mask_is_mod, low_bits_mask};
use vstd::prelude::*;

use crate::errors::VmError;
use crate::heap::{round_up_align, Heap, MAX_CAPACITY};
use crate::value::{Value, TypeId, HIGH_MASK, INT, LOW_MASK, NIL};

verus! {

/// The largest slot count a table may be created with; a rehash that would
/// pass it reports the heap as exhausted instead (a table this large could
/// never fit in a heap anyway).
pub const MAX_SLOTS: u64 = 0x0800_0000_0000;

/// True of the powers of two.
pub open spec fn is_pow2(c: u64) -> bool {
    exists|n: nat| n < 64 && c == pow2(n)
}

/// A deterministic 64-bit mix of a key's raw bit pattern (an xorshift):
/// values hash exactly by their bits.
pub open spec fn hash_spec(b: u64) -> u64 {
    let x = b ^ (b >> 33);
    let y = x ^ (x << 13);
    y ^ (y >> 7)
}

pub fn hash_bits(b: u64) -> (r: u64)
    ensures
        r == hash_spec(b),
{
    let x = b ^ (b >> 33);
    let y = x ^ (x << 13);
    y ^ (y >> 7)
}

// Word indices of the table's parts, counted in the heap's word sequence.

pub open spec fn cap_w(p: int) -> int {
    p / 8
}

pub open spec fn count_w(p: int) -> int {
    p / 8 + 1
}

pub open spec fn key_w(p: int, i: int) -> int {
    p / 8 + 2 + 2 * i
}

pub open spec fn val_w(p: int, i: int) -> int {
    p / 8 + 3 + 2 * i
}

/// Capacity of the table at `p`: payload of the boxed integer in the first
/// header word.
pub open spec fn map_cap(h: Heap, p: int) -> u64 {
    h.words()[cap_w(p)] & LOW_MASK
}

/// Number of occupied slots as recorded in the second header word.
pub open spec fn map_count(h: Heap, p: int) -> u64 {
    h.words()[count_w(p)] & LOW_MASK
}

pub open spec fn slot_key(h: Heap, p: int, i: int) -> u64 {
    h.words()[key_w(p, i)]
}

pub open spec fn slot_val(h: Heap, p: int, i: int) -> u64 {
    h.words()[val_w(p, i)]
}

/// A slot is occupied when its key is not nil.
pub open spec fn occupied(h: Heap, p: int, i: int) -> bool {
    slot_key(h, p, i) != NIL
}

/// How many of the first `n` slots are occupied.
pub open spec fn occupied_upto(h: Heap, p: int, n: nat) -> nat
    decreases n,
{
    if n == 0 {
        0
    } else {
        occupied_upto(h, p, (n - 1) as nat) + if occupied(h, p, n - 1) {
            1nat
        } else {
            0nat
        }
    }
}

/// The slot where probing for key `k` starts.
pub open spec fn start_slot(k: u64, cap: u64) -> int {
    (hash_spec(k) & ((cap - 1) as u64)) as int
}

/// The `t`-th slot of the probe sequence beginning at `s`, wrapping at the
/// capacity.
pub open spec fn probe(s: int, t: int, cap: int) -> int {
    (s + t) % cap
}

/// How many probe steps from `s` reach slot `i`.
pub open spec fn dist(s: int, i: int, cap: int) -> int {
    (i - s) % cap
}

/// No two occupied slots among the first `n` hold the same key.
pub open spec fn no_dup_upto(h: Heap, p: int, n: int) -> bool {
    forall|i: int, j: int|
        0 <= i < n && 0 <= j < n && i != j && occupied(h, p, i) && occupied(h, p, j)
            ==> #[trigger] slot_key(h, p, i) != #[trigger] slot_key(h, p, j)
}

/// Every slot on the probe path of an occupied slot's key, up to that slot,
/// is itself occupied; this is what makes lookup by the same probe sequence
/// complete.
pub open spec fn path_occupied(h: Heap, p: int, cap: int, i: int) -> bool {
    forall|t: int|
        0 <= t < dist(start_slot(slot_key(h, p, i), cap as u64), i, cap)
            ==> occupied(h, p, #[trigger] probe(start_slot(slot_key(h, p, i), cap as u64), t, cap))
}

/// Well-formedness of the table at `p`: header tags, power-of-two capacity,
/// storage inside the allocated heap, an exact count, unique keys, and
/// unbroken probe paths.
pub open spec fn valid_map(h: Heap, p: u64) -> bool {
    let cap = map_cap(h, p as int) as int;
    &&& h.wf()
    &&& p % 16 == 0
    &&& p >= 16
    &&& is_pow2(map_cap(h, p as int))
    &&& h.words()[cap_w(p as int)] & HIGH_MASK == INT
    &&& h.words()[count_w(p as int)] & HIGH_MASK == INT
    &&& p + 16 + 16 * cap <= h.cursor()
    &&& map_count(h, p as int) == occupied_upto(h, p as int, cap as nat)
    &&& no_dup_upto(h, p as int, cap)
    &&& forall|i: int| 0 <= i < cap && occupied(h, p as int, i) ==> #[trigger] path_occupied(h, p as int, cap, i)
}

/// Key `k` sits in one of the first `n` slots.
pub open spec fn has_key_upto(h: Heap, p: int, n: int, k: u64) -> bool {
    k != NIL && exists|i: int| 0 <= i < n && #[trigger] slot_key(h, p, i) == k
}

/// The slot holding key `k` (meaningful when `has_key_upto` holds and keys
/// are unique).
pub open spec fn slot_of(h: Heap, p: int, n: int, k: u64) -> int {
    choose|i: int| 0 <= i < n && #[trigger] slot_key(h, p, i) == k
}

/// The mathematical contents of the first `n` slots.
pub open spec fn map_model_upto(h: Heap, p: int, n: int) -> Map<u64, u64> {
    Map::new(
        |k: u64| has_key_upto(h, p, n, k),
        |k: u64| slot_val(h, p, slot_of(h, p, n, k)),
    )
}

/// The mathematical contents of the table at `p`.
pub open spec fn map_model(h: Heap, p: int) -> Map<u64, u64> {
    map_model_upto(h, p, map_cap(h, p) as int)
}

// Arithmetic bridges between byte offsets (what the heap accessors take)
// and word indices (what the spec functions above use).

pub proof fn lemma_map_offsets(p: u64, i: int)
    requires
        p % 16 == 0,
        0 <= i,
    ensures
        p as int % 8 == 0,
        8 * cap_w(p as int) == p,
        (p + 8) as int % 8 == 0,
        (p + 8) as int / 8 == count_w(p as int),
        8 * count_w(p as int) == p + 8,
        (p as int + 16 + 16 * i) % 8 == 0,
        (p as int + 16 + 16 * i) / 8 == key_w(p as int, i),
        8 * key_w(p as int, i) == p + 16 + 16 * i,
        (p as int + 24 + 16 * i) % 8 == 0,
        (p as int + 24 + 16 * i) / 8 == val_w(p as int, i),
        8 * val_w(p as int, i) == p + 24 + 16 * i,
{
    let pi = p as int;
    assert(pi % 8 == 0) by (nonlinear_arith)
        requires pi % 16 == 0, pi >= 0;
    lemma_fundamental_div_mod(pi, 8);
    let q = pi / 8;
    assert(pi == 8 * q);
    lemma_div_multiples_vanish(q + 1, 8);
    assert((8 * (q + 1)) % 8 == 0) by (nonlinear_arith);
    assert(pi + 8 == 8 * (q + 1));
    lemma_div_multiples_vanish(q + 2 + 2 * i, 8);
    assert((8 * (q + 2 + 2 * i)) % 8 == 0) by (nonlinear_arith);
    assert(pi + 16 + 16 * i == 8 * (q + 2 + 2 * i));
    lemma_div_multiples_vanish(q + 3 + 2 * i, 8);
    assert((8 * (q + 3 + 2 * i)) % 8 == 0) by (nonlinear_arith);
    assert(pi + 24 + 16 * i == 8 * (q + 3 + 2 * i));
}

// Probe-sequence arithmetic.

proof fn lemma_probe_range(s: int, t: int, cap: int)
    requires
        cap > 0,
        0 <= s,
        0 <= t,
    ensures
        0 <= probe(s, t, cap) < cap,
{
    lemma_mod_division_less_than_divisor(s + t, cap);
}

proof fn lemma_probe_dist(s: int, i: int, cap: int)
    requires
        cap > 0,
        0 <= s < cap,
        0 <= i < cap,
    ensures
        0 <= dist(s, i, cap) < cap,
        probe(s, dist(s, i, cap), cap) == i,
{
    lemma_mod_division_less_than_divisor(i - s, cap);
    lemma_add_mod_noop_right(s, i - s, cap);
    lemma_small_mod(i as nat, cap as nat);
}

proof fn lemma_probe_injective(s: int, t1: int, t2: int, cap: int)
    requires
        cap > 0,
        0 <= s,
        0 <= t1 <= t2 < cap,
        probe(s, t1, cap) == probe(s, t2, cap),
    ensures
        t1 == t2,
{
    lemma_sub_mod_noop(s + t2, s + t1, cap);
    assert(((s + t2) % cap - (s + t1) % cap) % cap == (t2 - t1) % cap);
    lemma_small_mod(0nat, cap as nat);
    lemma_small_mod((t2 - t1) as nat, cap as nat);
}

proof fn lemma_probe_step(s: int, j: int, cap: int)
    requires
        cap > 0,
        0 <= s,
        0 <= j,
    ensures
        probe(s, j + 1, cap) == (probe(s, j, cap) + 1) % cap,
{
    lemma_add_mod_noop_right(1, s + j, cap);
}

proof fn lemma_pow2_facts(cap: u64)
    requires
        is_pow2(cap),
    ensures
        cap >= 1,
        cap <= MAX_SLOTS ==> is_pow2((2 * cap) as u64),
{
    let n = choose|n: nat| n < 64 && cap == pow2(n);
    lemma_pow2_pos(n);
    if cap <= MAX_SLOTS {
        lemma_pow2_unfold(n + 1);
        assert(pow2(n + 1) == 2 * cap);
        if n + 1 >= 64 {
            vstd::arithmetic::power2::lemma2_to64_rest();
            vstd::arithmetic::power2::lemma_pow2_strictly_increases(43, n);
            assert(false);
        }
        assert(is_pow2((2 * cap) as u64));
    }
}

proof fn lemma_mask_is_mod(x: u64, cap: u64)
    requires
        is_pow2(cap),
    ensures
        x & ((cap - 1) as u64) == x % cap,
        x & ((cap - 1) as u64) < cap,
{
    let n = choose|n: nat| n < 64 && cap == pow2(n);
    lemma_pow2_pos(n);
    lemma_u64_low_bits_mask_is_mod(x, n);
    assert(low_bits_mask(n) == (pow2(n) - 1) as nat);
    lemma_mod_division_less_than_divisor(x as int, cap as int);
}

// Counting.

proof fn lemma_occupied_upto_le(h: Heap, p: int, n: nat)
    ensures
        occupied_upto(h, p, n) <= n,
    decreases n,
{
    if n > 0 {
        lemma_occupied_upto_le(h, p, (n - 1) as nat);
    }
}

proof fn lemma_occupied_upto_all(h: Heap, p: int, n: nat)
    requires
        forall|i: int| 0 <= i < n ==> occupied(h, p, i),
    ensures
        occupied_upto(h, p, n) == n,
    decreases n,
{
    if n > 0 {
        lemma_occupied_upto_all(h, p, (n - 1) as nat);
    }
}

proof fn lemma_occupied_upto_none(h: Heap, p: int, n: nat)
    requires
        forall|i: int| 0 <= i < n ==> !occupied(h, p, i),
    ensures
        occupied_upto(h, p, n) == 0,
    decreases n,
{
    if n > 0 {
        lemma_occupied_upto_none(h, p, (n - 1) as nat);
    }
}

/// Two heaps that agree on the key words of the first `n` slots count them
/// the same.
proof fn lemma_occupied_upto_congruence(h1: Heap, h2: Heap, p: int, n: nat)
    requires
        forall|i: int| 0 <= i < n ==> slot_key(h1, p, i) == slot_key(h2, p, i),
    ensures
        occupied_upto(h1, p, n) == occupied_upto(h2, p, n),
    decreases n,
{
    if n > 0 {
        lemma_occupied_upto_congruence(h1, h2, p, (n - 1) as nat);
    }
}

/// Writing a key into one empty slot raises the occupied count by one.
proof fn lemma_occupied_upto_fill(h1: Heap, h2: Heap, p: int, i: int, n: nat)
    requires
        0 <= i < n,
        !occupied(h1, p, i),
        occupied(h2, p, i),
        forall|j: int| 0 <= j < n && j != i ==> slot_key(h1, p, j) == slot_key(h2, p, j),
    ensures
        occupied_upto(h2, p, n) == occupied_upto(h1, p, n) + 1,
    decreases n,
{
    if n - 1 == i {
        lemma_occupied_upto_congruence(h1, h2, p, (n - 1) as nat);
    } else {
        lemma_occupied_upto_fill(h1, h2, p, i, (n - 1) as nat);
    }
}

/// Under unique keys, the model of the first `n` slots maps each occupied
/// slot's key to that slot's value.
proof fn lemma_model_at(h: Heap, p: int, n: int, i: int)
    requires
        no_dup_upto(h, p, n),
        0 <= i < n,
        occupied(h, p, i),
    ensures
        map_model_upto(h, p, n).dom().contains(slot_key(h, p, i)),
        map_model_upto(h, p, n)[slot_key(h, p, i)] == slot_val(h, p, i),
{
    let k = slot_key(h, p, i);
    assert(has_key_upto(h, p, n, k));
    let i2 = slot_of(h, p, n, k);
    assert(0 <= i2 < n && slot_key(h, p, i2) == k);
    assert(i2 == i);
}

/// If a probe walk for `k` only met other keys and then hit an empty slot
/// (or went a full cycle), `k` is nowhere in the table.
proof fn lemma_probe_absent(h: Heap, p: u64, k: u64, s: int, j: int)
    requires
        valid_map(h, p),
        k != NIL,
        s == start_slot(k, map_cap(h, p as int)),
        0 <= s < map_cap(h, p as int),
        0 <= j <= map_cap(h, p as int),
        forall|t: int|
            0 <= t < j ==> slot_key(h, p as int, #[trigger] probe(s, t, map_cap(h, p as int) as int)) != k,
        j < map_cap(h, p as int) ==> !occupied(h, p as int, probe(s, j, map_cap(h, p as int) as int)),
    ensures
        !has_key_upto(h, p as int, map_cap(h, p as int) as int, k),
{
    let cap = map_cap(h, p as int) as int;
    if has_key_upto(h, p as int, cap, k) {
        let i = choose|i: int| 0 <= i < cap && #[trigger] slot_key(h, p as int, i) == k;
        let d = dist(s, i, cap);
        lemma_probe_dist(s, i, cap);
        assert(occupied(h, p as int, i));
        assert(path_occupied(h, p as int, cap, i));
        if d < j {
            assert(slot_key(h, p as int, probe(s, d, cap)) != k);
            assert(false);
        } else if d == j {
            assert(j < cap);
            assert(!occupied(h, p as int, probe(s, j, cap)));
            assert(false);
        } else {
            assert(j < d);
            assert(start_slot(slot_key(h, p as int, i), map_cap(h, p as int)) == s);
            assert(occupied(h, p as int, probe(s, j, cap)));
            assert(j < cap ==> !occupied(h, p as int, probe(s, j, cap)));
            assert(j == cap);
            assert(d < cap);
            assert(false);
        }
    }
}

/// Two heaps that agree on the first `n` slots have the same partial model.
proof fn lemma_model_upto_congruence(h1: Heap, h2: Heap, p: int, n: int)
    requires
        no_dup_upto(h1, p, n),
        forall|i: int| 0 <= i < n ==> #[trigger] slot_key(h1, p, i) == slot_key(h2, p, i),
        forall|i: int| 0 <= i < n ==> #[trigger] slot_val(h1, p, i) == slot_val(h2, p, i),
    ensures
        map_model_upto(h1, p, n) == map_model_upto(h2, p, n),
{
    assert forall|k: u64| true implies has_key_upto(h1, p, n, k) == has_key_upto(h2, p, n, k) by {
        if has_key_upto(h1, p, n, k) {
            let i = choose|i: int| 0 <= i < n && #[trigger] slot_key(h1, p, i) == k;
            assert(slot_key(h2, p, i) == k);
        }
        if has_key_upto(h2, p, n, k) {
            let i = choose|i: int| 0 <= i < n && #[trigger] slot_key(h2, p, i) == k;
            assert(slot_key(h1, p, i) == k);
        }
    }
    assert forall|k: u64| has_key_upto(h1, p, n, k) implies map_model_upto(h1, p, n)[k]
        == map_model_upto(h2, p, n)[k] by {
        let i1 = slot_of(h1, p, n, k);
        let i2 = slot_of(h2, p, n, k);
        assert(0 <= i1 < n && slot_key(h1, p, i1) == k);
        assert(0 <= i2 < n && slot_key(h2, p, i2) == k);
        assert(slot_key(h1, p, i2) == k);
        assert(i1 == i2);
        assert(slot_val(h1, p, i1) == slot_val(h2, p, i1));
    }
    assert(map_model_upto(h1, p, n) =~= map_model_upto(h2, p, n));
}

/// Extending the scanned prefix by one slot inserts that slot's pair (or
/// nothing, when the slot is empty).
proof fn lemma_model_upto_step(h: Heap, p: int, i: int)
    requires
        0 <= i,
        no_dup_upto(h, p, i + 1),
    ensures
        occupied(h, p, i) ==> map_model_upto(h, p, i + 1)
            == map_model_upto(h, p, i).insert(slot_key(h, p, i), slot_val(h, p, i)),
        !occupied(h, p, i) ==> map_model_upto(h, p, i + 1) == map_model_upto(h, p, i),
        occupied(h, p, i) ==> !map_model_upto(h, p, i).dom().contains(slot_key(h, p, i)),
    decreases i,
{
    if occupied(h, p, i) {
        let ki = slot_key(h, p, i);
        if has_key_upto(h, p, i, ki) {
            let t = choose|t: int| 0 <= t < i && #[trigger] slot_key(h, p, t) == ki;
            assert(occupied(h, p, t));
            assert(false);
        }
        assert forall|k: u64| has_key_upto(h, p, i + 1, k) && k != ki implies has_key_upto(
            h,
            p,
            i,
            k,
        ) && map_model_upto(h, p, i + 1)[k] == map_model_upto(h, p, i)[k] by {
            let t = choose|t: int| 0 <= t < i + 1 && #[trigger] slot_key(h, p, t) == k;
            assert(t != i);
            assert(has_key_upto(h, p, i, k));
            let t1 = slot_of(h, p, i + 1, k);
            let t2 = slot_of(h, p, i, k);
            assert(0 <= t1 < i + 1 && slot_key(h, p, t1) == k);
            assert(0 <= t2 < i && slot_key(h, p, t2) == k);
            assert(t1 == t2);
        }
        assert(map_model_upto(h, p, i + 1).dom().contains(ki));
        assert(map_model_upto(h, p, i + 1)[ki] == slot_val(h, p, i)) by {
            let t = slot_of(h, p, i + 1, ki);
            assert(0 <= t < i + 1 && slot_key(h, p, t) == ki);
            assert(t == i);
        }
        assert(map_model_upto(h, p, i + 1) =~= map_model_upto(h, p, i).insert(
            ki,
            slot_val(h, p, i),
        ));
    } else {
        assert forall|k: u64| true implies has_key_upto(h, p, i + 1, k) == has_key_upto(
            h,
            p,
            i,
            k,
        ) by {
            if has_key_upto(h, p, i + 1, k) {
                let t = choose|t: int| 0 <= t < i + 1 && #[trigger] slot_key(h, p, t) == k;
                assert(t != i);
            }
        }
        assert forall|k: u64| has_key_upto(h, p, i, k) implies map_model_upto(h, p, i + 1)[k]
            == map_model_upto(h, p, i)[k] by {
            let t1 = slot_of(h, p, i + 1, k);
            let t2 = slot_of(h, p, i, k);
            assert(0 <= t1 < i + 1 && slot_key(h, p, t1) == k);
            assert(0 <= t2 < i && slot_key(h, p, t2) == k);
            assert(t1 != i);
            assert(t1 == t2);
        }
        assert(map_model_upto(h, p, i + 1) =~= map_model_upto(h, p, i));
    }
}

/// Heap words below the old cursor and outside the given word range are
/// unchanged; the heap may only have grown past its old cursor.
pub open spec fn preserved_outside(h0: Heap, h1: Heap, lo_w: int, hi_w: int) -> bool {
    &&& h1.capacity() == h0.capacity()
    &&& h1.words().len() == h0.words().len()
    &&& h0.cursor() <= h1.cursor()
    &&& forall|w: int|
        0 <= w && 8 * w + 8 <= h0.cursor() && !(lo_w <= w < hi_w)
            ==> h1.words()[w] == h0.words()[w]
}

/// Nothing below the old cursor changed at all.
pub open spec fn heap_extended(h0: Heap, h1: Heap) -> bool {
    preserved_outside(h0, h1, 0, 0)
}

/// The rehash into a double-capacity table can be carried out: the doubled
/// slot count is still representable and the heap can fit the new storage.
pub open spec fn realloc_fits(h: Heap, p: u64) -> bool {
    let cap = map_cap(h, p as int);
    &&& 2 * cap <= MAX_SLOTS
    &&& round_up_align(h.cursor() as int) + 32 + 16 * (2 * cap) <= h.capacity()
}

/// An insertion succeeds: either no growth is due (load factor at most
/// 7/10), or the rehash it triggers fits in the heap.
pub open spec fn insert_fits(h: Heap, p: u64) -> bool {
    10 * map_count(h, p as int) <= 7 * map_cap(h, p as int) || realloc_fits(h, p)
}

/// First word index of the table's storage (its allocation header included).
pub open spec fn region_lo(h: Heap, p: int) -> int {
    p / 8 - 2
}

/// One past the last word index of the table's storage.
pub open spec fn region_hi(h: Heap, p: int) -> int {
    p / 8 + 2 + 2 * (map_cap(h, p) as int)
}

/// A table is untouched by any heap activity that preserves its storage
/// words: it stays valid with the same capacity, count and contents.
pub proof fn lemma_map_framed(h0: Heap, h1: Heap, p: u64)
    requires
        valid_map(h0, p),
        h1.wf(),
        h1.capacity() == h0.capacity(),
        h1.words().len() == h0.words().len(),
        h0.cursor() <= h1.cursor(),
        forall|w: int| region_lo(h0, p as int) <= w < region_hi(h0, p as int)
            ==> h1.words()[w] == h0.words()[w],
    ensures
        valid_map(h1, p),
        map_cap(h1, p as int) == map_cap(h0, p as int),
        map_count(h1, p as int) == map_count(h0, p as int),
        map_model(h1, p as int) == map_model(h0, p as int),
{
    let pi = p as int;
    let cap = map_cap(h0, pi) as int;
    assert(h1.words()[cap_w(pi)] == h0.words()[cap_w(pi)]);
    assert(h1.words()[count_w(pi)] == h0.words()[count_w(pi)]);
    assert forall|i: int| 0 <= i < cap implies slot_key(h1, pi, i) == slot_key(h0, pi, i)
        && slot_val(h1, pi, i) == slot_val(h0, pi, i) by {
        assert(key_w(pi, i) < region_hi(h0, pi));
        assert(val_w(pi, i) < region_hi(h0, pi));
    }
    lemma_occupied_upto_congruence(h0, h1, pi, cap as nat);
    assert forall|i: int| 0 <= i < cap && occupied(h1, pi, i) implies #[trigger] path_occupied(
        h1,
        pi,
        cap,
        i,
    ) by {
        assert(occupied(h0, pi, i));
        assert(path_occupied(h0, pi, cap, i));
        let k = slot_key(h1, pi, i);
        let s = start_slot(k, map_cap(h1, pi));
        assert forall|t: int| 0 <= t < dist(s, i, cap) implies occupied(
            h1,
            pi,
            #[trigger] probe(s, t, cap),
        ) by {
            lemma_probe_range(s, t, cap);
            assert(occupied(h0, pi, probe(s, t, cap)));
        }
    }
    assert(valid_map(h1, p));
    assert forall|k: u64| true implies has_key_upto(h1, pi, cap, k) == has_key_upto(h0, pi, cap, k) by {
        if has_key_upto(h0, pi, cap, k) {
            let i = choose|i: int| 0 <= i < cap && #[trigger] slot_key(h0, pi, i) == k;
            assert(slot_key(h1, pi, i) == k);
        }
        if has_key_upto(h1, pi, cap, k) {
            let i = choose|i: int| 0 <= i < cap && #[trigger] slot_key(h1, pi, i) == k;
            assert(slot_key(h0, pi, i) == k);
        }
    }
    assert forall|k: u64| map_model(h0, pi).dom().contains(k) implies map_model(h1, pi)[k]
        == map_model(h0, pi)[k] by {
        let i = slot_of(h0, pi, cap, k);
        assert(0 <= i < cap && slot_key(h0, pi, i) == k);
        assert(occupied(h0, pi, i));
        lemma_model_at(h0, pi, cap, i);
        assert(slot_key(h1, pi, i) == k);
        lemma_model_at(h1, pi, cap, i);
    }
    assert(map_model(h1, pi) =~= map_model(h0, pi));
}

/// The power-of-two slot counts the runtime uses.
pub proof fn lemma_small_pow2()
    ensures
        is_pow2(1),
        is_pow2(2),
        is_pow2(4),
        is_pow2(8),
        is_pow2(16),
        is_pow2(64),
        is_pow2(4096),
{
    vstd::arithmetic::power2::lemma2_to64();
    assert(1u64 == pow2(0) && (0 as nat) < 64);
    assert(2u64 == pow2(1) && (1 as nat) < 64);
    assert(4u64 == pow2(2) && (2 as nat) < 64);
    assert(8u64 == pow2(3) && (3 as nat) < 64);
    assert(16u64 == pow2(4) && (4 as nat) < 64);
    assert(64u64 == pow2(6) && (6 as nat) < 64);
    assert(4096u64 == pow2(12) && (12 as nat) < 64);
}

/// The storage of the tables at `p1` and `p2` does not overlap.
pub open spec fn regions_disjoint(h: Heap, p1: u64, p2: u64) -> bool {
    region_hi(h, p1 as int) <= region_lo(h, p2 as int) || region_hi(h, p2 as int) <= region_lo(
        h,
        p1 as int,
    )
}

/// A valid table's storage words lie inside the allocated part of the heap,
/// just past its own allocation header.
pub proof fn lemma_region_in_cursor(h: Heap, p: u64)
    requires
        valid_map(h, p),
    ensures
        0 <= region_lo(h, p as int),
        8 * region_lo(h, p as int) == p - 16,
        8 * region_hi(h, p as int) == p + 16 + 16 * (map_cap(h, p as int) as int),
        8 * region_hi(h, p as int) <= h.cursor(),
{
    lemma_map_offsets(p, map_cap(h, p as int) as int);
}

/// A valid table sits entirely below a fresh allocation's storage.
proof fn lemma_region_disjoint(h: Heap, p: u64, pnew: u64)
    requires
        valid_map(h, p),
        pnew % 16 == 0,
        pnew >= 16,
        pnew as int - 16 >= h.cursor(),
    ensures
        region_hi(h, p as int) <= region_lo(h, pnew as int),
        8 * region_lo(h, pnew as int) == pnew - 16,
{
    lemma_region_in_cursor(h, p);
    lemma_map_offsets(pnew, 0);
}

/// Composes a heap extension (which leaves everything below the old cursor
/// alone) with a table operation inside the fresh region: nothing below the
/// original cursor has changed.
proof fn lemma_fresh_op_frame(h0: Heap, h1: Heap, h2: Heap, pnew: u64, lo: int, hi: int)
    requires
        heap_extended(h0, h1),
        pnew % 16 == 0,
        pnew >= 16,
        pnew as int - 16 >= h0.cursor(),
        preserved_outside(h1, h2, region_lo(h1, pnew as int), region_hi(h1, pnew as int)),
    ensures
        preserved_outside(h0, h2, lo, hi),
{
    lemma_map_offsets(pnew, 0);
    assert forall|w: int| 0 <= w && 8 * w + 8 <= h0.cursor() && !(lo <= w < hi) implies h2.words()[w]
        == h0.words()[w] by {
        assert(h1.words()[w] == h0.words()[w]);
        assert(8 * region_lo(h1, pnew as int) == pnew - 16);
        assert(w < region_lo(h1, pnew as int));
        assert(h2.words()[w] == h1.words()[w]);
    }
}

/// Handle to a table: the pointer to its storage (the boxed pointer value
/// stored wherever the table is installed carries the same offset).
#[derive(Clone, Copy, Debug)]
pub struct HeapMap {
    pub ptr: u64,
}

impl HeapMap {
    pub open spec fn valid(self, h: Heap) -> bool {
        valid_map(h, self.ptr)
    }

    pub open spec fn model(self, h: Heap) -> Map<u64, u64> {
        map_model(h, self.ptr as int)
    }

    pub open spec fn cap(self, h: Heap) -> u64 {
        map_cap(h, self.ptr as int)
    }

    pub open spec fn count(self, h: Heap) -> u64 {
        map_count(h, self.ptr as int)
    }

    /// Allocates a table of `capacity` power-of-two slots, all keys nil,
    /// count zero.  Returns `None` exactly when the heap cannot fit it, in
    /// which case the heap is unchanged.
    #[verifier::loop_isolation(false)]
    pub fn new(heap: &mut Heap, capacity: u64) -> (r: Option<HeapMap>)
        requires
            old(heap).wf(),
            is_pow2(capacity),
            capacity <= MAX_SLOTS,
        ensures
            final(heap).wf(),
            final(heap).capacity() == old(heap).capacity(),
            r is Some <==> round_up_align(old(heap).cursor() as int) + 32 + 16 * capacity
                <= old(heap).capacity(),
            match r {
                Some(m) => {
                    &&& valid_map(*final(heap), m.ptr)
                    &&& map_cap(*final(heap), m.ptr as int) == capacity
                    &&& map_count(*final(heap), m.ptr as int) == 0
                    &&& map_model(*final(heap), m.ptr as int) == Map::<u64, u64>::empty()
                    &&& m.ptr == round_up_align(old(heap).cursor() as int) + 16
                    &&& final(heap).type_code_at(m.ptr as int) == crate::value::type_id_code_spec(
                        TypeId::HeapMap,
                    )
                    &&& m.ptr - 16 >= old(heap).cursor()
                    &&& m.ptr + 16 + 16 * capacity == final(heap).cursor()
                    &&& heap_extended(*old(heap), *final(heap))
                },
                None => *final(heap) == *old(heap),
            },
    {
        let size = 16 + capacity * 16;
        let ghost h0 = *heap;
        let p_opt = heap.allocate(size, TypeId::HeapMap);
        let p = match p_opt {
            Some(p) => p,
            None => {
                return None;
            },
        };
        let ghost h_alloc = *heap;
        let cap_word = Value::from_uint(capacity).bits();
        let count_word = Value::from_uint(0).bits();
        proof {
            lemma_map_offsets(p, 0);
        }
        heap.store(p, cap_word);
        heap.store(p + 8, count_word);
        let mut i: u64 = 0;
        let nil_word = Value::nil().bits();
        while i < capacity
            invariant
                heap.wf(),
                heap.capacity() == h_alloc.capacity(),
                heap.cursor() == h_alloc.cursor(),
                heap.words().len() == h_alloc.words().len(),
                i <= capacity,
                heap.words()[cap_w(p as int)] == cap_word,
                heap.words()[count_w(p as int)] == count_word,
                forall|t: int| 0 <= t < i ==> slot_key(*heap, p as int, t) == NIL,
                forall|w: int|
                    0 <= w < heap.words().len() && !(cap_w(p as int) <= w < key_w(p as int, i as int))
                        ==> heap.words()[w] == h_alloc.words()[w],
            decreases capacity - i,
        {
            proof {
                lemma_map_offsets(p, i as int);
            }
            let ghost before = *heap;
            heap.store(p + 16 + 16 * i, nil_word);
            proof {
                assert forall|t: int| 0 <= t < i + 1 implies slot_key(*heap, p as int, t)
                    == NIL by {
                    lemma_map_offsets(p, t);
                    if t < i {
                        assert(slot_key(before, p as int, t) == NIL);
                        assert(key_w(p as int, t) != key_w(p as int, i as int));
                    }
                }
            }
            i = i + 1;
        }
        proof {
            let pi = p as int;
            let h1 = *heap;
            assert(map_cap(h1, pi) == capacity);
            assert(map_count(h1, pi) == 0);
            lemma_occupied_upto_none(h1, pi, capacity as nat);
            assert forall|k: u64| true implies !has_key_upto(h1, pi, capacity as int, k) by {
                if has_key_upto(h1, pi, capacity as int, k) {
                    let i2 = choose|i2: int|
                        0 <= i2 < capacity && #[trigger] slot_key(h1, pi, i2) == k;
                    assert(!occupied(h1, pi, i2));
                }
            }
            assert(map_model(h1, pi) =~= Map::<u64, u64>::empty());
            assert(valid_map(h1, p));
            // Nothing below the original cursor was touched: the table sits
            // in the fresh allocation.
            assert forall|w: int| 0 <= w && 8 * w + 8 <= h0.cursor() implies h1.words()[w]
                == h0.words()[w] by {
                assert(p - 16 >= h0.cursor());
                assert(cap_w(pi) * 8 >= p);
            }
        }
        Some(HeapMap { ptr: p })
    }

    /// Rebuilds a handle from the pointer under which a table was installed.
    pub fn from_ptr(ptr: u64) -> (m: HeapMap)
        ensures
            m.ptr == ptr,
    {
        HeapMap { ptr }
    }

    /// The slot where probing for `key` starts: its hash masked by the
    /// power-of-two capacity.
    pub fn calculate_index(&self, heap: &Heap, key: &Value) -> (r: u64)
        requires
            self.valid(*heap),
        ensures
            r == start_slot(key@, self.cap(*heap)),
            r < self.cap(*heap),
    {
        let cap = self.read_cap(heap);
        proof {
            lemma_pow2_facts(cap);
        }
        let r = hash_bits(key.bits()) & (cap - 1);
        proof {
            lemma_mask_is_mod(hash_spec(key@), cap);
        }
        r
    }

    /// Reads the capacity from the table's header.
    fn read_cap(&self, heap: &Heap) -> (r: u64)
        requires
            self.valid(*heap),
        ensures
            r == self.cap(*heap),
    {
        proof {
            lemma_map_offsets(self.ptr, 0);
            lemma_bounds(*heap, self.ptr);
        }
        heap.read_word(self.ptr) & LOW_MASK
    }

    /// Reads the live-entry count from the table's header.
    fn read_count(&self, heap: &Heap) -> (r: u64)
        requires
            self.valid(*heap),
        ensures
            r == self.count(*heap),
    {
        proof {
            lemma_map_offsets(self.ptr, 0);
            lemma_bounds(*heap, self.ptr);
        }
        heap.read_word(self.ptr + 8) & LOW_MASK
    }

    /// Looks `k` up by the same probe sequence insertion uses: returns the
    /// stored value exactly when `k` is in the table, and is sure to stop
    /// after at most `capacity` probe steps even on a full table.
    #[verifier::loop_isolation(false)]
    pub fn get(&self, heap: &Heap, k: &Value) -> (r: Option<Value>)
        requires
            self.valid(*heap),
            !k.is_nil_spec(),
        ensures
            match r {
                Some(v) => self.model(*heap).dom().contains(k@) && self.model(*heap)[k@] == v@,
                None => !self.model(*heap).dom().contains(k@),
            },
    {
        let p = self.ptr;
        let ghost pi = p as int;
        let cap = self.read_cap(heap);
        proof {
            lemma_bounds(*heap, p);
        }
        let mut idx = self.calculate_index(heap, k);
        let ghost s = start_slot(k@, cap);
        proof {
            lemma_small_mod(s as nat, cap as nat);
        }
        let mut j: u64 = 0;
        while j < cap
            invariant
                j <= cap,
                idx == probe(s, j as int, cap as int),
                idx < cap,
                forall|t: int|
                    0 <= t < j ==> {
                        &&& slot_key(*heap, pi, #[trigger] probe(s, t, cap as int)) != k@
                        &&& occupied(*heap, pi, probe(s, t, cap as int))
                    },
            decreases cap - j,
        {
            proof {
                lemma_map_offsets(p, idx as int);
            }
            let key = heap.read_word(p + 16 + 16 * idx);
            if key == k.bits() {
                let v = heap.read_word(p + 24 + 16 * idx);
                proof {
                    lemma_model_at(*heap, pi, cap as int, idx as int);
                }
                return Some(Value::from_bits(v));
            } else if key == NIL {
                proof {
                    lemma_probe_absent(*heap, p, k@, s, j as int);
                }
                return None;
            }
            let ghost oi = idx;
            idx = (idx + 1) & (cap - 1);
            j = j + 1;
            proof {
                lemma_mask_is_mod((oi + 1) as u64, cap);
                lemma_probe_step(s, j as int - 1, cap as int);
            }
        }
        proof {
            lemma_probe_absent(*heap, p, k@, s, cap as int);
        }
        None
    }

    /// Inserts without growing; callers must leave at least one slot free.
    /// Probes like `get`; an empty slot takes the new pair and raises the
    /// count, an equal key has only its value overwritten.
    #[verifier::loop_isolation(false)]
    fn insert_no_grow(&self, heap: &mut Heap, k: Value, v: Value)
        requires
            valid_map(*old(heap), self.ptr),
            map_count(*old(heap), self.ptr as int) < map_cap(*old(heap), self.ptr as int),
            !k.is_nil_spec(),
        ensures
            valid_map(*final(heap), self.ptr),
            map_cap(*final(heap), self.ptr as int) == map_cap(*old(heap), self.ptr as int),
            map_model(*final(heap), self.ptr as int)
                == map_model(*old(heap), self.ptr as int).insert(k@, v@),
            map_count(*final(heap), self.ptr as int) == map_count(*old(heap), self.ptr as int)
                + (if map_model(*old(heap), self.ptr as int).dom().contains(k@) { 0int } else { 1int }),
            final(heap).cursor() == old(heap).cursor(),
            preserved_outside(
                *old(heap),
                *final(heap),
                region_lo(*old(heap), self.ptr as int),
                region_hi(*old(heap), self.ptr as int),
            ),
    {
        let p = self.ptr;
        let ghost pi = p as int;
        let ghost h0 = *heap;
        let cap = self.read_cap(heap);
        proof {
            lemma_bounds(*heap, p);
            lemma_pow2_facts(cap);
        }
        let mut idx = self.calculate_index(heap, &k);
        let ghost s = start_slot(k@, cap);
        proof {
            lemma_small_mod(s as nat, cap as nat);
        }
        let mut j: u64 = 0;
        while j < cap
            invariant
                *heap == h0,
                j <= cap,
                idx == probe(s, j as int, cap as int),
                idx < cap,
                forall|t: int|
                    0 <= t < j ==> {
                        &&& slot_key(h0, pi, #[trigger] probe(s, t, cap as int)) != k@
                        &&& occupied(h0, pi, probe(s, t, cap as int))
                    },
            decreases cap - j,
        {
            proof {
                lemma_map_offsets(p, idx as int);
            }
            let key = heap.read_word(p + 16 + 16 * idx);
            if key == NIL {
                let count = self.read_count(heap);
                proof {
                    lemma_occupied_upto_le(h0, pi, cap as nat);
                    lemma_probe_absent(h0, p, k@, s, j as int);
                }
                heap.store(p + 16 + 16 * idx, k.bits());
                heap.store(p + 24 + 16 * idx, v.bits());
                heap.store(p + 8, Value::from_uint(count + 1).bits());
                proof {
                    self.lemma_after_fill(h0, *heap, k@, v@, s, j as int, idx as int, count);
                }
                return;
            } else if key == k.bits() {
                proof {
                    lemma_model_at(h0, pi, cap as int, idx as int);
                }
                heap.store(p + 24 + 16 * idx, v.bits());
                proof {
                    self.lemma_after_overwrite(h0, *heap, k@, v@, idx as int);
                }
                return;
            }
            let ghost oi = idx;
            idx = (idx + 1) & (cap - 1);
            j = j + 1;
            proof {
                lemma_mask_is_mod((oi + 1) as u64, cap);
                lemma_probe_step(s, j as int - 1, cap as int);
            }
        }
        proof {
            assert forall|i: int| 0 <= i < cap implies occupied(h0, pi, i) by {
                lemma_probe_dist(s, i, cap as int);
            }
            lemma_occupied_upto_all(h0, pi, cap as nat);
            assert(false);
        }
    }

    /// What holds after filling the empty slot `idx` with `(k, v)` and
    /// bumping the count.
    proof fn lemma_after_fill(
        self,
        h0: Heap,
        h2: Heap,
        k: u64,
        v: u64,
        s: int,
        j: int,
        idx: int,
        count: u64,
    )
        requires
            valid_map(h0, self.ptr),
            k != NIL,
            count == map_count(h0, self.ptr as int),
            count < map_cap(h0, self.ptr as int),
            s == start_slot(k, map_cap(h0, self.ptr as int)),
            0 <= s < map_cap(h0, self.ptr as int),
            0 <= j < map_cap(h0, self.ptr as int),
            idx == probe(s, j, map_cap(h0, self.ptr as int) as int),
            0 <= idx < map_cap(h0, self.ptr as int),
            !occupied(h0, self.ptr as int, idx),
            forall|t: int|
                0 <= t < j ==> {
                    &&& slot_key(h0, self.ptr as int, #[trigger] probe(s, t, map_cap(h0, self.ptr as int) as int)) != k
                    &&& occupied(h0, self.ptr as int, probe(s, t, map_cap(h0, self.ptr as int) as int))
                },
            h2.capacity() == h0.capacity(),
            h2.cursor() == h0.cursor(),
            h2.words() == h0.words()
                .update(key_w(self.ptr as int, idx), k)
                .update(val_w(self.ptr as int, idx), v)
                .update(count_w(self.ptr as int), INT | (count + 1) as u64),
        ensures
            valid_map(h2, self.ptr),
            map_cap(h2, self.ptr as int) == map_cap(h0, self.ptr as int),
            map_model(h2, self.ptr as int) == map_model(h0, self.ptr as int).insert(k, v),
            map_count(h2, self.ptr as int) == map_count(h0, self.ptr as int) + 1,
            !map_model(h0, self.ptr as int).dom().contains(k),
            preserved_outside(h0, h2, region_lo(h0, self.ptr as int), region_hi(h0, self.ptr as int)),
    {
        let p = self.ptr;
        let pi = p as int;
        let cap = map_cap(h0, pi) as int;
        lemma_map_offsets(p, idx);
        lemma_map_offsets(p, 0);
        lemma_bounds(h0, p);
        assert(count + 1 <= LOW_MASK) by {
            lemma_occupied_upto_le(h0, pi, cap as nat);
        }
        assert((INT | (count + 1) as u64) & LOW_MASK == count + 1 && (INT | (count + 1) as u64)
            & HIGH_MASK == INT) by {
            let c = (count + 1) as u64;
            assert(c <= 0x0000_FFFF_FFFF_FFFFu64 ==> (0xFFFD_0000_0000_0000u64 | c)
                & 0x0000_FFFF_FFFF_FFFFu64 == c && (0xFFFD_0000_0000_0000u64 | c)
                & 0xFFFF_0000_0000_0000u64 == 0xFFFD_0000_0000_0000u64) by (bit_vector);
        }
        // Word indices of the three writes are distinct and in range.
        assert(map_cap(h2, pi) == map_cap(h0, pi));
        assert(slot_key(h2, pi, idx) == k);
        assert(slot_val(h2, pi, idx) == v);
        assert(forall|t: int|
            0 <= t < cap && t != idx ==> slot_key(h2, pi, t) == slot_key(h0, pi, t)
                && slot_val(h2, pi, t) == slot_val(h0, pi, t));
        // The probed prefix shows k is nowhere in the table.
        lemma_probe_absent(h0, p, k, s, j);
        assert(forall|t: int| 0 <= t < cap ==> slot_key(h0, pi, t) != k);
        // Count.
        lemma_occupied_upto_fill(h0, h2, pi, idx, cap as nat);
        assert(map_count(h2, pi) == count + 1);
        // Unique keys.
        assert(no_dup_upto(h2, pi, cap));
        // Probe paths: the new slot's own path is the probed prefix; other
        // slots' paths only gained occupancy.
        assert forall|i: int| 0 <= i < cap && occupied(h2, pi, i) implies #[trigger] path_occupied(
            h2,
            pi,
            cap,
            i,
        ) by {
            let ki = slot_key(h2, pi, i);
            let si = start_slot(ki, map_cap(h2, pi));
            if i == idx {
                lemma_probe_dist(s, idx, cap);
                lemma_probe_injective(s, j, dist(s, idx, cap), cap);
                assert(dist(s, idx, cap) == j);
                assert forall|t: int| 0 <= t < dist(si, i, cap) implies occupied(
                    h2,
                    pi,
                    #[trigger] probe(si, t, cap),
                ) by {
                    assert(occupied(h0, pi, probe(s, t, cap)));
                }
            } else {
                assert(occupied(h0, pi, i));
                assert(path_occupied(h0, pi, cap, i));
                assert(slot_key(h0, pi, i) == ki);
                assert forall|t: int| 0 <= t < dist(si, i, cap) implies occupied(
                    h2,
                    pi,
                    #[trigger] probe(si, t, cap),
                ) by {
                    assert(occupied(h0, pi, probe(si, t, cap)));
                }
            }
        }
        assert(valid_map(h2, p));
        // Model.
        if map_model(h0, pi).dom().contains(k) {
            let t = slot_of(h0, pi, cap, k);
            assert(0 <= t < cap && slot_key(h0, pi, t) == k);
            assert(false);
        }
        assert forall|k2: u64| true implies (has_key_upto(h2, pi, cap, k2) == (has_key_upto(
            h0,
            pi,
            cap,
            k2,
        ) || k2 == k)) by {
            if has_key_upto(h2, pi, cap, k2) && k2 != k {
                let t = choose|t: int| 0 <= t < cap && #[trigger] slot_key(h2, pi, t) == k2;
                assert(t != idx);
                assert(slot_key(h0, pi, t) == k2);
            }
            if has_key_upto(h0, pi, cap, k2) {
                let t = choose|t: int| 0 <= t < cap && #[trigger] slot_key(h0, pi, t) == k2;
                assert(t != idx);
                assert(slot_key(h2, pi, t) == k2);
            }
        }
        assert forall|k2: u64| has_key_upto(h2, pi, cap, k2) implies map_model(h2, pi)[k2]
            == map_model(h0, pi).insert(k, v)[k2] by {
            if k2 == k {
                lemma_model_at(h2, pi, cap, idx);
            } else {
                let t = choose|t: int| 0 <= t < cap && #[trigger] slot_key(h0, pi, t) == k2;
                assert(occupied(h0, pi, t));
                lemma_model_at(h0, pi, cap, t);
                assert(t != idx);
                assert(slot_key(h2, pi, t) == k2);
                lemma_model_at(h2, pi, cap, t);
            }
        }
        assert(map_model(h2, pi) =~= map_model(h0, pi).insert(k, v));
        // Framing: the three touched words lie inside the table's region.
        assert(preserved_outside(h0, h2, region_lo(h0, pi), region_hi(h0, pi)));
    }

    /// Rehashes into a fresh table of double capacity, reinserting every
    /// live entry; the handle then points at the new storage.  The old
    /// storage is never touched again (the heap does not reclaim), so stale
    /// readers still see a consistent table.  Fails, leaving everything
    /// unchanged, exactly when the heap cannot fit the new table.
    #[verifier::loop_isolation(false)]
    fn realloc(&mut self, heap: &mut Heap) -> (r: Result<(), VmError>)
        requires
            valid_map(*old(heap), old(self).ptr),
        ensures
            final(heap).wf(),
            final(heap).capacity() == old(heap).capacity(),
            r is Ok <==> realloc_fits(*old(heap), old(self).ptr),
            match r {
                Ok(()) => {
                    &&& valid_map(*final(heap), final(self).ptr)
                    &&& map_cap(*final(heap), final(self).ptr as int)
                        == 2 * map_cap(*old(heap), old(self).ptr as int)
                    &&& map_count(*final(heap), final(self).ptr as int)
                        == map_count(*old(heap), old(self).ptr as int)
                    &&& map_model(*final(heap), final(self).ptr as int)
                        == map_model(*old(heap), old(self).ptr as int)
                    &&& final(self).ptr - 16 >= old(heap).cursor()
                    &&& heap_extended(*old(heap), *final(heap))
                },
                Err(e) => {
                    &&& e == VmError::OutOfMemory
                    &&& *final(heap) == *old(heap)
                    &&& *final(self) == *old(self)
                },
            },
    {
        let p = self.ptr;
        let ghost pi = p as int;
        let ghost h0 = *heap;
        let cap = self.read_cap(heap);
        proof {
            lemma_bounds(*heap, p);
            lemma_pow2_facts(cap);
        }
        if cap > MAX_SLOTS / 2 {
            return Err(VmError::OutOfMemory);
        }
        let new_m = match Self::new(heap, cap * 2) {
            Some(m) => m,
            None => {
                return Err(VmError::OutOfMemory);
            },
        };
        let ghost h1 = *heap;
        proof {
            lemma_region_in_cursor(h0, p);
            lemma_map_framed(h0, h1, p);
        }
        let mut i: u64 = 0;
        while i < cap
            invariant
                heap.wf(),
                heap.capacity() == h1.capacity(),
                heap.cursor() == h1.cursor(),
                heap.words().len() == h1.words().len(),
                i <= cap,
                valid_map(*heap, p),
                map_cap(*heap, pi) == cap,
                map_model(*heap, pi) == map_model(h0, pi),
                forall|t: int| 0 <= t < cap ==> #[trigger] slot_key(*heap, pi, t)
                    == slot_key(h0, pi, t),
                valid_map(*heap, new_m.ptr),
                map_cap(*heap, new_m.ptr as int) == 2 * cap,
                map_count(*heap, new_m.ptr as int) == occupied_upto(*heap, pi, i as nat),
                map_model(*heap, new_m.ptr as int) == map_model_upto(*heap, pi, i as int),
                new_m.ptr - 16 >= h0.cursor(),
                new_m.ptr + 16 + 16 * (2 * cap) == heap.cursor(),
                heap_extended(h0, *heap),
            decreases cap - i,
        {
            proof {
                lemma_map_offsets(p, i as int);
                lemma_bounds(*heap, p);
                lemma_region_in_cursor(*heap, p);
            }
            let key = heap.read_word(p + 16 + 16 * i);
            let ghost h_it = *heap;
            if key != NIL {
                let val = heap.read_word(p + 24 + 16 * i);
                proof {
                    lemma_occupied_upto_le(h_it, pi, i as nat);
                    // The old table's keys are unique, so this key is not in
                    // the part already copied.
                    if has_key_upto(h_it, pi, i as int, key) {
                        let t = choose|t: int|
                            0 <= t < i && #[trigger] slot_key(h_it, pi, t) == key;
                        assert(slot_key(h_it, pi, t) == slot_key(h_it, pi, i as int));
                        assert(false);
                    }
                }
                new_m.insert_no_grow(heap, Value::from_bits(key), Value::from_bits(val));
                proof {
                    lemma_region_in_cursor(h_it, p);
                    lemma_region_in_cursor(h0, p);
                    lemma_map_offsets(new_m.ptr, 0);
                    // The old table sits below the fresh one, so the insert
                    // left it untouched.
                    assert forall|w: int|
                        region_lo(h_it, pi) <= w < region_hi(h_it, pi) implies heap.words()[w]
                        == h_it.words()[w] by {
                        assert(region_hi(h_it, pi) == region_hi(h0, pi));
                        assert(8 * w + 8 <= 8 * region_hi(h_it, pi));
                        assert(8 * region_lo(h_it, new_m.ptr as int) == new_m.ptr - 16);
                        assert(w < region_lo(h_it, new_m.ptr as int));
                    }
                    lemma_map_framed(h_it, *heap, p);
                    lemma_fresh_op_frame(h0, h_it, *heap, new_m.ptr, 0, 0);
                    assert(forall|t: int| 0 <= t < cap ==> #[trigger] slot_key(*heap, pi, t)
                        == slot_key(h_it, pi, t) && #[trigger] slot_val(*heap, pi, t)
                        == slot_val(h_it, pi, t));
                    lemma_model_upto_congruence(h_it, *heap, pi, i as int + 1);
                    lemma_model_upto_step(*heap, pi, i as int);
                    lemma_occupied_upto_congruence(h_it, *heap, pi, (i + 1) as nat);
                }
            } else {
                proof {
                    lemma_model_upto_step(*heap, pi, i as int);
                }
            }
            i = i + 1;
        }
        proof {
            assert(map_model_upto(*heap, pi, cap as int) == map_model(*heap, pi));
            assert(map_count(*heap, new_m.ptr as int) == map_count(h0, pi)) by {
                lemma_occupied_upto_congruence(h0, *heap, pi, cap as nat);
            }
        }
        self.ptr = new_m.ptr;
        Ok(())
    }

    /// Inserts `(k, v)`, overwriting the value when `k` is already present.
    /// When the load factor has passed 7/10 the table is first rehashed into
    /// a double-capacity allocation (which is when insertion can fail with
    /// an out-of-memory report, leaving the table unchanged).
    pub fn insert(&mut self, heap: &mut Heap, k: Value, v: Value) -> (r: Result<(), VmError>)
        requires
            valid_map(*old(heap), old(self).ptr),
            !k.is_nil_spec(),
        ensures
            final(heap).wf(),
            final(heap).capacity() == old(heap).capacity(),
            r is Ok <==> insert_fits(*old(heap), old(self).ptr),
            match r {
                Ok(()) => {
                    &&& valid_map(*final(heap), final(self).ptr)
                    &&& map_model(*final(heap), final(self).ptr as int)
                        == map_model(*old(heap), old(self).ptr as int).insert(k@, v@)
                    &&& map_count(*final(heap), final(self).ptr as int)
                        == map_count(*old(heap), old(self).ptr as int) + (if map_model(
                        *old(heap),
                        old(self).ptr as int,
                    ).dom().contains(k@) {
                        0int
                    } else {
                        1int
                    })
                    &&& map_cap(*final(heap), final(self).ptr as int)
                        >= map_cap(*old(heap), old(self).ptr as int)
                    &&& (final(self).ptr == old(self).ptr || final(self).ptr - 16
                        >= old(heap).cursor())
                    &&& (final(self).ptr == old(self).ptr ==> map_cap(
                        *final(heap),
                        final(self).ptr as int,
                    ) == map_cap(*old(heap), old(self).ptr as int))
                    &&& (final(self).ptr != old(self).ptr ==> heap_extended(
                        *old(heap),
                        *final(heap),
                    ))
                    &&& (10 * map_count(*old(heap), old(self).ptr as int) <= 7 * map_cap(
                        *old(heap),
                        old(self).ptr as int,
                    ) ==> final(self).ptr == old(self).ptr && final(heap).cursor()
                        == old(heap).cursor())
                    &&& (10 * map_count(*old(heap), old(self).ptr as int) > 7 * map_cap(
                        *old(heap),
                        old(self).ptr as int,
                    ) ==> final(self).ptr != old(self).ptr && map_cap(
                        *final(heap),
                        final(self).ptr as int,
                    ) == 2 * map_cap(*old(heap), old(self).ptr as int))
                    &&& preserved_outside(
                        *old(heap),
                        *final(heap),
                        region_lo(*old(heap), old(self).ptr as int),
                        region_hi(*old(heap), old(self).ptr as int),
                    )
                },
                Err(e) => {
                    &&& e == VmError::OutOfMemory
                    &&& *final(heap) == *old(heap)
                    &&& *final(self) == *old(self)
                },
            },
    {
        let ghost h0 = *heap;
        let ghost p0 = self.ptr;
        let count = self.read_count(heap);
        let cap = self.read_cap(heap);
        proof {
            lemma_bounds(*heap, self.ptr);
            lemma_occupied_upto_le(*heap, self.ptr as int, cap as nat);
            lemma_pow2_facts(cap);
        }
        if count * 10 > cap * 7 {
            match self.realloc(heap) {
                Ok(()) => {
                    proof {
                        lemma_region_in_cursor(h0, p0);
                        assert(self.ptr != p0);
                    }
                },
                Err(e) => {
                    return Err(e);
                },
            }
        }
        let ghost h1 = *heap;
        let ghost grew = self.ptr != p0;
        proof {
            assert(map_count(h1, self.ptr as int) < map_cap(h1, self.ptr as int));
        }
        let m = HeapMap { ptr: self.ptr };
        m.insert_no_grow(heap, k, v);
        proof {
            if grew {
                lemma_fresh_op_frame(
                    h0,
                    h1,
                    *heap,
                    m.ptr,
                    region_lo(h0, p0 as int),
                    region_hi(h0, p0 as int),
                );
                lemma_fresh_op_frame(h0, h1, *heap, m.ptr, 0, 0);
            }
        }
        Ok(())
    }

    /// What holds after overwriting the value of the slot already holding
    /// `k`.
    proof fn lemma_after_overwrite(self, h0: Heap, h2: Heap, k: u64, v: u64, idx: int)
        requires
            valid_map(h0, self.ptr),
            k != NIL,
            0 <= idx < map_cap(h0, self.ptr as int),
            slot_key(h0, self.ptr as int, idx) == k,
            h2.capacity() == h0.capacity(),
            h2.cursor() == h0.cursor(),
            h2.words() == h0.words().update(val_w(self.ptr as int, idx), v),
        ensures
            valid_map(h2, self.ptr),
            map_cap(h2, self.ptr as int) == map_cap(h0, self.ptr as int),
            map_model(h2, self.ptr as int) == map_model(h0, self.ptr as int).insert(k, v),
            map_count(h2, self.ptr as int) == map_count(h0, self.ptr as int),
            map_model(h0, self.ptr as int).dom().contains(k),
            preserved_outside(h0, h2, region_lo(h0, self.ptr as int), region_hi(h0, self.ptr as int)),
    {
        let p = self.ptr;
        let pi = p as int;
        let cap = map_cap(h0, pi) as int;
        lemma_map_offsets(p, idx);
        lemma_map_offsets(p, 0);
        lemma_bounds(h0, p);
        assert(map_cap(h2, pi) == map_cap(h0, pi));
        assert(forall|t: int| 0 <= t < cap ==> slot_key(h2, pi, t) == slot_key(h0, pi, t));
        assert(slot_val(h2, pi, idx) == v);
        assert(forall|t: int|
            0 <= t < cap && t != idx ==> slot_val(h2, pi, t) == slot_val(h0, pi, t));
        lemma_occupied_upto_congruence(h0, h2, pi, cap as nat);
        assert forall|i: int| 0 <= i < cap && occupied(h2, pi, i) implies #[trigger] path_occupied(
            h2,
            pi,
            cap,
            i,
        ) by {
            assert(occupied(h0, pi, i));
            assert(path_occupied(h0, pi, cap, i));
            let ki = slot_key(h2, pi, i);
            let si = start_slot(ki, map_cap(h2, pi));
            assert forall|t: int| 0 <= t < dist(si, i, cap) implies occupied(
                h2,
                pi,
                #[trigger] probe(si, t, cap),
            ) by {
                assert(occupied(h0, pi, probe(si, t, cap)));
            }
        }
        assert(valid_map(h2, p));
        lemma_model_at(h0, pi, cap, idx);
        assert forall|k2: u64| true implies has_key_upto(h2, pi, cap, k2) == has_key_upto(
            h0,
            pi,
            cap,
            k2,
        ) by {
            if has_key_upto(h2, pi, cap, k2) {
                let t = choose|t: int| 0 <= t < cap && #[trigger] slot_key(h2, pi, t) == k2;
                assert(slot_key(h0, pi, t) == k2);
            }
            if has_key_upto(h0, pi, cap, k2) {
                let t = choose|t: int| 0 <= t < cap && #[trigger] slot_key(h0, pi, t) == k2;
                assert(slot_key(h2, pi, t) == k2);
            }
        }
        assert forall|k2: u64| has_key_upto(h2, pi, cap, k2) implies map_model(h2, pi)[k2]
            == map_model(h0, pi).insert(k, v)[k2] by {
            if k2 == k {
                lemma_model_at(h2, pi, cap, idx);
            } else {
                let t = choose|t: int| 0 <= t < cap && #[trigger] slot_key(h0, pi, t) == k2;
                assert(occupied(h0, pi, t));
                lemma_model_at(h0, pi, cap, t);
                assert(t != idx);
                assert(slot_key(h2, pi, t) == k2);
                lemma_model_at(h2, pi, cap, t);
            }
        }
        assert(map_model(h2, pi) =~= map_model(h0, pi).insert(k, v));
        assert(preserved_outside(h0, h2, region_lo(h0, pi), region_hi(h0, pi)));
    }
}

proof fn lemma_occupied_upto_pos(h: Heap, p: int, n: nat)
    requires
        occupied_upto(h, p, n) > 0,
    ensures
        exists|i: int| 0 <= i < n && #[trigger] occupied(h, p, i),
    decreases n,
{
    if n > 0 {
        if occupied(h, p, n - 1) {
            assert(occupied(h, p, n as int - 1));
        } else {
            lemma_occupied_upto_pos(h, p, (n - 1) as nat);
        }
    }
}

/// A table with no entries in its model holds no occupied slot, so its
/// recorded count is zero.
pub proof fn lemma_empty_model_count_zero(h: Heap, p: u64)
    requires
        valid_map(h, p),
        map_model(h, p as int) == Map::<u64, u64>::empty(),
    ensures
        map_count(h, p as int) == 0,
{
    let cap = map_cap(h, p as int) as int;
    if map_count(h, p as int) > 0 {
        lemma_occupied_upto_pos(h, p as int, cap as nat);
        let i = choose|i: int| 0 <= i < cap && #[trigger] occupied(h, p as int, i);
        assert(has_key_upto(h, p as int, cap, slot_key(h, p as int, i)));
        assert(map_model(h, p as int).dom().contains(slot_key(h, p as int, i)));
    }
}

/// The law of insertion: after an insert of `(k, v)` (which `insert`
/// reports as the new model), looking `k` up finds exactly `v`, every other
/// key's binding is untouched, and a key never inserted stays absent.
pub proof fn lemma_insert_then_get(h0: Heap, h1: Heap, p0: u64, p1: u64, k: u64, v: u64)
    requires
        map_model(h1, p1 as int) == map_model(h0, p0 as int).insert(k, v),
    ensures
        map_model(h1, p1 as int).dom().contains(k),
        map_model(h1, p1 as int)[k] == v,
        forall|k2: u64|
            k2 != k ==> map_model(h1, p1 as int).dom().contains(k2) == map_model(
                h0,
                p0 as int,
            ).dom().contains(k2),
        forall|k2: u64|
            k2 != k && map_model(h0, p0 as int).dom().contains(k2) ==> map_model(h1, p1 as int)[k2]
                == map_model(h0, p0 as int)[k2],
{
}

/// Bounds that every valid table's offsets satisfy, ready for the overflow
/// and bounds checks of the word accessors.
proof fn lemma_bounds(h: Heap, p: u64)
    requires
        valid_map(h, p),
    ensures
        p + 16 + 16 * map_cap(h, p as int) <= h.capacity(),
        map_cap(h, p as int) <= MAX_CAPACITY / 16,
        h.capacity() <= MAX_CAPACITY,
{
}

} // verus!
