//! The arena heap and the in-heap hash table.

use msgvm::heap::Heap;
use msgvm::heapmap::HeapMap;
use msgvm::value::{type_id_code, TypeId, Value};

#[test]
fn allocations_are_disjoint_and_keep_headers() {
    let mut heap = Heap::new_with_capacity(4096);
    let p1 = heap.allocate(40, TypeId::String).unwrap();
    let p2 = heap.allocate(24, TypeId::CompiledBytecode).unwrap();
    let p3 = heap.allocate(0, TypeId::HeapMap).unwrap();
    // Sequential allocations never overlap.
    assert!(p1 + 40 <= p2);
    assert!(p2 + 24 <= p3);
    // Bodies are 16-byte aligned.
    assert_eq!(p1 % 16, 0);
    assert_eq!(p2 % 16, 0);
    assert_eq!(p3 % 16, 0);
    // The type written at allocation is recoverable behind each pointer,
    // even after later allocations.
    assert_eq!(heap.type_code_of(p1).unwrap(), type_id_code(TypeId::String));
    assert_eq!(
        heap.type_code_of(p2).unwrap(),
        type_id_code(TypeId::CompiledBytecode)
    );
    assert_eq!(heap.type_code_of(p3).unwrap(), type_id_code(TypeId::HeapMap));
}

#[test]
fn allocation_fails_only_when_full() {
    let mut heap = Heap::new_with_capacity(64);
    // 16 bytes of header + 32 bytes of body fit in 64.
    let p = heap.allocate(32, TypeId::String).unwrap();
    assert_eq!(p, 16);
    // Nothing more fits; the failure is explicit and the heap unchanged.
    assert!(heap.allocate(32, TypeId::String).is_none());
    assert_eq!(heap.type_code_of(p).unwrap(), type_id_code(TypeId::String));
}

#[test]
fn insert_then_get_returns_inserted() {
    let mut heap = Heap::new_with_capacity(1 << 16);
    let mut map = HeapMap::new(&mut heap, 16).unwrap();
    let k = Value::from_uint(5);
    let v = Value::from_int(1234);
    map.insert(&mut heap, k, v).unwrap();
    let got = map.get(&heap, &k).unwrap();
    assert_eq!(got.as_int(), 1234);
}

#[test]
fn reinsert_updates_value_without_count_change() {
    let mut heap = Heap::new_with_capacity(1 << 16);
    let mut map = HeapMap::new(&mut heap, 16).unwrap();
    let k = Value::from_uint(9);
    map.insert(&mut heap, k, Value::from_int(1)).unwrap();
    let count_words_before = heap.read_word(map.ptr + 8);
    map.insert(&mut heap, k, Value::from_int(2)).unwrap();
    let count_words_after = heap.read_word(map.ptr + 8);
    assert_eq!(map.get(&heap, &k).unwrap().as_int(), 2);
    assert_eq!(count_words_before, count_words_after);
}

#[test]
fn get_of_absent_key_is_none() {
    let mut heap = Heap::new_with_capacity(1 << 16);
    let mut map = HeapMap::new(&mut heap, 16).unwrap();
    map.insert(&mut heap, Value::from_uint(1), Value::from_int(10)).unwrap();
    assert!(map.get(&heap, &Value::from_uint(2)).is_none());
    assert!(map.get(&heap, &Value::from_int(-1)).is_none());
}

#[test]
fn growth_keeps_every_entry() {
    let mut heap = Heap::new_with_capacity(1 << 20);
    // A tiny table forces several rehashes into larger storage.
    let mut map = HeapMap::new(&mut heap, 1).unwrap();
    for i in 0..100u64 {
        map.insert(&mut heap, Value::from_uint(i), Value::from_uint(i * i)).unwrap();
    }
    for i in 0..100u64 {
        let got = map.get(&heap, &Value::from_uint(i)).unwrap();
        assert_eq!(got.as_uint(), i * i);
    }
    assert!(map.get(&heap, &Value::from_uint(100)).is_none());
}

#[test]
fn float_keys_compare_by_canonical_bits() {
    let mut heap = Heap::new_with_capacity(1 << 16);
    let mut map = HeapMap::new(&mut heap, 16).unwrap();
    let k1 = Value::from_float_bits(f64::NAN.to_bits());
    let k2 = Value::from_float_bits((f64::NAN.to_bits()) | 0xFF);
    map.insert(&mut heap, k1, Value::from_int(7)).unwrap();
    // Every NaN canonicalizes to the same key.
    assert_eq!(map.get(&heap, &k2).unwrap().as_int(), 7);
}

#[test]
fn insert_reports_exhaustion() {
    // Too small for the doubled table a rehash would need.
    let mut heap = Heap::new_with_capacity(96);
    let mut map = HeapMap::new(&mut heap, 2).unwrap();
    map.insert(&mut heap, Value::from_uint(1), Value::from_int(1)).unwrap();
    map.insert(&mut heap, Value::from_uint(2), Value::from_int(2)).unwrap();
    // The load factor now forces a rehash, which cannot fit.
    let r = map.insert(&mut heap, Value::from_uint(3), Value::from_int(3));
    assert!(matches!(r, Err(msgvm::errors::VmError::OutOfMemory)));
    // The table is unchanged.
    assert_eq!(map.get(&heap, &Value::from_uint(1)).unwrap().as_int(), 1);
    assert_eq!(map.get(&heap, &Value::from_uint(2)).unwrap().as_int(), 2);
    assert!(map.get(&heap, &Value::from_uint(3)).is_none());
}
