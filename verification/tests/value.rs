//! The tagged value encoding: round trips and the category partition.

use msgvm::heap::Heap;
use msgvm::value::{type_id_code, type_id_from_code, TypeId, Value};

fn predicates(v: &Value, heap: &Heap) -> (bool, bool, bool, bool, bool, bool) {
    let _ = v.type_of(heap);
    (v.is_float(), v.is_int(), v.is_ptr(), v.is_true(), v.is_false(), v.is_nil())
}

fn assert_exactly_one(v: &Value, heap: &Heap) {
    let (f, i, p, t, fa, n) = predicates(v, heap);
    let count = [f, i, p, t, fa, n].iter().filter(|b| **b).count();
    assert_eq!(count, 1, "predicates must partition: {:?}", (f, i, p, t, fa, n));
}

#[test]
fn int_round_trip() {
    for i in [0i32, 1, -1, 42, -42, i32::MAX, i32::MIN, 123_456_789, -987_654_321] {
        let v = Value::from_int(i);
        assert!(v.is_int());
        assert_eq!(v.as_int(), i);
    }
}

#[test]
fn float_round_trip_bit_exact() {
    for f in [0.0f64, 1.5, -1.5, 3.25e300, -0.0, f64::INFINITY, f64::NEG_INFINITY, 5e-324] {
        let v = Value::from_float_bits(f.to_bits());
        assert!(v.is_float());
        assert_eq!(v.as_float_bits(), f.to_bits());
        assert_eq!(f64::from_bits(v.as_float_bits()).to_bits(), f.to_bits());
    }
}

#[test]
fn nan_is_canonicalized() {
    let quiet = f64::NAN.to_bits();
    let payload_nan = quiet | 0xDEAD;
    let negative_nan = payload_nan | 0x8000_0000_0000_0000;
    let a = Value::from_float_bits(quiet);
    let b = Value::from_float_bits(payload_nan);
    let c = Value::from_float_bits(negative_nan);
    assert_eq!(a.as_float_bits(), b.as_float_bits());
    assert_eq!(b.as_float_bits(), c.as_float_bits());
    assert!(a.is_nan());
    assert!(f64::from_bits(a.as_float_bits()).is_nan());
}

#[test]
fn predicates_partition_constructed_values() {
    let heap = Heap::new_with_capacity(4096);
    let samples = [
        Value::from_int(7),
        Value::from_int(-7),
        Value::from_uint(0),
        Value::from_float_bits(2.5f64.to_bits()),
        Value::from_float_bits((-2.5f64).to_bits()),
        Value::from_float_bits(f64::NAN.to_bits()),
        Value::from_bool(true),
        Value::from_bool(false),
        Value::nil(),
        Value::from_ptr(16),
    ];
    for v in samples.iter() {
        assert_exactly_one(v, &heap);
    }
}

#[test]
fn primitive_type_of() {
    let heap = Heap::new_with_capacity(4096);
    assert!(matches!(Value::from_int(3).type_of(&heap), TypeId::Int));
    assert!(matches!(
        Value::from_float_bits(1.0f64.to_bits()).type_of(&heap),
        TypeId::Float
    ));
    assert!(matches!(Value::from_bool(true).type_of(&heap), TypeId::True));
    assert!(matches!(Value::from_bool(false).type_of(&heap), TypeId::False));
    assert!(matches!(Value::nil().type_of(&heap), TypeId::Nil));
    // A pointer that no allocation produced has no type.
    assert!(matches!(Value::from_ptr(48).type_of(&heap), TypeId::NONE));
}

#[test]
fn type_codes_round_trip() {
    let all = [
        TypeId::NONE,
        TypeId::Nil,
        TypeId::Int,
        TypeId::Float,
        TypeId::True,
        TypeId::False,
        TypeId::String,
        TypeId::HeapMap,
        TypeId::CompiledBytecode,
    ];
    for t in all {
        assert_eq!(type_id_from_code(type_id_code(t)), t);
    }
    assert_eq!(type_id_from_code(999), TypeId::NONE);
}

#[test]
fn uint_and_ptr_payloads() {
    let v = Value::from_uint(0xABCD_EF01_2345);
    assert!(v.is_int());
    assert_eq!(v.as_uint(), 0xABCD_EF01_2345);
    let p = Value::from_ptr(0x1234_5678);
    assert!(p.is_ptr());
    assert_eq!(p.as_ptr(), 0x1234_5678);
}
