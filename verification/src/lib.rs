//! Execution core of a small message-passing dynamic language.
//!
//! Every runtime datum is a 64-bit NaN-boxed [`value::Value`]; objects live in
//! a bump-allocated [`heap::Heap`] arena; global variables and per-type
//! message-handler tables are open-addressing [`heapmap::HeapMap`] hash tables
//! whose storage is itself a heap allocation.  A statement tree ([`ast`]) is
//! translated by [`compiler`] into flat [`bytecode`] instructions, which the
//! stack-machine interpreter ([`interp`]) executes, dispatching every message
//! through the type registry.

pub mod ast;
pub mod bytecode;
pub mod compiler;
pub mod errors;
pub mod heap;
pub mod heapmap;
pub mod idents;
pub mod interp;
pub mod runtime;
pub mod stdlib;
pub mod value;
