//! A fixed-shape matrix-by-vector product over 32-bit signed integers whose
//! operands live both in process memory and in a growable, page-granular,
//! byte-addressed store, with three interchangeable multiply engines: one
//! in memory, one reading the store four words per access, and one reading
//! it sixteen bytes per access. All three wrap on overflow and give the same
//! output.
pub mod arith;
pub mod layout;
pub mod matrix;
pub mod store;

pub use layout::{pages_for, Layout, PAGE_SIZE};
pub use matrix::{
    init, matmul, multiply_heap, multiply_stable, multiply_stable_old, update_empty, Canister,
    CapacityError, PreconditionViolation,
};
pub use store::{i32_from_le, i32_to_le, GrowError, Store};
