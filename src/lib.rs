//! Exact fixed-precision decimal values for a key-value store: parsing,
//! validation, canonical rendering and the read-modify-write arithmetic
//! behind the GET/SET/INCRBY/DECRBY decimal commands.
pub mod model;
pub mod decimal;
pub mod bignum;
pub mod codec;
pub mod engine;
pub mod theorems;
