//! Arbitrary-precision integers and decimals, byte-buffer traits and a persistent byte rope.

pub mod bigint;
pub mod buffer;
pub mod chunks;
pub mod decimal;
pub mod digits;
pub mod rope;
pub mod shared;
pub mod text;
