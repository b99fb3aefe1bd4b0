//! Exact number types.

pub mod digits;
pub mod factoring;
pub mod divisibility;
pub mod fraction;
pub mod integers;
pub mod polynomial;
pub mod ring;
