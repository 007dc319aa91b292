//! IEEE 754 binary64 arithmetic on bit patterns.
pub mod arith;
pub mod model;
pub mod range;
pub mod rounding;
