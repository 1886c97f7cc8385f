//! Arbitrary-precision signed integers in a sign-magnitude, base-10
//! digit-vector representation, with verified construction, rendering,
//! equality, addition, subtraction and multiplication.

pub mod bigint;
pub mod digits;
