//! Arbitrary-precision non-negative integers in base 1_000_000_000, with
//! three multiplication algorithms (schoolbook, four-way divide-and-conquer,
//! Karatsuba) proved to compute the same exact product.

pub mod bigint;
pub mod decimal;
pub mod limbs;
pub mod mul;
pub mod random;

pub use bigint::BigInt;
pub use limbs::BASE;
