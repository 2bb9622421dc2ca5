//! Double-precision arithmetic on bit patterns.
//!
//! A double is held as the sixty-four bits of its IEEE 754 encoding, and each
//! operation is carried out on whole numbers. What an operation returns is
//! stated on the numbers that the bit patterns stand for: it is the exact
//! result, rounded to the nearest double, of two equally near the one with
//! the even mantissa.

pub mod convert;
pub mod facts;
pub mod pack;
pub mod product;
pub mod quot;
pub mod repr;
pub mod root;
pub mod rounding;
pub mod scalar;
pub mod sum;
