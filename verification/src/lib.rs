//! Arbitrary-precision unsigned integers stored as base-10 digit sequences.
//!
//! A value is a dense, most-significant-digit-first sequence of decimal
//! digits.  The library constructs such values from machine integers and
//! decimal text, renders them back to text, and provides shifted addition,
//! multiplication and factorial, each with a contract relating the digit
//! sequence of the result to the numeric values of the operands.

pub mod biguint;
pub mod digits;
pub mod laws;
