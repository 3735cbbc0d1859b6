//! Mathematical helpers for recreational number-theory puzzles:
//! arbitrary-precision arithmetic (factorial, square roots to many digits,
//! continued fractions, integer partitions), poker hand ranking, and a
//! collection of combinatorics and number-theory utilities.

pub mod bignum;
pub mod big;
pub mod cards;
pub mod common;
pub mod primes;
