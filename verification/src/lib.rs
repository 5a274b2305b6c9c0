//! An RSA (hidden-order-group) cryptographic accumulator: a compact
//! commitment to a set of prime-encoded elements that supports batched
//! insertion, batched deletion, and membership witnesses verifiable against
//! the accumulator value alone.
//!
//! Group elements, witnesses and members are unsigned integers reduced
//! modulo a fixed composite `MODULUS` of (assumed) unknown factorization.
//! This crate uses a small reference test modulus; a production deployment
//! would substitute a full-width RSA modulus and a wider integer type.

use vstd::prelude::*;

pub mod arith;
pub mod engine;
pub mod ledger;
pub mod prime;
pub mod witness;

verus! {

/// The fixed public modulus N of the accumulator group. The reference test
/// configuration uses a small value; its role is the same as a full RSA
/// modulus: all group arithmetic is done mod N.
pub const MODULUS: u128 = 13;

/// The fixed generator g of the accumulator: the state of the empty set.
pub const GENERATOR: u128 = 2;

/// Upper bound (exclusive) for primes produced by hash-to-prime. Members of
/// the accumulated set are primes below this bound.
pub const LAMBDA: u128 = 4294967296;

/// Errors reported by the accumulator engine. Every failure is explicit:
/// no operation silently wraps, truncates, or partially applies a batch.
/// Inconsistent root inputs to `shamir_trick` (two alleged roots of
/// different values) surface as its `None` result — "not combinable"
/// rather than a wrong answer.
#[derive(Clone, Copy, Debug, PartialEq, Eq, Structural)]
pub enum AccumulatorError {
    /// An arithmetic intermediate (an exponent product or a signed Bezout
    /// coefficient) would exceed the representable integer width.
    Overflow,
    /// A pair of exponents required to be coprime has gcd > 1, which
    /// signals a duplicate or non-prime member.
    NotCoprime,
    /// A supplied membership witness fails `witness^member == state`; the
    /// whole batch is rejected.
    InvalidWitness,
    /// Hash-to-prime exceeded its iteration cap without finding a prime.
    PrimeSearchExhausted,
}

} // verus!
