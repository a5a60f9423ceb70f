//! Arbitrary-precision natural numbers and signed integers over base-2^32
//! digit vectors, with verified addition, subtraction, multiplication,
//! long division, comparison, and decimal conversion.
#![verifier::loop_isolation(false)]

mod bigint;
mod bignat;
mod dec;
mod digits;
mod div;
mod laws;

pub use bigint::BigInt;
pub use bigint::Sign;
pub use bignat::BigNat;
pub use dec::all_dec_digits;
pub use dec::canonical_decimal;
pub use dec::dec_body;
pub use dec::dec_chars_of;
pub use dec::dec_digit_val;
pub use dec::dec_neg;
pub use dec::dec_value;
pub use dec::is_dec_digit;
pub use dec::strip_zeros;

use vstd::prelude::*;

verus! {

/// The radix of the internal positional representation: each digit is a
/// `u32`, and carries are computed in `u64`.
pub const BASE: u64 = 0x1_0000_0000;

/// Shared surface of the arbitrary-precision number types: the canonical
/// zero, the zero test, re-canonicalization, and the digit count.
pub trait APNum: Sized {
    /// The representation invariant: one canonical form per value.
    spec fn well_formed(&self) -> bool;

    /// The numeric value the representation stands for.
    spec fn as_int(&self) -> int;

    /// When re-canonicalization can restore the invariant: always, except
    /// for a zero-tagged signed value holding a nonzero magnitude.
    spec fn norm_ready(&self) -> bool;

    /// Number of stored magnitude digits, at the specification level.
    spec fn spec_digit_count(&self) -> nat;

    /// The number zero, in its single canonical representation.
    fn zero() -> (r: Self)
        ensures
            r.well_formed(),
            r.as_int() == 0,
            r.spec_digit_count() == 0,
    ;

    /// Whether this value is numerically zero.
    fn is_zero(&self) -> (r: bool)
        requires
            self.well_formed(),
        ensures
            r <==> self.as_int() == 0,
    ;

    /// Strips most-significant zero digits (and fixes the sign tag of a
    /// signed zero), restoring canonical form without changing the value.
    fn zero_normalized(self) -> (r: Self)
        requires
            self.norm_ready(),
        ensures
            r.well_formed(),
            r.as_int() == self.as_int(),
    ;

    /// Number of stored magnitude digits.
    fn digit_count(&self) -> (r: usize)
        ensures
            r == self.spec_digit_count(),
    ;
}

/// The two recoverable parse failures: no digits at all, or a character
/// outside the decimal grammar.
#[derive(Debug)]
pub enum APNumParseError {
    Empty,
    Invalid,
}

} // verus!
