//! Random numbers from the thread-local generator of `rand`.

use num_bigint::RandBigInt;
use rand::Rng;
use vstd::prelude::*;
use vstd::arithmetic::power2::pow2;
use crate::text::decimal;

verus! {

/// `rand::thread_rng().gen::<usize>()`: any `usize` may come back.
#[verifier::external_body]
pub(crate) fn random_usize() -> usize {
    rand::thread_rng().gen()
}

/// `rand::thread_rng().gen::<u64>()`: any `u64` may come back.
#[verifier::external_body]
pub(crate) fn random_u64() -> u64 {
    rand::thread_rng().gen()
}

/// An optionally negative decimal numeral of a number whose magnitude is
/// below two to the power `bits`: digits with no leading zero, after a minus
/// sign when the number is below zero.
pub open spec fn is_signed_decimal_below(s: Seq<char>, bits: nat) -> bool {
    exists|n: nat|
        n < pow2(bits) && (s == #[trigger] decimal(n) || (n > 0 && s == seq!['-'] + decimal(n)))
}

/// `rand::thread_rng().gen_bigint(bits)` of `num-bigint`, rendered with
/// `to_string`: a random integer of at most `bits` bits, written as
/// `BigInt`'s `Display` writes it (a minus sign for a negative number, then
/// the decimal digits of its magnitude, which is below two to the power
/// `bits`). Which integer comes back is chance.
#[verifier::external_body]
pub(crate) fn random_bigint_decimal(bits: u64) -> (s: String)
    ensures
        is_signed_decimal_below(s@, bits as nat),
{
    rand::thread_rng().gen_bigint(bits).to_string()
}

} // verus!
