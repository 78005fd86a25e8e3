//! Random test inputs: a value with a requested number of decimal digits,
//! leading digit nonzero, drawn through the `rand` crate.

use crate::bigint::BigInt;
use crate::decimal::{
    all_digit_bytes, chars_as_bytes, dec_val_bytes, is_digit_byte, lemma_dec_val_bytes_bound,
    lemma_dec_val_bytes_lower, pow10, string_from_ascii,
};
use rand::Rng;
use vstd::prelude::*;

verus! {

#[verifier::external_type_specification]
#[verifier::external_body]
pub struct ExThreadRng(rand::rngs::ThreadRng);

/// Relies on rand::thread_rng: a handle to the thread-local generator.
#[verifier::external_body]
fn new_rng() -> rand::rngs::ThreadRng {
    rand::thread_rng()
}

/// Relies on rand::Rng::gen_range: a value drawn from the given inclusive
/// range; it panics only on an empty range, which the precondition rules
/// out, and nothing more than membership is promised of the draw.
#[verifier::external_body]
fn gen_range_u8(rng: &mut rand::rngs::ThreadRng, lo: u8, hi: u8) -> (r: u8)
    requires
        lo <= hi,
    ensures
        lo <= r <= hi,
{
    rng.gen_range(lo..=hi)
}

/// A random value with exactly `d` decimal digits, the first drawn from
/// 1-9 and the rest from 0-9; zero digits gives the zero value.
pub fn random_bigint(d: usize) -> (r: BigInt)
    ensures
        r.well_formed(),
        d == 0 ==> r.value() == 0,
        d > 0 ==> pow10((d - 1) as nat) <= r.value() < pow10(d as nat),
{
    if d == 0 {
        return BigInt::new();
    }
    let mut rng = new_rng();
    let mut bytes: Vec<u8> = Vec::new();
    let first = gen_range_u8(&mut rng, 49, 57);
    bytes.push(first);
    let mut i: usize = 1;
    while i < d
        invariant
            1 <= i <= d,
            bytes@.len() == i,
            forall|t: int| 0 <= t < i ==> is_digit_byte(bytes@[t]),
            bytes@[0] != 48,
        decreases d - i,
    {
        let b = gen_range_u8(&mut rng, 48, 57);
        bytes.push(b);
        i = i + 1;
    }
    let ghost digit_bytes = bytes@;
    proof {
        lemma_dec_val_bytes_bound(digit_bytes);
        lemma_dec_val_bytes_lower(digit_bytes);
    }
    let s = string_from_ascii(bytes);
    let r = BigInt::from_str(s.as_str());
    proof {
        assert(chars_as_bytes(s@) =~= digit_bytes);
        assert(all_digit_bytes(chars_as_bytes(s@)));
        assert(r.value() == dec_val_bytes(digit_bytes));
    }
    r
}

} // verus!
