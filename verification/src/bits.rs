//! Bit-range reads and writes on 64-bit words, done by the `bit_field` crate.
use vstd::prelude::*;
use bit_field::BitField;

verus! {

/// The word `BitField::get_bits` returns for the bit range `lo..hi` of `x`:
/// the high bits above `hi` shifted away, then the low bits below `lo`.
pub open spec fn get_bits_spec(x: u64, lo: u64, hi: u64) -> u64 {
    if lo == hi {
        0
    } else {
        ((x << ((64 - hi) as u64)) >> ((64 - hi) as u64)) >> lo
    }
}

/// The mask with exactly the bits `lo..hi` set, built as `BitField::set_bits` builds it.
pub open spec fn range_mask_spec(lo: u64, hi: u64) -> u64 {
    (((!0u64 << ((64 - hi) as u64)) >> ((64 - hi) as u64)) >> lo) << lo
}

/// The word `BitField::set_bits` leaves behind when it writes `v` into the bits
/// `lo..hi` of `x`.
pub open spec fn set_bits_spec(x: u64, lo: u64, hi: u64, v: u64) -> u64 {
    if lo == hi {
        x
    } else {
        (x & !range_mask_spec(lo, hi)) | (v << lo)
    }
}

/// Whether `v` fits into a field of the bits `lo..hi` (the check `set_bits` asserts).
pub open spec fn fits_bits_spec(lo: u64, hi: u64, v: u64) -> bool {
    (v << ((64 - (hi - lo)) as u64)) >> ((64 - (hi - lo)) as u64) == v
}

/// Calls `<u64 as BitField>::get_bits(x, lo..hi)`, which returns the bits
/// `lo..hi` of `x` moved down to bit 0; it asserts that the range lies within
/// the word, which `requires` guarantees.
#[verifier::external_body]
pub(crate) fn get_bits(x: u64, lo: u64, hi: u64) -> (r: u64)
    requires
        lo < hi <= 64,
    ensures
        r == get_bits_spec(x, lo, hi),
{
    x.get_bits((lo as usize)..(hi as usize))
}

/// Calls `<u64 as BitField>::set_bits(&mut x, lo..hi, v)` and returns the new
/// word: the bits `lo..hi` of `x` replaced by `v`, the others kept. The crate
/// asserts that the range lies within the word and that `v` fits into it,
/// which `requires` guarantees.
#[verifier::external_body]
pub(crate) fn set_bits(x: u64, lo: u64, hi: u64, v: u64) -> (r: u64)
    requires
        lo < hi <= 64,
        fits_bits_spec(lo, hi, v),
    ensures
        r == set_bits_spec(x, lo, hi, v),
{
    let mut word = x;
    word.set_bits((lo as usize)..(hi as usize), v);
    word
}

} // verus!
