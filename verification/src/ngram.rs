//! Integer identifiers of n-grams.

use vstd::prelude::*;

verus! {

/// Identifier of the n-gram obtained by appending `new_letter` to the n-gram
/// whose identifier is `previous`, over an alphabet of `alphabet_size` letters:
/// the identifiers read an n-gram as a number in base `alphabet_size`.
///
/// The identifier has to fit in 32 bits.
pub fn get_n_gram_id(previous: u32, new_letter: u32, alphabet_size: u32) -> (id: u32)
    requires
        alphabet_size * previous + new_letter <= u32::MAX,
    ensures
        id == alphabet_size * previous + new_letter,
{
    assert(0 <= alphabet_size * previous) by (nonlinear_arith);
    alphabet_size * previous + new_letter
}

} // verus!
