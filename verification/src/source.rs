//! What the library takes from outside itself and does not prove: random
//! draws, made-up names, the encoding of identifiers, and the comparison of two
//! pieces of text. Each item here states what is believed of the code it calls.
use vstd::prelude::*;

verus! {

/// The generator of random numbers that `rand` keeps for each thread. Nothing
/// inside it is visible to contracts.
#[verifier::external_type_specification]
#[verifier::external_body]
pub struct ExThreadRng(rand::rngs::ThreadRng);

/// `rand::thread_rng` hands out the generator of the calling thread. Nothing
/// is claimed of what it will draw.
pub assume_specification[ rand::thread_rng ]() -> (rng: rand::rngs::ThreadRng)
;

/// `rand::Rng::gen_range` on the range `0..bound`. The draw lies in the range;
/// which number of the range it is depends on chance. An empty range makes
/// `gen_range` panic, so `bound` must be positive.
#[verifier::external_body]
pub(crate) fn draw_below(rng: &mut rand::rngs::ThreadRng, bound: usize) -> (drawn: usize)
    requires
        bound > 0,
    ensures
        drawn < bound,
{
    rand::Rng::gen_range(rng, 0..bound)
}

/// `rand::Rng::gen` for a `u64`. Any value may come back.
#[verifier::external_body]
pub(crate) fn draw_u64(rng: &mut rand::rngs::ThreadRng) -> (drawn: u64) {
    rand::Rng::gen(rng)
}

/// `fake::Fake::fake` on `fake::faker::name::en::FirstName`: one of the English
/// first names that `fake` knows, picked at random. Nothing is claimed of it.
#[verifier::external_body]
pub(crate) fn fake_first_name() -> (name: String) {
    fake::Fake::fake(&fake::faker::name::en::FirstName())
}

/// The text that `block_id::BlockId::encode_string` gives for `value`, on a
/// `BlockId` made by `BlockId::new` from the alphabet
/// `Alphabet::alphanumeric()`, `seed` and `min_length`. The mapping is fixed by
/// these three numbers.
pub uninterp spec fn block_id_text(seed: u128, min_length: u8, value: u64) -> Seq<char>;

/// `block_id::BlockId::encode_string`, on a generator over the alphanumeric
/// alphabet built from `seed` and `min_length`. The result is the text that
/// [`block_id_text`] names. A `BlockId` is a two-way mapping between numbers
/// and texts, which `decode_string` reads backwards: no other number is given
/// the same text.
#[verifier::external_body]
pub(crate) fn encode_id(seed: u128, min_length: u8, value: u64) -> (id: String)
    ensures
        id@ == block_id_text(seed, min_length, value),
        forall|other: u64|
            other != value ==> #[trigger] block_id_text(seed, min_length, other) != id@,
{
    block_id::BlockId::new(block_id::Alphabet::alphanumeric(), seed, min_length).encode_string(
        value,
    )
}

/// `==` on `str`: true exactly when the two hold the same characters in the
/// same order.
#[verifier::external_body]
pub(crate) fn same_text(a: &str, b: &str) -> (same: bool)
    ensures
        same == (a@ == b@),
{
    a == b
}

} // verus!
