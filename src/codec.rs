//! The outside collaborators: a seeded hash, a seed generator and a block
//! compressor. Each is reached through one trusted item below.
use vstd::prelude::*;

verus! {

/// What `wyhash::wyhash` returns for these bytes under this seed.
pub uninterp spec fn wyhash_value(bytes: Seq<u8>, seed: u64) -> u64;

/// What `lz4_flex::block::compress_prepend_size` returns for these bytes.
pub uninterp spec fn lz4_compressed(input: Seq<u8>) -> Seq<u8>;

/// The constant that `wyhash::wyrng` adds to its state on every draw.
pub const RNG_STEP: u64 = 0xa076_1d64_78bd_642f;

/// The constant that `wyhash::wyrng` mixes into the advanced state.
pub const RNG_MIX: u64 = 0xe703_7ed1_a0b4_28db;

/// The generator state after one draw from `state`.
pub open spec fn next_state(state: u64) -> u64 {
    state.wrapping_add(RNG_STEP)
}

/// The full product of `a` and `b`, its high and low 64 bits folded by xor.
pub open spec fn folded_product(a: u64, b: u64) -> u64 {
    let r = a as int * b as int;
    ((r / 0x1_0000_0000_0000_0000) as u64) ^ ((r % 0x1_0000_0000_0000_0000) as u64)
}

/// The number that one draw from `state` gives.
pub open spec fn wyrng_value(state: u64) -> u64 {
    let s = next_state(state);
    folded_product(s ^ RNG_MIX, s)
}

/// Relies on `wyhash::wyhash`: a hash of the bytes under the seed, a function
/// of those two alone.
#[verifier::external_body]
pub(crate) fn keyed_hash(bytes: &[u8], seed: u64) -> (r: u64)
    ensures
        r == wyhash_value(bytes@, seed),
{
    wyhash::wyhash(bytes, seed)
}

/// Relies on `wyhash::wyrng`: the state advances by a fixed constant with
/// wrapping addition, and the number drawn is the advanced state, xored with a
/// second constant, multiplied by the advanced state into 128 bits, whose two
/// halves are folded by xor.
#[verifier::external_body]
pub(crate) fn draw_seed(state: &mut u64) -> (r: u64)
    ensures
        *final(state) == next_state(*old(state)),
        r == wyrng_value(*old(state)),
{
    wyhash::wyrng(state)
}

/// Relies on `lz4_flex::block::compress_prepend_size`: a block whose first
/// four bytes hold the input length, a function of the input alone. It sizes
/// its output as 110% of the input, computed in `usize`, so the input is
/// bounded to keep that product from overflowing.
#[verifier::external_body]
pub(crate) fn compress(input: &[u8]) -> (r: Vec<u8>)
    requires
        input@.len() <= usize::MAX / 110,
    ensures
        r@ == lz4_compressed(input@),
{
    lz4_flex::block::compress_prepend_size(input)
}

#[verifier::external_type_specification]
#[verifier::external_body]
pub struct ExDecompressError(lz4_flex::block::DecompressError);

/// Relies on `lz4_flex::block::decompress_size_prepended`: a block that
/// `compress_prepend_size` made from input whose length fits the four-byte
/// header decodes back to that input. Other blocks are not admitted.
#[verifier::external_body]
pub(crate) fn decompress(block: &[u8]) -> (r: Result<Vec<u8>, lz4_flex::block::DecompressError>)
    requires
        exists|x: Seq<u8>| x.len() <= u32::MAX && block@ == lz4_compressed(x),
    ensures
        forall|x: Seq<u8>|
            #![trigger lz4_compressed(x)]
            x.len() <= u32::MAX && block@ == lz4_compressed(x) ==> r is Ok && r->Ok_0@ == x,
{
    lz4_flex::block::decompress_size_prepended(block)
}

/// The compressed key store could not be decoded.
#[derive(Debug, Clone, Copy, PartialEq, Eq, Structural)]
pub struct DecodeError;

} // verus!
