//! The LZ4 block codec, used as a black box.

use vstd::prelude::*;

use crate::consts::CHUNK_SIZE;

verus! {

/// The LZ4 block that `lz4_flex::block::compress_into` produces for `raw`.
pub uninterp spec fn lz4_block_of(raw: Seq<u8>) -> Seq<u8>;

/// What `lz4_flex::block::decompress_into` decodes `block` to, given room
/// enough; `None` where `block` is not a valid LZ4 block.
pub uninterp spec fn lz4_unblock(block: Seq<u8>) -> Option<Seq<u8>>;

/// Worst-case compressed size of `n` input bytes.
pub open spec fn max_output_size_spec(n: nat) -> nat {
    20 + n * 110 / 100
}

/// Relies on `lz4_flex::block::get_maximum_output_size`, which computes
/// `16 + 4 + (input_len * 110 / 100)`.
#[verifier::external_body]
pub(crate) fn max_output_size(input_len: usize) -> (r: usize)
    requires
        input_len <= usize::MAX / 110,
    ensures
        r == max_output_size_spec(input_len as nat),
{
    lz4_flex::block::get_maximum_output_size(input_len)
}

/// Relies on `lz4_flex::block::compress_into`: it writes the block for `input`
/// at the start of `output` and returns its length, which is never 0 as every
/// block ends with a token byte; it fails only when `output` is shorter than
/// `get_maximum_output_size(input.len())`; the block decompresses to `input`.
/// The input is short enough for that bound to be computed without overflow.
#[verifier::external_body]
pub(crate) fn compress_into(input: &[u8], output: &mut [u8]) -> (r: Option<usize>)
    requires
        input@.len() <= usize::MAX / 110,
    ensures
        final(output)@.len() == old(output)@.len(),
        old(output)@.len() >= max_output_size_spec(input@.len()) ==> r is Some,
        r matches Some(n) ==> {
            &&& 0 < n <= final(output)@.len()
            &&& final(output)@.subrange(0, n as int) == lz4_block_of(input@)
            &&& lz4_unblock(final(output)@.subrange(0, n as int)) == Some(input@)
        },
{
    lz4_flex::block::compress_into(input, output).ok()
}

/// Relies on `lz4_flex::block::decompress_into`: on success it has written the
/// decoded bytes at the start of `output` and returns their count; a valid
/// block whose decoded bytes fit in `output` always decodes. Inputs longer
/// than a tile's worst-case block are not passed: a run of length bytes long
/// enough overflows the decoder's 32-bit length counter.
#[verifier::external_body]
pub(crate) fn decompress_into(input: &[u8], output: &mut [u8]) -> (r: Option<usize>)
    requires
        input@.len() <= max_output_size_spec(CHUNK_SIZE as nat),
    ensures
        final(output)@.len() == old(output)@.len(),
        r matches Some(n) ==> {
            &&& n <= final(output)@.len()
            &&& lz4_unblock(input@) == Some(final(output)@.subrange(0, n as int))
        },
        lz4_unblock(input@) is Some && lz4_unblock(input@)->0.len() <= old(output)@.len() ==> r
            == Some(lz4_unblock(input@)->0.len() as usize),
{
    lz4_flex::block::decompress_into(input, output).ok()
}

} // verus!
