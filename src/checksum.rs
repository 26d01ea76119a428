//! The checksum word: a CRC-32 over the word prefixes picks which content
//! word is repeated at the end of the phrase.
use vstd::prelude::*;

verus! {

/// The CRC-32 (IEEE polynomial) of a byte string.
pub uninterp spec fn crc32_ieee(bytes: Seq<u8>) -> u32;

/// Relies on `crc::crc32::checksum_ieee`: the IEEE CRC-32 of the bytes, which
/// depends on the bytes alone.
#[verifier::external_body]
pub(crate) fn checksum_ieee(bytes: &[u8]) -> (r: u32)
    ensures
        r == crc32_ieee(bytes@),
{
    crc::crc32::checksum_ieee(bytes)
}

/// The phrase with its checksum word: `indices` followed by the entry at
/// position `crc % indices.len()`.
pub open spec fn checksum_phrase(indices: Seq<usize>, crc: u32) -> Seq<usize>
    recommends
        indices.len() > 0,
{
    indices.push(indices[(crc as nat % indices.len()) as int])
}

/// The position of the checksum word among `n` content words.
pub fn checksum_position(crc: u32, n: usize) -> (r: usize)
    requires
        n > 0,
    ensures
        r == crc as nat % n as nat,
        r < n,
{
    (crc as usize) % n
}

/// Appends to `indices` a copy of the entry that `crc` selects.
pub fn with_checksum_word(indices: &Vec<usize>, crc: u32) -> (r: Vec<usize>)
    requires
        indices.len() > 0,
    ensures
        r@ == checksum_phrase(indices@, crc),
{
    let pos = checksum_position(crc, indices.len());
    let mut r = indices.clone();
    r.push(indices[pos]);
    r
}

/// The checksum word of a phrase repeats one of its content words.
pub proof fn lemma_checksum_word_is_content_word(indices: Seq<usize>, crc: u32)
    requires
        indices.len() > 0,
    ensures
        checksum_phrase(indices, crc).len() == indices.len() + 1,
        checksum_phrase(indices, crc).subrange(0, indices.len() as int) == indices,
        exists|i: int|
            0 <= i < indices.len() && #[trigger] indices[i] == checksum_phrase(
                indices,
                crc,
            )[indices.len() as int],
{
    let p = checksum_phrase(indices, crc);
    let i = (crc as nat % indices.len()) as int;
    assert(p.subrange(0, indices.len() as int) =~= indices);
    assert(indices[i] == p[indices.len() as int]);
}

} // verus!
