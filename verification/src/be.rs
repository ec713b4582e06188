//! Big-endian words, the byte order of every integer on a disc.

use byteorder::{ByteOrder, BE};
use vstd::prelude::*;

verus! {

/// The number that the first four bytes of `b` stand for, most significant byte
/// first.
pub open spec fn be_value(b: Seq<u8>) -> int {
    b[0] * 0x100_0000 + b[1] * 0x1_0000 + b[2] * 0x100 + b[3]
}

/// The four bytes of `v`, most significant byte first.
pub open spec fn be_bytes(v: u32) -> Seq<u8> {
    seq![
        (v / 0x100_0000) as u8,
        (v / 0x1_0000 % 0x100) as u8,
        (v / 0x100 % 0x100) as u8,
        (v % 0x100) as u8,
    ]
}

/// The bytes of a sequence of words, one word after the other.
pub open spec fn words_bytes(words: Seq<u32>) -> Seq<u8> {
    Seq::new(4 * words.len(), |i: int| be_bytes(words[i / 4])[i % 4])
}

/// Reads the big-endian word at the start of `buf`.
///
/// Calls `byteorder::BE::read_u32`, which takes the first four bytes of `buf`
/// and panics when there are fewer.
#[verifier::external_body]
pub(crate) fn read_u32(buf: &[u8]) -> (v: u32)
    requires
        buf@.len() >= 4,
    ensures
        v == be_value(buf@),
{
    BE::read_u32(buf)
}

/// Overwrites `dst` with the big-endian bytes of the words in `src`.
///
/// Calls `byteorder::BE::write_u32_into`, which writes the words one after the
/// other and panics unless `dst` holds exactly four bytes per word.
#[verifier::external_body]
pub(crate) fn write_u32_into(src: &[u32], dst: &mut [u8])
    requires
        old(dst)@.len() == 4 * src@.len(),
    ensures
        final(dst)@ == words_bytes(src@),
{
    BE::write_u32_into(src, dst)
}

/// What a word is written as reads back as that word.
pub proof fn law_word_round_trip(v: u32)
    ensures
        be_value(be_bytes(v)) == v,
{
}

/// Every four bytes are what some word is written as: the word that they read as.
pub proof fn law_bytes_round_trip(b: Seq<u8>)
    requires
        b.len() == 4,
    ensures
        0 <= be_value(b) <= u32::MAX,
        be_bytes(be_value(b) as u32) == b,
{
    let v = be_value(b);
    let low = b[1] * 0x1_0000 + b[2] * 0x100 + b[3];
    assert(0 <= low < 0x100_0000 && v == b[0] * 0x100_0000 + low);
    assert(v / 0x100_0000 == b[0]);
    assert(v / 0x1_0000 == b[0] * 0x100 + b[1]);
    assert(v / 0x100 == (b[0] * 0x100 + b[1]) * 0x100 + b[2]);
    assert(v % 0x100 == b[3]);
    assert(be_bytes(v as u32) =~= b);
}

/// Word `k` of a written sequence stands at bytes `4 * k` to `4 * k + 4`.
pub(crate) proof fn lemma_words_bytes_at(words: Seq<u32>, k: int)
    requires
        0 <= k < words.len(),
    ensures
        words_bytes(words).subrange(4 * k, 4 * k + 4) == be_bytes(words[k]),
{
    assert(words_bytes(words).subrange(4 * k, 4 * k + 4) =~= be_bytes(words[k]));
}

} // verus!
