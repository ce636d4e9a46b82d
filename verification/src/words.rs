//! Numbers in four and eight bytes, lowest byte first.
use vstd::prelude::*;

verus! {

/// One more than the largest value of four bytes.
pub const WORD: u64 = 0x1_0000_0000;

/// The four low bytes of `x`, lowest first.
#[verifier::opaque]
pub open spec fn le32(x: int) -> Seq<u8> {
    seq![
        (x % 256) as u8,
        (x / 256 % 256) as u8,
        (x / 65536 % 256) as u8,
        (x / 16777216 % 256) as u8,
    ]
}

/// The eight low bytes of `x`, lowest first.
#[verifier::opaque]
pub open spec fn le64(x: int) -> Seq<u8> {
    le32(x) + le32(x / WORD as int)
}

/// The number written in the four bytes at `pos`.
#[verifier::opaque]
pub open spec fn word_at(data: Seq<u8>, pos: int) -> int {
    data[pos] + 256 * data[pos + 1] + 65536 * data[pos + 2] + 16777216 * data[pos + 3]
}

/// The number written in the eight bytes at `pos`.
#[verifier::opaque]
pub open spec fn long_at(data: Seq<u8>, pos: int) -> int {
    word_at(data, pos) + WORD * word_at(data, pos + 4)
}

/// A word is between 0 and 2^32.
pub broadcast proof fn lemma_word_range(data: Seq<u8>, pos: int)
    ensures
        0 <= #[trigger] word_at(data, pos) < WORD,
{
    reveal(word_at);
}

/// Four bytes are written for a word.
pub broadcast proof fn lemma_le32_len(x: int)
    ensures
        (#[trigger] le32(x)).len() == 4,
{
    reveal(le32);
}

/// Eight bytes are written for a long word.
pub broadcast proof fn lemma_le64_len(x: int)
    ensures
        (#[trigger] le64(x)).len() == 8,
{
    reveal(le64);
    lemma_le32_len(x);
    lemma_le32_len(x / WORD as int);
}

/// Sizes of what is written and read.
pub broadcast group group_word_sizes {
    lemma_word_range,
    lemma_le32_len,
    lemma_le64_len,
}

/// Numbers stand lowest byte first, in four bytes or in eight.
pub proof fn law_lowest_byte_first(x: int, data: Seq<u8>, pos: int)
    requires
        0 <= x < 0x1_0000_0000_0000_0000,
    ensures
        le64(x).len() == 8,
        le64(x)[0] == x % 0x100,
        le64(x)[1] == x / 0x100 % 0x100,
        le64(x)[2] == x / 0x1_0000 % 0x100,
        le64(x)[3] == x / 0x100_0000 % 0x100,
        le64(x)[4] == x / 0x1_0000_0000 % 0x100,
        le64(x)[5] == x / 0x100_0000_0000 % 0x100,
        le64(x)[6] == x / 0x1_0000_0000_0000 % 0x100,
        le64(x)[7] == x / 0x100_0000_0000_0000 % 0x100,
        le32(x) == le64(x).take(4),
        word_at(data, pos) == data[pos] + 0x100 * data[pos + 1] + 0x1_0000 * data[pos + 2]
            + 0x100_0000 * data[pos + 3],
        long_at(data, pos) == word_at(data, pos) + 0x1_0000_0000 * word_at(data, pos + 4),
{
    reveal(le32);
    reveal(le64);
    reveal(word_at);
    reveal(long_at);
    let high = x / 0x1_0000_0000;
    assert(high / 0x100 == x / 0x100_0000_0000);
    assert(high / 0x1_0000 == x / 0x1_0000_0000_0000);
    assert(high / 0x100_0000 == x / 0x100_0000_0000_0000);
    assert(le32(x) =~= le64(x).take(4));
}


} // verus!
