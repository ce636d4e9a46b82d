//! Little-endian framing of integers and scalars.
use crate::scalar::Scalar;
use crate::words::{le32, le64, long_at, word_at, WORD};
use vstd::prelude::*;

verus! {

broadcast use crate::words::group_word_sizes;

/// The scalars' patterns, four bytes each.
pub open spec fn le_scalars(values: Seq<Scalar>) -> Seq<u8> {
    Seq::new(values.len() * 4, |i: int| le32(values[i / 4].bits as int)[i % 4])
}

/// The `n` scalars written from `pos` on.
pub open spec fn scalars_at(data: Seq<u8>, pos: int, n: nat) -> Seq<Scalar> {
    Seq::new(n, |i: int| Scalar { bits: word_at(data, pos + 4 * i) as u32 })
}

/// A length in four bytes and that many scalars, with the position behind them.
pub open spec fn block_at(data: Seq<u8>, pos: int) -> Option<(Seq<Scalar>, int)> {
    if pos + 4 > data.len() || pos + 4 + 4 * word_at(data, pos) > data.len() {
        None
    } else {
        let n = word_at(data, pos) as nat;
        Some((scalars_at(data, pos + 4, n), pos + 4 + 4 * n))
    }
}

/// A length in four bytes, then the scalars.
pub open spec fn le_block(values: Seq<Scalar>) -> Seq<u8> {
    le32(values.len() as int) + le_scalars(values)
}

/// `part` stands in `data` at `pos`.
#[verifier::opaque]
pub open spec fn holds_at(data: Seq<u8>, pos: int, part: Seq<u8>) -> bool {
    &&& 0 <= pos
    &&& pos + part.len() <= data.len()
    &&& forall|i: int| 0 <= i < part.len() ==> data[pos + i] == #[trigger] part[i]
}

/// A concatenation stands where its two halves stand.
pub proof fn lemma_holds_split(data: Seq<u8>, pos: int, a: Seq<u8>, b: Seq<u8>)
    requires
        holds_at(data, pos, a + b),
    ensures
        holds_at(data, pos, a),
        holds_at(data, pos + a.len(), b),
        0 <= pos,
        pos + a.len() + b.len() <= data.len(),
{
    reveal(holds_at);
    assert forall|i: int| 0 <= i < a.len() implies data[pos + i] == #[trigger] a[i] by {
        assert((a + b)[i] == a[i]);
    }
    assert forall|i: int| 0 <= i < b.len() implies data[pos + a.len() + i] == #[trigger] b[i] by {
        assert((a + b)[a.len() + i] == b[i]);
    }
}

/// What stands in `data` at `pos` is what is cut out there.
pub proof fn lemma_holds_cut(data: Seq<u8>, pos: int, part: Seq<u8>)
    requires
        holds_at(data, pos, part),
    ensures
        0 <= pos,
        pos + part.len() <= data.len(),
        data.subrange(pos, pos + part.len()) == part,
{
    reveal(holds_at);
    let cut = data.subrange(pos, pos + part.len());
    assert forall|i: int| 0 <= i < part.len() implies cut[i] == #[trigger] part[i] by {
        assert(data[pos + i] == part[i]);
    }
    assert(cut =~= part);
}

/// The front of a concatenation stands at its beginning.
pub proof fn lemma_holds_front(front: Seq<u8>, tail: Seq<u8>)
    ensures
        holds_at(front + tail, 0, front),
{
    reveal(holds_at);
}

/// Reading a word gives back what was written, modulo 2^32.
pub proof fn lemma_word(data: Seq<u8>, pos: int, x: int)
    requires
        holds_at(data, pos, le32(x)),
        0 <= x,
    ensures
        word_at(data, pos) == x % WORD as int,
        pos + 4 <= data.len(),
{
    reveal(le32);
    reveal(word_at);
    reveal(holds_at);
    let w = le32(x);
    assert(data[pos + 0] == w[0] && data[pos + 1] == w[1] && data[pos + 2] == w[2] && data[pos + 3]
        == w[3]);
    assert(x % 4294967296 == x % 256 + 256 * (x / 256 % 256) + 65536 * (x / 65536 % 256) + 16777216
        * (x / 16777216 % 256)) by {
        let a = x / 256;
        let b = a / 256;
        let c = b / 256;
        assert(b == x / 65536);
        assert(c == x / 16777216);
        assert(c / 256 == x / 4294967296);
    }
}

/// Reading eight bytes gives back what was written.
pub proof fn lemma_long(data: Seq<u8>, pos: int, x: u64)
    requires
        holds_at(data, pos, le64(x as int)),
    ensures
        long_at(data, pos) == x,
        pos + 8 <= data.len(),
{
    reveal(le64);
    reveal(long_at);
    lemma_holds_split(data, pos, le32(x as int), le32(x as int / WORD as int));
    lemma_word(data, pos, x as int);
    lemma_word(data, pos + 4, x as int / WORD as int);
}

/// Reading scalars gives back what was written.
pub proof fn lemma_scalars(data: Seq<u8>, pos: int, values: Seq<Scalar>)
    requires
        holds_at(data, pos, le_scalars(values)),
    ensures
        scalars_at(data, pos, values.len()) == values,
        pos + 4 * values.len() <= data.len(),
{
    reveal(holds_at);
    let all = le_scalars(values);
    assert forall|i: int| 0 <= i < values.len() implies scalars_at(data, pos, values.len())[i]
        == #[trigger] values[i] by {
        let w = le32(values[i].bits as int);
        assert forall|k: int| 0 <= k < w.len() implies data[pos + 4 * i + k] == #[trigger] w[k] by {
            assert(all[4 * i + k] == w[k]);
        }
        lemma_word(data, pos + 4 * i, values[i].bits as int);
    }
    assert(scalars_at(data, pos, values.len()) =~= values);
}

/// Reading a block gives back what was written.
pub proof fn lemma_block(data: Seq<u8>, pos: int, values: Seq<Scalar>)
    requires
        holds_at(data, pos, le_block(values)),
        values.len() < WORD,
    ensures
        block_at(data, pos) == Some((values, pos + 4 + 4 * values.len())),
        le_block(values).len() == 4 + 4 * values.len(),
{
    lemma_holds_split(data, pos, le32(values.len() as int), le_scalars(values));
    lemma_word(data, pos, values.len() as int);
    lemma_scalars(data, pos + 4, values);
}

/// Writes the four low bytes of `x`.
pub fn put_u32(out: &mut Vec<u8>, x: u32)
    ensures
        final(out)@ == old(out)@ + le32(x as int),
{
    proof {
        reveal(le32);
    }
    out.push((x % 256) as u8);
    out.push((x / 256 % 256) as u8);
    out.push((x / 65536 % 256) as u8);
    out.push((x / 16777216 % 256) as u8);
    assert(out@ =~= old(out)@ + le32(x as int));
}

/// Writes the four low bytes of a length or an index.
pub fn put_usize(out: &mut Vec<u8>, x: usize)
    ensures
        final(out)@ == old(out)@ + le32(x as int),
{
    let low: u32 = (x as u64 % WORD) as u32;
    proof {
        lemma_low_word(x as int);
    }
    put_u32(out, low);
}

/// The four low bytes only see the number modulo 2^32.
pub proof fn lemma_low_word(x: int)
    requires
        0 <= x,
    ensures
        le32(x % WORD as int) == le32(x),
{
    reveal(le32);
    let q = x / 4294967296;
    let r = x % 4294967296;
    assert(x == 4294967296 * q + r);
    assert(x / 256 == 16777216 * q + r / 256);
    assert(x / 65536 == 65536 * q + r / 65536);
    assert(x / 16777216 == 256 * q + r / 16777216);
}

/// Writes eight bytes.
pub fn put_u64(out: &mut Vec<u8>, x: u64)
    ensures
        final(out)@ == old(out)@ + le64(x as int),
{
    proof {
        reveal(le64);
    }
    let low: u32 = (x % WORD) as u32;
    let high: u32 = (x / WORD) as u32;
    proof {
        lemma_low_word(x as int);
    }
    put_u32(out, low);
    put_u32(out, high);
    assert(out@ =~= old(out)@ + le64(x as int));
}

/// Writes the bytes of `part`.
pub fn put_bytes(out: &mut Vec<u8>, part: &[u8])
    ensures
        final(out)@ == old(out)@ + part@,
{
    let mut i: usize = 0;
    while i < part.len()
        invariant
            i <= part.len(),
            out@ == old(out)@ + part@.take(i as int),
        decreases part.len() - i,
    {
        out.push(part[i]);
        i += 1;
        assert(part@.take(i as int) =~= part@.take(i - 1).push(part@[i - 1]));
    }
    assert(part@.take(i as int) =~= part@);
}

/// Writes the patterns of `values`.
pub fn put_scalars(out: &mut Vec<u8>, values: &[Scalar])
    ensures
        final(out)@ == old(out)@ + le_scalars(values@),
{
    let mut i: usize = 0;
    assert(le_scalars(values@.take(0)) =~= Seq::empty());
    while i < values.len()
        invariant
            i <= values.len(),
            out@ == old(out)@ + le_scalars(values@.take(i as int)),
        decreases values.len() - i,
    {
        put_u32(out, values[i].bits);
        i += 1;
        assert(le_scalars(values@.take(i as int)) =~= le_scalars(values@.take(i - 1)) + le32(
            values@[i - 1].bits as int,
        ));
    }
    assert(values@.take(i as int) =~= values@);
}

/// Writes a length and the patterns of `values`.
pub fn put_block(out: &mut Vec<u8>, values: &[Scalar])
    ensures
        final(out)@ == old(out)@ + le_block(values@),
{
    put_usize(out, values.len());
    put_scalars(out, values);
    assert(out@ =~= old(out)@ + le_block(values@));
}

/// Reads four bytes.
pub fn get_u32(data: &[u8], pos: usize) -> (r: u32)
    requires
        pos + 4 <= data.len(),
    ensures
        r == word_at(data@, pos as int),
{
    proof {
        reveal(word_at);
    }
    data[pos] as u32 + 256 * (data[pos + 1] as u32) + 65536 * (data[pos + 2] as u32) + 16777216 * (
    data[pos + 3] as u32)
}

/// Reads eight bytes.
pub fn get_u64(data: &[u8], pos: usize) -> (r: u64)
    requires
        pos + 8 <= data.len(),
    ensures
        r == long_at(data@, pos as int),
{
    proof {
        reveal(long_at);
    }
    let low: u64 = get_u32(data, pos) as u64;
    let high: u64 = get_u32(data, pos + 4) as u64;
    low + WORD * high
}

/// Reads `n` scalars.
pub fn get_scalars(data: &[u8], pos: usize, n: usize) -> (r: Vec<Scalar>)
    requires
        pos + 4 * n <= data.len(),
    ensures
        r@ == scalars_at(data@, pos as int, n as nat),
{
    let mut r: Vec<Scalar> = Vec::with_capacity(n);
    let mut i: usize = 0;
    while i < n
        invariant
            i <= n,
            pos + 4 * n <= data.len(),
            r@ == scalars_at(data@, pos as int, i as nat),
        decreases n - i,
    {
        r.push(Scalar { bits: get_u32(data, pos + 4 * i) });
        i += 1;
        assert(r@ =~= scalars_at(data@, pos as int, i as nat));
    }
    r
}

/// Reads a length and that many scalars, if they are all there.
pub fn get_block(data: &[u8], pos: usize) -> (r: Option<(Vec<Scalar>, usize)>)
    requires
        pos <= data.len(),
    ensures
        match block_at(data@, pos as int) {
            Some((values, next)) => r matches Some((v, n)) && v@ == values && n == next && n
                <= data.len(),
            None => r is None,
        },
{
    if data.len() - pos < 4 {
        return None;
    }
    let n: usize = get_u32(data, pos) as usize;
    if n > (data.len() - pos - 4) / 4 {
        return None;
    }
    let values: Vec<Scalar> = get_scalars(data, pos + 4, n);
    Some((values, pos + 4 + 4 * n))
}

/// A value takes four bytes, lowest first: value `i` of those written from `pos` on stands at
/// `pos` + 4 * i. What is written for values has four bytes for each, in their order, and a
/// block has their number in front.
pub proof fn law_four_bytes_a_value(data: Seq<u8>, pos: int, n: nat, values: Seq<Scalar>, i: int)
    requires
        0 <= i,
        values.len() < 0x1_0000_0000,
    ensures
        scalars_at(data, pos, n).len() == n,
        i < n ==> scalars_at(data, pos, n)[i].bits == word_at(data, pos + 4 * i),
        le_block(values).len() == 4 + 4 * values.len(),
        word_at(le_block(values), 0) == values.len(),
        i < values.len() ==> word_at(le_block(values), 4 + 4 * i) == values[i].bits,
{
    let block = le_block(values);
    lemma_holds_front(block, Seq::empty());
    assert(block + Seq::<u8>::empty() =~= block);
    lemma_holds_split(block, 0, le32(values.len() as int), le_scalars(values));
    lemma_word(block, 0, values.len() as int);
    lemma_scalars(block, 4, values);
    if i < values.len() {
        assert(scalars_at(block, 4, values.len())[i] == values[i]);
        assert(4 + 4 * i == 4 + 4 * i);
    }
}

/// A block is read where all of it is there: its number of values, then the values.
pub proof fn law_blocks_are_read_whole(data: Seq<u8>, pos: int, i: int)
    requires
        0 <= pos,
        0 <= i,
    ensures
        block_at(data, pos) is Some <==> pos + 4 <= data.len() && pos + 4 + 4 * word_at(data, pos)
            <= data.len(),
        block_at(data, pos) matches Some((values, next)) ==> {
            &&& values.len() == word_at(data, pos)
            &&& next == pos + 4 + 4 * values.len()
            &&& i < values.len() ==> values[i].bits == word_at(data, pos + 4 + 4 * i)
        },
{
}


} // verus!
