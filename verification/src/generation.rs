//! Generation: a sequence is continued token by token.
use crate::bytes::{le_scalars, put_bytes, put_scalars, put_usize};
use crate::order::{argmax, select_best};
use crate::scalar::Scalar;
use crate::synthetic::{FIRST_TOKEN, VOCABULARY};
use crate::words::le32;
use vstd::prelude::*;

verus! {

/// Tokens to be generated.
pub open spec fn tokens_asked(benchmark: bool) -> int {
    if benchmark {
        5
    } else {
        20
    }
}

/// Tokens to be generated: few in a benchmark.
pub fn generate_len(benchmark: bool) -> (r: usize)
    ensures
        r == tokens_asked(benchmark),
{
    if benchmark {
        5
    } else {
        20
    }
}

/// The token whose embedding fits best, given the scores of the tokens from the first one
/// on. Of equal ones it is the first, and the first token where no score is above negative
/// infinity.
pub fn best_token(scores: &Vec<Scalar>) -> (r: u32)
    requires
        scores@.len() <= VOCABULARY - FIRST_TOKEN,
    ensures
        r == FIRST_TOKEN + argmax(scores@),
        FIRST_TOKEN <= r < VOCABULARY,
        forall|i: int|
            0 <= i < scores@.len() && Scalar::neg_infinity().below(#[trigger] scores@[i])
                ==> !scores@[r - FIRST_TOKEN].below(scores@[i]),
{
    let best: usize = select_best(scores);
    proof {
        crate::order::law_argmax(scores@);
    }
    FIRST_TOKEN + best as u32
}

/// A sequence under continuation.
#[derive(Clone, Copy, Debug, PartialEq, Eq, Structural)]
pub struct Generation {
    /// Rows of the sequence so far. The next row has this number.
    pub position: usize,
    /// Rows that the network has not been shown.
    pub pending: usize,
    /// Particles sent so far.
    pub particles: usize,
}

impl Generation {
    /// A sequence of `seq_len` rows, none of which has been shown.
    pub fn start(seq_len: usize) -> (r: Self)
        ensures
            r == (Generation { position: seq_len, pending: seq_len, particles: 0 }),
    {
        Generation { position: seq_len, pending: seq_len, particles: 0 }
    }

    /// The sequence after the pending rows were shown and one row was added.
    pub open spec fn advanced(self, num_shards: int) -> Self {
        Generation {
            position: (self.position + 1) as usize,
            pending: 1,
            particles: (self.particles + self.pending * num_shards) as usize,
        }
    }

    /// Notes that the pending rows were shown and one row was added.
    pub fn advance(&mut self, num_shards: usize)
        requires
            old(self).position < usize::MAX,
            old(self).particles + old(self).pending * num_shards <= usize::MAX,
        ensures
            *final(self) == old(self).advanced(num_shards as int),
    {
        assert(0 <= self.pending * num_shards) by (nonlinear_arith)
            requires
                0 <= self.pending,
                0 <= num_shards,
        ;
        self.particles = self.particles + self.pending * num_shards;
        self.position = self.position + 1;
        self.pending = 1;
    }
}

/// A sequence after `n` steps.
pub open spec fn after_steps(g: Generation, num_shards: int, n: nat) -> Generation
    decreases n,
{
    if n == 0 {
        g
    } else {
        after_steps(g, num_shards, (n - 1) as nat).advanced(num_shards)
    }
}

/// Each step adds a row, and every row but the last one is shown exactly once.
pub proof fn law_rows_are_shown_once(seq_len: usize, num_shards: int, n: nat)
    requires
        n > 0,
        0 <= num_shards,
        seq_len + n <= usize::MAX,
        (seq_len + n) * num_shards <= usize::MAX,
    ensures
        ({
            let start = Generation { position: seq_len, pending: seq_len, particles: 0 };
            let g = after_steps(start, num_shards, n);
            g.position == seq_len + n && g.pending == 1 && g.particles == (seq_len + n - 1)
                * num_shards
        }),
    decreases n,
{
    let start = Generation { position: seq_len, pending: seq_len, particles: 0 };
    let m = (n - 1) as nat;
    let before = after_steps(start, num_shards, m);
    assert((seq_len + m) * num_shards + num_shards == (seq_len + n) * num_shards && (seq_len + m)
        * num_shards >= 0 && (seq_len + m - 1) * num_shards + num_shards == (seq_len + m)
        * num_shards && 1 * num_shards == num_shards) by (nonlinear_arith)
        requires
            m == n - 1,
            n > 0,
            seq_len >= 0,
            num_shards >= 0,
    ;
    if m > 0 {
        law_rows_are_shown_once(seq_len, num_shards, m);
    } else {
        assert(before == start);
    }
}

/// The last of `rows` rows of `d_model` values.
pub fn last_row(values: &Vec<Scalar>, rows: usize, d_model: usize) -> (r: Vec<Scalar>)
    requires
        rows > 0,
        rows * d_model <= values@.len(),
    ensures
        r@ == values@.subrange((rows - 1) * d_model, rows * d_model),
{
    assert((rows - 1) * d_model + d_model == rows * d_model && (rows - 1) * d_model >= 0)
        by (nonlinear_arith)
        requires
            rows > 0,
            d_model >= 0,
    ;
    assert(values@.len() == values.len());
    crate::scattering::slice_of(values, (rows - 1) * d_model, d_model)
}

/// What a file with an output sequence begins with.
pub open spec fn output_magic() -> Seq<u8> {
    seq![65u8, 78u8, 78u8, 80u8, 66u8, 95u8, 79u8, 85u8, 84u8]
}

/// An output sequence as a file.
pub open spec fn output_bytes(seq_len: int, d_model: int, values: Seq<Scalar>) -> Seq<u8> {
    output_magic() + le32(seq_len) + le32(d_model) + le_scalars(values)
}

/// An output sequence as a file: a mark, the number of rows that were put in, the width of a
/// row, then all values.
pub fn output_file(seq_len: usize, d_model: usize, values: &Vec<Scalar>) -> (r: Vec<u8>)
    ensures
        r@ == output_bytes(seq_len as int, d_model as int, values@),
        r@ == output_magic() + le32(seq_len as int) + le32(d_model as int) + le_scalars(values@),
{
    let magic: [u8; 9] = [65, 78, 78, 80, 66, 95, 79, 85, 84];
    let mut r: Vec<u8> = Vec::new();
    put_bytes(&mut r, &magic);
    assert(r@ =~= output_magic());
    put_usize(&mut r, seq_len);
    put_usize(&mut r, d_model);
    put_scalars(&mut r, values.as_slice());
    r
}

/// A file with an output begins with the letters ANNPB_OUT. The number of rows stands at 9, the
/// width of a row at 13, and the values follow from 17 on, four bytes each.
pub proof fn law_layout_of_an_output(seq_len: int, d_model: int, values: Seq<Scalar>, i: int)
    requires
        0 <= seq_len < 0x1_0000_0000,
        0 <= d_model < 0x1_0000_0000,
        0 <= i < values.len(),
    ensures
        ({
            let b = output_bytes(seq_len, d_model, values);
            &&& b.take(9) == seq![65u8, 78u8, 78u8, 80u8, 66u8, 95u8, 79u8, 85u8, 84u8]
            &&& crate::words::word_at(b, 9) == seq_len
            &&& crate::words::word_at(b, 13) == d_model
            &&& crate::words::word_at(b, 17 + 4 * i) == values[i].bits
            &&& b.len() == 17 + 4 * values.len()
        }),
{
    let b = output_bytes(seq_len, d_model, values);
    let (p, q) = (output_magic() + le32(seq_len), output_magic() + le32(seq_len) + le32(d_model));
    crate::words::lemma_le32_len(seq_len);
    crate::words::lemma_le32_len(d_model);
    crate::bytes::lemma_holds_front(b, Seq::empty());
    assert(b + Seq::<u8>::empty() =~= b);
    crate::bytes::lemma_holds_split(b, 0, q, le_scalars(values));
    crate::bytes::lemma_holds_split(b, 0, p, le32(d_model));
    crate::bytes::lemma_holds_split(b, 0, output_magic(), le32(seq_len));
    crate::bytes::lemma_holds_cut(b, 0, output_magic());
    crate::bytes::lemma_word(b, 9, seq_len);
    crate::bytes::lemma_word(b, 13, d_model);
    crate::bytes::lemma_scalars(b, 17, values);
    crate::words::lemma_word_range(b, 17 + 4 * i);
    assert(crate::bytes::scalars_at(b, 17, values.len())[i] == values[i]);
    assert(b.take(9) =~= b.subrange(0, 9));
}

/// One step shows the rows that are pending, each as so many particles as there are shards, and
/// adds one row, which is then the only one pending.
pub proof fn law_a_step_adds_one_row(g: Generation, num_shards: int)
    requires
        0 <= num_shards,
        g.position < usize::MAX,
        0 <= g.particles + g.pending * num_shards <= usize::MAX,
    ensures
        g.advanced(num_shards).position == g.position + 1,
        g.advanced(num_shards).pending == 1,
        g.advanced(num_shards).particles - g.particles == g.pending * num_shards,
{
}


/// A benchmark takes a quarter of the tokens that are generated otherwise.
pub proof fn law_benchmarks_are_short()
    ensures
        4 * tokens_asked(true) == tokens_asked(false),
        tokens_asked(true) == 5,
{
}

} // verus!
