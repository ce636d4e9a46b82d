//! Made-up data: what is drawn, hashed and placed where.
use crate::scalar::Scalar;
use crate::words::WORD;
use rand::Rng;
use vstd::prelude::*;

verus! {

/// Tokens of one made-up sequence.
pub const SEQ_LEN: usize = 64;

/// The first token that is drawn or proposed.
pub const FIRST_TOKEN: u32 = 1;

/// Tokens are numbered below this.
pub const VOCABULARY: u32 = 32000;

/// Salt of the first hash of a pair of dimensions.
pub const FIRST_SALT: u64 = 0x123456789ABCDEF0;

/// Salt of the second hash of a pair of dimensions.
pub const SECOND_SALT: u64 = 0x0FEDCBA987654321;

// ---------------------------------------------------------------------------
// Hashes
// ---------------------------------------------------------------------------

/// Where the mixing of a hash starts.
pub open spec fn hash_seed(token_id: u32, dim_pair_idx: usize, salt: u64) -> u64 {
    (token_id as u64).wrapping_mul(0x9E3779B97F4A7C15).wrapping_add(
        (dim_pair_idx as u64).wrapping_mul(0xBF58476D1CE4E5B9),
    ).wrapping_add(salt)
}

/// A seed, mixed.
pub open spec fn mixed(a: u64) -> u64 {
    let b = (a ^ (a >> 30)).wrapping_mul(0xBF58476D1CE4E5B9);
    let c = (b ^ (b >> 27)).wrapping_mul(0x94D049BB133111EB);
    c ^ (c >> 31)
}

/// The hash of a token at a pair of dimensions.
pub open spec fn token_hash(token_id: u32, dim_pair_idx: usize, salt: u64) -> u64 {
    mixed(hash_seed(token_id, dim_pair_idx, salt))
}

/// The hash of a token at a pair of dimensions.
pub fn token_dim_hash(token_id: u32, dim_pair_idx: usize, salt: u64) -> (r: u64)
    ensures
        r == token_hash(token_id, dim_pair_idx, salt),
{
    let a: u64 = (token_id as u64).wrapping_mul(0x9E3779B97F4A7C15).wrapping_add(
        (dim_pair_idx as u64).wrapping_mul(0xBF58476D1CE4E5B9),
    ).wrapping_add(salt);
    let b: u64 = (a ^ (a >> 30)).wrapping_mul(0xBF58476D1CE4E5B9);
    let c: u64 = (b ^ (b >> 27)).wrapping_mul(0x94D049BB133111EB);
    c ^ (c >> 31)
}

/// Multiplying by `c` loses nothing where `c` times `d` leaves 1: `d` undoes it.
proof fn lemma_wrapping_mul(x: u64, c: u64, d: u64, k: nat)
    requires
        c as nat * d as nat == k * 0x1_0000_0000_0000_0000 + 1,
    ensures
        x.wrapping_mul(c).wrapping_mul(d) == x,
{
    let m = 0x1_0000_0000_0000_0000int;
    let (xi, ci, di, ki) = (x as int, c as int, d as int, k as int);
    vstd::arithmetic::div_mod::lemma_mul_mod_noop_left(xi * ci, di, m);
    assert((xi * ci) * di == m * (xi * ki) + xi) by (nonlinear_arith)
        requires
            ci * di == ki * m + 1,
    ;
    vstd::arithmetic::div_mod::lemma_mod_multiples_vanish(xi * ki, xi, m);
    vstd::arithmetic::div_mod::lemma_small_mod(x as nat, m as nat);
}

/// Two seeds that differ are mixed into hashes that differ.
proof fn lemma_mixing_loses_nothing(a: u64, b: u64)
    requires
        mixed(a) == mixed(b),
    ensures
        a == b,
{
    let a1 = a ^ (a >> 30);
    let b1 = b ^ (b >> 30);
    let a2 = a1.wrapping_mul(0xBF58476D1CE4E5B9);
    let b2 = b1.wrapping_mul(0xBF58476D1CE4E5B9);
    let a3 = a2 ^ (a2 >> 27);
    let b3 = b2 ^ (b2 >> 27);
    let a4 = a3.wrapping_mul(0x94D049BB133111EB);
    let b4 = b3.wrapping_mul(0x94D049BB133111EB);
    assert(a4 ^ (a4 >> 31) == b4 ^ (b4 >> 31) ==> a4 == b4) by (bit_vector);
    lemma_wrapping_mul(a3, 0x94D049BB133111EB, 0x319642B2D24D8EC3, 2077064247507883091);
    lemma_wrapping_mul(b3, 0x94D049BB133111EB, 0x319642B2D24D8EC3, 2077064247507883091);
    assert(a2 ^ (a2 >> 27) == b2 ^ (b2 >> 27) ==> a2 == b2) by (bit_vector);
    lemma_wrapping_mul(a1, 0xBF58476D1CE4E5B9, 0x96DE1B173F119089, 8125545580553827436);
    lemma_wrapping_mul(b1, 0xBF58476D1CE4E5B9, 0x96DE1B173F119089, 8125545580553827436);
    assert(a ^ (a >> 30) == b ^ (b >> 30) ==> a == b) by (bit_vector);
}

/// A hash tells its arguments apart, each for itself: where two of them are the same, two
/// values of the third never share a hash.
pub proof fn law_hashes_differ(t1: u32, t2: u32, p1: usize, p2: usize, s1: u64, s2: u64)
    ensures
        s1 != s2 ==> token_hash(t1, p1, s1) != token_hash(t1, p1, s2),
        t1 != t2 ==> token_hash(t1, p1, s1) != token_hash(t2, p1, s1),
        p1 != p2 ==> token_hash(t1, p1, s1) != token_hash(t1, p2, s1),
{
    if token_hash(t1, p1, s1) == token_hash(t1, p1, s2) {
        lemma_mixing_loses_nothing(hash_seed(t1, p1, s1), hash_seed(t1, p1, s2));
    }
    if token_hash(t1, p1, s1) == token_hash(t2, p1, s1) {
        lemma_mixing_loses_nothing(hash_seed(t1, p1, s1), hash_seed(t2, p1, s1));
        lemma_wrapping_mul(t1 as u64, 0x9E3779B97F4A7C15, 0xF1DE83E19937733D, 10771413168148108919);
        lemma_wrapping_mul(t2 as u64, 0x9E3779B97F4A7C15, 0xF1DE83E19937733D, 10771413168148108919);
    }
    if token_hash(t1, p1, s1) == token_hash(t1, p2, s1) {
        lemma_mixing_loses_nothing(hash_seed(t1, p1, s1), hash_seed(t1, p2, s1));
        lemma_wrapping_mul(p1 as u64, 0xBF58476D1CE4E5B9, 0x96DE1B173F119089, 8125545580553827436);
        lemma_wrapping_mul(p2 as u64, 0xBF58476D1CE4E5B9, 0x96DE1B173F119089, 8125545580553827436);
    }
}

/// The two hashes of a pair of dimensions never coincide.
pub proof fn law_hashes_of_a_pair_differ(token_id: u32, d_model: int, i: int)
    requires
        0 <= i < hash_pairs(token_id, d_model).len(),
    ensures
        hash_pairs(token_id, d_model)[i].0 != hash_pairs(token_id, d_model)[i].1,
{
    law_hashes_differ(token_id, token_id, i as usize, i as usize, FIRST_SALT, SECOND_SALT);
}

/// How many pairs it takes to make up `n` values.
pub open spec fn pair_count(n: int) -> int {
    (n + 1) / 2
}

/// How many pairs it takes to make up `n` values.
pub fn pairs_for(n: usize) -> (r: usize)
    ensures
        r == pair_count(n as int),
{
    n / 2 + n % 2
}

/// The two hashes of each pair of dimensions of a token.
pub open spec fn hash_pairs(token_id: u32, d_model: int) -> Seq<(u64, u64)> {
    Seq::new(
        pair_count(d_model) as nat,
        |i: int|
            (token_hash(token_id, i as usize, FIRST_SALT), token_hash(token_id, i as usize, SECOND_SALT)),
    )
}

/// The two hashes of each pair of dimensions of a token.
pub fn token_hash_pairs(token_id: u32, d_model: usize) -> (r: Vec<(u64, u64)>)
    ensures
        r@ == hash_pairs(token_id, d_model as int),
{
    let n: usize = pairs_for(d_model);
    let mut r: Vec<(u64, u64)> = Vec::with_capacity(n);
    let mut i: usize = 0;
    while i < n
        invariant
            i <= n,
            n == pair_count(d_model as int),
            r@ == hash_pairs(token_id, d_model as int).take(i as int),
        decreases n - i,
    {
        r.push(
            (token_dim_hash(token_id, i, FIRST_SALT), token_dim_hash(token_id, i, SECOND_SALT)),
        );
        i += 1;
        assert(r@ =~= hash_pairs(token_id, d_model as int).take(i as int));
    }
    assert(r@ =~= hash_pairs(token_id, d_model as int));
    r
}

/// Calls `rand::Rng::random_range` on the thread's generator, `rand::rng()`: a number from
/// `low` up to, not including, `high`. Which one is left to chance. An empty range would make
/// it panic.
#[verifier::external_body]
fn draw_number(low: u32, high: u32) -> (r: u32)
    requires
        low < high,
    ensures
        low <= r < high,
{
    rand::rng().random_range(low..high)
}

/// `n` tokens left to chance, each one of the vocabulary and none of them token 0.
pub fn random_tokens(n: usize) -> (r: Vec<u32>)
    ensures
        r@.len() == n,
        forall|i: int| 0 <= i < n ==> 1 <= #[trigger] r@[i] < VOCABULARY,
{
    let mut r: Vec<u32> = Vec::with_capacity(n);
    let mut i: usize = 0;
    while i < n
        invariant
            i <= n,
            r@.len() == i,
            forall|k: int| 0 <= k < i ==> 1 <= #[trigger] r@[k] < VOCABULARY,
        decreases n - i,
    {
        r.push(draw_number(FIRST_TOKEN, VOCABULARY));
        i += 1;
    }
    r
}

/// The hashes from which a sequence of tokens is embedded, token by token.
pub fn random_token_hashes(tokens: &Vec<u32>, d_model: usize) -> (r: Vec<Vec<(u64, u64)>>)
    ensures
        r@.len() == tokens@.len(),
        forall|t: int|
            0 <= t < tokens@.len() ==> (#[trigger] r@[t])@ == hash_pairs(tokens@[t], d_model as int),
{
    let mut r: Vec<Vec<(u64, u64)>> = Vec::with_capacity(tokens.len());
    let mut t: usize = 0;
    while t < tokens.len()
        invariant
            t <= tokens.len(),
            r@.len() == t,
            forall|k: int|
                0 <= k < t ==> (#[trigger] r@[k])@ == hash_pairs(tokens@[k], d_model as int),
        decreases tokens.len() - t,
    {
        r.push(token_hash_pairs(tokens[t], d_model));
        t += 1;
    }
    r
}

// ---------------------------------------------------------------------------
// Token noise
// ---------------------------------------------------------------------------

/// Where the noise of a token starts.
pub open spec fn noise_seed(token_id: u32) -> u64 {
    (token_id as u64).wrapping_mul(0x9E3779B97F4A7C15).wrapping_add(1)
}

/// One step of the noise.
pub open spec fn noise_step(seed: u64) -> u64 {
    let a = seed ^ (seed << 13);
    let b = a ^ (a >> 7);
    b ^ (b << 17)
}

/// The noise after `n` steps.
pub open spec fn noise_after(token_id: u32, n: nat) -> u64
    decreases n,
{
    if n == 0 {
        noise_seed(token_id)
    } else {
        noise_step(noise_after(token_id, (n - 1) as nat))
    }
}

/// The noise of a token: the low half of each of `d_model` steps.
pub open spec fn noise_words(token_id: u32, d_model: int) -> Seq<u32> {
    Seq::new(
        d_model as nat,
        |d: int| (noise_after(token_id, (d + 1) as nat) as int % WORD as int) as u32,
    )
}

/// The noise from which a token is embedded, one word for each dimension.
pub fn token_noise(token_id: u32, d_model: usize) -> (r: Vec<u32>)
    ensures
        r@ == noise_words(token_id, d_model as int),
{
    let mut seed: u64 = (token_id as u64).wrapping_mul(0x9E3779B97F4A7C15).wrapping_add(1);
    let mut r: Vec<u32> = Vec::with_capacity(d_model);
    let mut d: usize = 0;
    while d < d_model
        invariant
            d <= d_model,
            seed == noise_after(token_id, d as nat),
            r@ == noise_words(token_id, d_model as int).take(d as int),
        decreases d_model - d,
    {
        let a: u64 = seed ^ (seed << 13);
        let b: u64 = a ^ (a >> 7);
        seed = b ^ (b << 17);
        r.push((seed % WORD) as u32);
        d += 1;
        assert(noise_after(token_id, d as nat) == noise_step(
            noise_after(token_id, (d - 1) as nat),
        ));
        assert(r@ =~= noise_words(token_id, d_model as int).take(d as int));
    }
    assert(r@ =~= noise_words(token_id, d_model as int));
    r
}

/// Noise never dies out: a step leads from a seed that is not zero to one that is not, and
/// from different seeds to different ones.
pub proof fn law_noise_never_dies(a: u64, b: u64)
    ensures
        a != 0 ==> noise_step(a) != 0,
        a != b ==> noise_step(a) != noise_step(b),
{
    let a1 = a ^ (a << 13);
    let b1 = b ^ (b << 13);
    assert(a != b ==> a ^ (a << 13) != b ^ (b << 13)) by (bit_vector);
    let a2 = a1 ^ (a1 >> 7);
    let b2 = b1 ^ (b1 >> 7);
    assert(a1 != b1 ==> a1 ^ (a1 >> 7) != b1 ^ (b1 >> 7)) by (bit_vector);
    assert(a2 != b2 ==> a2 ^ (a2 << 17) != b2 ^ (b2 << 17)) by (bit_vector);
    assert(a != 0 ==> ({
        let a1 = a ^ (a << 13);
        let a2 = a1 ^ (a1 >> 7);
        let a3 = a2 ^ (a2 << 17);
        a3 != 0
    })) by (bit_vector);
}

// ---------------------------------------------------------------------------
// The shape of a sequence
// ---------------------------------------------------------------------------

/// The places of a made-up sequence in the order of its values: row by row, each with its
/// token and its dimension.
pub open spec fn cells(d_model: int) -> Seq<(usize, usize)> {
    Seq::new((64 * d_model) as nat, |c: int| ((c / d_model) as usize, (c % d_model) as usize))
}

/// The places of a made-up sequence in the order of its values.
pub fn sequence_cells(d_model: usize) -> (r: Vec<(usize, usize)>)
    requires
        64 * d_model <= usize::MAX,
    ensures
        r@ == cells(d_model as int),
{
    let total: usize = SEQ_LEN * d_model;
    let mut r: Vec<(usize, usize)> = Vec::with_capacity(total);
    let mut c: usize = 0;
    while c < total
        invariant
            c <= total,
            total == 64 * d_model,
            r@ == cells(d_model as int).take(c as int),
        decreases total - c,
    {
        assert(d_model > 0);
        r.push((c / d_model, c % d_model));
        c += 1;
        assert(r@ =~= cells(d_model as int).take(c as int));
    }
    assert(r@ =~= cells(d_model as int));
    r
}

/// A made-up sequence has places for 64 rows of `d_model` values, and dimension `d` of token
/// `t` has its place at `t * d_model + d`. The phases of periodic data and the values of a
/// recall sequence fill these places, one each. Pairs of draws make up for all values of
/// noise, and pairs of hashes for a row of a random token, with at most one value to spare.
pub proof fn law_made_up_shape(
    d_model: int,
    t: int,
    d: int,
    b: int,
    keys: Seq<Vec<Scalar>>,
    background: Seq<Scalar>,
    token_id: u32,
)
    requires
        64 * d_model <= usize::MAX,
        0 <= t < 64,
        0 <= d < d_model,
    ensures
        cells(d_model).len() == SEQ_LEN * d_model,
        cells(d_model)[t * d_model + d] == (t as usize, d as usize),
        phases(b, d_model).len() == SEQ_LEN * d_model,
        phases(b, d_model)[t * d_model + d] == (phase(b, t, d) as u64, period(d) as u64),
        recall_data(keys, background, d_model).len() == SEQ_LEN * d_model,
        recall_data(keys, background, d_model)[t * d_model + d] == (match recall_role(t) {
            RecallRow::Key(k) => keys[k as int]@[d],
            RecallRow::Cue => Scalar::two(),
            RecallRow::Recall(k) => keys[k as int]@[d],
            RecallRow::Background => background[t * d_model + d],
        }),
        SEQ_LEN * d_model <= 2 * pair_count(SEQ_LEN * d_model) <= SEQ_LEN * d_model + 1,
        d_model <= 2 * hash_pairs(token_id, d_model).len() <= d_model + 1,
{
    let c = t * d_model + d;
    vstd::arithmetic::div_mod::lemma_fundamental_div_mod_converse(c, d_model, t, d);
    assert(0 <= c < 64 * d_model) by (nonlinear_arith)
        requires
            c == t * d_model + d,
            0 <= t < 64,
            0 <= d < d_model,
    ;
}

// ---------------------------------------------------------------------------
// Periodic data
// ---------------------------------------------------------------------------

/// The period of dimension `d`.
pub open spec fn period(d: int) -> int {
    4 + (d % 16) * 2
}

/// Where token `t` of batch `b` lies in the period of dimension `d`.
pub open spec fn phase(b: int, t: int, d: int) -> int {
    (b * 64 + t) % period(d)
}

/// The place of each token of batch `b` in the period of each dimension, with that period.
pub open spec fn phases(b: int, d_model: int) -> Seq<(u64, u64)> {
    Seq::new(
        (64 * d_model) as nat,
        |c: int| (phase(b, c / d_model, c % d_model) as u64, period(c % d_model) as u64),
    )
}

/// The place of each token of batch `b` in the period of each dimension, with that period.
pub fn periodic_phases(b: usize, d_model: usize) -> (r: Vec<(u64, u64)>)
    requires
        b * 64 + 64 <= usize::MAX,
        64 * d_model <= usize::MAX,
    ensures
        r@ == phases(b as int, d_model as int),
{
    let total: usize = SEQ_LEN * d_model;
    let mut r: Vec<(u64, u64)> = Vec::with_capacity(total);
    let mut c: usize = 0;
    while c < total
        invariant
            c <= total,
            total == 64 * d_model,
            b * 64 + 64 <= usize::MAX,
            r@ == phases(b as int, d_model as int).take(c as int),
        decreases total - c,
    {
        assert(d_model > 0);
        let t: usize = c / d_model;
        let d: usize = c % d_model;
        assert(t < 64) by {
            assert(d_model * 64 == 64 * d_model);
            vstd::arithmetic::div_mod::lemma_multiply_divide_lt(c as int, d_model as int, 64);
        }
        let length: u64 = 4 + (d % 16) as u64 * 2;
        let global: u64 = (b * SEQ_LEN + t) as u64;
        r.push((global % length, length));
        c += 1;
        assert(r@ =~= phases(b as int, d_model as int).take(c as int));
    }
    assert(r@ =~= phases(b as int, d_model as int));
    r
}

/// Periods lie between 4 and 34, and a dimension repeats itself after its period.
pub proof fn law_periodic(b: int, t: int, d: int)
    requires
        0 <= b,
        0 <= t,
        0 <= d,
    ensures
        4 <= period(d) <= 34,
        0 <= phase(b, t, d) < period(d),
        phase(b, t + period(d), d) == phase(b, t, d),
{
    let p = period(d);
    vstd::arithmetic::div_mod::lemma_mod_add_multiples_vanish(b * 64 + t, p);
    assert(b * 64 + (t + p) == p + (b * 64 + t));
}

// ---------------------------------------------------------------------------
// Associative recall
// ---------------------------------------------------------------------------

/// What stands at one place of a recall sequence.
#[derive(Clone, Copy, Debug, PartialEq, Eq, Structural)]
pub enum RecallRow {
    /// The key of this index is shown.
    Key(usize),
    /// The keys are asked for.
    Cue,
    /// The key of this index is expected.
    Recall(usize),
    /// Nothing but noise.
    Background,
}

/// What stands at place `t`: the keys from 4 to 7, the cue at 44, the keys again from 45 to
/// 48.
pub open spec fn recall_role(t: int) -> RecallRow {
    if 4 <= t <= 7 {
        RecallRow::Key((t - 4) as usize)
    } else if t == 44 {
        RecallRow::Cue
    } else if 45 <= t <= 48 {
        RecallRow::Recall((t - 45) as usize)
    } else {
        RecallRow::Background
    }
}

/// What stands at place `t`.
pub fn recall_row(t: usize) -> (r: RecallRow)
    ensures
        r == recall_role(t as int),
{
    if 4 <= t && t <= 7 {
        RecallRow::Key(t - 4)
    } else if t == 44 {
        RecallRow::Cue
    } else if 45 <= t && t <= 48 {
        RecallRow::Recall(t - 45)
    } else {
        RecallRow::Background
    }
}

/// One value of a recall sequence.
pub open spec fn recall_value(
    keys: Seq<Vec<Scalar>>,
    background: Seq<Scalar>,
    d_model: int,
    c: int,
) -> Scalar {
    match recall_role(c / d_model) {
        RecallRow::Key(k) => keys[k as int]@[c % d_model],
        RecallRow::Cue => Scalar::two(),
        RecallRow::Recall(k) => keys[k as int]@[c % d_model],
        RecallRow::Background => background[c],
    }
}

/// A recall sequence.
pub open spec fn recall_data(keys: Seq<Vec<Scalar>>, background: Seq<Scalar>, d_model: int) -> Seq<
    Scalar,
> {
    Seq::new((64 * d_model) as nat, |c: int| recall_value(keys, background, d_model, c))
}

/// Lays out a recall sequence from four drawn keys and drawn noise.
pub fn recall_sequence(keys: &Vec<Vec<Scalar>>, background: &Vec<Scalar>, d_model: usize) -> (r: Vec<
    Scalar,
>)
    requires
        64 * d_model <= usize::MAX,
        keys@.len() == 4,
        forall|k: int| 0 <= k < 4 ==> (#[trigger] keys@[k])@.len() == d_model,
        background@.len() == 64 * d_model,
    ensures
        r@ == recall_data(keys@, background@, d_model as int),
{
    let total: usize = SEQ_LEN * d_model;
    let mut r: Vec<Scalar> = Vec::with_capacity(total);
    let mut c: usize = 0;
    while c < total
        invariant
            c <= total,
            total == 64 * d_model,
            keys@.len() == 4,
            forall|k: int| 0 <= k < 4 ==> (#[trigger] keys@[k])@.len() == d_model,
            background@.len() == 64 * d_model,
            r@ == recall_data(keys@, background@, d_model as int).take(c as int),
        decreases total - c,
    {
        assert(d_model > 0);
        let t: usize = c / d_model;
        let d: usize = c % d_model;
        let value: Scalar = match recall_row(t) {
            RecallRow::Key(k) => keys[k][d],
            RecallRow::Cue => Scalar::two(),
            RecallRow::Recall(k) => keys[k][d],
            RecallRow::Background => background[c],
        };
        r.push(value);
        c += 1;
        assert(r@ =~= recall_data(keys@, background@, d_model as int).take(c as int));
    }
    assert(r@ =~= recall_data(keys@, background@, d_model as int));
    r
}

/// What is recalled is what was shown: place 45 + k repeats place 4 + k.
pub proof fn law_recall_repeats_keys(
    keys: Seq<Vec<Scalar>>,
    background: Seq<Scalar>,
    d_model: int,
    k: int,
    d: int,
)
    requires
        0 <= k < 4,
        0 <= d < d_model,
    ensures
        recall_data(keys, background, d_model)[(45 + k) * d_model + d] == recall_data(
            keys,
            background,
            d_model,
        )[(4 + k) * d_model + d],
{
    lemma_row(45 + k, d, d_model);
    lemma_row(4 + k, d, d_model);
}

proof fn lemma_row(t: int, d: int, d_model: int)
    requires
        0 <= t < 64,
        0 <= d < d_model,
    ensures
        0 <= t * d_model + d < 64 * d_model,
        (t * d_model + d) / d_model == t,
        (t * d_model + d) % d_model == d,
{
    vstd::arithmetic::div_mod::lemma_fundamental_div_mod_converse(t * d_model + d, d_model, t, d);
    assert(0 <= t * d_model && t * d_model + d_model <= 64 * d_model) by (nonlinear_arith)
        requires
            0 <= t < 64,
            0 < d_model,
    ;
}

/// Which places are held against each other when recall is measured: the key shown at the
/// first with what is predicted at the second, one place before the key comes again.
/// There is nothing to measure in a sequence of fewer than 48 tokens.
pub open spec fn recall_checks(seq_len: int) -> Seq<(usize, usize)> {
    if seq_len >= 48 {
        Seq::new(4, |k: int| ((4 + k) as usize, (44 + k) as usize))
    } else {
        Seq::empty()
    }
}

/// Which places are held against each other when recall is measured.
pub fn recall_pairs(seq_len: usize) -> (r: Vec<(usize, usize)>)
    ensures
        r@ == recall_checks(seq_len as int),
        forall|i: int| 0 <= i < r@.len() ==> (#[trigger] r@[i]).0 < seq_len && r@[i].1 < seq_len,
{
    let mut r: Vec<(usize, usize)> = Vec::new();
    if seq_len >= 48 {
        let mut k: usize = 0;
        while k < 4
            invariant
                k <= 4,
                seq_len >= 48,
                r@ == recall_checks(seq_len as int).take(k as int),
            decreases 4 - k,
        {
            r.push((4 + k, 44 + k));
            k += 1;
            assert(r@ =~= recall_checks(seq_len as int).take(k as int));
        }
    }
    assert(r@ =~= recall_checks(seq_len as int));
    r
}

// ---------------------------------------------------------------------------
// Grammar
// ---------------------------------------------------------------------------

/// States of the grammar.
pub const NUM_STATES: usize = 8;

/// The next state: one further for a draw below 0.7, three further for another.
pub open spec fn grammar_step(state: int, draw: Scalar) -> int {
    if draw.below(Scalar { bits: 0x3f33_3333 }) {
        (state + 1) % 8
    } else {
        (state + 3) % 8
    }
}

/// The state after the first `n` draws.
pub open spec fn grammar_after(state: int, draws: Seq<Scalar>, n: int) -> int
    decreases n,
{
    if n <= 0 {
        state
    } else {
        grammar_step(grammar_after(state, draws, n - 1), draws[n - 1])
    }
}

/// Walks the grammar from `state` and returns the states on the way. `state` is then where
/// the walk ended.
pub fn grammar_walk(state: &mut usize, draws: &Vec<Scalar>) -> (r: Vec<usize>)
    requires
        *old(state) < NUM_STATES,
    ensures
        *final(state) == grammar_after(*old(state) as int, draws@, draws@.len() as int),
        *final(state) < NUM_STATES,
        r@.len() == draws@.len(),
        forall|i: int|
            0 <= i < draws@.len() ==> #[trigger] r@[i] == grammar_after(
                *old(state) as int,
                draws@,
                i + 1,
            ),
{
    let ghost start = *state as int;
    let mut r: Vec<usize> = Vec::with_capacity(draws.len());
    let mut i: usize = 0;
    while i < draws.len()
        invariant
            i <= draws.len(),
            *state < NUM_STATES,
            *state == grammar_after(start, draws@, i as int),
            r@.len() == i,
            forall|k: int|
                0 <= k < i ==> #[trigger] r@[k] == grammar_after(start, draws@, k + 1),
        decreases draws.len() - i,
    {
        let draw: Scalar = draws[i];
        *state =
        if draw.lt(Scalar { bits: 0x3f33_3333 }) {
            (*state + 1) % NUM_STATES
        } else {
            (*state + 3) % NUM_STATES
        };
        r.push(*state);
        i += 1;
    }
    r
}

/// Each move of the grammar is a permutation of its states, so no state is favoured: from
/// different states the same draw leads to different ones.
pub proof fn law_grammar_is_balanced(a: int, b: int, draw: Scalar)
    requires
        0 <= a < 8,
        0 <= b < 8,
        a != b,
    ensures
        grammar_step(a, draw) != grammar_step(b, draw),
        0 <= grammar_step(a, draw) < 8,
{
}

// ---------------------------------------------------------------------------
// Other layouts
// ---------------------------------------------------------------------------

/// What a batch of mixed patterns shows.
#[derive(Clone, Copy, Debug, PartialEq, Eq, Structural)]
pub enum PatternMode {
    Harmonic,
    Recall,
    Nested,
    Burst,
}

/// What batch `b` of mixed patterns shows.
pub open spec fn mode_of(b: int) -> PatternMode {
    if b % 4 == 0 {
        PatternMode::Harmonic
    } else if b % 4 == 1 {
        PatternMode::Recall
    } else if b % 4 == 2 {
        PatternMode::Nested
    } else {
        PatternMode::Burst
    }
}

/// What batch `b` of mixed patterns shows. The four kinds take turns.
pub fn pattern_mode(b: usize) -> (r: PatternMode)
    ensures
        r == mode_of(b as int),
        r is Harmonic <==> b % 4 == 0,
        r is Recall <==> b % 4 == 1,
        r is Nested <==> b % 4 == 2,
        r is Burst <==> b % 4 == 3,
{
    if b % 4 == 0 {
        PatternMode::Harmonic
    } else if b % 4 == 1 {
        PatternMode::Recall
    } else if b % 4 == 2 {
        PatternMode::Nested
    } else {
        PatternMode::Burst
    }
}

/// The place before `d` on a ring of `n`.
pub open spec fn before_on_ring(d: int, n: int) -> int {
    (d + n - 1) % n
}

/// The place after `d` on a ring of `n`.
pub open spec fn after_on_ring(d: int, n: int) -> int {
    (d + 1) % n
}

/// The two neighbors of `d` on a ring of `n`.
pub fn ring_neighbors(d: usize, n: usize) -> (r: (usize, usize))
    requires
        d < n,
        2 * n <= usize::MAX,
    ensures
        r.0 == before_on_ring(d as int, n as int),
        r.1 == after_on_ring(d as int, n as int),
        r.0 < n,
        r.1 < n,
{
    ((d + n - 1) % n, (d + 1) % n)
}

/// On a ring each place is before the one after it.
pub proof fn law_ring(d: int, n: int)
    requires
        0 <= d < n,
    ensures
        before_on_ring(after_on_ring(d, n), n) == d,
        after_on_ring(before_on_ring(d, n), n) == d,
{
    if d + 1 == n {
        vstd::arithmetic::div_mod::lemma_mod_self_0(n);
        vstd::arithmetic::div_mod::lemma_small_mod((n - 1) as nat, n as nat);
    } else {
        vstd::arithmetic::div_mod::lemma_small_mod((d + 1) as nat, n as nat);
        vstd::arithmetic::div_mod::lemma_mod_add_multiples_vanish(d, n);
        vstd::arithmetic::div_mod::lemma_small_mod(d as nat, n as nat);
    }
    if d == 0 {
        vstd::arithmetic::div_mod::lemma_small_mod((n - 1) as nat, n as nat);
        vstd::arithmetic::div_mod::lemma_mod_self_0(n);
    } else {
        vstd::arithmetic::div_mod::lemma_mod_add_multiples_vanish(d - 1, n);
        vstd::arithmetic::div_mod::lemma_small_mod((d - 1) as nat, n as nat);
        vstd::arithmetic::div_mod::lemma_small_mod(d as nat, n as nat);
    }
}

/// The four patterns take turns: each follows the one before it, the first is harmonic, and
/// after the burst it starts over.
pub proof fn law_patterns_take_turns(b: int)
    requires
        0 <= b,
    ensures
        mode_of(0) is Harmonic,
        mode_of(b + 1) is Recall <==> mode_of(b) is Harmonic,
        mode_of(b + 1) is Nested <==> mode_of(b) is Recall,
        mode_of(b + 1) is Burst <==> mode_of(b) is Nested,
        mode_of(b + 1) is Harmonic <==> mode_of(b) is Burst,
{
}

/// Going on by one place on a ring leads to the next number, and from the last place to the
/// first; going back, the other way round.
pub proof fn law_ring_steps_by_one(d: int, n: int)
    requires
        0 <= d < n,
    ensures
        d + 1 < n ==> after_on_ring(d, n) == d + 1,
        d + 1 == n ==> after_on_ring(d, n) == 0,
        d > 0 ==> before_on_ring(d, n) == d - 1,
        d == 0 ==> before_on_ring(d, n) == n - 1,
{
    if d + 1 == n {
        vstd::arithmetic::div_mod::lemma_mod_self_0(n);
    } else {
        vstd::arithmetic::div_mod::lemma_small_mod((d + 1) as nat, n as nat);
    }
    if d == 0 {
        vstd::arithmetic::div_mod::lemma_small_mod((n - 1) as nat, n as nat);
    } else {
        vstd::arithmetic::div_mod::lemma_mod_add_multiples_vanish(d - 1, n);
        vstd::arithmetic::div_mod::lemma_small_mod((d - 1) as nat, n as nat);
    }
}

/// The shortest period is four. From one dimension to the next it grows by two, and after
/// sixteen dimensions it starts over.
pub proof fn law_periods_grow(d: int)
    requires
        0 <= d,
    ensures
        d % 16 == 0 ==> period(d) == 4,
        (d + 1) % 16 != 0 ==> period(d + 1) == period(d) + 2,
        period(d + 16) == period(d),
{
}

/// Time goes on by one from token to token and from the last token of a batch to the first of
/// the next: a phase is followed by the next, and the last of a period by the first.
pub proof fn law_phases_follow_each_other(b: int, t: int, d: int)
    requires
        0 <= b,
        0 <= t,
        0 <= d,
    ensures
        phase(0, 0, d) == 0,
        phase(b, t, d) + 1 < period(d) ==> phase(b, t + 1, d) == phase(b, t, d) + 1,
        phase(b, t, d) + 1 == period(d) ==> phase(b, t + 1, d) == 0,
        phase(b + 1, t, d) == phase(b, t + SEQ_LEN, d),
{
    let p = period(d);
    let x = b * 64 + t;
    vstd::arithmetic::div_mod::lemma_small_mod(0, p as nat);
    vstd::arithmetic::div_mod::lemma_fundamental_div_mod(x, p);
    vstd::arithmetic::div_mod::lemma_mod_bound(x, p);
    assert(b * 64 + (t + 1) == x + 1);
    assert((b + 1) * 64 + t == b * 64 + (t + 64));
    if x % p + 1 < p {
        assert(x + 1 == (x / p) * p + (x % p + 1)) by (nonlinear_arith)
            requires
                x == p * (x / p) + x % p,
        ;
        vstd::arithmetic::div_mod::lemma_fundamental_div_mod_converse(x + 1, p, x / p, x % p + 1);
    } else {
        assert(x + 1 == (x / p + 1) * p + 0) by (nonlinear_arith)
            requires
                x == p * (x / p) + x % p,
                x % p + 1 == p,
        ;
        vstd::arithmetic::div_mod::lemma_fundamental_div_mod_converse(x + 1, p, x / p + 1, 0);
    }
}

/// In a recall sequence key `k` is shown at place 4 + k and expected at place 45 + k, right
/// behind the cue at place 44, where all values are two. Everything else is noise.
pub proof fn law_recall_layout(
    keys: Seq<Vec<Scalar>>,
    background: Seq<Scalar>,
    d_model: int,
    t: int,
    d: int,
)
    requires
        0 <= t < 64,
        0 <= d < d_model,
    ensures
        recall_data(keys, background, d_model).len() == 64 * d_model,
        4 <= t < 8 ==> recall_data(keys, background, d_model)[t * d_model + d] == keys[t - 4]@[d],
        45 <= t < 49 ==> recall_data(keys, background, d_model)[t * d_model + d] == keys[t - 45]@[d],
        t == 44 ==> recall_data(keys, background, d_model)[t * d_model + d].units() == 2
            * Scalar::one().units(),
        t < 4 || 8 <= t < 44 || 49 <= t ==> recall_data(keys, background, d_model)[t * d_model + d]
            == background[t * d_model + d],
{
    lemma_row(t, d, d_model);
    crate::scalar::law_named_values();
}

/// Recall is measured once for each of the four keys: where it is shown, against the place just
/// before the one where it is expected. Sequences too short to hold the last of these places
/// are not measured.
pub proof fn law_recall_is_measured_before_it_shows(seq_len: int, k: int)
    requires
        0 <= seq_len,
        0 <= k < 4,
    ensures
        seq_len < 48 ==> recall_checks(seq_len).len() == 0,
        seq_len >= 48 ==> {
            let (shown, predicted) = recall_checks(seq_len)[k];
            &&& recall_checks(seq_len).len() == 4
            &&& recall_role(shown as int) == RecallRow::Key(k as usize)
            &&& recall_role(predicted + 1) == RecallRow::Recall(k as usize)
            &&& predicted < seq_len
        },
{
}

/// A draw below 0.7 moves the grammar on by one state, any other by three, round the ring of
/// eight. A walk over some draws and then over others is one walk over all.
pub proof fn law_grammar_moves(state: int, draw: Scalar, draws: Seq<Scalar>, more: Seq<Scalar>)
    requires
        0 <= state < 8,
    ensures
        draw.bits < 0x3f33_3333 ==> (grammar_step(state, draw) - state) % 8 == 1,
        0x3f33_3333 <= draw.bits < 0x8000_0000 ==> (grammar_step(state, draw) - state) % 8 == 3,
        0 <= grammar_step(state, draw) < 8,
        grammar_after(state, Seq::empty(), 0) == state,
        grammar_after(state, draws.push(draw), draws.len() as int + 1) == grammar_step(
            grammar_after(state, draws, draws.len() as int),
            draw,
        ),
        grammar_after(state, draws + more, (draws + more).len() as int) == grammar_after(
            grammar_after(state, draws, draws.len() as int),
            more,
            more.len() as int,
        ),
{
    lemma_same_walk(state, draws.push(draw), draws, draws.len() as int);
    lemma_walk_on(state, draws, more, more.len() as int);
}

proof fn lemma_same_walk(state: int, a: Seq<Scalar>, b: Seq<Scalar>, n: int)
    requires
        0 <= n <= a.len(),
        n <= b.len(),
        forall|i: int| 0 <= i < n ==> #[trigger] a[i] == b[i],
    ensures
        grammar_after(state, a, n) == grammar_after(state, b, n),
    decreases n,
{
    if n > 0 {
        lemma_same_walk(state, a, b, n - 1);
        assert(a[n - 1] == b[n - 1]);
    }
}

proof fn lemma_walk_on(state: int, draws: Seq<Scalar>, more: Seq<Scalar>, n: int)
    requires
        0 <= n <= more.len(),
    ensures
        grammar_after(state, draws + more, draws.len() + n) == grammar_after(
            grammar_after(state, draws, draws.len() as int),
            more,
            n,
        ),
    decreases n,
{
    if n > 0 {
        lemma_walk_on(state, draws, more, n - 1);
        assert((draws + more)[draws.len() + n - 1] == more[n - 1]);
    } else {
        lemma_same_walk(state, draws + more, draws, draws.len() as int);
    }
}

/// What stands for a token in a few dimensions stands for it in more, too: neither its hashes
/// nor its noise depend on how many dimensions follow. The noise starts one step behind its
/// seed, and no token starts like another.
pub proof fn law_more_dimensions_change_nothing(token_id: u32, other: u32, a: int, b: int)
    requires
        0 <= a <= b,
    ensures
        hash_pairs(token_id, b).len() == (b + 1) / 2,
        hash_pairs(token_id, b).take(hash_pairs(token_id, a).len() as int) == hash_pairs(
            token_id,
            a,
        ),
        noise_words(token_id, b).len() == b,
        noise_words(token_id, b).take(a) == noise_words(token_id, a),
        b > 0 ==> noise_words(token_id, b)[0] == noise_step(noise_seed(token_id)) as int
            % 0x1_0000_0000,
        token_id != other ==> noise_seed(token_id) != noise_seed(other),
{
    assert(hash_pairs(token_id, b).take(hash_pairs(token_id, a).len() as int) =~= hash_pairs(
        token_id,
        a,
    ));
    assert(noise_words(token_id, b).take(a) =~= noise_words(token_id, a));
    reveal_with_fuel(noise_after, 2);
    if noise_seed(token_id) == noise_seed(other) {
        lemma_wrapping_mul(
            token_id as u64,
            0x9E3779B97F4A7C15,
            0xF1DE83E19937733D,
            10771413168148108919,
        );
        lemma_wrapping_mul(other as u64, 0x9E3779B97F4A7C15, 0xF1DE83E19937733D, 10771413168148108919);
    }
}


} // verus!
