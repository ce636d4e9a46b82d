//! Splitting a sequence into particles and putting it together again.
use crate::words::WORD;
use crate::config::MicroBlockConfig;
use crate::particle::{models, Particle, ParticleHeader, ParticleModel};
use crate::scalar::{zeros, Scalar};
use vstd::prelude::*;

verus! {

/// Splits each token's embedding into shards and knows where the shards enter the mesh.
#[derive(Debug)]
pub struct TokenScattering {
    pub num_shards: usize,
    pub d_head: usize,
    pub ingress_node_indices: Vec<usize>,
}

/// How many nodes take particles in when `requested` are asked for: at least one.
pub open spec fn ingress_count(requested: int) -> int {
    if requested > 1 {
        requested
    } else {
        1
    }
}

/// Distance between two nodes that take particles in.
pub open spec fn ingress_step(num_nodes: int, requested: int) -> int {
    if num_nodes / ingress_count(requested) > 1 {
        num_nodes / ingress_count(requested)
    } else {
        1
    }
}

/// The nodes that take particles in: evenly spread, none beyond the last node.
pub open spec fn ingress_nodes(num_nodes: int, requested: int) -> Seq<usize> {
    Seq::new(
        ingress_count(requested) as nat,
        |i: int|
            (if i * ingress_step(num_nodes, requested) < num_nodes - 1 {
                i * ingress_step(num_nodes, requested)
            } else {
                num_nodes - 1
            }) as usize,
    )
}

/// The `i`-th stretch of `d_head` values.
pub open spec fn piece(data: Seq<Scalar>, d_head: int, i: int) -> Seq<Scalar> {
    data.subrange(i * d_head, i * d_head + d_head)
}

/// The shard that stands at place `i` among all shards of a sequence.
pub open spec fn shard_particle(
    data: Seq<Scalar>,
    num_shards: int,
    d_head: int,
    offset: int,
    energy: Scalar,
    i: int,
) -> ParticleModel {
    ParticleModel::fresh(
        ParticleHeader {
            origin_token_id: ((i / num_shards + offset) % WORD as int) as u32,
            shard_id: (i % num_shards % 65536) as u16,
            energy,
            hop_count: 0,
            halted: false,
        },
        piece(data, d_head, i),
    )
}

/// All shards of a sequence, token by token.
pub open spec fn scattered(
    data: Seq<Scalar>,
    seq_len: int,
    num_shards: int,
    d_head: int,
    offset: int,
    energy: Scalar,
) -> Seq<ParticleModel> {
    Seq::new(
        (seq_len * num_shards) as nat,
        |i: int| shard_particle(data, num_shards, d_head, offset, energy, i),
    )
}

/// Whether `p` brings value `d` of shard `s` of token `t`.
pub open spec fn covers(p: ParticleModel, t: int, s: int, d: int) -> bool {
    p.header.origin_token_id == t && p.header.shard_id == s && d < p.payload.len()
}

/// Value `d` of shard `s` of token `t`: that of the last particle which brings it, zero
/// where none does.
pub open spec fn gathered_value(list: Seq<ParticleModel>, t: int, s: int, d: int) -> Scalar
    decreases list.len(),
{
    if list.len() == 0 {
        Scalar::zero()
    } else if covers(list.last(), t, s, d) {
        list.last().payload[d]
    } else {
        gathered_value(list.drop_last(), t, s, d)
    }
}

/// Value at place `c` of the sequence that a list of particles makes up.
pub open spec fn gathered_at(list: Seq<ParticleModel>, num_shards: int, d_head: int, c: int) -> Scalar {
    gathered_value(list, c / d_head / num_shards, c / d_head % num_shards, c % d_head)
}

/// The sequence that a list of particles makes up.
pub open spec fn gathered(list: Seq<ParticleModel>, seq_len: int, num_shards: int, d_head: int) -> Seq<
    Scalar,
> {
    Seq::new(
        (seq_len * (d_head * num_shards)) as nat,
        |c: int| gathered_at(list, num_shards, d_head, c),
    )
}

impl TokenScattering {
    /// A splitter for `num_shards` shards of `d_head` values, with `num_ingress` nodes to
    /// take them in, that is the number of shards times the ingress ratio, rounded up.
    pub fn new(num_shards: usize, d_head: usize, num_ingress: usize) -> (r: Self)
        requires
            num_shards > 0,
        ensures
            r.num_shards == num_shards,
            r.d_head == d_head,
            r.ingress_node_indices@ == ingress_nodes(num_shards as int, num_ingress as int),
    {
        let num_nodes: usize = num_shards;
        let count: usize = if num_ingress > 1 {
            num_ingress
        } else {
            1
        };
        let even: usize = num_nodes / count;
        let step: usize = if even > 1 {
            even
        } else {
            1
        };
        let mut ingress_node_indices: Vec<usize> = Vec::new();
        let mut i: usize = 0;
        while i < count
            invariant
                i <= count,
                count == ingress_count(num_ingress as int),
                num_nodes == num_shards > 0,
                step == ingress_step(num_nodes as int, num_ingress as int),
                ingress_node_indices@ == ingress_nodes(num_nodes as int, num_ingress as int).take(
                    i as int,
                ),
            decreases count - i,
        {
            proof {
                lemma_ingress_bound(num_nodes as int, count as int, step as int, i as int);
            }
            let place: usize = i * step;
            ingress_node_indices.push(
                if place < num_nodes - 1 {
                    place
                } else {
                    num_nodes - 1
                },
            );
            i += 1;
            assert(ingress_node_indices@ =~= ingress_nodes(
                num_nodes as int,
                num_ingress as int,
            ).take(i as int));
        }
        assert(ingress_node_indices@ =~= ingress_nodes(num_nodes as int, num_ingress as int));
        TokenScattering { num_shards, d_head, ingress_node_indices }
    }

    /// Splits a sequence of `seq_len` embeddings of `d_model` values. The tokens are
    /// numbered from `offset`.
    pub fn scatter_embeddings(
        &self,
        data: &Vec<Scalar>,
        seq_len: usize,
        d_model: usize,
        config: &MicroBlockConfig,
        offset: usize,
    ) -> (r: Vec<Particle>)
        requires
            d_model == self.num_shards * self.d_head,
            data@.len() == seq_len * d_model,
            seq_len * self.num_shards <= usize::MAX,
            seq_len + offset <= usize::MAX,
        ensures
            models(r@) == scattered(
                data@,
                seq_len as int,
                self.num_shards as int,
                self.d_head as int,
                offset as int,
                config.initial_energy,
            ),
    {
        let total: usize = seq_len * self.num_shards;
        let d_head: usize = self.d_head;
        let mut particles: Vec<Particle> = Vec::with_capacity(total);
        let ghost whole = scattered(
            data@,
            seq_len as int,
            self.num_shards as int,
            d_head as int,
            offset as int,
            config.initial_energy,
        );
        assert(total * d_head == data@.len()) by (nonlinear_arith)
            requires
                total == seq_len * self.num_shards,
                data@.len() == seq_len * d_model,
                d_model == self.num_shards * d_head,
        ;
        let mut i: usize = 0;
        while i < total
            invariant
                i <= total,
                d_head == self.d_head,
                total == seq_len * self.num_shards,
                total * d_head == data@.len(),
                seq_len + offset <= usize::MAX,
                whole == scattered(
                    data@,
                    seq_len as int,
                    self.num_shards as int,
                    d_head as int,
                    offset as int,
                    config.initial_energy,
                ),
                models(particles@) == whole.take(i as int),
            decreases total - i,
        {
            assert(self.num_shards > 0) by (nonlinear_arith)
                requires
                    i < seq_len * self.num_shards,
                    0 <= i,
                    0 <= self.num_shards,
            ;
            let t: usize = i / self.num_shards;
            let shard: usize = i % self.num_shards;
            assert(t < seq_len) by (nonlinear_arith)
                requires
                    t == i / self.num_shards,
                    i < seq_len * self.num_shards,
                    self.num_shards > 0,
            ;
            assert(i * d_head + d_head <= total * d_head) by (nonlinear_arith)
                requires
                    i + 1 <= total,
                    0 <= d_head,
            ;
            assert(0 <= i * d_head) by (nonlinear_arith)
                requires
                    0 <= i,
                    0 <= d_head,
            ;
            assert(data@.len() == data.len());
            let payload: Vec<Scalar> = slice_of(data, i * d_head, d_head);
            let header: ParticleHeader = ParticleHeader::new(
                ((t + offset) as u64 % WORD) as u32,
                (shard % 65536) as u16,
                config.initial_energy,
            );
            let particle: Particle = Particle::new(header, payload);
            let ghost front = models(particles@);
            assert(particle@ == whole[i as int]);
            particles.push(particle);
            i += 1;
            assert(models(particles@) =~= front.push(particle@));
            assert(models(particles@) =~= whole.take(i as int));
        }
        assert(models(particles@) =~= whole);
        particles
    }
}

proof fn lemma_ingress_bound(num_nodes: int, count: int, step: int, i: int)
    requires
        0 <= i < count <= usize::MAX,
        0 < num_nodes <= usize::MAX,
        step == num_nodes / count || step == 1,
    ensures
        0 <= i * step <= usize::MAX,
{
    if step == 1 {
        assert(i * 1 == i);
    } else {
        vstd::arithmetic::div_mod::lemma_fundamental_div_mod(num_nodes, count);
        vstd::arithmetic::div_mod::lemma_mod_bound(num_nodes, count);
        vstd::arithmetic::div_mod::lemma_div_pos_is_pos(num_nodes, count);
        assert(0 <= i * step <= count * step) by (nonlinear_arith)
            requires
                0 <= i <= count,
                0 <= step,
        ;
    }
}

/// `len` values from `start` on.
pub fn slice_of(data: &Vec<Scalar>, start: usize, len: usize) -> (r: Vec<Scalar>)
    requires
        start + len <= data@.len(),
    ensures
        r@ == data@.subrange(start as int, start + len),
{
    let mut r: Vec<Scalar> = Vec::with_capacity(len);
    let mut i: usize = 0;
    while i < len
        invariant
            i <= len,
            start + len <= data@.len(),
            r@ == data@.subrange(start as int, start + i),
        decreases len - i,
    {
        assert(data@.len() == data.len());
        r.push(data[start + i]);
        i += 1;
        assert(r@ =~= data@.subrange(start as int, start + i));
    }
    r
}

/// Puts a sequence together from its particles. Particles of tokens or shards outside the
/// sequence are passed over, and what no particle brings is zero.
pub fn gather(particles: &Vec<Particle>, seq_len: usize, num_shards: usize, d_head: usize) -> (r: Vec<
    Scalar,
>)
    requires
        seq_len * (d_head * num_shards) <= usize::MAX,
        d_head * num_shards <= usize::MAX,
    ensures
        r@ == gathered(models(particles@), seq_len as int, num_shards as int, d_head as int),
{
    let ghost list = models(particles@);
    let d_model: usize = d_head * num_shards;
    let mut out: Vec<Scalar> = zeros(seq_len * d_model);
    let mut i: usize = 0;
    while i < particles.len()
        invariant
            i <= particles.len(),
            list == models(particles@),
            d_model == d_head * num_shards,
            seq_len * d_model <= usize::MAX,
            out@.len() == seq_len * d_model,
            forall|c: int|
                0 <= c < out@.len() ==> #[trigger] out@[c] == gathered_at(
                    list.take(i as int),
                    num_shards as int,
                    d_head as int,
                    c,
                ),
        decreases particles.len() - i,
    {
        let p: &Particle = &particles[i];
        let t: usize = p.header.origin_token_id as usize;
        let shard: usize = p.header.shard_id as usize;
        let ghost front = list.take(i as int);
        let ghost now = list.take(i + 1);
        assert(now.drop_last() =~= front);
        assert(now.last() == p@);
        let ghost before = out@;
        if t < seq_len && shard < num_shards {
            let len: usize = if p.payload.len() < d_head {
                p.payload.len()
            } else {
                d_head
            };
            let ghost slot = t * num_shards + shard;
            proof {
                lemma_slot(t as int, shard as int, seq_len as int, num_shards as int, d_head as int);
            }
            let base: usize = t * d_model + shard * d_head;
            let mut d: usize = 0;
            while d < len
                invariant
                    d <= len <= d_head,
                    len <= p.payload@.len(),
                    base == slot * d_head,
                    slot * d_head + d_head <= out@.len(),
                    out@.len() == before.len(),
                    forall|c: int|
                        0 <= c < out@.len() ==> #[trigger] out@[c] == if base <= c < base + d {
                            p.payload@[c - base]
                        } else {
                            before[c]
                        },
                decreases len - d,
            {
                assert(out@.len() == out.len());
                out.set(base + d, p.payload[d]);
                d += 1;
            }
            assert forall|c: int| 0 <= c < out@.len() implies #[trigger] out@[c] == gathered_at(
                now,
                num_shards as int,
                d_head as int,
                c,
            ) by {
                lemma_place(c, t as int, shard as int, num_shards as int, d_head as int, seq_len as int);
                assert(before[c] == gathered_at(front, num_shards as int, d_head as int, c));
            }
        } else {
            assert forall|c: int| 0 <= c < out@.len() implies #[trigger] out@[c] == gathered_at(
                now,
                num_shards as int,
                d_head as int,
                c,
            ) by {
                lemma_place_range(c, num_shards as int, d_head as int, seq_len as int);
            }
        }
        i += 1;
    }
    assert(list.take(i as int) =~= list);
    assert(out@ =~= gathered(list, seq_len as int, num_shards as int, d_head as int));
    out
}

/// Where a shard begins.
proof fn lemma_slot(t: int, s: int, seq_len: int, num_shards: int, d_head: int)
    requires
        0 <= t < seq_len,
        0 <= s < num_shards,
        0 <= d_head,
    ensures
        t * (d_head * num_shards) + s * d_head == (t * num_shards + s) * d_head,
        0 <= t * (d_head * num_shards),
        0 <= s * d_head,
        (t * num_shards + s) * d_head + d_head <= seq_len * (d_head * num_shards),
{
    assert(t * (d_head * num_shards) + s * d_head == (t * num_shards + s) * d_head)
        by (nonlinear_arith);
    assert(0 <= d_head * num_shards) by (nonlinear_arith)
        requires
            0 <= d_head,
            0 <= num_shards,
    ;
    assert(0 <= t * (d_head * num_shards)) by (nonlinear_arith)
        requires
            0 <= t,
            0 <= d_head * num_shards,
    ;
    assert(0 <= s * d_head) by (nonlinear_arith)
        requires
            0 <= s,
            0 <= d_head,
    ;
    assert(t * num_shards + s + 1 <= seq_len * num_shards) by (nonlinear_arith)
        requires
            t + 1 <= seq_len,
            s + 1 <= num_shards,
            0 <= t,
            0 <= num_shards,
    ;
    let slot = t * num_shards + s;
    assert((slot + 1) * d_head <= (seq_len * num_shards) * d_head) by (nonlinear_arith)
        requires
            slot + 1 <= seq_len * num_shards,
            0 <= d_head,
    ;
    assert((slot + 1) * d_head == slot * d_head + d_head) by (nonlinear_arith);
    assert((seq_len * num_shards) * d_head == seq_len * (d_head * num_shards)) by (nonlinear_arith);
}

/// Place `c` belongs to shard `s` of token `t` exactly where it lies in that shard's stretch.
proof fn lemma_place(c: int, t: int, s: int, num_shards: int, d_head: int, seq_len: int)
    requires
        0 <= c < seq_len * (d_head * num_shards),
        0 <= t < seq_len,
        0 <= s < num_shards,
        0 <= d_head,
    ensures
        d_head > 0,
        (c / d_head / num_shards == t && c / d_head % num_shards == s) <==> (t * num_shards + s) * d_head
            <= c < (t * num_shards + s) * d_head + d_head,
        (t * num_shards + s) * d_head <= c < (t * num_shards + s) * d_head + d_head ==> c % d_head
            == c - (t * num_shards + s) * d_head,
{
    lemma_place_range(c, num_shards, d_head, seq_len);
    let slot = t * num_shards + s;
    let q = c / d_head;
    vstd::arithmetic::div_mod::lemma_fundamental_div_mod(c, d_head);
    vstd::arithmetic::div_mod::lemma_fundamental_div_mod(q, num_shards);
    if q / num_shards == t && q % num_shards == s {
        assert(q == slot) by (nonlinear_arith)
            requires
                q == num_shards * (q / num_shards) + q % num_shards,
                q / num_shards == t,
                q % num_shards == s,
                slot == t * num_shards + s,
        ;
        assert(d_head * q == slot * d_head) by (nonlinear_arith)
            requires
                q == slot,
        ;
    }
    if slot * d_head <= c < slot * d_head + d_head {
        vstd::arithmetic::div_mod::lemma_fundamental_div_mod_converse(
            c,
            d_head,
            slot,
            c - slot * d_head,
        );
        vstd::arithmetic::div_mod::lemma_fundamental_div_mod_converse(q, num_shards, t, s);
    }
}

/// What lies below `n` times `b` has a quotient below `n`.
proof fn lemma_quotient_below(a: int, b: int, n: int)
    requires
        0 < b,
        a < n * b,
    ensures
        a / b < n,
{
    assert(n * b == b * n) by (nonlinear_arith);
    vstd::arithmetic::div_mod::lemma_multiply_divide_lt(a, b, n);
}

/// The token, shard and value that a place belongs to lie inside the sequence.
proof fn lemma_place_range(c: int, num_shards: int, d_head: int, seq_len: int)
    requires
        0 <= c < seq_len * (d_head * num_shards),
        0 <= num_shards,
        0 <= d_head,
        0 <= seq_len,
    ensures
        d_head > 0,
        num_shards > 0,
        0 <= c / d_head / num_shards < seq_len,
        0 <= c / d_head % num_shards < num_shards,
        0 <= c % d_head < d_head,
        0 <= c / d_head < seq_len * num_shards,
{
    assert(d_head > 0 && num_shards > 0) by (nonlinear_arith)
        requires
            0 <= c < seq_len * (d_head * num_shards),
            0 <= num_shards,
            0 <= d_head,
            0 <= seq_len,
    ;
    assert(seq_len * (d_head * num_shards) == (seq_len * num_shards) * d_head)
        by (nonlinear_arith);
    lemma_quotient_below(c, d_head, seq_len * num_shards);
    vstd::arithmetic::div_mod::lemma_div_pos_is_pos(c, d_head);
    let q = c / d_head;
    lemma_quotient_below(q, num_shards, seq_len);
    vstd::arithmetic::div_mod::lemma_div_pos_is_pos(q, num_shards);
    vstd::arithmetic::div_mod::lemma_mod_bound(q, num_shards);
    vstd::arithmetic::div_mod::lemma_mod_bound(c, d_head);
}

/// Whether a particle of `list` brings shard `i` of the sequence as it stands in `data`.
pub open spec fn delivers(list: Seq<ParticleModel>, data: Seq<Scalar>, num_shards: int, d_head: int, i: int) -> bool {
    exists|k: int|
        0 <= k < list.len() && (#[trigger] list[k]).header.origin_token_id == i / num_shards
            && list[k].header.shard_id == i % num_shards && list[k].payload == piece(data, d_head, i)
}

/// Where one particle only brings a value, that value is gathered.
proof fn lemma_gathered_value(list: Seq<ParticleModel>, k: int, d: int)
    requires
        0 <= k < list.len(),
        0 <= d < list[k].payload.len(),
        forall|i: int, j: int|
            0 <= i < j < list.len() ==> (#[trigger] list[i]).tag() != (#[trigger] list[j]).tag(),
    ensures
        gathered_value(
            list,
            list[k].header.origin_token_id as int,
            list[k].header.shard_id as int,
            d,
        ) == list[k].payload[d],
    decreases list.len(),
{
    if k < list.len() - 1 {
        assert(list[k].tag() != list[list.len() - 1].tag());
        assert(list.drop_last()[k] == list[k]);
        lemma_gathered_value(list.drop_last(), k, d);
    }
}

/// A sequence comes back whole from its particles, in whatever order they settle and
/// whatever they met on the way, as long as their payloads are what they were.
pub proof fn law_gather_any_order(
    list: Seq<ParticleModel>,
    data: Seq<Scalar>,
    seq_len: int,
    num_shards: int,
    d_head: int,
)
    requires
        0 <= seq_len,
        0 <= num_shards,
        0 <= d_head,
        data.len() == seq_len * (d_head * num_shards),
        forall|i: int, j: int|
            0 <= i < j < list.len() ==> (#[trigger] list[i]).tag() != (#[trigger] list[j]).tag(),
        forall|i: int|
            0 <= i < seq_len * num_shards ==> #[trigger] delivers(list, data, num_shards, d_head, i),
    ensures
        gathered(list, seq_len, num_shards, d_head) == data,
{
    let all = gathered(list, seq_len, num_shards, d_head);
    assert forall|c: int| 0 <= c < data.len() implies all[c] == data[c] by {
        lemma_place_range(c, num_shards, d_head, seq_len);
        let i = c / d_head;
        let part = piece(data, d_head, i);
        assert(delivers(list, data, num_shards, d_head, i));
        let k = choose|k: int|
            0 <= k < list.len() && (#[trigger] list[k]).header.origin_token_id == i / num_shards
                && list[k].header.shard_id == i % num_shards && list[k].payload == part;
        vstd::arithmetic::div_mod::lemma_fundamental_div_mod(c, d_head);
        assert(d_head * i == i * d_head) by (nonlinear_arith);
        let s = i % num_shards;
        let t = i / num_shards;
        vstd::arithmetic::div_mod::lemma_fundamental_div_mod(i, num_shards);
        assert(num_shards * t == t * num_shards) by (nonlinear_arith);
        lemma_slot(t, s, seq_len, num_shards, d_head);
        assert(part.len() == d_head);
        assert(part[c % d_head] == data[c]);
        lemma_gathered_value(list, k, c % d_head);
    }
    assert(all =~= data);
}

/// The shards of a scattered sequence stand in their places, and no two are alike.
proof fn lemma_scattered(data: Seq<Scalar>, seq_len: int, num_shards: int, d_head: int, energy: Scalar)
    requires
        0 <= seq_len <= WORD,
        0 <= num_shards <= 65536,
    ensures
        scattered(data, seq_len, num_shards, d_head, 0, energy).len() == seq_len * num_shards,
        forall|i: int|
            0 <= i < seq_len * num_shards ==> {
                let p = #[trigger] scattered(data, seq_len, num_shards, d_head, 0, energy)[i];
                &&& p.header.origin_token_id == i / num_shards
                &&& p.header.shard_id == i % num_shards
                &&& p.payload == piece(data, d_head, i)
            },
        forall|i: int, j: int|
            0 <= i < j < seq_len * num_shards ==> (#[trigger] scattered(
                data,
                seq_len,
                num_shards,
                d_head,
                0,
                energy,
            )[i]).tag() != (#[trigger] scattered(data, seq_len, num_shards, d_head, 0, energy)[j]).tag(),
{
    let list = scattered(data, seq_len, num_shards, d_head, 0, energy);
    assert(0 <= seq_len * num_shards) by (nonlinear_arith)
        requires
            0 <= seq_len,
            0 <= num_shards,
    ;
    assert forall|i: int| 0 <= i < list.len() implies (#[trigger] list[i]).header.origin_token_id == i
        / num_shards && list[i].header.shard_id == i % num_shards by {
        assert(num_shards > 0) by (nonlinear_arith)
            requires
                0 <= i < seq_len * num_shards,
                0 <= num_shards,
        ;
        lemma_quotient_below(i, num_shards, seq_len);
        vstd::arithmetic::div_mod::lemma_div_pos_is_pos(i, num_shards);
        vstd::arithmetic::div_mod::lemma_mod_bound(i, num_shards);
    }
    assert forall|i: int, j: int| 0 <= i < j < list.len() implies (#[trigger] list[i]).tag() != (
    #[trigger] list[j]).tag() by {
        if list[i].tag() == list[j].tag() {
            assert(num_shards > 0) by (nonlinear_arith)
                requires
                    0 <= i < seq_len * num_shards,
                    0 <= num_shards,
            ;
            vstd::arithmetic::div_mod::lemma_fundamental_div_mod(i, num_shards);
            vstd::arithmetic::div_mod::lemma_fundamental_div_mod(j, num_shards);
        }
    }
}

/// Whether `p` belongs to a sequence of `seq_len` tokens of `num_shards` shards.
pub open spec fn belongs(p: ParticleModel, seq_len: int, num_shards: int) -> bool {
    p.header.origin_token_id < seq_len && p.header.shard_id < num_shards
}

/// The particles of a list that belong to a sequence.
pub open spec fn belonging(list: Seq<ParticleModel>, seq_len: int, num_shards: int) -> Seq<
    ParticleModel,
>
    decreases list.len(),
{
    if list.len() == 0 {
        Seq::empty()
    } else {
        let front = belonging(list.drop_last(), seq_len, num_shards);
        if belongs(list.last(), seq_len, num_shards) {
            front.push(list.last())
        } else {
            front
        }
    }
}

/// Particles of tokens or shards outside a sequence change nothing of what is gathered.
pub proof fn law_strays_change_nothing(
    list: Seq<ParticleModel>,
    seq_len: int,
    num_shards: int,
    d_head: int,
)
    requires
        0 <= seq_len,
        0 <= num_shards,
        0 <= d_head,
    ensures
        gathered(list, seq_len, num_shards, d_head) == gathered(
            belonging(list, seq_len, num_shards),
            seq_len,
            num_shards,
            d_head,
        ),
{
    let all = gathered(list, seq_len, num_shards, d_head);
    let own = gathered(belonging(list, seq_len, num_shards), seq_len, num_shards, d_head);
    assert forall|c: int| 0 <= c < all.len() implies all[c] == own[c] by {
        lemma_place_range(c, num_shards, d_head, seq_len);
        lemma_stray_value(
            list,
            seq_len,
            num_shards,
            c / d_head / num_shards,
            c / d_head % num_shards,
            c % d_head,
        );
    }
    assert(all =~= own);
}

proof fn lemma_stray_value(
    list: Seq<ParticleModel>,
    seq_len: int,
    num_shards: int,
    t: int,
    s: int,
    d: int,
)
    requires
        t < seq_len,
        s < num_shards,
    ensures
        gathered_value(list, t, s, d) == gathered_value(
            belonging(list, seq_len, num_shards),
            t,
            s,
            d,
        ),
    decreases list.len(),
{
    if list.len() > 0 {
        lemma_stray_value(list.drop_last(), seq_len, num_shards, t, s, d);
        let front = belonging(list.drop_last(), seq_len, num_shards);
        assert(front.push(list.last()).drop_last() =~= front);
    }
}

/// A sequence comes back whole from its shards in whatever order they arrive, and whatever
/// strays arrive among them: it is enough that those which belong to the sequence are its
/// shards, each of them once.
pub proof fn law_gather_undoes_scatter(
    list: Seq<ParticleModel>,
    data: Seq<Scalar>,
    seq_len: int,
    num_shards: int,
    d_head: int,
    energy: Scalar,
)
    requires
        0 <= seq_len <= WORD,
        0 <= num_shards <= 65536,
        0 <= d_head,
        data.len() == seq_len * (d_head * num_shards),
        belonging(list, seq_len, num_shards).to_multiset() == scattered(
            data,
            seq_len,
            num_shards,
            d_head,
            0,
            energy,
        ).to_multiset(),
    ensures
        gathered(list, seq_len, num_shards, d_head) == data,
{
    let sent = scattered(data, seq_len, num_shards, d_head, 0, energy);
    let own = belonging(list, seq_len, num_shards);
    law_strays_change_nothing(list, seq_len, num_shards, d_head);
    lemma_scattered(data, seq_len, num_shards, d_head, energy);
    broadcast use vstd::seq_lib::group_to_multiset_ensures;

    assert(sent.no_duplicates()) by {
        assert forall|i: int, j: int| 0 <= i < sent.len() && 0 <= j < sent.len() && i != j implies sent[i]
            != sent[j] by {
            if i < j {
                assert(sent[i].tag() != sent[j].tag());
            } else {
                assert(sent[j].tag() != sent[i].tag());
            }
        }
    }
    sent.lemma_multiset_has_no_duplicates();
    own.lemma_multiset_has_no_duplicates_conv();
    assert forall|i: int, j: int| 0 <= i < j < own.len() implies (#[trigger] own[i]).tag() != (
    #[trigger] own[j]).tag() by {
        assert(own[i] != own[j]);
        assert(own.contains(own[i]) && own.contains(own[j]));
        assert(own.to_multiset().count(own[i]) > 0 && own.to_multiset().count(own[j]) > 0);
        assert(sent.contains(own[i]) && sent.contains(own[j]));
        let a = choose|a: int| 0 <= a < sent.len() && sent[a] == own[i];
        let b = choose|b: int| 0 <= b < sent.len() && sent[b] == own[j];
        if a < b {
            assert(sent[a].tag() != sent[b].tag());
        } else {
            assert(sent[b].tag() != sent[a].tag());
        }
    }
    assert forall|i: int| 0 <= i < seq_len * num_shards implies #[trigger] delivers(
        own,
        data,
        num_shards,
        d_head,
        i,
    ) by {
        let p = sent[i];
        assert(sent.contains(p));
        assert(sent.to_multiset().count(p) > 0);
        assert(own.contains(p));
        let k = choose|k: int| 0 <= k < own.len() && own[k] == p;
        assert(own[k].header.origin_token_id == i / num_shards);
    }
    law_gather_any_order(own, data, seq_len, num_shards, d_head);
}

proof fn lemma_all_belong(list: Seq<ParticleModel>, seq_len: int, num_shards: int)
    requires
        forall|i: int| 0 <= i < list.len() ==> belongs(#[trigger] list[i], seq_len, num_shards),
    ensures
        belonging(list, seq_len, num_shards) == list,
    decreases list.len(),
{
    if list.len() > 0 {
        let front = list.drop_last();
        assert forall|i: int| 0 <= i < front.len() implies belongs(
            #[trigger] front[i],
            seq_len,
            num_shards,
        ) by {
            assert(belongs(list[i], seq_len, num_shards));
        }
        lemma_all_belong(front, seq_len, num_shards);
        assert(belongs(list[list.len() - 1], seq_len, num_shards));
        assert(front.push(list.last()) =~= list);
    } else {
        assert(list =~= Seq::empty());
    }
}

/// The shards of a sequence give it back in every order.
pub proof fn law_every_permutation_gathers(
    list: Seq<ParticleModel>,
    data: Seq<Scalar>,
    seq_len: int,
    num_shards: int,
    d_head: int,
    energy: Scalar,
)
    requires
        0 <= seq_len <= WORD,
        0 <= num_shards <= 65536,
        0 <= d_head,
        data.len() == seq_len * (d_head * num_shards),
        list.to_multiset() == scattered(
            data,
            seq_len,
            num_shards,
            d_head,
            0,
            energy,
        ).to_multiset(),
    ensures
        gathered(list, seq_len, num_shards, d_head) == data,
{
    let sent = scattered(data, seq_len, num_shards, d_head, 0, energy);
    lemma_scattered(data, seq_len, num_shards, d_head, energy);
    broadcast use vstd::seq_lib::group_to_multiset_ensures;

    assert forall|i: int| 0 <= i < list.len() implies belongs(#[trigger] list[i], seq_len, num_shards) by {
        assert(list.contains(list[i]));
        assert(list.to_multiset().count(list[i]) > 0);
        assert(sent.contains(list[i]));
        let k = choose|k: int| 0 <= k < sent.len() && sent[k] == list[i];
        assert(num_shards > 0) by (nonlinear_arith)
            requires
                0 <= k < seq_len * num_shards,
                0 <= num_shards,
        ;
        lemma_quotient_below(k, num_shards, seq_len);
        vstd::arithmetic::div_mod::lemma_mod_bound(k, num_shards);
    }
    lemma_all_belong(list, seq_len, num_shards);
    law_gather_undoes_scatter(list, data, seq_len, num_shards, d_head, energy);
}

/// Every node that takes particles in is a node of the mesh.
pub proof fn law_ingress_in_range(num_nodes: int, requested: int, i: int)
    requires
        0 < num_nodes <= usize::MAX,
        0 <= requested <= usize::MAX,
        0 <= i < ingress_nodes(num_nodes, requested).len(),
    ensures
        ingress_nodes(num_nodes, requested)[i] < num_nodes,
        ingress_nodes(num_nodes, requested).len() >= 1,
{
    lemma_ingress_bound(
        num_nodes,
        ingress_count(requested),
        ingress_step(num_nodes, requested),
        i,
    );
}

/// Shard `s` of token `t` carries the `s`-th stretch of that token's values and says so: it is
/// numbered by its token, counted from the offset, and by its shard. It starts with the initial
/// energy, unsettled, and has met no node.
pub proof fn law_shards_take_their_stretch(
    data: Seq<Scalar>,
    seq_len: int,
    num_shards: int,
    d_head: int,
    offset: int,
    energy: Scalar,
    t: int,
    s: int,
    d: int,
)
    requires
        0 <= t < seq_len,
        0 <= s < num_shards <= 65536,
        0 <= d < d_head,
        0 <= offset,
        seq_len + offset <= 0x1_0000_0000,
        data.len() == seq_len * (d_head * num_shards),
    ensures
        ({
            let all = scattered(data, seq_len, num_shards, d_head, offset, energy);
            let p = all[t * num_shards + s];
            &&& all.len() == seq_len * num_shards
            &&& p.header.origin_token_id == offset + t
            &&& p.header.shard_id == s
            &&& p.header.energy == energy
            &&& p.header.hop_count == 0
            &&& !p.header.halted
            &&& p.payload.len() == d_head
            &&& p.payload[d] == data[t * (d_head * num_shards) + s * d_head + d]
            &&& p.trace_concentration.units() == Scalar::one().units()
            &&& p.credit.units() == 0
            &&& !p.credit_valid
        }),
{
    let i = t * num_shards + s;
    lemma_slot(t, s, seq_len, num_shards, d_head);
    vstd::arithmetic::div_mod::lemma_fundamental_div_mod_converse(i, num_shards, t, s);
    assert(0 <= i < seq_len * num_shards) by (nonlinear_arith)
        requires
            i == t * num_shards + s,
            0 <= t,
            t + 1 <= seq_len,
            0 <= s < num_shards,
    ;
    vstd::arithmetic::div_mod::lemma_small_mod((t + offset) as nat, WORD as nat);
    vstd::arithmetic::div_mod::lemma_small_mod(s as nat, 65536);
    assert(0 <= i * d_head && i * d_head + d_head <= data.len());
    assert(piece(data, d_head, i)[d] == data[i * d_head + d]);
}

/// Gathering takes the particles one after the other: each writes its values over its own
/// stretch, as far as they go, and leaves all other places as they were. Before the first, all
/// is zero.
pub proof fn law_later_particles_overwrite(
    list: Seq<ParticleModel>,
    p: ParticleModel,
    seq_len: int,
    num_shards: int,
    d_head: int,
    t: int,
    s: int,
    d: int,
)
    requires
        0 <= t < seq_len,
        0 <= s < num_shards,
        0 <= d < d_head,
    ensures
        ({
            let c = t * (d_head * num_shards) + s * d_head + d;
            let before = gathered(list, seq_len, num_shards, d_head);
            let after = gathered(list.push(p), seq_len, num_shards, d_head);
            &&& 0 <= c < before.len() == after.len() == seq_len * (d_head * num_shards)
            &&& gathered(Seq::empty(), seq_len, num_shards, d_head)[c].units() == 0
            &&& p.header.origin_token_id == t && p.header.shard_id == s && d < p.payload.len()
                ==> after[c] == p.payload[d]
            &&& !(p.header.origin_token_id == t && p.header.shard_id == s && d < p.payload.len())
                ==> after[c] == before[c]
        }),
{
    let c = t * (d_head * num_shards) + s * d_head + d;
    lemma_slot(t, s, seq_len, num_shards, d_head);
    lemma_place(c, t, s, num_shards, d_head, seq_len);
    assert(list.push(p).drop_last() =~= list);
}

/// Particles enter at as many nodes as were asked for, one at least, each a whole number of
/// nodes behind the one before. Where more were asked for than there are, the last node takes
/// what is too much.
pub proof fn law_ingress_is_spread(num_nodes: int, requested: int, i: int)
    requires
        0 < num_nodes <= usize::MAX,
        0 <= requested <= usize::MAX,
        0 <= i < ingress_nodes(num_nodes, requested).len(),
    ensures
        requested > 0 ==> ingress_nodes(num_nodes, requested).len() == requested,
        requested == 0 ==> ingress_nodes(num_nodes, requested) == seq![0usize],
        0 < requested <= num_nodes ==> ingress_nodes(num_nodes, requested)[i] == i * (num_nodes
            / requested),
        requested > num_nodes && i < num_nodes ==> ingress_nodes(num_nodes, requested)[i] == i,
        requested > num_nodes && i >= num_nodes ==> ingress_nodes(num_nodes, requested)[i]
            == num_nodes - 1,
{
    if requested == 0 {
        assert(0 * ingress_step(num_nodes, requested) == 0);
        assert(ingress_nodes(num_nodes, requested) =~= seq![0usize]);
    } else if requested <= num_nodes {
        let step = num_nodes / requested;
        vstd::arithmetic::div_mod::lemma_fundamental_div_mod(num_nodes, requested);
        vstd::arithmetic::div_mod::lemma_mod_bound(num_nodes, requested);
        assert(step >= 1) by (nonlinear_arith)
            requires
                requested <= num_nodes,
                0 < requested,
                num_nodes == requested * step + num_nodes % requested,
                num_nodes % requested < requested,
        ;
        assert(0 <= i * step <= num_nodes - 1) by (nonlinear_arith)
            requires
                0 <= i <= requested - 1,
                step >= 1,
                requested * step <= num_nodes,
        ;
        assert(ingress_step(num_nodes, requested) == step);
    } else {
        vstd::arithmetic::div_mod::lemma_basic_div(num_nodes, requested);
        assert(ingress_step(num_nodes, requested) == 1);
        assert(i * 1 == i);
    }
}


} // verus!
