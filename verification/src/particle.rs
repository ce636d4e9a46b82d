//! Particles: shards of tokens on their way through the mesh.
use crate::scalar::{copy_scalars, Scalar};
use vstd::prelude::*;

verus! {

/// Where a particle comes from and how far it has come.
#[derive(Clone, Copy, Debug, PartialEq, Eq, Structural)]
pub struct ParticleHeader {
    /// Position of the token in its sequence.
    pub origin_token_id: u32,
    /// Which shard of the token this is.
    pub shard_id: u16,
    /// Energy left.
    pub energy: Scalar,
    /// Hops made.
    pub hop_count: u16,
    /// Whether the particle has settled.
    pub halted: bool,
}

impl ParticleHeader {
    /// The header after one more hop that left `remaining` energy.
    pub open spec fn stepped(self, remaining: Scalar, max_hop: u16) -> Self {
        let energy = if Scalar::zero().below(remaining) {
            remaining
        } else {
            Scalar::zero()
        };
        let hop_count = (self.hop_count + 1) as u16;
        ParticleHeader {
            energy,
            hop_count,
            halted: self.halted || energy == Scalar::zero() || hop_count >= max_hop,
            ..self
        }
    }

    /// The header of a newly scattered particle.
    pub fn new(origin_token_id: u32, shard_id: u16, initial_energy: Scalar) -> (r: Self)
        ensures
            r == (ParticleHeader {
                origin_token_id,
                shard_id,
                energy: initial_energy,
                hop_count: 0,
                halted: false,
            }),
    {
        ParticleHeader {
            origin_token_id,
            shard_id,
            energy: initial_energy,
            hop_count: 0,
            halted: false,
        }
    }

    /// Counts a hop and takes over the energy that it left, which is the old energy less
    /// an equal share of the initial energy. Nothing below zero is kept. The particle
    /// settles when no energy is left or the ceiling is reached.
    pub fn step_hop(&mut self, remaining: Scalar, max_hop: u16)
        requires
            old(self).hop_count < u16::MAX,
        ensures
            *final(self) == old(self).stepped(remaining, max_hop),
    {
        self.hop_count = self.hop_count + 1;
        self.energy =
        if Scalar::zero().lt(remaining) {
            remaining
        } else {
            Scalar::zero()
        };
        if self.energy.le(Scalar::zero()) || self.hop_count >= max_hop {
            self.halted = true;
        }
    }
}

/// A shard of a token, with what it has met on its way.
#[derive(Debug)]
pub struct Particle {
    pub header: ParticleHeader,
    /// The values carried.
    pub payload: Vec<Scalar>,
    /// Trace left behind, 1.0 at the start.
    pub trace_concentration: Scalar,
    /// What the last node did for the particle.
    pub credit: Scalar,
    /// Whether `credit` was measured. An unmeasured credit says nothing.
    pub credit_valid: bool,
}

/// A particle as a value.
#[verifier::ext_equal]
pub struct ParticleModel {
    pub header: ParticleHeader,
    pub payload: Seq<Scalar>,
    pub trace_concentration: Scalar,
    pub credit: Scalar,
    pub credit_valid: bool,
}

impl ParticleModel {
    /// A newly scattered particle.
    pub open spec fn fresh(header: ParticleHeader, payload: Seq<Scalar>) -> Self {
        ParticleModel {
            header,
            payload,
            trace_concentration: Scalar::one(),
            credit: Scalar::zero(),
            credit_valid: false,
        }
    }

    /// Which shard of which token this is.
    pub open spec fn tag(self) -> (u32, u16) {
        (self.header.origin_token_id, self.header.shard_id)
    }
}

impl View for Particle {
    type V = ParticleModel;

    open spec fn view(&self) -> ParticleModel {
        ParticleModel {
            header: self.header,
            payload: self.payload@,
            trace_concentration: self.trace_concentration,
            credit: self.credit,
            credit_valid: self.credit_valid,
        }
    }
}

impl Particle {
    /// A newly scattered particle.
    pub fn new(header: ParticleHeader, payload: Vec<Scalar>) -> (r: Self)
        ensures
            r@ == ParticleModel::fresh(header, payload@),
    {
        Particle {
            header,
            payload,
            trace_concentration: Scalar::one(),
            credit: Scalar::zero(),
            credit_valid: false,
        }
    }

    /// Length of the payload.
    pub fn d_head(&self) -> (r: usize)
        ensures
            r == self@.payload.len(),
    {
        self.payload.len()
    }
}

impl Clone for Particle {
    fn clone(&self) -> (r: Self)
        ensures
            r@ == self@,
    {
        Particle {
            header: self.header,
            payload: copy_scalars(&self.payload),
            trace_concentration: self.trace_concentration,
            credit: self.credit,
            credit_valid: self.credit_valid,
        }
    }
}

/// The particles of a list, as values.
pub open spec fn models(list: Seq<Particle>) -> Seq<ParticleModel> {
    list.map_values(|p: Particle| p@)
}

/// A particle that has made `max_hop` hops has settled, whatever its energy.
pub proof fn law_ceiling_settles(header: ParticleHeader, remaining: Scalar, max_hop: u16)
    requires
        header.hop_count < u16::MAX,
        header.hop_count + 1 >= max_hop,
    ensures
        header.stepped(remaining, max_hop).halted,
{
}

/// A particle without energy has settled, whatever its hops.
pub proof fn law_exhaustion_settles(header: ParticleHeader, remaining: Scalar, max_hop: u16)
    requires
        remaining.at_most(Scalar::zero()),
    ensures
        header.stepped(remaining, max_hop).halted,
        header.stepped(remaining, max_hop).energy == Scalar::zero(),
{
}

/// A hop never wakes a settled particle and never changes where it came from.
pub proof fn law_settling_is_final(header: ParticleHeader, remaining: Scalar, max_hop: u16)
    ensures
        header.halted ==> header.stepped(remaining, max_hop).halted,
        header.stepped(remaining, max_hop).origin_token_id == header.origin_token_id,
        header.stepped(remaining, max_hop).shard_id == header.shard_id,
{
}

/// The header after as many hops as `remaining` has entries, each leaving that energy.
pub open spec fn hops(header: ParticleHeader, remaining: Seq<Scalar>, max_hop: u16) -> ParticleHeader
    decreases remaining.len(),
{
    if remaining.len() == 0 {
        header
    } else {
        hops(header, remaining.drop_last(), max_hop).stepped(remaining.last(), max_hop)
    }
}

/// A particle whose energy lasts until its `max_hop`-th hop settles at exactly that hop: its
/// lifetime is `max_hop` hops.
pub proof fn law_lifetime(header: ParticleHeader, remaining: Seq<Scalar>, max_hop: u16)
    requires
        header.hop_count == 0,
        !header.halted,
        0 < remaining.len() <= max_hop,
        forall|i: int|
            0 <= i < remaining.len() && i + 1 < max_hop ==> Scalar::zero().below(
                #[trigger] remaining[i],
            ),
    ensures
        hops(header, remaining, max_hop).hop_count == remaining.len(),
        hops(header, remaining, max_hop).halted <==> remaining.len() == max_hop,
    decreases remaining.len(),
{
    if remaining.len() > 1 {
        law_lifetime(header, remaining.drop_last(), max_hop);
    } else {
        assert(remaining.drop_last() =~= Seq::empty());
        assert(hops(header, remaining.drop_last(), max_hop) == header);
    }
    let last = remaining.len() - 1;
    assert(last + 1 < max_hop ==> Scalar::zero().below(remaining[last]));
}

/// Whether each hop takes off exactly one of `max_hop` equal shares of `initial`, nothing being
/// rounded: `remaining` lists what is left after the first hop, the second, and so on.
pub open spec fn exact_shares(initial: Scalar, remaining: Seq<Scalar>, max_hop: u16) -> bool {
    forall|i: int|
        0 <= i < remaining.len() ==> {
            &&& (#[trigger] remaining[i]).magnitude() < crate::scalar::INFINITY_BITS
            &&& remaining[i].units() * max_hop == initial.units() * (max_hop - (i + 1))
        }
}

/// Energy falls in a straight line and lasts for exactly `max_hop` hops: after `k` hops the
/// part `k / max_hop` of it is gone, and the particle has settled exactly where `k` is
/// `max_hop`. This is so wherever the shares are exact.
pub proof fn law_energy_falls_in_equal_shares(
    origin_token_id: u32,
    shard_id: u16,
    initial: Scalar,
    remaining: Seq<Scalar>,
    max_hop: u16,
)
    requires
        initial.magnitude() < crate::scalar::INFINITY_BITS,
        Scalar::zero().below(initial),
        0 < remaining.len() <= max_hop,
        exact_shares(initial, remaining, max_hop),
    ensures
        ({
            let k = remaining.len() as int;
            let start = ParticleHeader {
                origin_token_id,
                shard_id,
                energy: initial,
                hop_count: 0,
                halted: false,
            };
            let end = hops(start, remaining, max_hop);
            &&& end.energy.units() * max_hop == initial.units() * (max_hop - k)
            &&& end.hop_count == k
            &&& end.halted <==> k == max_hop
        }),
{
    let k = remaining.len() as int;
    let start = ParticleHeader {
        origin_token_id,
        shard_id,
        energy: initial,
        hop_count: 0,
        halted: false,
    };
    crate::scalar::lemma_units_sign(initial);
    assert forall|i: int| 0 <= i < remaining.len() && i + 1 < max_hop implies Scalar::zero().below(
        #[trigger] remaining[i],
    ) by {
        lemma_share_left(initial.units(), remaining[i].units(), max_hop as int, i + 1);
        crate::scalar::lemma_units_sign(remaining[i]);
    }
    law_lifetime(start, remaining, max_hop);
    let last = remaining[k - 1];
    lemma_share_left(initial.units(), last.units(), max_hop as int, k);
    crate::scalar::lemma_units_sign(last);
    crate::scalar::lemma_units_sign(Scalar::zero());
    assert(hops(start, remaining, max_hop).energy.units() == last.units());
}

/// What is left of `e` after `k` of `n` shares is positive until the last share is gone.
proof fn lemma_share_left(e: int, left: int, n: int, k: int)
    requires
        e > 0,
        0 < k <= n,
        left * n == e * (n - k),
    ensures
        left > 0 <==> k < n,
        left >= 0,
{
    if k < n {
        assert(left > 0) by (nonlinear_arith)
            requires
                e > 0,
                k < n,
                n > 0,
                left * n == e * (n - k),
        ;
    } else {
        assert(left == 0) by (nonlinear_arith)
            requires
                k == n,
                n > 0,
                left * n == e * (n - k),
        ;
    }
}

/// One hop: it is counted, what is left of the energy is taken over, and nothing below zero is
/// kept. The particle settles exactly where it has settled before, no energy is left, or the
/// ceiling is reached.
pub proof fn law_a_hop_counts_once(header: ParticleHeader, remaining: Scalar, max_hop: u16)
    requires
        header.hop_count < u16::MAX,
    ensures
        ({
            let after = header.stepped(remaining, max_hop);
            &&& after.hop_count == header.hop_count + 1
            &&& after.origin_token_id == header.origin_token_id
            &&& after.shard_id == header.shard_id
            &&& Scalar::zero().below(remaining) ==> after.energy == remaining
            &&& !Scalar::zero().below(remaining) ==> after.energy.units() == 0
            &&& after.halted <==> header.halted || !Scalar::zero().below(remaining)
                || header.hop_count + 1 >= max_hop
        }),
{
}

/// A new particle has left its full trace and has met no node yet: its credit says nothing.
pub proof fn law_new_particles_are_untouched(header: ParticleHeader, payload: Seq<Scalar>)
    ensures
        ({
            let p = ParticleModel::fresh(header, payload);
            &&& p.header == header
            &&& p.payload == payload
            &&& p.trace_concentration.units() == Scalar::one().units()
            &&& p.credit.units() == 0
            &&& !p.credit_valid
            &&& p.tag() == (header.origin_token_id, header.shard_id)
        }),
{
}


/// A particle is known by all its fields.
pub proof fn law_a_particle_is_its_fields(p: Particle)
    ensures
        p@.header == p.header,
        p@.payload == p.payload@,
        p@.trace_concentration == p.trace_concentration,
        p@.credit == p.credit,
        p@.credit_valid == p.credit_valid,
{
}

} // verus!
