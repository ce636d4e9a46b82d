//! The way out of the mesh: settled particles become a sequence again.
use crate::particle::{models, Particle, ParticleModel};
use crate::scalar::{copy_scalars, zeros, Scalar};
use crate::scattering::{belonging, gather, gathered, law_gather_undoes_scatter, scattered};
use crate::subnode::blank;
use crate::words::WORD;
use vstd::prelude::*;

verus! {

/// Collects settled particles and keeps the matrix that the result is projected by.
#[derive(Debug)]
pub struct EgressSerializer {
    pub d_head: usize,
    pub num_shards: usize,
    /// Projection, `d_model` rows of `d_model`.
    pub w_egress: Vec<Scalar>,
    /// Momentum of the projection.
    pub v_egress: Vec<Scalar>,
    /// The last sequence put together, not yet projected.
    pub last_full_data: Vec<Scalar>,
}

/// The identity of `n` rows, with `noise` off the diagonal.
pub open spec fn near_identity(n: int, noise: Seq<Scalar>) -> Seq<Scalar> {
    Seq::new(
        (n * n) as nat,
        |c: int|
            if c / n == c % n {
                Scalar::one()
            } else {
                noise[c]
            },
    )
}

/// Whether there is something to learn from: a difference of at least one embedding of
/// `d_model` values and a sequence put together before.
pub open spec fn can_learn(diff_len: int, d_model: int, full_len: int) -> bool {
    diff_len >= d_model && full_len > 0
}

impl EgressSerializer {
    /// A serializer whose projection is the identity but for `noise`.
    pub fn new(d_head: usize, num_shards: usize, noise: &Vec<Scalar>) -> (r: Self)
        requires
            d_head * num_shards <= usize::MAX,
            noise@.len() == (d_head * num_shards) * (d_head * num_shards),
        ensures
            r.d_head == d_head,
            r.num_shards == num_shards,
            r.w_egress@ == near_identity(d_head * num_shards, noise@),
            r.v_egress@ == blank(noise@.len()),
            r.last_full_data@ == Seq::<Scalar>::empty(),
    {
        let d_model: usize = d_head * num_shards;
        let mut w_egress: Vec<Scalar> = Vec::with_capacity(noise.len());
        let mut c: usize = 0;
        while c < noise.len()
            invariant
                c <= noise.len(),
                noise@.len() == d_model * d_model,
                w_egress@ == near_identity(d_model as int, noise@).take(c as int),
            decreases noise.len() - c,
        {
            assert(d_model > 0) by (nonlinear_arith)
                requires
                    0 <= c < d_model * d_model,
                    0 <= d_model,
            ;
            if c / d_model == c % d_model {
                w_egress.push(Scalar::one());
            } else {
                w_egress.push(noise[c]);
            }
            c += 1;
            assert(w_egress@ =~= near_identity(d_model as int, noise@).take(c as int));
        }
        assert(w_egress@ =~= near_identity(d_model as int, noise@));
        EgressSerializer {
            d_head,
            num_shards,
            w_egress,
            v_egress: zeros(noise.len()),
            last_full_data: Vec::new(),
        }
    }

    /// Puts a sequence together and keeps a copy. What comes back is still to be
    /// projected.
    pub fn reconstruct_sequence(&mut self, seq_len: usize, halted: &Vec<Particle>) -> (r: Vec<Scalar>)
        requires
            seq_len * (old(self).d_head * old(self).num_shards) <= usize::MAX,
            old(self).d_head * old(self).num_shards <= usize::MAX,
        ensures
            r@ == gathered(
                models(halted@),
                seq_len as int,
                old(self).num_shards as int,
                old(self).d_head as int,
            ),
            final(self).last_full_data@ == r@,
            final(self).d_head == old(self).d_head,
            final(self).num_shards == old(self).num_shards,
            final(self).w_egress == old(self).w_egress,
            final(self).v_egress == old(self).v_egress,
    {
        let full: Vec<Scalar> = gather(halted, seq_len, self.num_shards, self.d_head);
        self.last_full_data = copy_scalars(&full);
        full
    }

    /// Takes over an updated projection and its momentum, where there is something to learn
    /// from: a difference of at least one embedding and a sequence put together before.
    /// Says whether it did.
    pub fn update_weights(
        &mut self,
        diff_len: usize,
        w_egress: Vec<Scalar>,
        v_egress: Vec<Scalar>,
    ) -> (r: bool)
        requires
            old(self).d_head * old(self).num_shards <= usize::MAX,
        ensures
            r == can_learn(
                diff_len as int,
                old(self).d_head * old(self).num_shards,
                old(self).last_full_data@.len() as int,
            ),
            final(self).w_egress == if r {
                w_egress
            } else {
                old(self).w_egress
            },
            final(self).v_egress == if r {
                v_egress
            } else {
                old(self).v_egress
            },
            final(self).d_head == old(self).d_head,
            final(self).num_shards == old(self).num_shards,
            final(self).last_full_data == old(self).last_full_data,
    {
        let d_model: usize = self.d_head * self.num_shards;
        if diff_len < d_model || self.last_full_data.len() == 0 {
            return false;
        }
        self.w_egress = w_egress;
        self.v_egress = v_egress;
        true
    }
}

/// Without noise the projection is the identity, and what `reconstruct_sequence` puts together
/// and keeps is the sequence that was scattered: in whatever order its shards have settled,
/// and whatever strays have settled with them.
pub proof fn law_reconstruction_gives_back(
    settled: Seq<ParticleModel>,
    data: Seq<Scalar>,
    seq_len: int,
    num_shards: int,
    d_head: int,
    energy: Scalar,
    r: int,
    c: int,
)
    requires
        0 <= seq_len <= WORD,
        0 <= num_shards <= 65536,
        0 <= d_head,
        data.len() == seq_len * (d_head * num_shards),
        belonging(settled, seq_len, num_shards).to_multiset() == scattered(
            data,
            seq_len,
            num_shards,
            d_head,
            0,
            energy,
        ).to_multiset(),
        0 <= r < d_head * num_shards,
        0 <= c < d_head * num_shards,
    ensures
        gathered(settled, seq_len, num_shards, d_head) == data,
        ({
            let n = d_head * num_shards;
            near_identity(n, blank((n * n) as nat))[r * n + c] == if r == c {
                Scalar::one()
            } else {
                Scalar::zero()
            }
        }),
{
    let n = d_head * num_shards;
    law_gather_undoes_scatter(settled, data, seq_len, num_shards, d_head, energy);
    vstd::arithmetic::div_mod::lemma_fundamental_div_mod_converse(r * n + c, n, r, c);
    assert(0 <= r * n + c < n * n) by (nonlinear_arith)
        requires
            0 <= r,
            r + 1 <= n,
            0 <= c < n,
    ;
}

/// The projection has ones on its diagonal and what was drawn everywhere else, row by row.
pub proof fn law_the_diagonal_is_one(n: int, noise: Seq<Scalar>, r: int, c: int)
    requires
        0 <= r < n,
        0 <= c < n,
    ensures
        near_identity(n, noise).len() == n * n,
        r == c ==> near_identity(n, noise)[r * n + c].units() == Scalar::one().units(),
        r != c ==> near_identity(n, noise)[r * n + c] == noise[r * n + c],
{
    vstd::arithmetic::div_mod::lemma_fundamental_div_mod_converse(r * n + c, n, r, c);
    assert(0 <= r * n + c < n * n) by (nonlinear_arith)
        requires
            0 <= r,
            r + 1 <= n,
            0 <= c < n,
    ;
}


/// There is nothing to learn from less than one embedding, nor before the first sequence; from
/// anything else there is.
pub proof fn law_what_learning_takes(diff_len: int, d_model: int, full_len: int)
    requires
        0 <= full_len,
    ensures
        diff_len < d_model ==> !can_learn(diff_len, d_model, full_len),
        !can_learn(diff_len, d_model, 0),
        diff_len >= d_model && full_len != 0 ==> can_learn(diff_len, d_model, full_len),
{
}

} // verus!
