//! Subnodes: the specialists that compete inside a node.
use crate::metrics::OnlineStats;
use crate::scalar::{copy_scalars, zeros, Scalar};
use vstd::prelude::*;

verus! {

/// The three projections of a subnode, each `d_head * ffn_dim` values, row by row.
#[derive(Debug)]
pub struct SubnodeWeights {
    pub gate: Vec<Scalar>,
    pub up: Vec<Scalar>,
    pub down: Vec<Scalar>,
}

impl SubnodeWeights {
    /// Each projection has `len` values.
    pub open spec fn sized(&self, len: int) -> bool {
        self.gate@.len() == len && self.up@.len() == len && self.down@.len() == len
    }
}

/// A specialist of a node.
#[derive(Debug)]
pub struct Subnode {
    pub subnode_id: usize,
    /// Gate projection, `d_head` rows of `ffn_dim`.
    pub w_gate: Vec<Scalar>,
    /// Up projection, `d_head` rows of `ffn_dim`.
    pub w_up: Vec<Scalar>,
    /// Down projection, `ffn_dim` rows of `d_head`.
    pub w_down: Vec<Scalar>,
    /// Scale of the residual connection. Children inherit it.
    pub alpha: Scalar,
    pub activation_count: u64,
    /// Credit observed so far.
    pub credit_stats: OnlineStats,
    /// A subnode divides when this is high and dies when it is not positive.
    pub health: Scalar,
    /// Energy taken in by this subnode. A newborn starts at zero, fully plastic.
    pub cumulative_energy: Scalar,
    /// Input of the last activation.
    pub last_p_in: Vec<Scalar>,
    /// Prediction of the last activation.
    pub last_prediction: Vec<Scalar>,
    /// Token of the last activation.
    pub last_token_id: Option<u32>,
}

/// A subnode as a value.
#[verifier::ext_equal]
pub struct SubnodeModel {
    pub subnode_id: usize,
    pub w_gate: Seq<Scalar>,
    pub w_up: Seq<Scalar>,
    pub w_down: Seq<Scalar>,
    pub alpha: Scalar,
    pub activation_count: u64,
    pub credit_stats: OnlineStats,
    pub health: Scalar,
    pub cumulative_energy: Scalar,
    pub last_p_in: Seq<Scalar>,
    pub last_prediction: Seq<Scalar>,
    pub last_token_id: Option<u32>,
}

impl View for Subnode {
    type V = SubnodeModel;

    open spec fn view(&self) -> SubnodeModel {
        SubnodeModel {
            subnode_id: self.subnode_id,
            w_gate: self.w_gate@,
            w_up: self.w_up@,
            w_down: self.w_down@,
            alpha: self.alpha,
            activation_count: self.activation_count,
            credit_stats: self.credit_stats,
            health: self.health,
            cumulative_energy: self.cumulative_energy,
            last_p_in: self.last_p_in@,
            last_prediction: self.last_prediction@,
            last_token_id: self.last_token_id,
        }
    }
}

/// `len` zeros.
pub open spec fn blank(len: nat) -> Seq<Scalar> {
    Seq::new(len, |i: int| Scalar::zero())
}

impl SubnodeModel {
    /// A subnode that has seen nothing yet.
    pub open spec fn newborn(
        subnode_id: usize,
        d_head: usize,
        weights: SubnodeWeights,
        alpha: Scalar,
        credit_stats: OnlineStats,
        health: Scalar,
    ) -> Self {
        SubnodeModel {
            subnode_id,
            w_gate: weights.gate@,
            w_up: weights.up@,
            w_down: weights.down@,
            alpha,
            activation_count: 0,
            credit_stats,
            health,
            cumulative_energy: Scalar::zero(),
            last_p_in: blank(d_head as nat),
            last_prediction: blank(d_head as nat),
            last_token_id: None,
        }
    }

    /// The child of `self`: it inherits the scale and the credit seen so far, at the
    /// weight of two observations.
    pub open spec fn child(
        self,
        subnode_id: usize,
        d_head: usize,
        weights: SubnodeWeights,
        health_base: Scalar,
    ) -> Self {
        Self::newborn(
            subnode_id,
            d_head,
            weights,
            self.alpha,
            OnlineStats { count: Scalar::two(), ..self.credit_stats },
            health_base,
        )
    }
}

impl Subnode {
    /// A first subnode, from freshly drawn weights.
    pub fn new_random(
        subnode_id: usize,
        d_head: usize,
        ffn_dim: usize,
        weights: SubnodeWeights,
        alpha_init: Scalar,
        gamma: Scalar,
    ) -> (r: Self)
        requires
            weights.sized(d_head * ffn_dim),
        ensures
            r@ == SubnodeModel::newborn(
                subnode_id,
                d_head,
                weights,
                alpha_init,
                OnlineStats::empty(gamma),
                Scalar::one(),
            ),
    {
        Subnode {
            subnode_id,
            w_gate: weights.gate,
            w_up: weights.up,
            w_down: weights.down,
            alpha: alpha_init,
            activation_count: 0,
            credit_stats: OnlineStats::new(gamma),
            health: Scalar::one(),
            cumulative_energy: Scalar::zero(),
            last_p_in: zeros(d_head),
            last_prediction: zeros(d_head),
            last_token_id: None,
        }
    }

    /// A child of `parent`, from weights drawn close to the parent's.
    pub fn spawn_from_parent(
        subnode_id: usize,
        parent: &Subnode,
        d_head: usize,
        weights: SubnodeWeights,
        health_base: Scalar,
    ) -> (r: Self)
        requires
            weights.gate@.len() == parent@.w_gate.len(),
            weights.up@.len() == parent@.w_up.len(),
            weights.down@.len() == parent@.w_down.len(),
        ensures
            r@ == parent@.child(subnode_id, d_head, weights, health_base),
    {
        let inherited: OnlineStats = OnlineStats {
            count: Scalar::two(),
            mean: parent.credit_stats.mean,
            m2: parent.credit_stats.m2,
            gamma: parent.credit_stats.gamma,
        };
        Subnode {
            subnode_id,
            w_gate: weights.gate,
            w_up: weights.up,
            w_down: weights.down,
            alpha: parent.alpha,
            activation_count: 0,
            credit_stats: inherited,
            health: health_base,
            cumulative_energy: Scalar::zero(),
            last_p_in: zeros(d_head),
            last_prediction: zeros(d_head),
            last_token_id: None,
        }
    }
}

impl Clone for Subnode {
    fn clone(&self) -> (r: Self)
        ensures
            r@ == self@,
    {
        Subnode {
            subnode_id: self.subnode_id,
            w_gate: copy_scalars(&self.w_gate),
            w_up: copy_scalars(&self.w_up),
            w_down: copy_scalars(&self.w_down),
            alpha: self.alpha,
            activation_count: self.activation_count,
            credit_stats: self.credit_stats,
            health: self.health,
            cumulative_energy: self.cumulative_energy,
            last_p_in: copy_scalars(&self.last_p_in),
            last_prediction: copy_scalars(&self.last_prediction),
            last_token_id: self.last_token_id,
        }
    }
}

/// The subnodes of a list, as values.
pub open spec fn subnode_models(list: Seq<Subnode>) -> Seq<SubnodeModel> {
    list.map_values(|s: Subnode| s@)
}

/// A newborn cannot divide at once: its health stays under the threshold that a node
/// with one subnode more sets, as long as that threshold lies above the base.
pub proof fn law_newborn_is_below_threshold(
    parent: SubnodeModel,
    subnode_id: usize,
    d_head: usize,
    weights: SubnodeWeights,
    health_base: Scalar,
    threshold: Scalar,
)
    requires
        health_base.below(threshold),
    ensures
        !threshold.below(parent.child(subnode_id, d_head, weights, health_base).health),
{
}

/// A newborn computes with the projections drawn for it, each under its own name, and has seen
/// nothing yet.
pub proof fn law_newborns_take_their_weights(
    subnode_id: usize,
    d_head: usize,
    weights: SubnodeWeights,
    alpha: Scalar,
    credit_stats: OnlineStats,
    health: Scalar,
)
    ensures
        ({
            let s = SubnodeModel::newborn(subnode_id, d_head, weights, alpha, credit_stats, health);
            &&& s.subnode_id == subnode_id
            &&& s.w_gate == weights.gate@
            &&& s.w_up == weights.up@
            &&& s.w_down == weights.down@
            &&& s.alpha == alpha
            &&& s.credit_stats == credit_stats
            &&& s.health == health
            &&& s.activation_count == 0
            &&& s.cumulative_energy == Scalar::zero()
            &&& s.last_token_id is None
            &&& s.last_p_in.len() == d_head
            &&& s.last_prediction.len() == d_head
            &&& forall|i: int| 0 <= i < d_head ==> #[trigger] s.last_p_in[i] == Scalar::zero()
            &&& forall|i: int|
                0 <= i < d_head ==> #[trigger] s.last_prediction[i] == Scalar::zero()
        }),
{
}

/// A child takes each projection that was drawn for it under its own name. From its parent it
/// has the scale and the credit, which weighs as much as two observations.
pub proof fn law_children_take_their_weights(
    parent: SubnodeModel,
    subnode_id: usize,
    d_head: usize,
    weights: SubnodeWeights,
    health_base: Scalar,
)
    ensures
        ({
            let child = parent.child(subnode_id, d_head, weights, health_base);
            &&& child.subnode_id == subnode_id
            &&& child.w_gate == weights.gate@
            &&& child.w_up == weights.up@
            &&& child.w_down == weights.down@
            &&& child.alpha == parent.alpha
            &&& child.health == health_base
            &&& child.credit_stats.mean == parent.credit_stats.mean
            &&& child.credit_stats.m2 == parent.credit_stats.m2
            &&& child.credit_stats.gamma == parent.credit_stats.gamma
            &&& child.credit_stats.count == Scalar::two()
            &&& child.activation_count == 0
            &&& child.cumulative_energy == Scalar::zero()
            &&& child.last_token_id is None
            &&& child.last_p_in.len() == d_head
            &&& child.last_prediction.len() == d_head
        }),
{
}

/// Weights that are exact copies of its parent's make a child compute as its parent does.
pub proof fn law_copied_weights_make_a_copy(
    parent: SubnodeModel,
    subnode_id: usize,
    d_head: usize,
    weights: SubnodeWeights,
    health_base: Scalar,
)
    requires
        weights.gate@ == parent.w_gate,
        weights.up@ == parent.w_up,
        weights.down@ == parent.w_down,
    ensures
        ({
            let child = parent.child(subnode_id, d_head, weights, health_base);
            &&& child.w_gate == parent.w_gate
            &&& child.w_up == parent.w_up
            &&& child.w_down == parent.w_down
            &&& child.alpha == parent.alpha
        }),
{
}

/// A subnode is known by all its fields.
pub proof fn law_a_subnode_is_its_fields(s: Subnode)
    ensures
        s@.subnode_id == s.subnode_id,
        s@.w_gate == s.w_gate@,
        s@.w_up == s.w_up@,
        s@.w_down == s.w_down@,
        s@.alpha == s.alpha,
        s@.activation_count == s.activation_count,
        s@.credit_stats == s.credit_stats,
        s@.health == s.health,
        s@.cumulative_energy == s.cumulative_energy,
        s@.last_p_in == s.last_p_in@,
        s@.last_prediction == s.last_prediction@,
        s@.last_token_id == s.last_token_id,
{
}

} // verus!
