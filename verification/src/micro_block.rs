//! Nodes of the mesh: their state, and how it moves as particles pass through.
use crate::config::MicroBlockConfig;
use crate::metrics::OnlineStats;
use crate::order::{
    argmax, choose_flagged, chosen, find_first, first_index, is_stable_order, select_best,
    stable_order,
};
use crate::particle::{models, Particle, ParticleModel};
use crate::scalar::{copy_scalars, zeros, Scalar};
use crate::subnode::{blank, subnode_models, Subnode, SubnodeModel, SubnodeWeights};
use vstd::prelude::*;

verus! {

/// A node of the mesh.
#[derive(Debug)]
pub struct MicroBlockNode {
    pub node_id: usize,
    pub config: MicroBlockConfig,
    pub subnodes: Vec<Subnode>,
    pub split_count: u32,
    /// Associative memory, `d_head` rows of `d_head`.
    pub fast_weight: Vec<Scalar>,
    /// Energy taken in so far.
    pub cumulative_energy: Scalar,
    /// Mean input of the last sub-batch.
    pub last_p_in: Vec<Scalar>,
    /// Prediction of the last sub-batch.
    pub last_prediction: Vec<Scalar>,
    /// Token of the last sub-batch.
    pub last_token_id: Option<u32>,
    pub cumulative_sequence_len: u64,
    pub activation_count: u64,
    pub local_loss_accumulator: Scalar,
    pub local_loss_count: usize,
    pub recent_activation_count: u64,
    /// Mean input of the current sub-batch.
    pub p_in_buf: Vec<Scalar>,
    /// Output of the current sub-batch.
    pub p_out_buf: Vec<Scalar>,
    pub use_cuda: bool,
    /// The subnode that the last sub-batch went to.
    pub active_subnode: usize,
    pub sum_hop_count: u64,
    pub halted_particles_count: u64,
    pub sum_squared_energy: Scalar,
    pub total_particles_processed: u64,
    pub sum_memory_density: Scalar,
    pub attention_ops_count: u64,
    pub sum_credit_volatility: Scalar,
    pub sum_temporal_affinity: Scalar,
}

/// A node as a value.
#[verifier::ext_equal]
pub struct NodeModel {
    pub node_id: usize,
    pub config: MicroBlockConfig,
    pub subnodes: Seq<SubnodeModel>,
    pub split_count: u32,
    pub fast_weight: Seq<Scalar>,
    pub cumulative_energy: Scalar,
    pub last_p_in: Seq<Scalar>,
    pub last_prediction: Seq<Scalar>,
    pub last_token_id: Option<u32>,
    pub cumulative_sequence_len: u64,
    pub activation_count: u64,
    pub local_loss_accumulator: Scalar,
    pub local_loss_count: usize,
    pub recent_activation_count: u64,
    pub p_in_buf: Seq<Scalar>,
    pub p_out_buf: Seq<Scalar>,
    pub use_cuda: bool,
    pub active_subnode: usize,
    pub sum_hop_count: u64,
    pub halted_particles_count: u64,
    pub sum_squared_energy: Scalar,
    pub total_particles_processed: u64,
    pub sum_memory_density: Scalar,
    pub attention_ops_count: u64,
    pub sum_credit_volatility: Scalar,
    pub sum_temporal_affinity: Scalar,
}

impl View for MicroBlockNode {
    type V = NodeModel;

    open spec fn view(&self) -> NodeModel {
        NodeModel {
            node_id: self.node_id,
            config: self.config,
            subnodes: subnode_models(self.subnodes@),
            split_count: self.split_count,
            fast_weight: self.fast_weight@,
            cumulative_energy: self.cumulative_energy,
            last_p_in: self.last_p_in@,
            last_prediction: self.last_prediction@,
            last_token_id: self.last_token_id,
            cumulative_sequence_len: self.cumulative_sequence_len,
            activation_count: self.activation_count,
            local_loss_accumulator: self.local_loss_accumulator,
            local_loss_count: self.local_loss_count,
            recent_activation_count: self.recent_activation_count,
            p_in_buf: self.p_in_buf@,
            p_out_buf: self.p_out_buf@,
            use_cuda: self.use_cuda,
            active_subnode: self.active_subnode,
            sum_hop_count: self.sum_hop_count,
            halted_particles_count: self.halted_particles_count,
            sum_squared_energy: self.sum_squared_energy,
            total_particles_processed: self.total_particles_processed,
            sum_memory_density: self.sum_memory_density,
            attention_ops_count: self.attention_ops_count,
            sum_credit_volatility: self.sum_credit_volatility,
            sum_temporal_affinity: self.sum_temporal_affinity,
        }
    }
}

/// What a node counted since the last reading.
#[derive(Clone, Copy, Debug, PartialEq, Eq, Structural)]
pub struct NodeMetrics {
    pub sum_hop_count: u64,
    pub halted_particles_count: u64,
    pub sum_squared_energy: Scalar,
    pub total_particles_processed: u64,
    pub sum_memory_density: Scalar,
    pub attention_ops_count: u64,
    pub sum_credit_volatility: Scalar,
    pub sum_temporal_affinity: Scalar,
    pub active_subnodes_count: u64,
}

/// What is computed at the start of a sub-batch.
#[derive(Debug)]
pub struct SubBatchOpening {
    /// The node's energy with that of the sub-batch.
    pub cumulative_energy: Scalar,
    /// Mean payload of the sub-batch.
    pub p_in: Vec<Scalar>,
    /// Health of each subnode after one step of decay.
    pub decayed: Vec<Scalar>,
    /// Health that each subnode would have as the winner.
    pub recovered: Vec<Scalar>,
    /// Score drawn for each subnode.
    pub scores: Vec<Scalar>,
}

/// Weights as one learning step leaves them.
#[derive(Debug)]
pub struct Lesson {
    pub fast_weight: Vec<Scalar>,
    pub weights: SubnodeWeights,
}

/// What the active subnode did to one particle.
#[derive(Debug)]
pub struct ParticleResult {
    pub payload: Vec<Scalar>,
    pub credit: Scalar,
    /// Energy left after the hop.
    pub remaining: Scalar,
}

/// What is computed once the active subnode is known.
#[derive(Debug)]
pub struct SubBatchOutcome {
    /// The loss with that of this sub-batch, for a token later than the last one.
    pub local_loss_accumulator: Scalar,
    /// What was learned, where the node is learning.
    pub lesson: Option<Lesson>,
    /// Output of the active subnode.
    pub p_out: Vec<Scalar>,
    /// One entry for each particle of the sub-batch.
    pub results: Vec<ParticleResult>,
    /// Mean credit of the sub-batch.
    pub mean_credit: Scalar,
    /// Statistics of the active subnode with `mean_credit`.
    pub credit_stats: OnlineStats,
    /// Its health with the full credit.
    pub rewarded: Scalar,
    /// Its health with half the credit.
    pub penalized: Scalar,
    pub sum_temporal_affinity: Scalar,
    pub sum_credit_volatility: Scalar,
    pub sum_squared_energy: Scalar,
    pub sum_memory_density: Scalar,
}

/// The particle after a node has worked on it. It settles early where neither this node
/// nor the last one did it any good.
pub open spec fn settled(p: ParticleModel, result: ParticleResult, max_hop: u16) -> ParticleModel {
    let header = p.header.stepped(result.remaining, max_hop);
    let stalled = p.credit_valid && p.credit.at_most(Scalar::zero()) && result.credit.at_most(
        Scalar::zero(),
    );
    ParticleModel {
        header: crate::particle::ParticleHeader { halted: header.halted || stalled, ..header },
        payload: result.payload@,
        credit: result.credit,
        credit_valid: true,
        ..p
    }
}

/// The batch after the sub-batch that begins at `start` was worked on.
pub open spec fn settled_batch(
    batch: Seq<ParticleModel>,
    start: int,
    results: Seq<ParticleResult>,
    max_hop: u16,
) -> Seq<ParticleModel> {
    Seq::new(
        batch.len(),
        |i: int|
            if start <= i < start + results.len() {
                settled(batch[i], results[i - start], max_hop)
            } else {
                batch[i]
            },
    )
}

/// Hops of the particles of a list together.
pub open spec fn hop_total(list: Seq<ParticleModel>) -> int
    decreases list.len(),
{
    if list.len() == 0 {
        0
    } else {
        hop_total(list.drop_last()) + list.last().header.hop_count
    }
}

/// How many particles of a list have settled.
pub open spec fn settled_total(list: Seq<ParticleModel>) -> int
    decreases list.len(),
{
    if list.len() == 0 {
        0
    } else {
        settled_total(list.drop_last()) + if list.last().header.halted {
            1int
        } else {
            0
        }
    }
}

/// The last index of the best health.
pub open spec fn fittest(list: Seq<SubnodeModel>) -> int
    decreases list.len(),
{
    if list.len() <= 1 {
        0
    } else {
        let best = fittest(list.drop_last());
        if list[best].health.at_most(list.last().health) {
            list.len() - 1
        } else {
            best
        }
    }
}

/// Which subnodes are alive.
pub open spec fn alive(list: Seq<SubnodeModel>) -> Seq<bool> {
    Seq::new(list.len(), |i: int| Scalar::zero().below(list[i].health))
}

impl NodeModel {
    /// A node has subnodes, and one of them is active.
    pub open spec fn wf(self) -> bool {
        self.active_subnode < self.subnodes.len()
    }

    /// Score by which subnode `i` competes. One that is not yet known always wins.
    pub open spec fn score(self, scores: Seq<Scalar>, i: int) -> Scalar {
        if self.subnodes[i].credit_stats.count.at_most(Scalar::one()) {
            Scalar::infinity()
        } else {
            scores[i]
        }
    }

    /// All scores.
    pub open spec fn scores(self, scores: Seq<Scalar>) -> Seq<Scalar> {
        Seq::new(self.subnodes.len(), |i: int| self.score(scores, i))
    }

    /// The node with a sub-batch begun: every subnode decays, the winner recovers.
    pub open spec fn opened(self, opening: SubBatchOpening) -> Self {
        let winner = argmax(self.scores(opening.scores@));
        NodeModel {
            cumulative_energy: opening.cumulative_energy,
            p_in_buf: opening.p_in@,
            active_subnode: winner as usize,
            subnodes: Seq::new(
                self.subnodes.len(),
                |i: int|
                    SubnodeModel {
                        health: if i == winner {
                            opening.recovered@[i]
                        } else {
                            opening.decayed@[i]
                        },
                        ..self.subnodes[i]
                    },
            ),
            ..self
        }
    }

    /// How far `token_id` lies behind the last token, where it does.
    pub open spec fn elapsed(self, token_id: u32) -> Option<u32> {
        match self.last_token_id {
            Some(last) => if token_id > last {
                Some((token_id - last) as u32)
            } else {
                None
            },
            None => None,
        }
    }

    /// The active subnode after a sub-batch of `n` particles.
    pub open spec fn trained_subnode(self, token_id: u32, outcome: SubBatchOutcome, n: int) -> SubnodeModel {
        let active = self.subnodes[self.active_subnode as int];
        let learned = match (self.elapsed(token_id), outcome.lesson) {
            (Some(_), Some(lesson)) => SubnodeModel {
                w_gate: lesson.weights.gate@,
                w_up: lesson.weights.up@,
                w_down: lesson.weights.down@,
                ..active
            },
            _ => active,
        };
        SubnodeModel {
            credit_stats: active.credit_stats.observed(outcome.mean_credit, outcome.credit_stats),
            health: if Scalar::zero().below(outcome.mean_credit) {
                outcome.rewarded
            } else {
                outcome.penalized
            },
            activation_count: (active.activation_count + n) as u64,
            ..learned
        }
    }

    /// The node after a sub-batch of token `token_id`, whose particles are now `list`.
    pub open spec fn closed(self, token_id: u32, outcome: SubBatchOutcome, list: Seq<ParticleModel>) -> Self {
        let n = list.len() as int;
        let late = self.elapsed(token_id) is Some;
        NodeModel {
            local_loss_accumulator: if late {
                outcome.local_loss_accumulator
            } else {
                self.local_loss_accumulator
            },
            local_loss_count: if late {
                (self.local_loss_count + 1) as usize
            } else {
                self.local_loss_count
            },
            fast_weight: match (self.elapsed(token_id), outcome.lesson) {
                (Some(_), Some(lesson)) => lesson.fast_weight@,
                _ => self.fast_weight,
            },
            subnodes: self.subnodes.update(
                self.active_subnode as int,
                self.trained_subnode(token_id, outcome, n),
            ),
            last_p_in: self.p_in_buf,
            p_out_buf: outcome.p_out@,
            last_prediction: outcome.p_out@,
            last_token_id: Some(token_id),
            sum_temporal_affinity: outcome.sum_temporal_affinity,
            sum_credit_volatility: outcome.sum_credit_volatility,
            sum_squared_energy: outcome.sum_squared_energy,
            sum_memory_density: outcome.sum_memory_density,
            total_particles_processed: (self.total_particles_processed + n) as u64,
            halted_particles_count: (self.halted_particles_count + settled_total(list)) as u64,
            sum_hop_count: (self.sum_hop_count + hop_total(list)) as u64,
            activation_count: (self.activation_count + n) as u64,
            recent_activation_count: (self.recent_activation_count + n) as u64,
            cumulative_sequence_len: (self.cumulative_sequence_len + n) as u64,
            attention_ops_count: (self.attention_ops_count + n) as u64,
            ..self
        }
    }

    /// Whether the counters can take in `n` more particles.
    pub open spec fn has_room(self, n: int) -> bool {
        &&& self.total_particles_processed + n <= u64::MAX
        &&& self.halted_particles_count + n <= u64::MAX
        &&& self.sum_hop_count + n * 65535 <= u64::MAX
        &&& self.activation_count + n <= u64::MAX
        &&& self.recent_activation_count + n <= u64::MAX
        &&& self.cumulative_sequence_len + n <= u64::MAX
        &&& self.attention_ops_count + n <= u64::MAX
        &&& self.local_loss_count < usize::MAX
        &&& self.subnodes[self.active_subnode as int].activation_count + n <= u64::MAX
    }

    /// Whether the active subnode divides: there is room for another, it is healthier than
    /// the threshold, and it has seen credit that varies.
    pub open spec fn divides(self, threshold: Scalar, variance: Scalar) -> bool {
        let active = self.subnodes[self.active_subnode as int];
        &&& self.subnodes.len() < self.config.subnode_max
        &&& threshold.below(active.health)
        &&& active.credit_stats.seasoned()
        &&& Scalar::zero().below(variance)
    }

    /// Whether the weights of a child are of the sizes of the active subnode's.
    pub open spec fn child_fits(self, weights: SubnodeWeights) -> bool {
        let active = self.subnodes[self.active_subnode as int];
        &&& weights.gate@.len() == active.w_gate.len()
        &&& weights.up@.len() == active.w_up.len()
        &&& weights.down@.len() == active.w_down.len()
    }

    /// The node with a child of the active subnode, which keeps half its health.
    pub open spec fn divided(self, halved: Scalar, weights: SubnodeWeights) -> Self {
        let active = self.subnodes[self.active_subnode as int];
        let child = active.child(
            self.subnodes.len() as usize,
            self.config.d_head,
            weights,
            self.config.health_base,
        );
        NodeModel {
            subnodes: self.subnodes.push(child).update(
                self.active_subnode as int,
                SubnodeModel { health: halved, ..active },
            ),
            split_count: (self.split_count + 1) as u32,
            ..self
        }
    }

    /// The node with a child of the active subnode where that divides.
    pub open spec fn grown(
        self,
        threshold: Scalar,
        variance: Scalar,
        halved: Scalar,
        weights: SubnodeWeights,
    ) -> Self {
        if self.divides(threshold, variance) {
            self.divided(halved, weights)
        } else {
            self
        }
    }

    /// The node with the listed subnodes only, numbered anew.
    pub open spec fn keeping(self, keep: Seq<usize>) -> Self {
        NodeModel {
            subnodes: Seq::new(
                keep.len(),
                |i: int|
                    SubnodeModel { subnode_id: i as usize, ..self.subnodes[keep[i] as int] },
            ),
            active_subnode: match first_index(keep, self.active_subnode) {
                Some(i) => i as usize,
                None => 0,
            },
            ..self
        }
    }

    /// Where several subnodes are all dead, the fittest can be told only among numbers.
    pub open spec fn prunable(self) -> bool {
        self.subnodes.len() > 1 && chosen(alive(self.subnodes)).len() == 0 ==> forall|i: int|
            0 <= i < self.subnodes.len() ==> !(#[trigger] self.subnodes[i]).health.not_a_number()
    }

    /// The node without its dead subnodes. Where all are dead the fittest is revived.
    pub open spec fn pruned(self) -> Self {
        let keep = chosen(alive(self.subnodes));
        if self.subnodes.len() <= 1 || keep.len() == self.subnodes.len() {
            self
        } else if keep.len() == 0 {
            let best = fittest(self.subnodes);
            NodeModel {
                subnodes: self.subnodes.update(
                    best,
                    SubnodeModel { health: Scalar::half(), ..self.subnodes[best] },
                ),
                ..self
            }.keeping(seq![best as usize])
        } else {
            self.keeping(keep)
        }
    }

    /// The node at the end of a batch of `batch_len` particles.
    pub open spec fn ended(
        self,
        batch_len: int,
        threshold: Scalar,
        variance: Scalar,
        halved: Scalar,
        weights: SubnodeWeights,
    ) -> Self {
        if batch_len > 0 {
            self.grown(threshold, variance, halved, weights).pruned()
        } else {
            self
        }
    }

    /// The node with its counters at zero.
    pub open spec fn metrics_reset(self) -> Self {
        NodeModel {
            sum_hop_count: 0,
            halted_particles_count: 0,
            sum_squared_energy: Scalar::zero(),
            total_particles_processed: 0,
            sum_memory_density: Scalar::zero(),
            attention_ops_count: 0,
            sum_credit_volatility: Scalar::zero(),
            sum_temporal_affinity: Scalar::zero(),
            ..self
        }
    }

    /// What the counters show.
    pub open spec fn metrics(self) -> NodeMetrics {
        NodeMetrics {
            sum_hop_count: self.sum_hop_count,
            halted_particles_count: self.halted_particles_count,
            sum_squared_energy: self.sum_squared_energy,
            total_particles_processed: self.total_particles_processed,
            sum_memory_density: self.sum_memory_density,
            attention_ops_count: self.attention_ops_count,
            sum_credit_volatility: self.sum_credit_volatility,
            sum_temporal_affinity: self.sum_temporal_affinity,
            active_subnodes_count: self.subnodes.len() as u64,
        }
    }

    /// A node that has seen nothing yet.
    pub open spec fn fresh(
        node_id: usize,
        config: MicroBlockConfig,
        use_cuda: bool,
        primary: SubnodeModel,
        fast_weight: Seq<Scalar>,
    ) -> Self {
        NodeModel {
            node_id,
            config,
            subnodes: seq![primary],
            split_count: 0,
            fast_weight,
            cumulative_energy: Scalar::zero(),
            last_p_in: blank(config.d_head as nat),
            last_prediction: blank(config.d_head as nat),
            last_token_id: None,
            cumulative_sequence_len: 0,
            activation_count: 0,
            local_loss_accumulator: Scalar::zero(),
            local_loss_count: 0,
            recent_activation_count: 0,
            p_in_buf: Seq::empty(),
            p_out_buf: Seq::empty(),
            use_cuda,
            active_subnode: 0,
            sum_hop_count: 0,
            halted_particles_count: 0,
            sum_squared_energy: Scalar::zero(),
            total_particles_processed: 0,
            sum_memory_density: Scalar::zero(),
            attention_ops_count: 0,
            sum_credit_volatility: Scalar::zero(),
            sum_temporal_affinity: Scalar::zero(),
        }
    }

    /// The node between two sequences: what it learned stays, what it was doing is gone.
    pub open spec fn state_reset(self) -> Self {
        NodeModel {
            last_p_in: blank(self.last_p_in.len()),
            last_prediction: blank(self.last_prediction.len()),
            last_token_id: None,
            recent_activation_count: 0,
            local_loss_accumulator: Scalar::zero(),
            local_loss_count: 0,
            ..self
        }
    }
}

impl MicroBlockNode {
    /// A node with one subnode, from freshly drawn weights.
    pub fn new(
        node_id: usize,
        config: MicroBlockConfig,
        use_cuda: bool,
        weights: SubnodeWeights,
        fast_weight: Vec<Scalar>,
        alpha_init: Scalar,
        gamma: Scalar,
    ) -> (r: Self)
        requires
            config.d_head * config.ffn_expansion <= usize::MAX,
            weights.sized(config.d_head * (config.d_head * config.ffn_expansion)),
            fast_weight@.len() == config.d_head * config.d_head,
        ensures
            r@ == NodeModel::fresh(
                node_id,
                config,
                use_cuda,
                SubnodeModel::newborn(
                    0,
                    config.d_head,
                    weights,
                    alpha_init,
                    OnlineStats::empty(gamma),
                    Scalar::one(),
                ),
                fast_weight@,
            ),
            r@.wf(),
    {
        let ffn_dim: usize = config.d_head * config.ffn_expansion;
        let primary: Subnode = Subnode::new_random(
            0,
            config.d_head,
            ffn_dim,
            weights,
            alpha_init,
            gamma,
        );
        let mut subnodes: Vec<Subnode> = Vec::new();
        subnodes.push(primary);
        let r = MicroBlockNode {
            node_id,
            config,
            subnodes,
            split_count: 0,
            fast_weight,
            cumulative_energy: Scalar::zero(),
            last_p_in: zeros(config.d_head),
            last_prediction: zeros(config.d_head),
            last_token_id: None,
            cumulative_sequence_len: 0,
            activation_count: 0,
            local_loss_accumulator: Scalar::zero(),
            local_loss_count: 0,
            recent_activation_count: 0,
            p_in_buf: Vec::new(),
            p_out_buf: Vec::new(),
            use_cuda,
            active_subnode: 0,
            sum_hop_count: 0,
            halted_particles_count: 0,
            sum_squared_energy: Scalar::zero(),
            total_particles_processed: 0,
            sum_memory_density: Scalar::zero(),
            attention_ops_count: 0,
            sum_credit_volatility: Scalar::zero(),
            sum_temporal_affinity: Scalar::zero(),
        };
        assert(r@.subnodes =~= seq![primary@]);
        r
    }

    /// The subnode that the node began with.
    pub fn primary_subnode(&self) -> (r: &Subnode)
        requires
            self@.subnodes.len() > 0,
        ensures
            r@ == self@.subnodes[0],
    {
        &self.subnodes[0]
    }

    /// The subnode that the node began with, to be changed in place.
    pub fn primary_subnode_mut(&mut self) -> (r: &mut Subnode)
        requires
            old(self)@.subnodes.len() > 0,
        ensures
            r@ == old(self)@.subnodes[0],
            final(self)@ == (NodeModel {
                subnodes: old(self)@.subnodes.update(0, final(r)@),
                ..old(self)@
            }),
    {
        &mut self.subnodes[0]
    }

    /// Whether the active subnode divides.
    pub fn can_divide(&self, threshold: Scalar, variance: Scalar) -> (r: bool)
        requires
            self@.wf(),
        ensures
            r == self@.divides(threshold, variance),
    {
        let active: &Subnode = &self.subnodes[self.active_subnode];
        self.subnodes.len() < self.config.subnode_max && threshold.lt(active.health)
            && active.credit_stats.has_history() && Scalar::zero().lt(variance)
    }

    /// Lets the active subnode divide where it may. `threshold` is the health it needs,
    /// `variance` that of its credit, `halved` half its health, `weights` the child's.
    /// Says whether there is a child.
    pub fn try_subnode_neurogenesis(
        &mut self,
        threshold: Scalar,
        variance: Scalar,
        halved: Scalar,
        weights: SubnodeWeights,
    ) -> (r: bool)
        requires
            old(self)@.wf(),
            old(self)@.divides(threshold, variance) ==> {
                &&& old(self)@.split_count < u32::MAX
                &&& old(self)@.child_fits(weights)
            },
        ensures
            r == old(self)@.divides(threshold, variance),
            final(self)@ == if r {
                old(self)@.divided(halved, weights)
            } else {
                old(self)@
            },
            final(self)@.wf(),
    {
        if !self.can_divide(threshold, variance) {
            return false;
        }
        self.divide(halved, weights);
        true
    }

    /// Lets the active subnode divide. `halved` is half its health, `weights` the child's.
    pub fn divide(&mut self, halved: Scalar, weights: SubnodeWeights)
        requires
            old(self)@.wf(),
            old(self)@.subnodes.len() < old(self)@.config.subnode_max,
            old(self)@.split_count < u32::MAX,
            old(self)@.child_fits(weights),
        ensures
            final(self)@ == old(self)@.divided(halved, weights),
            final(self)@.wf(),
    {
        let active: usize = self.active_subnode;
        let child: Subnode = Subnode::spawn_from_parent(
            self.subnodes.len(),
            &self.subnodes[active],
            self.config.d_head,
            weights,
            self.config.health_base,
        );
        let ghost before = self@;
        self.subnodes.push(child);
        self.split_count = self.split_count + 1;
        let mut parent: Subnode = self.subnodes[active].clone();
        parent.health = halved;
        self.subnodes.set(active, parent);
        assert(self@.subnodes =~= before.divided(halved, weights).subnodes);
    }

    /// Drops the subnodes whose health is not positive and returns how many. The fittest is
    /// revived where none is left.
    pub fn prune_dominated_subnodes(&mut self) -> (r: usize)
        requires
            old(self)@.wf(),
            old(self)@.prunable(),
        ensures
            final(self)@ == old(self)@.pruned(),
            final(self)@.wf(),
            r == old(self)@.subnodes.len() - final(self)@.subnodes.len(),
    {
        let n: usize = self.subnodes.len();
        if n <= 1 {
            return 0;
        }
        let ghost before = self@;
        let mut flags: Vec<bool> = Vec::with_capacity(n);
        let mut i: usize = 0;
        while i < n
            invariant
                i <= n,
                n == self.subnodes.len(),
                self@ == before,
                flags@ == alive(before.subnodes).take(i as int),
            decreases n - i,
        {
            flags.push(Scalar::zero().lt(self.subnodes[i].health));
            i += 1;
            assert(flags@ =~= alive(before.subnodes).take(i as int));
        }
        assert(flags@ =~= alive(before.subnodes));
        let mut keep: Vec<usize> = choose_flagged(&flags);
        if keep.len() == n {
            return 0;
        }
        if keep.len() == 0 {
            let best: usize = self.fittest_subnode();
            let mut revived: Subnode = self.subnodes[best].clone();
            revived.health = Scalar::half();
            self.subnodes.set(best, revived);
            assert(self@.subnodes =~= before.subnodes.update(
                best as int,
                SubnodeModel { health: Scalar::half(), ..before.subnodes[best as int] },
            ));
            keep.push(best);
            assert(keep@ =~= seq![best]);
        }
        let dropped: usize = n - keep.len();
        self.keep_subnodes(&keep);
        dropped
    }

    /// Ends a batch of `batch_len` particles: the active subnode divides where it may, as in
    /// `try_subnode_neurogenesis`, and then the dead subnodes go. Says whether there is a
    /// child, and how many subnodes went. An empty batch changes nothing.
    pub fn grow_and_prune(
        &mut self,
        batch_len: usize,
        threshold: Scalar,
        variance: Scalar,
        halved: Scalar,
        weights: SubnodeWeights,
    ) -> (r: (bool, usize))
        requires
            old(self)@.wf(),
            batch_len > 0 && old(self)@.divides(threshold, variance) ==> {
                let active = old(self)@.subnodes[old(self)@.active_subnode as int];
                &&& old(self)@.split_count < u32::MAX
                &&& weights.gate@.len() == active.w_gate.len()
                &&& weights.up@.len() == active.w_up.len()
                &&& weights.down@.len() == active.w_down.len()
            },
            batch_len > 0 ==> old(self)@.grown(threshold, variance, halved, weights).prunable(),
        ensures
            final(self)@ == old(self)@.ended(
                batch_len as int,
                threshold,
                variance,
                halved,
                weights,
            ),
            final(self)@.wf(),
            r.0 == (batch_len > 0 && old(self)@.divides(threshold, variance)),
            r.1 == if batch_len > 0 {
                old(self)@.grown(threshold, variance, halved, weights).subnodes.len()
                    - final(self)@.subnodes.len()
            } else {
                0
            },
    {
        if batch_len == 0 {
            return (false, 0);
        }
        let divided: bool = self.try_subnode_neurogenesis(threshold, variance, halved, weights);
        let dropped: usize = self.prune_dominated_subnodes();
        (divided, dropped)
    }

    /// The last subnode of the best health.
    fn fittest_subnode(&self) -> (r: usize)
        requires
            self@.subnodes.len() > 0,
        ensures
            r == fittest(self@.subnodes),
            r < self@.subnodes.len(),
    {
        let mut best: usize = 0;
        let mut i: usize = 1;
        while i < self.subnodes.len()
            invariant
                1 <= i <= self.subnodes.len(),
                best < i,
                best == fittest(self@.subnodes.take(i as int)),
            decreases self.subnodes.len() - i,
        {
            assert(self@.subnodes.take(i + 1).drop_last() =~= self@.subnodes.take(i as int));
            if self.subnodes[best].health.le(self.subnodes[i].health) {
                best = i;
            }
            i += 1;
        }
        assert(self@.subnodes.take(i as int) =~= self@.subnodes);
        best
    }

    /// Keeps the listed subnodes and numbers them anew.
    fn keep_subnodes(&mut self, keep: &Vec<usize>)
        requires
            forall|i: int| 0 <= i < keep@.len() ==> #[trigger] keep@[i] < old(self)@.subnodes.len(),
            keep@.len() > 0,
        ensures
            final(self)@ == old(self)@.keeping(keep@),
            final(self)@.wf(),
    {
        let ghost before = self@;
        let mut subnodes: Vec<Subnode> = Vec::with_capacity(keep.len());
        let mut i: usize = 0;
        while i < keep.len()
            invariant
                i <= keep.len(),
                self@ == before,
                forall|i: int| 0 <= i < keep@.len() ==> #[trigger] keep@[i] < before.subnodes.len(),
                subnode_models(subnodes@) == before.keeping(keep@).subnodes.take(i as int),
            decreases keep.len() - i,
        {
            assert(keep@[i as int] < before.subnodes.len());
            let mut kept: Subnode = self.subnodes[keep[i]].clone();
            kept.subnode_id = i;
            let ghost front = subnode_models(subnodes@);
            assert(kept@ == before.keeping(keep@).subnodes[i as int]);
            subnodes.push(kept);
            i += 1;
            assert(subnode_models(subnodes@) =~= front.push(kept@));
            assert(subnode_models(subnodes@) =~= before.keeping(keep@).subnodes.take(i as int));
        }
        self.active_subnode =
        match find_first(keep, self.active_subnode) {
            Some(k) => k,
            None => 0,
        };
        self.subnodes = subnodes;
        assert(self@.subnodes =~= before.keeping(keep@).subnodes);
    }

    /// Begins a sub-batch and returns the subnode that it goes to.
    pub fn open_sub_batch(&mut self, opening: SubBatchOpening) -> (r: usize)
        requires
            old(self)@.subnodes.len() > 0,
            opening.decayed@.len() == old(self)@.subnodes.len(),
            opening.recovered@.len() == old(self)@.subnodes.len(),
            opening.scores@.len() == old(self)@.subnodes.len(),
        ensures
            final(self)@ == old(self)@.opened(opening),
            final(self)@.wf(),
            r == final(self)@.active_subnode,
    {
        let ghost before = self@;
        let n: usize = self.subnodes.len();
        let mut scores: Vec<Scalar> = Vec::with_capacity(n);
        let mut i: usize = 0;
        while i < n
            invariant
                i <= n,
                n == self.subnodes.len(),
                self@ == before,
                opening.scores@.len() == n,
                scores@ == before.scores(opening.scores@).take(i as int),
            decreases n - i,
        {
            if self.subnodes[i].credit_stats.count.le(Scalar::one()) {
                scores.push(Scalar::infinity());
            } else {
                scores.push(opening.scores[i]);
            }
            i += 1;
            assert(scores@ =~= before.scores(opening.scores@).take(i as int));
        }
        assert(scores@ =~= before.scores(opening.scores@));
        let winner: usize = select_best(&scores);
        let mut subnodes: Vec<Subnode> = Vec::with_capacity(n);
        i = 0;
        while i < n
            invariant
                i <= n,
                n == self.subnodes.len(),
                self@ == before,
                winner == argmax(before.scores(opening.scores@)),
                opening.decayed@.len() == n,
                opening.recovered@.len() == n,
                subnode_models(subnodes@) == before.opened(opening).subnodes.take(i as int),
            decreases n - i,
        {
            let mut subnode: Subnode = self.subnodes[i].clone();
            subnode.health =
            if i == winner {
                opening.recovered[i]
            } else {
                opening.decayed[i]
            };
            let ghost front = subnode_models(subnodes@);
            assert(subnode@ == before.opened(opening).subnodes[i as int]);
            subnodes.push(subnode);
            i += 1;
            assert(subnode_models(subnodes@) =~= front.push(subnode@));
            assert(subnode_models(subnodes@) =~= before.opened(opening).subnodes.take(i as int));
        }
        self.subnodes = subnodes;
        self.cumulative_energy = opening.cumulative_energy;
        self.p_in_buf = opening.p_in;
        self.active_subnode = winner;
        assert(self@.subnodes =~= before.opened(opening).subnodes);
        winner
    }

    /// How far `token_id` lies behind the last token. There is a prediction to learn from
    /// only where it does.
    pub fn elapsed_tokens(&self, token_id: u32) -> (r: Option<u32>)
        ensures
            r == self@.elapsed(token_id),
    {
        match self.last_token_id {
            Some(last) => if token_id > last {
                Some(token_id - last)
            } else {
                None
            },
            None => None,
        }
    }

    /// Whether the counters can take in `n` more particles.
    pub fn room_for(&self, n: usize) -> (r: bool)
        requires
            self@.wf(),
        ensures
            r == self@.has_room(n as int),
    {
        let count: u64 = n as u64;
        let limit: u64 = u64::MAX - count;
        self.total_particles_processed <= limit && self.halted_particles_count <= limit
            && self.sum_hop_count as u128 + count as u128 * 65535 <= u64::MAX as u128
            && self.activation_count <= limit && self.recent_activation_count <= limit
            && self.cumulative_sequence_len <= limit && self.attention_ops_count <= limit
            && self.local_loss_count < usize::MAX
            && self.subnodes[self.active_subnode].activation_count <= limit
    }

    /// Ends the sub-batch `particles[start..end]`: moves each of its particles on and takes
    /// in what was computed.
    #[verifier::rlimit(30)]
    pub fn process_sub_batch(
        &mut self,
        particles: &mut Vec<Particle>,
        start: usize,
        end: usize,
        outcome: SubBatchOutcome,
    )
        requires
            old(self)@.wf(),
            start < end <= old(particles)@.len(),
            outcome.results@.len() == end - start,
            old(self)@.has_room(end - start),
            forall|i: int|
                start <= i < end ==> (#[trigger] old(particles)@[i]).header.hop_count < u16::MAX,
        ensures
            models(final(particles)@) == settled_batch(
                models(old(particles)@),
                start as int,
                outcome.results@,
                old(self)@.config.max_hop,
            ),
            final(self)@ == old(self)@.closed(
                old(particles)@[start as int].header.origin_token_id,
                outcome,
                models(final(particles)@).subrange(start as int, end as int),
            ),
            final(self)@.wf(),
    {
        let token_id: u32 = particles[start].header.origin_token_id;
        let count: u64 = (end - start) as u64;
        let max_hop: u16 = self.config.max_hop;
        let late: bool = self.elapsed_tokens(token_id).is_some();
        let ghost before = self@;
        let ghost batch = models(particles@);
        let ghost done = settled_batch(batch, start as int, outcome.results@, max_hop);
        let mut halted: u64 = 0;
        let mut hops: u64 = 0;
        let mut i: usize = start;
        assert(models(particles@) =~= done.take(start as int) + batch.skip(start as int));
        assert(done.subrange(start as int, start as int) =~= Seq::empty());
        while i < end
            invariant
                start <= i <= end <= particles@.len(),
                particles@.len() == batch.len(),
                outcome.results@.len() == end - start,
                done == settled_batch(batch, start as int, outcome.results@, max_hop),
                forall|k: int|
                    0 <= k < batch.len() ==> (#[trigger] particles@[k])@ == if k < i {
                        done[k]
                    } else {
                        batch[k]
                    },
                forall|k: int|
                    start <= k < end ==> (#[trigger] batch[k]).header.hop_count < u16::MAX,
                halted == settled_total(done.subrange(start as int, i as int)),
                hops == hop_total(done.subrange(start as int, i as int)),
                halted <= i - start,
                hops <= (i - start) * 65535,
                (end - start) * 65535 <= u64::MAX,
            decreases end - i,
        {
            assert(particles@[i as int]@ == batch[i as int]);
            let previous: &Particle = &particles[i];
            let result: &ParticleResult = &outcome.results[i - start];
            let mut header: crate::particle::ParticleHeader = previous.header;
            header.step_hop(result.remaining, max_hop);
            if !header.halted && previous.credit_valid && previous.credit.le(Scalar::zero())
                && result.credit.le(Scalar::zero()) {
                header.halted = true;
            }
            let moved: Particle = Particle {
                header,
                payload: copy_scalars(&result.payload),
                trace_concentration: previous.trace_concentration,
                credit: result.credit,
                credit_valid: true,
            };
            assert(moved@ == done[i as int]);
            assert(done.subrange(start as int, i + 1).drop_last() =~= done.subrange(
                start as int,
                i as int,
            ));
            if header.halted {
                halted += 1;
            }
            hops += header.hop_count as u64;
            particles.set(i, moved);
            i += 1;
        }
        assert(models(particles@) =~= done);
        let ghost list = done.subrange(start as int, end as int);
        let active: usize = self.active_subnode;
        let mut subnode: Subnode = self.subnodes[active].clone();
        if late {
            self.local_loss_accumulator = outcome.local_loss_accumulator;
            self.local_loss_count = self.local_loss_count + 1;
            if let Some(lesson) = &outcome.lesson {
                self.fast_weight = copy_scalars(&lesson.fast_weight);
                subnode.w_gate = copy_scalars(&lesson.weights.gate);
                subnode.w_up = copy_scalars(&lesson.weights.up);
                subnode.w_down = copy_scalars(&lesson.weights.down);
            }
        }
        subnode.credit_stats.observe(outcome.mean_credit, outcome.credit_stats);
        subnode.health =
        if Scalar::zero().lt(outcome.mean_credit) {
            outcome.rewarded
        } else {
            outcome.penalized
        };
        subnode.activation_count = subnode.activation_count + count;
        assert(subnode@ == before.trained_subnode(token_id, outcome, count as int));
        self.subnodes.set(active, subnode);
        self.last_p_in = copy_scalars(&self.p_in_buf);
        self.last_prediction = copy_scalars(&outcome.p_out);
        self.p_out_buf = copy_scalars(&outcome.p_out);
        self.last_token_id = Some(token_id);
        self.sum_temporal_affinity = outcome.sum_temporal_affinity;
        self.sum_credit_volatility = outcome.sum_credit_volatility;
        self.sum_squared_energy = outcome.sum_squared_energy;
        self.sum_memory_density = outcome.sum_memory_density;
        self.total_particles_processed = self.total_particles_processed + count;
        self.halted_particles_count = self.halted_particles_count + halted;
        self.sum_hop_count = self.sum_hop_count + hops;
        self.activation_count = self.activation_count + count;
        self.recent_activation_count = self.recent_activation_count + count;
        self.cumulative_sequence_len = self.cumulative_sequence_len + count;
        self.attention_ops_count = self.attention_ops_count + count;
        assert(self@.subnodes =~= before.closed(token_id, outcome, list).subnodes);
        assert(self@ =~= before.closed(token_id, outcome, list));
    }

    /// Reads the counters and sets them to zero.
    pub fn extract_and_reset_metrics(&mut self) -> (r: NodeMetrics)
        ensures
            r == old(self)@.metrics(),
            final(self)@ == old(self)@.metrics_reset(),
    {
        let metrics = NodeMetrics {
            sum_hop_count: self.sum_hop_count,
            halted_particles_count: self.halted_particles_count,
            sum_squared_energy: self.sum_squared_energy,
            total_particles_processed: self.total_particles_processed,
            sum_memory_density: self.sum_memory_density,
            attention_ops_count: self.attention_ops_count,
            sum_credit_volatility: self.sum_credit_volatility,
            sum_temporal_affinity: self.sum_temporal_affinity,
            active_subnodes_count: self.subnodes.len() as u64,
        };
        self.sum_hop_count = 0;
        self.halted_particles_count = 0;
        self.sum_squared_energy = Scalar::zero();
        self.total_particles_processed = 0;
        self.sum_memory_density = Scalar::zero();
        self.attention_ops_count = 0;
        self.sum_credit_volatility = Scalar::zero();
        self.sum_temporal_affinity = Scalar::zero();
        metrics
    }

    /// Forgets what the node was doing, not what it learned.
    pub fn reset_state(&mut self)
        ensures
            final(self)@ == old(self)@.state_reset(),
    {
        self.last_p_in = zeros(self.last_p_in.len());
        self.last_prediction = zeros(self.last_prediction.len());
        self.last_token_id = None;
        self.recent_activation_count = 0;
        self.local_loss_accumulator = Scalar::zero();
        self.local_loss_count = 0;
    }
}

/// The token of each particle, as a key to sort by.
pub open spec fn token_keys(list: Seq<ParticleModel>) -> Seq<i128> {
    list.map_values(|p: ParticleModel| p.header.origin_token_id as i128)
}

/// `list` rearranged by `order`.
pub open spec fn rearranged(list: Seq<ParticleModel>, order: Seq<usize>) -> Seq<ParticleModel> {
    Seq::new(order.len(), |i: int| list[order[i] as int])
}

/// `runs` cuts `list` into its longest stretches of one token, from front to back.
pub open spec fn are_token_runs(list: Seq<ParticleModel>, runs: Seq<(usize, usize)>) -> bool {
    &&& runs.len() == 0 <==> list.len() == 0
    &&& runs.len() > 0 ==> runs[0].0 == 0 && runs.last().1 == list.len()
    &&& forall|r: int|
        0 <= r < runs.len() ==> (#[trigger] runs[r]).0 < runs[r].1 <= list.len() && (r > 0
            ==> runs[r].0 == runs[r - 1].1)
    &&& forall|r: int, i: int|
        0 <= r < runs.len() && runs[r].0 <= i < runs[r].1 ==> (#[trigger] list[i]).header.origin_token_id
            == list[(#[trigger] runs[r]).0 as int].header.origin_token_id
    &&& forall|r: int|
        0 < r < runs.len() ==> list[(#[trigger] runs[r]).0 as int].header.origin_token_id
            != list[runs[r].0 - 1].header.origin_token_id
}

impl MicroBlockNode {
    /// Sorts a batch by token, particles of one token staying as they were, and cuts it into
    /// one sub-batch per token.
    pub fn process_batch(particles: &mut Vec<Particle>) -> (r: Vec<(usize, usize)>)
        ensures
            models(final(particles)@) == rearranged(
                models(old(particles)@),
                crate::order::sorted_order(token_keys(models(old(particles)@))),
            ),
            are_token_runs(models(final(particles)@), r@),
    {
        let ghost batch = models(particles@);
        let n: usize = particles.len();
        let mut keys: Vec<i128> = Vec::with_capacity(n);
        let mut i: usize = 0;
        while i < n
            invariant
                i <= n,
                n == particles@.len(),
                batch == models(particles@),
                keys@ == token_keys(batch).take(i as int),
            decreases n - i,
        {
            keys.push(particles[i].header.origin_token_id as i128);
            i += 1;
            assert(keys@ =~= token_keys(batch).take(i as int));
        }
        assert(keys@ =~= token_keys(batch));
        let order: Vec<usize> = stable_order(&keys);
        let mut sorted: Vec<Particle> = Vec::with_capacity(n);
        i = 0;
        while i < n
            invariant
                i <= n,
                n == particles@.len(),
                batch == models(particles@),
                is_stable_order(token_keys(batch), order@),
                models(sorted@) == rearranged(batch, order@).take(i as int),
            decreases n - i,
        {
            assert(order@[i as int] < n);
            let particle: Particle = particles[order[i]].clone();
            let ghost front = models(sorted@);
            assert(particle@ == rearranged(batch, order@)[i as int]);
            sorted.push(particle);
            i += 1;
            assert(models(sorted@) =~= front.push(particle@));
            assert(models(sorted@) =~= rearranged(batch, order@).take(i as int));
        }
        *particles = sorted;
        assert(models(particles@) =~= rearranged(batch, order@));
        token_runs(particles)
    }
}

/// The longest stretches of one token.
fn token_runs(particles: &Vec<Particle>) -> (r: Vec<(usize, usize)>)
    ensures
        are_token_runs(models(particles@), r@),
{
    let ghost list = models(particles@);
    let mut runs: Vec<(usize, usize)> = Vec::new();
    let mut start: usize = 0;
    while start < particles.len()
        invariant
            start <= particles.len(),
            list == models(particles@),
            runs@.len() == 0 <==> start == 0,
            runs@.len() > 0 ==> runs@[0].0 == 0 && runs@.last().1 == start,
            forall|r: int|
                0 <= r < runs@.len() ==> (#[trigger] runs@[r]).0 < runs@[r].1 <= list.len() && (r > 0
                    ==> runs@[r].0 == runs@[r - 1].1),
            forall|r: int, i: int|
                0 <= r < runs@.len() && runs@[r].0 <= i < runs@[r].1
                    ==> (#[trigger] list[i]).header.origin_token_id == list[(
                #[trigger] runs@[r]).0 as int].header.origin_token_id,
            forall|r: int|
                0 < r < runs@.len() ==> list[(#[trigger] runs@[r]).0 as int].header.origin_token_id
                    != list[runs@[r].0 - 1].header.origin_token_id,
            0 < start < list.len() ==> list[start as int].header.origin_token_id
                != list[start - 1].header.origin_token_id,
        decreases particles.len() - start,
    {
        let current: u32 = particles[start].header.origin_token_id;
        let mut end: usize = start + 1;
        while end < particles.len() && particles[end].header.origin_token_id == current
            invariant
                start < end <= particles.len(),
                list == models(particles@),
                forall|i: int|
                    start <= i < end ==> (#[trigger] list[i]).header.origin_token_id == current,
            decreases particles.len() - end,
        {
            assert(list[end as int].header.origin_token_id == current);
            end += 1;
        }
        assert(end < list.len() ==> list[end as int].header.origin_token_id
            == particles@[end as int].header.origin_token_id);
        runs.push((start, end));
        start = end;
    }
    runs
}

/// A node loses and gains no particle: the batch that it hands on has the same tokens and
/// shards in the same places, and every particle of the sub-batch made one hop more.
pub proof fn law_sub_batch_keeps_particles(
    batch: Seq<ParticleModel>,
    start: int,
    results: Seq<ParticleResult>,
    max_hop: u16,
)
    requires
        0 <= start,
        start + results.len() <= batch.len(),
        forall|i: int|
            start <= i < start + results.len() ==> (#[trigger] batch[i]).header.hop_count < u16::MAX,
    ensures
        settled_batch(batch, start, results, max_hop).len() == batch.len(),
        forall|i: int|
            0 <= i < batch.len() ==> (#[trigger] settled_batch(batch, start, results, max_hop)[i]).tag()
                == batch[i].tag(),
        forall|i: int|
            start <= i < start + results.len() ==> (#[trigger] settled_batch(
                batch,
                start,
                results,
                max_hop,
            )[i]).header.hop_count == batch[i].header.hop_count + 1,
        forall|i: int|
            0 <= i < batch.len() && batch[i].header.halted ==> (#[trigger] settled_batch(
                batch,
                start,
                results,
                max_hop,
            )[i]).header.halted,
{
}

/// A particle that two nodes in a row did no good has settled.
pub proof fn law_two_stalls_settle(p: ParticleModel, result: ParticleResult, max_hop: u16)
    requires
        p.credit_valid,
        p.credit.at_most(Scalar::zero()),
        result.credit.at_most(Scalar::zero()),
    ensures
        settled(p, result, max_hop).header.halted,
{
}

/// Sorting a batch leaves it in rising order of tokens.
pub proof fn law_sorted_by_token(list: Seq<ParticleModel>, order: Seq<usize>, i: int, j: int)
    requires
        is_stable_order(token_keys(list), order),
        0 <= i < j < list.len(),
    ensures
        rearranged(list, order)[i].header.origin_token_id <= rearranged(list, order)[j].header.origin_token_id,
{
    assert(crate::order::precedes(token_keys(list), order[i], order[j]));
}

/// Pruning leaves at least one subnode, the active one among them, numbered from zero.
pub proof fn law_pruning_keeps_a_subnode(node: NodeModel)
    requires
        node.wf(),
        node.subnodes.len() <= usize::MAX,
        forall|i: int| 0 <= i < node.subnodes.len() ==> (#[trigger] node.subnodes[i]).subnode_id == i,
    ensures
        node.pruned().wf(),
        node.pruned().subnodes.len() > 0,
        forall|i: int|
            0 <= i < node.pruned().subnodes.len() ==> (#[trigger] node.pruned().subnodes[i]).subnode_id
                == i,
{
    let keep = chosen(alive(node.subnodes));
    crate::order::lemma_chosen(alive(node.subnodes));
    crate::order::lemma_first_index(keep, node.active_subnode);
    let best = fittest(node.subnodes);
    crate::order::lemma_first_index(seq![best as usize], node.active_subnode);
}

/// After pruning a node of several subnodes, each of them is alive.
pub proof fn law_survivors_are_alive(node: NodeModel, i: int)
    requires
        node.subnodes.len() > 1,
        node.subnodes.len() <= usize::MAX,
        0 <= i < node.pruned().subnodes.len(),
    ensures
        Scalar::zero().below(node.pruned().subnodes[i].health),
{
    let flags = alive(node.subnodes);
    let keep = chosen(flags);
    crate::order::lemma_chosen(flags);
    lemma_fittest_range(node.subnodes);
    if keep.len() == node.subnodes.len() {
        assert(flags[i]);
    } else if keep.len() > 0 {
        assert(flags[keep[i] as int]);
    }
}

proof fn lemma_fittest_range(list: Seq<SubnodeModel>)
    requires
        list.len() > 0,
    ensures
        0 <= fittest(list) < list.len(),
    decreases list.len(),
{
    if list.len() > 1 {
        lemma_fittest_range(list.drop_last());
    }
}

/// Dividing adds one subnode and never more than the ceiling allows.
pub proof fn law_division_respects_ceiling(
    node: NodeModel,
    threshold: Scalar,
    variance: Scalar,
    halved: Scalar,
    weights: SubnodeWeights,
)
    requires
        node.wf(),
        node.divides(threshold, variance),
    ensures
        node.divided(halved, weights).subnodes.len() == node.subnodes.len() + 1,
        node.divided(halved, weights).subnodes.len() <= node.config.subnode_max,
        node.divided(halved, weights).wf(),
{
}

/// A batch leaves a node with at least one subnode and at most one more than it had, never
/// with more than the ceiling where it kept to it.
pub proof fn law_batch_grows_by_at_most_one(
    node: NodeModel,
    threshold: Scalar,
    variance: Scalar,
    halved: Scalar,
    weights: SubnodeWeights,
)
    requires
        node.wf(),
        node.subnodes.len() < usize::MAX,
    ensures
        ({
            let after = node.grown(threshold, variance, halved, weights).pruned();
            &&& 1 <= after.subnodes.len() <= node.subnodes.len() + 1
            &&& node.subnodes.len() <= node.config.subnode_max ==> after.subnodes.len()
                <= node.config.subnode_max
        }),
{
    let grown = node.grown(threshold, variance, halved, weights);
    crate::order::lemma_chosen(alive(grown.subnodes));
}

/// A batch after its first `n` runs were worked on, each with the outcome listed for it.
pub open spec fn worked_batch(
    batch: Seq<ParticleModel>,
    runs: Seq<(usize, usize)>,
    work: Seq<(SubBatchOpening, SubBatchOutcome)>,
    max_hop: u16,
    n: int,
) -> Seq<ParticleModel>
    decreases n,
{
    if n <= 0 {
        batch
    } else {
        settled_batch(
            worked_batch(batch, runs, work, max_hop, n - 1),
            runs[n - 1].0 as int,
            work[n - 1].1.results@,
            max_hop,
        )
    }
}

/// A node after it worked on the first `n` runs of a batch, each of them opened and closed as
/// `open_sub_batch` and `process_sub_batch` do.
pub open spec fn worked_node(
    node: NodeModel,
    batch: Seq<ParticleModel>,
    runs: Seq<(usize, usize)>,
    work: Seq<(SubBatchOpening, SubBatchOutcome)>,
    n: int,
) -> NodeModel
    decreases n,
{
    if n <= 0 {
        node
    } else {
        let (start, end) = runs[n - 1];
        let (opening, outcome) = work[n - 1];
        let opened = worked_node(node, batch, runs, work, n - 1).opened(opening);
        let before = worked_batch(batch, runs, work, opened.config.max_hop, n - 1);
        let after = worked_batch(batch, runs, work, opened.config.max_hop, n);
        opened.closed(
            before[start as int].header.origin_token_id,
            outcome,
            after.subrange(start as int, end as int),
        )
    }
}

/// Whether there is an outcome for each particle of each run.
pub open spec fn fits_runs(
    runs: Seq<(usize, usize)>,
    work: Seq<(SubBatchOpening, SubBatchOutcome)>,
) -> bool {
    &&& work.len() == runs.len()
    &&& forall|r: int|
        0 <= r < runs.len() ==> (#[trigger] work[r]).1.results@.len() == runs[r].1 - runs[r].0
}

/// How far the first `n` runs of a batch reach.
pub open spec fn reach(runs: Seq<(usize, usize)>, n: int) -> int {
    if n <= 0 {
        0
    } else {
        runs[n - 1].1 as int
    }
}

/// What the first `n` runs do to the particles.
proof fn lemma_worked_batch(
    batch: Seq<ParticleModel>,
    runs: Seq<(usize, usize)>,
    work: Seq<(SubBatchOpening, SubBatchOutcome)>,
    max_hop: u16,
    n: int,
)
    requires
        0 <= n <= runs.len(),
        are_token_runs(batch, runs),
        fits_runs(runs, work),
        forall|i: int| 0 <= i < batch.len() ==> (#[trigger] batch[i]).header.hop_count < u16::MAX,
    ensures
        0 <= reach(runs, n) <= batch.len(),
        worked_batch(batch, runs, work, max_hop, n).len() == batch.len(),
        forall|i: int|
            0 <= i < batch.len() ==> {
                let p = #[trigger] worked_batch(batch, runs, work, max_hop, n)[i];
                if i < reach(runs, n) {
                    &&& p.tag() == batch[i].tag()
                    &&& p.header.hop_count == batch[i].header.hop_count + 1
                    &&& p.credit_valid
                } else {
                    p == batch[i]
                }
            },
    decreases n,
{
    if n > 0 {
        lemma_worked_batch(batch, runs, work, max_hop, n - 1);
        let before = worked_batch(batch, runs, work, max_hop, n - 1);
        let after = worked_batch(batch, runs, work, max_hop, n);
        let start = runs[n - 1].0 as int;
        let end = runs[n - 1].1 as int;
        assert(start < end <= batch.len());
        assert(start == reach(runs, n - 1)) by {
            if n > 1 {
                assert(runs[n - 1].0 == runs[n - 2].1);
            }
        }
        assert(work[n - 1].1.results@.len() == end - start);
        assert forall|i: int| 0 <= i < batch.len() implies ({
            let p = #[trigger] after[i];
            if i < end {
                &&& p.tag() == batch[i].tag()
                &&& p.header.hop_count == batch[i].header.hop_count + 1
                &&& p.credit_valid
            } else {
                p == batch[i]
            }
        }) by {
            assert(i < start || before[i] == batch[i]);
        }
    }
}

/// What the first `n` runs do to the node.
proof fn lemma_worked_node(
    node: NodeModel,
    batch: Seq<ParticleModel>,
    runs: Seq<(usize, usize)>,
    work: Seq<(SubBatchOpening, SubBatchOutcome)>,
    n: int,
)
    requires
        0 <= n <= runs.len(),
        node.wf(),
        node.subnodes.len() <= usize::MAX,
        are_token_runs(batch, runs),
        fits_runs(runs, work),
        forall|i: int| 0 <= i < batch.len() ==> (#[trigger] batch[i]).header.hop_count < u16::MAX,
        node.activation_count + batch.len() <= u64::MAX,
        node.recent_activation_count + batch.len() <= u64::MAX,
        node.cumulative_sequence_len + batch.len() <= u64::MAX,
        node.total_particles_processed + batch.len() <= u64::MAX,
    ensures
        ({
            let after = worked_node(node, batch, runs, work, n);
            let k = reach(runs, n);
            &&& after.wf()
            &&& after.config == node.config
            &&& after.subnodes.len() == node.subnodes.len()
            &&& after.activation_count == node.activation_count + k
            &&& after.recent_activation_count == node.recent_activation_count + k
            &&& after.cumulative_sequence_len == node.cumulative_sequence_len + k
            &&& after.total_particles_processed == node.total_particles_processed + k
        }),
    decreases n,
{
    if n > 0 {
        lemma_worked_node(node, batch, runs, work, n - 1);
        lemma_worked_batch(batch, runs, work, node.config.max_hop, n - 1);
        lemma_worked_batch(batch, runs, work, node.config.max_hop, n);
        let before = worked_node(node, batch, runs, work, n - 1);
        let start = runs[n - 1].0 as int;
        let end = runs[n - 1].1 as int;
        assert(start < end <= batch.len());
        assert(start == reach(runs, n - 1)) by {
            if n > 1 {
                assert(runs[n - 1].0 == runs[n - 2].1);
            }
        }
        crate::order::law_argmax(before.scores(work[n - 1].0.scores@));
        let after = worked_batch(batch, runs, work, node.config.max_hop, n);
        assert(after.subrange(start, end).len() == end - start);
    }
}

/// A batch of `k` particles as a whole: none is lost and none is new, each makes one hop and
/// has its credit measured, and the node counts `k` more of them. At its end the node has
/// subnodes, and one of them is active. An empty batch changes nothing.
pub proof fn law_batch_moves_every_particle_once(
    node: NodeModel,
    batch: Seq<ParticleModel>,
    runs: Seq<(usize, usize)>,
    work: Seq<(SubBatchOpening, SubBatchOutcome)>,
    threshold: Scalar,
    variance: Scalar,
    halved: Scalar,
    weights: SubnodeWeights,
)
    requires
        node.wf(),
        node.subnodes.len() < usize::MAX,
        are_token_runs(batch, runs),
        fits_runs(runs, work),
        forall|i: int| 0 <= i < batch.len() ==> (#[trigger] batch[i]).header.hop_count < u16::MAX,
        node.activation_count + batch.len() <= u64::MAX,
        node.recent_activation_count + batch.len() <= u64::MAX,
        node.cumulative_sequence_len + batch.len() <= u64::MAX,
        node.total_particles_processed + batch.len() <= u64::MAX,
    ensures
        ({
            let k = batch.len() as int;
            let n = runs.len() as int;
            let done = worked_batch(batch, runs, work, node.config.max_hop, n);
            let after = worked_node(node, batch, runs, work, n).ended(
                k,
                threshold,
                variance,
                halved,
                weights,
            );
            &&& done.len() == k
            &&& forall|i: int|
                0 <= i < k ==> {
                    &&& (#[trigger] done[i]).tag() == batch[i].tag()
                    &&& done[i].header.hop_count == batch[i].header.hop_count + 1
                    &&& done[i].credit_valid
                }
            &&& after.activation_count == node.activation_count + k
            &&& after.recent_activation_count == node.recent_activation_count + k
            &&& after.cumulative_sequence_len == node.cumulative_sequence_len + k
            &&& after.total_particles_processed == node.total_particles_processed + k
            &&& after.subnodes.len() >= 1
            &&& after.wf()
            &&& k == 0 ==> done == batch && after == node
        }),
{
    let n = runs.len() as int;
    lemma_worked_batch(batch, runs, work, node.config.max_hop, n);
    lemma_worked_node(node, batch, runs, work, n);
    let worked = worked_node(node, batch, runs, work, n);
    let grown = worked.grown(threshold, variance, halved, weights);
    assert(reach(runs, n) == batch.len());
    let keep = chosen(alive(grown.subnodes));
    crate::order::lemma_chosen(alive(grown.subnodes));
    crate::order::lemma_first_index(keep, grown.active_subnode);
    crate::order::lemma_first_index(seq![fittest(grown.subnodes) as usize], grown.active_subnode);
}

/// Sorting a batch keeps its particles: each stands in the sorted batch, and as often as
/// before.
pub proof fn law_sorting_keeps_particles(list: Seq<ParticleModel>, order: Seq<usize>)
    requires
        is_stable_order(token_keys(list), order),
        list.len() <= usize::MAX,
    ensures
        rearranged(list, order).to_multiset() == list.to_multiset(),
{
    crate::order::lemma_order_covers(token_keys(list), order);
    lemma_rearranged(list, order);
}

/// Rearranging by an order that meets every place once keeps what is there.
proof fn lemma_rearranged(list: Seq<ParticleModel>, order: Seq<usize>)
    requires
        order.no_duplicates(),
        order.len() == list.len(),
        forall|i: int| 0 <= i < order.len() ==> (#[trigger] order[i]) < list.len(),
        forall|a: int| 0 <= a < list.len() ==> order.contains(#[trigger] (a as usize)),
        list.len() <= usize::MAX,
    ensures
        rearranged(list, order).to_multiset() == list.to_multiset(),
    decreases list.len(),
{
    broadcast use vstd::seq_lib::group_to_multiset_ensures;

    if list.len() == 0 {
        assert(rearranged(list, order) =~= list);
    } else {
        let n = list.len() - 1;
        let front = list.drop_last();
        assert(order.contains((n as int) as usize));
        let at = choose|at: int| 0 <= at < order.len() && order[at] == n as usize;
        let rest = order.remove(at);
        assert forall|i: int| 0 <= i < rest.len() implies (#[trigger] rest[i]) < front.len() by {
            let j = if i < at {
                i
            } else {
                i + 1
            };
            assert(rest[i] == order[j]);
            assert(order[j] != order[at]);
        }
        assert(rest.no_duplicates()) by {
            assert forall|i: int, j: int|
                0 <= i < rest.len() && 0 <= j < rest.len() && i != j implies rest[i] != rest[j] by {
                let a = if i < at {
                    i
                } else {
                    i + 1
                };
                let b = if j < at {
                    j
                } else {
                    j + 1
                };
                assert(order[a] != order[b]);
            }
        }
        assert forall|a: int| 0 <= a < front.len() implies rest.contains(#[trigger] (a as usize)) by {
            assert(order.contains(a as usize));
            let j = choose|j: int| 0 <= j < order.len() && order[j] == a as usize;
            if j < at {
                assert(rest[j] == a as usize);
            } else {
                assert(rest[j - 1] == a as usize);
            }
        }
        lemma_rearranged(front, rest);
        let whole = rearranged(list, order);
        assert(whole.remove(at) =~= rearranged(front, rest));
        assert(list =~= front.push(list[n]));
        assert(whole[at] == list[n]);
        assert(whole.contains(whole[at]));
        assert(whole.to_multiset() =~= whole.remove(at).to_multiset().insert(whole[at]));
    }
}

/// Reading the counters twice shows zeros the second time.
pub proof fn law_metrics_are_read_once(node: NodeModel)
    ensures
        node.metrics_reset().metrics().total_particles_processed == 0,
        node.metrics_reset().metrics().sum_hop_count == 0,
        node.metrics_reset().metrics().halted_particles_count == 0,
        node.metrics_reset().metrics().attention_ops_count == 0,
        node.metrics_reset().metrics().active_subnodes_count == node.metrics().active_subnodes_count,
{
}

/// A node learns from what it predicted: where a token comes after the last one and there is a
/// lesson, the active subnode's three projections and the node's memory become those of the
/// lesson. Without a lesson, or for a token that is no later, they stay as they are.
pub proof fn law_lessons_are_learned(
    node: NodeModel,
    token_id: u32,
    outcome: SubBatchOutcome,
    list: Seq<ParticleModel>,
)
    requires
        node.wf(),
    ensures
        ({
            let before = node.subnodes[node.active_subnode as int];
            let closed = node.closed(token_id, outcome, list);
            let after = closed.subnodes[node.active_subnode as int];
            let later = node.last_token_id matches Some(last) && last < token_id;
            &&& later ==> (outcome.lesson matches Some(lesson) ==> {
                &&& after.w_gate == lesson.weights.gate@
                &&& after.w_up == lesson.weights.up@
                &&& after.w_down == lesson.weights.down@
                &&& closed.fast_weight == lesson.fast_weight@
            })
            &&& !later || outcome.lesson is None ==> {
                &&& after.w_gate == before.w_gate
                &&& after.w_up == before.w_up
                &&& after.w_down == before.w_down
                &&& closed.fast_weight == node.fast_weight
            }
        }),
{
}

/// A sub-batch touches the active subnode only, and of that neither its number, its scale nor
/// its own memories. The other subnodes, their number and which one is active stay.
pub proof fn law_only_the_active_subnode_is_touched(
    node: NodeModel,
    token_id: u32,
    outcome: SubBatchOutcome,
    list: Seq<ParticleModel>,
    i: int,
)
    requires
        node.wf(),
        0 <= i < node.subnodes.len(),
    ensures
        ({
            let closed = node.closed(token_id, outcome, list);
            let before = node.subnodes[i];
            let after = closed.subnodes[i];
            &&& closed.subnodes.len() == node.subnodes.len()
            &&& closed.active_subnode == node.active_subnode
            &&& i != node.active_subnode ==> after == before
            &&& after.subnode_id == before.subnode_id
            &&& after.alpha == before.alpha
            &&& after.cumulative_energy == before.cumulative_energy
            &&& after.last_p_in == before.last_p_in
            &&& after.last_prediction == before.last_prediction
            &&& after.last_token_id == before.last_token_id
            &&& closed.node_id == node.node_id
            &&& closed.config == node.config
            &&& closed.split_count == node.split_count
            &&& closed.cumulative_energy == node.cumulative_energy
            &&& closed.p_in_buf == node.p_in_buf
            &&& closed.use_cuda == node.use_cuda
        }),
{
}

/// Credit makes a subnode healthy: on positive mean credit the active subnode takes the
/// rewarded health, on any other the penalized one. Its statistics take in a mean credit that
/// is a finite number, and no other.
pub proof fn law_credit_decides_health(
    node: NodeModel,
    token_id: u32,
    outcome: SubBatchOutcome,
    list: Seq<ParticleModel>,
)
    requires
        node.wf(),
        node.subnodes[node.active_subnode as int].activation_count + list.len() <= u64::MAX,
    ensures
        ({
            let before = node.subnodes[node.active_subnode as int];
            let after = node.closed(token_id, outcome, list).subnodes[node.active_subnode as int];
            let credit = outcome.mean_credit;
            &&& Scalar::zero().below(credit) ==> after.health == outcome.rewarded
            &&& !Scalar::zero().below(credit) ==> after.health == outcome.penalized
            &&& credit.magnitude() < crate::scalar::INFINITY_BITS ==> {
                &&& after.credit_stats.count == outcome.credit_stats.count
                &&& after.credit_stats.mean == outcome.credit_stats.mean
                &&& after.credit_stats.m2 == outcome.credit_stats.m2
            }
            &&& credit.magnitude() >= crate::scalar::INFINITY_BITS ==> after.credit_stats
                == before.credit_stats
            &&& after.credit_stats.gamma == before.credit_stats.gamma
            &&& after.activation_count == before.activation_count + list.len()
        }),
{
}

/// A node remembers the sub-batch it closed: its mean input, its output as the next prediction
/// and its token. A loss is counted where the token comes after the last one, and only there.
pub proof fn law_closing_sets_the_scene(
    node: NodeModel,
    token_id: u32,
    outcome: SubBatchOutcome,
    list: Seq<ParticleModel>,
)
    requires
        node.wf(),
        node.has_room(list.len() as int),
    ensures
        ({
            let closed = node.closed(token_id, outcome, list);
            let later = node.last_token_id matches Some(last) && last < token_id;
            &&& closed.last_p_in == node.p_in_buf
            &&& closed.last_prediction == outcome.p_out@
            &&& closed.p_out_buf == outcome.p_out@
            &&& closed.last_token_id == Some(token_id)
            &&& later ==> closed.local_loss_accumulator == outcome.local_loss_accumulator
                && closed.local_loss_count == node.local_loss_count + 1
            &&& !later ==> closed.local_loss_accumulator == node.local_loss_accumulator
                && closed.local_loss_count == node.local_loss_count
        }),
{
}

/// Each token is learned from once: a second sub-batch of the same token, or one of an earlier
/// token, changes no projection, no memory and no loss, whatever lesson it carries.
pub proof fn law_no_token_is_learned_twice(
    node: NodeModel,
    first: u32,
    second: u32,
    outcome: SubBatchOutcome,
    list: Seq<ParticleModel>,
    again: SubBatchOutcome,
    more: Seq<ParticleModel>,
)
    requires
        node.wf(),
        second <= first,
    ensures
        ({
            let once = node.closed(first, outcome, list);
            let twice = once.closed(second, again, more);
            let a = once.subnodes[node.active_subnode as int];
            let b = twice.subnodes[node.active_subnode as int];
            &&& twice.fast_weight == once.fast_weight
            &&& b.w_gate == a.w_gate
            &&& b.w_up == a.w_up
            &&& b.w_down == a.w_down
            &&& twice.local_loss_count == once.local_loss_count
            &&& twice.local_loss_accumulator == once.local_loss_accumulator
        }),
{
}

/// What a sub-batch counts: each of its particles once, the hops that they have made by then,
/// and those of them that have settled. The sums of measured values are taken over as they
/// were computed.
pub proof fn law_sub_batch_is_counted(
    node: NodeModel,
    token_id: u32,
    outcome: SubBatchOutcome,
    list: Seq<ParticleModel>,
)
    requires
        node.wf(),
        node.has_room(list.len() as int),
    ensures
        ({
            let closed = node.closed(token_id, outcome, list);
            let n = list.len();
            let settled = list.filter(|p: ParticleModel| p.header.halted).len();
            let hops = crate::model::total(
                list.map_values(|p: ParticleModel| p.header.hop_count as int),
            );
            &&& closed.total_particles_processed == node.total_particles_processed + n
            &&& closed.activation_count == node.activation_count + n
            &&& closed.recent_activation_count == node.recent_activation_count + n
            &&& closed.cumulative_sequence_len == node.cumulative_sequence_len + n
            &&& closed.attention_ops_count == node.attention_ops_count + n
            &&& closed.halted_particles_count == node.halted_particles_count + settled
            &&& closed.sum_hop_count == node.sum_hop_count + hops
            &&& closed.sum_temporal_affinity == outcome.sum_temporal_affinity
            &&& closed.sum_credit_volatility == outcome.sum_credit_volatility
            &&& closed.sum_squared_energy == outcome.sum_squared_energy
            &&& closed.sum_memory_density == outcome.sum_memory_density
        }),
{
    lemma_totals(list);
}

/// The counts of a list: its settled particles, and the sum of its hops.
proof fn lemma_totals(list: Seq<ParticleModel>)
    ensures
        settled_total(list) == list.filter(|p: ParticleModel| p.header.halted).len(),
        hop_total(list) == crate::model::total(
            list.map_values(|p: ParticleModel| p.header.hop_count as int),
        ),
        0 <= settled_total(list) <= list.len(),
        0 <= hop_total(list) <= list.len() * 65535,
    decreases list.len(),
{
    let hop = |p: ParticleModel| p.header.hop_count as int;
    reveal(Seq::filter);
    if list.len() > 0 {
        lemma_totals(list.drop_last());
        assert(list.map_values(hop).drop_last() =~= list.drop_last().map_values(hop));
    }
}

/// What a node does to a particle: it takes the payload, the credit and the energy that were
/// computed for it, and its credit counts from now on. It has settled if it had before, if no
/// energy is left, if it has made all its hops, or if neither this node nor the one before did
/// it any good; else it has not.
pub proof fn law_particle_takes_its_result(p: ParticleModel, result: ParticleResult, max_hop: u16)
    requires
        p.header.hop_count < u16::MAX,
    ensures
        ({
            let after = settled(p, result, max_hop);
            let spent = !Scalar::zero().below(result.remaining);
            let stalled = p.credit_valid && p.credit.at_most(Scalar::zero())
                && result.credit.at_most(Scalar::zero());
            &&& after.payload == result.payload@
            &&& after.credit == result.credit
            &&& after.credit_valid
            &&& after.trace_concentration == p.trace_concentration
            &&& after.header.origin_token_id == p.header.origin_token_id
            &&& after.header.shard_id == p.header.shard_id
            &&& after.header.hop_count == p.header.hop_count + 1
            &&& !spent ==> after.header.energy == result.remaining
            &&& spent ==> after.header.energy == Scalar::zero()
            &&& after.header.halted <==> p.header.halted || spent || p.header.hop_count + 1
                >= max_hop || stalled
        }),
{
}

/// Only the sub-batch is worked on, each of its particles with the result at its place.
pub proof fn law_results_meet_their_particles(
    batch: Seq<ParticleModel>,
    start: int,
    results: Seq<ParticleResult>,
    max_hop: u16,
    i: int,
)
    requires
        0 <= start,
        start + results.len() <= batch.len(),
        0 <= i < batch.len(),
    ensures
        ({
            let after = settled_batch(batch, start, results, max_hop)[i];
            &&& i < start || i >= start + results.len() ==> after == batch[i]
            &&& start <= i < start + results.len() ==> {
                &&& after.payload == results[i - start].payload@
                &&& after.credit == results[i - start].credit
                &&& after.credit_valid
            }
        }),
{
}

/// A sub-batch goes to a subnode that no other outscores, one that is hardly known yet before
/// all that are known. That subnode recovers, and every other one decays.
pub proof fn law_the_best_subnode_is_activated(node: NodeModel, opening: SubBatchOpening, i: int)
    requires
        0 <= i < node.subnodes.len() <= usize::MAX,
        opening.scores@.len() == node.subnodes.len(),
    ensures
        ({
            let opened = node.opened(opening);
            let winner = opened.active_subnode as int;
            let known = |k: int| !node.subnodes[k].credit_stats.count.at_most(Scalar::one());
            &&& 0 <= winner < node.subnodes.len()
            &&& known(winner) && opening.scores@[winner] != Scalar::infinity() ==> known(i)
            &&& known(winner) ==> !opening.scores@[winner].below(opening.scores@[i]) || !known(i)
            &&& known(winner) && i < winner && !opening.scores@[i].not_a_number() ==> known(i)
                && opening.scores@[i].below(opening.scores@[winner])
            &&& !known(winner) && i < winner ==> known(i)
            &&& i == winner ==> opened.subnodes[i].health == opening.recovered@[i]
            &&& i != winner ==> opened.subnodes[i].health == opening.decayed@[i]
        }),
{
    let scores = node.scores(opening.scores@);
    crate::order::law_argmax(scores);
    let winner = argmax(scores);
    assert(scores[i] == node.score(opening.scores@, i));
    assert(scores[winner] == node.score(opening.scores@, winner));
}

/// Beginning a sub-batch takes in its mean payload and its energy. But for their health the
/// subnodes stay as they are, and so does what the node learned and counted.
pub proof fn law_opening_learns_nothing(node: NodeModel, opening: SubBatchOpening, i: int)
    requires
        0 <= i < node.subnodes.len(),
    ensures
        ({
            let opened = node.opened(opening);
            &&& opened.p_in_buf == opening.p_in@
            &&& opened.cumulative_energy == opening.cumulative_energy
            &&& opened.subnodes.len() == node.subnodes.len()
            &&& (SubnodeModel { health: node.subnodes[i].health, ..opened.subnodes[i] })
                == node.subnodes[i]
            &&& (NodeModel {
                p_in_buf: node.p_in_buf,
                cumulative_energy: node.cumulative_energy,
                active_subnode: node.active_subnode,
                subnodes: node.subnodes,
                ..opened
            }) == node
        }),
{
}

/// The subnode that a division adds stands last. Its three projections are those drawn for it,
/// each under its own name; it inherits its parent's scale and credit at the weight of two
/// observations, has the health of a newborn, and remembers nothing.
pub proof fn law_division_adds_the_drawn_child(
    node: NodeModel,
    halved: Scalar,
    weights: SubnodeWeights,
)
    requires
        node.wf(),
        node.subnodes.len() < usize::MAX,
    ensures
        ({
            let parent = node.subnodes[node.active_subnode as int];
            let after = node.divided(halved, weights);
            let child = after.subnodes[node.subnodes.len() as int];
            &&& after.subnodes.len() == node.subnodes.len() + 1
            &&& child.w_gate == weights.gate@
            &&& child.w_up == weights.up@
            &&& child.w_down == weights.down@
            &&& child.subnode_id == node.subnodes.len()
            &&& child.alpha == parent.alpha
            &&& child.credit_stats.count == Scalar::two()
            &&& child.credit_stats.mean == parent.credit_stats.mean
            &&& child.credit_stats.m2 == parent.credit_stats.m2
            &&& child.credit_stats.gamma == parent.credit_stats.gamma
            &&& child.health == node.config.health_base
            &&& child.activation_count == 0
            &&& child.cumulative_energy == Scalar::zero()
            &&& child.last_token_id is None
            &&& child.last_p_in == blank(node.config.d_head as nat)
            &&& child.last_prediction == blank(node.config.d_head as nat)
        }),
{
}

/// Dividing costs the parent half its health and nothing else: it keeps its weights and stays
/// active, the other subnodes stay as they are, and the division is counted.
pub proof fn law_division_halves_the_parent(
    node: NodeModel,
    halved: Scalar,
    weights: SubnodeWeights,
    i: int,
)
    requires
        node.wf(),
        node.split_count < u32::MAX,
        0 <= i < node.subnodes.len(),
    ensures
        ({
            let after = node.divided(halved, weights);
            &&& i != node.active_subnode ==> after.subnodes[i] == node.subnodes[i]
            &&& i == node.active_subnode ==> after.subnodes[i].health == halved && (SubnodeModel {
                health: node.subnodes[i].health,
                ..after.subnodes[i]
            }) == node.subnodes[i]
            &&& after.split_count == node.split_count + 1
            &&& (NodeModel { subnodes: node.subnodes, split_count: node.split_count, ..after })
                == node
        }),
{
}

/// The active subnode divides if there is room, its health lies above the threshold, it has
/// more than one observation and its credit varies; and in no other case.
pub proof fn law_what_division_takes(node: NodeModel, threshold: Scalar, variance: Scalar)
    requires
        node.wf(),
    ensures
        node.divides(threshold, variance) <==> {
            let active = node.subnodes[node.active_subnode as int];
            &&& node.subnodes.len() + 1 <= node.config.subnode_max
            &&& threshold.below(active.health)
            &&& Scalar::one().below(active.credit_stats.count)
            &&& Scalar::zero().below(variance)
        },
{
}

/// Pruning takes the dead and no other: a subnode with positive health stays, with all it has
/// but its number, and those that stay keep their order.
pub proof fn law_pruning_spares_the_living(node: NodeModel, i: int, j: int)
    requires
        0 <= i < j < node.subnodes.len() <= usize::MAX,
        Scalar::zero().below(node.subnodes[i].health),
        Scalar::zero().below(node.subnodes[j].health),
    ensures
        exists|a: int, b: int|
            0 <= a < b < node.pruned().subnodes.len() && (SubnodeModel {
                subnode_id: node.subnodes[i].subnode_id,
                ..(#[trigger] node.pruned().subnodes[a])
            }) == node.subnodes[i] && (SubnodeModel {
                subnode_id: node.subnodes[j].subnode_id,
                ..(#[trigger] node.pruned().subnodes[b])
            }) == node.subnodes[j],
{
    let flags = alive(node.subnodes);
    let keep = chosen(flags);
    crate::order::lemma_chosen(flags);
    assert(flags[i] && flags[j]);
    let a = choose|a: int| 0 <= a < keep.len() && keep[a] == i as usize;
    let b = choose|b: int| 0 <= b < keep.len() && keep[b] == j as usize;
    assert(keep.contains(i as usize) && keep.contains(j as usize));
    if keep.len() == node.subnodes.len() {
        assert(node.pruned().subnodes[i] == node.subnodes[i]);
        assert(node.pruned().subnodes[j] == node.subnodes[j]);
    } else {
        assert(a < b) by {
            if b < a {
                assert(keep[b] < keep[a]);
            }
        }
        assert(node.pruned().subnodes[a].health == node.subnodes[i].health);
        assert(node.pruned().subnodes[b].health == node.subnodes[j].health);
    }
}

/// Whatever pruning leaves was there before: each subnode after it is one of those before it,
/// but for its number and, where all were dead, for its health.
pub proof fn law_pruning_invents_nothing(node: NodeModel, a: int)
    requires
        node.wf(),
        node.subnodes.len() <= usize::MAX,
        0 <= a < node.pruned().subnodes.len(),
    ensures
        exists|i: int|
            0 <= i < node.subnodes.len() && {
                let after = node.pruned().subnodes[a];
                &&& after == (SubnodeModel {
                    subnode_id: after.subnode_id,
                    health: after.health,
                    ..(#[trigger] node.subnodes[i])
                })
                &&& after.health == node.subnodes[i].health || (after.health == Scalar::half()
                    && !Scalar::zero().below(node.subnodes[i].health))
            },
        (NodeModel {
            subnodes: node.subnodes,
            active_subnode: node.active_subnode,
            ..node.pruned()
        }) == node,
{
    let flags = alive(node.subnodes);
    let keep = chosen(flags);
    crate::order::lemma_chosen(flags);
    lemma_fittest_range(node.subnodes);
    let after = node.pruned().subnodes[a];
    if node.subnodes.len() <= 1 || keep.len() == node.subnodes.len() {
        assert(after == node.subnodes[a]);
    } else if keep.len() == 0 {
        let best = fittest(node.subnodes);
        assert(!flags[best]) by {
            if flags[best] {
                assert(keep.contains(best as usize));
            }
        }
        assert(after.w_gate == node.subnodes[best].w_gate);
    } else {
        assert(after.w_gate == node.subnodes[keep[a] as int].w_gate);
    }
}

/// Where all subnodes of several are dead, one is revived at half health: one of the best
/// health among them.
pub proof fn law_the_fittest_is_revived(node: NodeModel, i: int)
    requires
        1 < node.subnodes.len() <= usize::MAX,
        0 <= i < node.subnodes.len(),
        forall|k: int|
            0 <= k < node.subnodes.len() ==> !Scalar::zero().below(
                (#[trigger] node.subnodes[k]).health,
            ) && !node.subnodes[k].health.not_a_number(),
    ensures
        node.pruned().subnodes.len() == 1,
        node.pruned().active_subnode == 0,
        exists|best: int|
            0 <= best < node.subnodes.len() && node.subnodes[i].health.at_most(
                node.subnodes[best].health,
            ) && node.pruned().subnodes[0] == (SubnodeModel {
                subnode_id: 0,
                health: Scalar::half(),
                ..(#[trigger] node.subnodes[best])
            }),
{
    let flags = alive(node.subnodes);
    let keep = chosen(flags);
    crate::order::lemma_chosen(flags);
    if keep.len() > 0 {
        assert(flags[keep[0] as int]);
        assert(!Scalar::zero().below(node.subnodes[keep[0] as int].health));
    }
    lemma_fittest_range(node.subnodes);
    lemma_fittest(node.subnodes, i);
    let best = fittest(node.subnodes);
    crate::order::lemma_first_index(seq![best as usize], node.active_subnode);
    assert(node.pruned().subnodes[0] == (SubnodeModel {
        subnode_id: 0,
        health: Scalar::half(),
        ..node.subnodes[best]
    }));
}

/// No health lies above that of the fittest.
proof fn lemma_fittest(list: Seq<SubnodeModel>, i: int)
    requires
        0 <= i < list.len(),
        forall|k: int| 0 <= k < list.len() ==> !(#[trigger] list[k]).health.not_a_number(),
    ensures
        list[i].health.at_most(list[fittest(list)].health),
    decreases list.len(),
{
    if list.len() > 1 {
        let front = list.drop_last();
        assert forall|k: int| 0 <= k < front.len() implies !(#[trigger] front[k]).health.not_a_number() by {
            assert(front[k] == list[k]);
        }
        lemma_fittest_range(front);
        lemma_fittest(front, 0);
        if i < front.len() {
            lemma_fittest(front, i);
            assert(front[i] == list[i]);
        }
        let best = fittest(front);
        assert(front[best] == list[best]);
        assert(!list[best].health.not_a_number() && !list.last().health.not_a_number());
    }
}

/// The subnode that was active stays active where it survives; where it is dropped, the first
/// one takes over.
pub proof fn law_the_active_subnode_stays_active(node: NodeModel)
    requires
        node.wf(),
        node.subnodes.len() <= usize::MAX,
    ensures
        Scalar::zero().below(node.subnodes[node.active_subnode as int].health) ==> {
            let after = node.pruned().subnodes[node.pruned().active_subnode as int];
            (SubnodeModel {
                subnode_id: node.subnodes[node.active_subnode as int].subnode_id,
                ..after
            }) == node.subnodes[node.active_subnode as int]
        },
        node.subnodes.len() > 1 && !Scalar::zero().below(
            node.subnodes[node.active_subnode as int].health,
        ) ==> node.pruned().active_subnode == 0,
{
    let flags = alive(node.subnodes);
    let keep = chosen(flags);
    crate::order::lemma_chosen(flags);
    crate::order::lemma_first_index(keep, node.active_subnode);
    let best = fittest(node.subnodes);
    crate::order::lemma_first_index(seq![best as usize], node.active_subnode);
    if flags[node.active_subnode as int] {
        assert(keep.contains((node.active_subnode as int) as usize));
    } else if keep.len() > 0 {
        assert(!keep.contains(node.active_subnode)) by {
            if keep.contains(node.active_subnode) {
                let at = choose|at: int| 0 <= at < keep.len() && keep[at] == node.active_subnode;
                assert(flags[keep[at] as int]);
            }
        }
    }
}

/// A batch that moved nothing changes nothing; any other lets the node grow first and then
/// lose its dead, so that a parent that dies of the division is dropped at once.
pub proof fn law_growth_comes_before_death(
    node: NodeModel,
    batch_len: int,
    threshold: Scalar,
    variance: Scalar,
    halved: Scalar,
    weights: SubnodeWeights,
)
    requires
        node.wf(),
        node.subnodes.len() < usize::MAX,
    ensures
        batch_len <= 0 ==> node.ended(batch_len, threshold, variance, halved, weights) == node,
        batch_len > 0 && node.divides(threshold, variance) ==> node.ended(
            batch_len,
            threshold,
            variance,
            halved,
            weights,
        ) == node.divided(halved, weights).pruned(),
        batch_len > 0 && !node.divides(threshold, variance) ==> node.ended(
            batch_len,
            threshold,
            variance,
            halved,
            weights,
        ) == node.pruned(),
{
}

/// Sorting a batch is stable: particles of one token keep their order.
pub proof fn law_sorting_is_stable(list: Seq<ParticleModel>, order: Seq<usize>, i: int, j: int)
    requires
        is_stable_order(token_keys(list), order),
        0 <= i < j < list.len(),
        rearranged(list, order)[i].header.origin_token_id == rearranged(
            list,
            order,
        )[j].header.origin_token_id,
    ensures
        order[i] < order[j],
        rearranged(list, order)[i] == list[order[i] as int],
        rearranged(list, order)[j] == list[order[j] as int],
{
    assert(crate::order::precedes(token_keys(list), order[i], order[j]));
}

/// A sorted batch is cut into one run for each token: every particle lies in a run, two
/// particles lie in the same run exactly where they are of the same token.
pub proof fn law_one_run_per_token(
    list: Seq<ParticleModel>,
    runs: Seq<(usize, usize)>,
    i: int,
    j: int,
)
    requires
        are_token_runs(list, runs),
        0 <= i <= j < list.len(),
        forall|a: int, b: int|
            0 <= a < b < list.len() ==> (#[trigger] list[a]).header.origin_token_id <= (
            #[trigger] list[b]).header.origin_token_id,
    ensures
        exists|r: int| 0 <= r < runs.len() && (#[trigger] runs[r]).0 <= i < runs[r].1,
        list[i].header.origin_token_id == list[j].header.origin_token_id <==> exists|r: int|
            0 <= r < runs.len() && (#[trigger] runs[r]).0 <= i <= j < runs[r].1,
{
    let r = lemma_run_of(list, runs, i, runs.len() as int);
    let s = lemma_run_of(list, runs, j, runs.len() as int);
    assert(list[i].header.origin_token_id == list[runs[r].0 as int].header.origin_token_id);
    assert(list[j].header.origin_token_id == list[runs[s].0 as int].header.origin_token_id);
    if list[i].header.origin_token_id == list[j].header.origin_token_id && r != s {
        if s < r {
            lemma_runs_rise(list, runs, s, r);
        } else {
            lemma_runs_rise(list, runs, r, s);
            let start = runs[s].0 as int;
            assert(list[start].header.origin_token_id != list[start - 1].header.origin_token_id);
            assert(list[i].header.origin_token_id <= list[start - 1].header.origin_token_id) by {
                if i < start - 1 {
                    assert(list[i].header.origin_token_id <= list[start - 1].header.origin_token_id);
                }
            }
            assert(list[start - 1].header.origin_token_id <= list[start].header.origin_token_id);
        }
    }
    if exists|q: int| 0 <= q < runs.len() && (#[trigger] runs[q]).0 <= i <= j < runs[q].1 {
        let q = choose|q: int| 0 <= q < runs.len() && (#[trigger] runs[q]).0 <= i <= j < runs[q].1;
        assert(list[i].header.origin_token_id == list[runs[q].0 as int].header.origin_token_id);
        assert(list[j].header.origin_token_id == list[runs[q].0 as int].header.origin_token_id);
    }
}

/// The run of a particle, among the first `n` where they reach that far.
proof fn lemma_run_of(
    list: Seq<ParticleModel>,
    runs: Seq<(usize, usize)>,
    i: int,
    n: int,
) -> (r: int)
    requires
        are_token_runs(list, runs),
        0 <= i < reach(runs, n),
        0 <= n <= runs.len(),
    ensures
        0 <= r < n,
        runs[r].0 <= i < runs[r].1,
    decreases n,
{
    assert(runs[n - 1].0 < runs[n - 1].1);
    if runs[n - 1].0 <= i {
        n - 1
    } else {
        assert(n > 1);
        assert(runs[n - 1].0 == runs[n - 2].1);
        lemma_run_of(list, runs, i, n - 1)
    }
}

/// A later run begins no earlier than an earlier one ends.
proof fn lemma_runs_rise(list: Seq<ParticleModel>, runs: Seq<(usize, usize)>, r: int, s: int)
    requires
        are_token_runs(list, runs),
        0 <= r < s < runs.len(),
    ensures
        runs[r].1 <= runs[s].0,
    decreases s - r,
{
    assert(runs[s].0 == runs[s - 1].1);
    if r < s - 1 {
        lemma_runs_rise(list, runs, r, s - 1);
        assert(runs[s - 1].0 < runs[s - 1].1);
    }
}

/// Reading the counters shows what was counted, and leaves all else of the node as it was.
pub proof fn law_metrics_show_the_counters(node: NodeModel)
    requires
        node.subnodes.len() <= u64::MAX,
    ensures
        ({
            let m = node.metrics();
            &&& m.sum_hop_count == node.sum_hop_count
            &&& m.halted_particles_count == node.halted_particles_count
            &&& m.sum_squared_energy == node.sum_squared_energy
            &&& m.total_particles_processed == node.total_particles_processed
            &&& m.sum_memory_density == node.sum_memory_density
            &&& m.attention_ops_count == node.attention_ops_count
            &&& m.sum_credit_volatility == node.sum_credit_volatility
            &&& m.sum_temporal_affinity == node.sum_temporal_affinity
            &&& m.active_subnodes_count == node.subnodes.len()
        }),
        ({
            let again = node.metrics_reset().metrics();
            &&& again.sum_squared_energy == Scalar::zero()
            &&& again.sum_memory_density == Scalar::zero()
            &&& again.sum_credit_volatility == Scalar::zero()
            &&& again.sum_temporal_affinity == Scalar::zero()
        }),
        (NodeModel {
            sum_hop_count: node.sum_hop_count,
            halted_particles_count: node.halted_particles_count,
            sum_squared_energy: node.sum_squared_energy,
            total_particles_processed: node.total_particles_processed,
            sum_memory_density: node.sum_memory_density,
            attention_ops_count: node.attention_ops_count,
            sum_credit_volatility: node.sum_credit_volatility,
            sum_temporal_affinity: node.sum_temporal_affinity,
            ..node.metrics_reset()
        }) == node,
{
}

/// A fresh node has one subnode, which is active, the memory drawn for it, and has neither
/// taken in nor counted anything.
pub proof fn law_a_fresh_node_is_blank(
    node_id: usize,
    config: MicroBlockConfig,
    use_cuda: bool,
    primary: SubnodeModel,
    fast_weight: Seq<Scalar>,
)
    ensures
        ({
            let node = NodeModel::fresh(node_id, config, use_cuda, primary, fast_weight);
            &&& node.node_id == node_id
            &&& node.config == config
            &&& node.use_cuda == use_cuda
            &&& node.subnodes.len() == 1
            &&& node.subnodes[0] == primary
            &&& node.active_subnode == 0
            &&& node.fast_weight == fast_weight
            &&& node.cumulative_energy == Scalar::zero()
            &&& node.split_count == 0
            &&& node.activation_count == 0
            &&& node.cumulative_sequence_len == 0
            &&& node.last_token_id is None
            &&& node.last_p_in == blank(config.d_head as nat)
            &&& node.last_prediction == blank(config.d_head as nat)
            &&& node.metrics_reset() == node
            &&& node.state_reset() == node
        }),
{
    let node = NodeModel::fresh(node_id, config, use_cuda, primary, fast_weight);
    assert(node.state_reset() =~= node);
}

/// A node is known by all its fields, and each of its subnodes by all of its own.
pub proof fn law_a_node_is_its_fields(n: MicroBlockNode, i: int)
    requires
        0 <= i,
    ensures
        n@.node_id == n.node_id,
        n@.config == n.config,
        n@.subnodes.len() == n.subnodes@.len(),
        i < n.subnodes@.len() ==> n@.subnodes[i] == n.subnodes@[i]@,
        n@.split_count == n.split_count,
        n@.fast_weight == n.fast_weight@,
        n@.cumulative_energy == n.cumulative_energy,
        n@.last_p_in == n.last_p_in@,
        n@.last_prediction == n.last_prediction@,
        n@.last_token_id == n.last_token_id,
        n@.cumulative_sequence_len == n.cumulative_sequence_len,
        n@.activation_count == n.activation_count,
        n@.local_loss_accumulator == n.local_loss_accumulator,
        n@.local_loss_count == n.local_loss_count,
        n@.recent_activation_count == n.recent_activation_count,
        n@.p_in_buf == n.p_in_buf@,
        n@.p_out_buf == n.p_out_buf@,
        n@.use_cuda == n.use_cuda,
        n@.active_subnode == n.active_subnode,
        n@.sum_hop_count == n.sum_hop_count,
        n@.halted_particles_count == n.halted_particles_count,
        n@.sum_squared_energy == n.sum_squared_energy,
        n@.total_particles_processed == n.total_particles_processed,
        n@.sum_memory_density == n.sum_memory_density,
        n@.attention_ops_count == n.attention_ops_count,
        n@.sum_credit_volatility == n.sum_credit_volatility,
        n@.sum_temporal_affinity == n.sum_temporal_affinity,
{
}

} // verus!
