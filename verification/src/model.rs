//! The network: its nodes, its mesh and the way in.
use crate::config::MicroBlockConfig;
use crate::mesh::{ceil_root, degree, fresh_table, TopologyGrid};
use crate::metrics::OnlineStats;
use crate::micro_block::{MicroBlockNode, NodeMetrics, NodeModel};
use crate::order::{is_stable_order, stable_order};
use crate::scalar::{copy_scalars, Scalar};
use crate::scattering::{ingress_nodes, TokenScattering};
use crate::subnode::{SubnodeModel, SubnodeWeights};
use vstd::prelude::*;

verus! {

/// A network.
#[derive(Debug)]
pub struct ANNPModel {
    pub config: MicroBlockConfig,
    pub num_nodes: usize,
    pub scattering: TokenScattering,
    pub nodes: Vec<MicroBlockNode>,
    pub topology: TopologyGrid,
    pub is_training: bool,
}

/// What is drawn for one node.
#[derive(Debug)]
pub struct NodeInit {
    pub weights: SubnodeWeights,
    pub fast_weight: Vec<Scalar>,
}

/// What is drawn and computed for a network.
#[derive(Debug)]
pub struct ModelInit {
    /// Number of shards times the ingress ratio, rounded up.
    pub num_ingress: usize,
    /// Weights of each node's links.
    pub link_weights: Vec<Vec<Scalar>>,
    pub nodes: Vec<NodeInit>,
    /// Scale of the residual connections.
    pub alpha_init: Scalar,
    /// Factor by which observed credit fades.
    pub gamma: Scalar,
}

/// The nodes of a list, as values.
pub open spec fn node_models(list: Seq<MicroBlockNode>) -> Seq<NodeModel> {
    list.map_values(|n: MicroBlockNode| n@)
}

/// Sum of a list.
pub open spec fn total(values: Seq<int>) -> int
    decreases values.len(),
{
    if values.len() == 0 {
        0
    } else {
        total(values.drop_last()) + values.last()
    }
}

/// Hops counted by each node.
pub open spec fn hop_counts(list: Seq<NodeModel>) -> Seq<int> {
    list.map_values(|n: NodeModel| n.sum_hop_count as int)
}

/// Settled particles counted by each node.
pub open spec fn halted_counts(list: Seq<NodeModel>) -> Seq<int> {
    list.map_values(|n: NodeModel| n.halted_particles_count as int)
}

/// Particles counted by each node.
pub open spec fn particle_counts(list: Seq<NodeModel>) -> Seq<int> {
    list.map_values(|n: NodeModel| n.total_particles_processed as int)
}

/// Memory readings counted by each node.
pub open spec fn attention_counts(list: Seq<NodeModel>) -> Seq<int> {
    list.map_values(|n: NodeModel| n.attention_ops_count as int)
}

/// Subnodes of each node.
pub open spec fn subnode_counts(list: Seq<NodeModel>) -> Seq<int> {
    list.map_values(|n: NodeModel| n.subnodes.len() as int)
}

/// Activations of each node.
pub open spec fn activation_counts(list: Seq<NodeModel>) -> Seq<int> {
    list.map_values(|n: NodeModel| n.activation_count as int)
}

/// Losses counted by each node.
pub open spec fn loss_counts(list: Seq<NodeModel>) -> Seq<int> {
    list.map_values(|n: NodeModel| n.local_loss_count as int)
}

/// What all nodes counted together since the last reading.
#[derive(Debug)]
pub struct BatchTotals {
    pub total_hops: u64,
    pub total_halted: u64,
    pub total_particles: u64,
    pub total_attention_ops: u64,
    pub total_subnodes: u64,
    /// Particles per node, in rising order.
    pub utilization: Vec<u64>,
    /// What each node counted.
    pub nodes: Vec<NodeMetrics>,
}

proof fn lemma_total_grows(values: Seq<int>, a: int, b: int)
    requires
        0 <= a <= b <= values.len(),
        forall|i: int| 0 <= i < values.len() ==> 0 <= #[trigger] values[i],
    ensures
        0 <= total(values.take(a)) <= total(values.take(b)),
    decreases b,
{
    if a < b {
        assert(values.take(b).drop_last() =~= values.take(b - 1));
        lemma_total_grows(values, a, b - 1);
    } else if b > 0 {
        assert(values.take(b).drop_last() =~= values.take(b - 1));
        lemma_total_grows(values, a - 1, b - 1);
    }
}

/// One more value adds to the total, which never sinks.
pub proof fn lemma_total_step(values: Seq<int>, i: int)
    requires
        0 <= i < values.len(),
        forall|k: int| 0 <= k < values.len() ==> 0 <= #[trigger] values[k],
    ensures
        total(values.take(i + 1)) == total(values.take(i)) + values[i],
        0 <= total(values.take(i + 1)) <= total(values),
{
    assert(values.take(i + 1).drop_last() =~= values.take(i));
    lemma_total_grows(values, i + 1, values.len() as int);
    assert(values.take(values.len() as int) =~= values);
}

impl ANNPModel {
    /// A network of `num_nodes` nodes, from what was drawn for it.
    pub fn new_with_cuda(
        num_nodes: usize,
        num_shards: usize,
        config: MicroBlockConfig,
        use_cuda: bool,
        init: &ModelInit,
    ) -> (r: Self)
        requires
            num_shards > 0,
            config.d_head * config.ffn_expansion <= usize::MAX,
            ceil_root(num_nodes as nat) * num_nodes + num_nodes <= usize::MAX,
            2 * num_nodes <= usize::MAX,
            init.link_weights@.len() == num_nodes,
            forall|i: int|
                0 <= i < num_nodes ==> (#[trigger] init.link_weights@[i])@.len() == config.d_head
                    * degree(num_nodes as int, config.k_neighbors as int),
            init.nodes@.len() == num_nodes,
            forall|i: int|
                0 <= i < num_nodes ==> (#[trigger] init.nodes@[i]).weights.sized(
                    config.d_head * (config.d_head * config.ffn_expansion),
                ) && init.nodes@[i].fast_weight@.len() == config.d_head * config.d_head,
        ensures
            r.config == config,
            r.num_nodes == num_nodes,
            r.is_training,
            r.scattering.num_shards == num_shards,
            r.scattering.d_head == config.d_head,
            r.scattering.ingress_node_indices@ == ingress_nodes(
                num_shards as int,
                init.num_ingress as int,
            ),
            r.topology.num_nodes == num_nodes,
            r.topology.routing_tables@.len() == num_nodes,
            forall|i: int|
                0 <= i < num_nodes ==> (#[trigger] r.topology.routing_tables@[i])@ == fresh_table(
                    i,
                    num_nodes as int,
                    config.d_head,
                    config.k_neighbors as nat,
                    ceil_root(num_nodes as nat) as int,
                    init.link_weights@[i]@,
                ) && r.topology.routing_tables@[i]@.wf(),
            r.nodes@.len() == num_nodes,
            forall|i: int|
                0 <= i < num_nodes ==> (#[trigger] r.nodes@[i])@ == NodeModel::fresh(
                    i as usize,
                    config,
                    use_cuda,
                    SubnodeModel::newborn(
                        0,
                        config.d_head,
                        init.nodes@[i].weights,
                        init.alpha_init,
                        OnlineStats::empty(init.gamma),
                        Scalar::one(),
                    ),
                    init.nodes@[i].fast_weight@,
                ) && r.nodes@[i]@.wf(),
    {
        let scattering: TokenScattering = TokenScattering::new(
            num_shards,
            config.d_head,
            init.num_ingress,
        );
        let topology: TopologyGrid = TopologyGrid::new(
            num_nodes,
            config.d_head,
            config.k_neighbors,
            &init.link_weights,
        );
        let mut nodes: Vec<MicroBlockNode> = Vec::new();
        let mut i: usize = 0;
        while i < num_nodes
            invariant
                i <= num_nodes,
                config.d_head * config.ffn_expansion <= usize::MAX,
                init.nodes@.len() == num_nodes,
                forall|i: int|
                    0 <= i < num_nodes ==> (#[trigger] init.nodes@[i]).weights.sized(
                        config.d_head * (config.d_head * config.ffn_expansion),
                    ) && init.nodes@[i].fast_weight@.len() == config.d_head * config.d_head,
                nodes@.len() == i,
                forall|j: int|
                    0 <= j < i ==> (#[trigger] nodes@[j])@ == NodeModel::fresh(
                        j as usize,
                        config,
                        use_cuda,
                        SubnodeModel::newborn(
                            0,
                            config.d_head,
                            init.nodes@[j].weights,
                            init.alpha_init,
                            OnlineStats::empty(init.gamma),
                            Scalar::one(),
                        ),
                        init.nodes@[j].fast_weight@,
                    ) && nodes@[j]@.wf(),
            decreases num_nodes - i,
        {
            let drawn: &NodeInit = &init.nodes[i];
            let weights: SubnodeWeights = SubnodeWeights {
                gate: copy_scalars(&drawn.weights.gate),
                up: copy_scalars(&drawn.weights.up),
                down: copy_scalars(&drawn.weights.down),
            };
            nodes.push(
                MicroBlockNode::new(
                    i,
                    config,
                    use_cuda,
                    weights,
                    copy_scalars(&drawn.fast_weight),
                    init.alpha_init,
                    init.gamma,
                ),
            );
            i += 1;
        }
        ANNPModel { config, num_nodes, scattering, nodes, topology, is_training: true }
    }

    /// Forgets what the nodes were doing, not what they learned.
    pub fn reset_state(&mut self)
        ensures
            final(self).nodes@.len() == old(self).nodes@.len(),
            forall|i: int|
                0 <= i < old(self).nodes@.len() ==> (#[trigger] final(self).nodes@[i])@ == old(
                    self,
                ).nodes@[i]@.state_reset(),
            final(self).config == old(self).config,
            final(self).num_nodes == old(self).num_nodes,
            final(self).scattering == old(self).scattering,
            final(self).topology == old(self).topology,
            final(self).is_training == old(self).is_training,
    {
        let ghost before = self.nodes@;
        let mut i: usize = 0;
        while i < self.nodes.len()
            invariant
                i <= self.nodes.len(),
                self.nodes@.len() == before.len(),
                forall|k: int|
                    0 <= k < before.len() ==> (#[trigger] self.nodes@[k])@ == if k < i {
                        before[k]@.state_reset()
                    } else {
                        before[k]@
                    },
                self.config == old(self).config,
                self.num_nodes == old(self).num_nodes,
                self.scattering == old(self).scattering,
                self.topology == old(self).topology,
                self.is_training == old(self).is_training,
            decreases self.nodes.len() - i,
        {
            self.nodes[i].reset_state();
            i += 1;
        }
    }

    /// Losses counted by all nodes together.
    pub fn loss_count(&self) -> (r: usize)
        requires
            total(loss_counts(node_models(self.nodes@))) <= usize::MAX,
        ensures
            r == total(loss_counts(node_models(self.nodes@))),
    {
        let ghost counts = loss_counts(node_models(self.nodes@));
        let mut sum: usize = 0;
        let mut i: usize = 0;
        assert(counts.take(0) =~= Seq::empty());
        while i < self.nodes.len()
            invariant
                i <= self.nodes.len(),
                counts == loss_counts(node_models(self.nodes@)),
                total(counts) <= usize::MAX,
                sum == total(counts.take(i as int)),
            decreases self.nodes.len() - i,
        {
            proof {
                lemma_total_step(counts, i as int);
            }
            sum += self.nodes[i].local_loss_count;
            i += 1;
        }
        assert(counts.take(i as int) =~= counts);
        sum
    }

    /// Activations of all nodes together.
    pub fn total_activations(&self) -> (r: u64)
        requires
            total(activation_counts(node_models(self.nodes@))) <= u64::MAX,
        ensures
            r == total(activation_counts(node_models(self.nodes@))),
    {
        let ghost list = node_models(self.nodes@);
        let mut r: u64 = 0;
        let mut i: usize = 0;
        assert(activation_counts(list).take(0) =~= Seq::empty());
        while i < self.nodes.len()
            invariant
                i <= self.nodes.len(),
                list == node_models(self.nodes@),
                total(activation_counts(list)) <= u64::MAX,
                r == total(activation_counts(list).take(i as int)),
            decreases self.nodes.len() - i,
        {
            proof {
                lemma_total_step(activation_counts(list), i as int);
            }
            assert(list[i as int] == self.nodes@[i as int]@);
            r = r + self.nodes[i].activation_count;
            i += 1;
        }
        assert(activation_counts(list).take(i as int) =~= activation_counts(list));
        r
    }

    /// Reads the counters of all nodes and sets them to zero.
    pub fn extract_batch_metrics(&mut self) -> (r: BatchTotals)
        requires
            total(hop_counts(node_models(old(self).nodes@))) <= u64::MAX,
            total(halted_counts(node_models(old(self).nodes@))) <= u64::MAX,
            total(particle_counts(node_models(old(self).nodes@))) <= u64::MAX,
            total(attention_counts(node_models(old(self).nodes@))) <= u64::MAX,
            total(subnode_counts(node_models(old(self).nodes@))) <= u64::MAX,
        ensures
            r.total_hops == total(hop_counts(node_models(old(self).nodes@))),
            r.total_halted == total(halted_counts(node_models(old(self).nodes@))),
            r.total_particles == total(particle_counts(node_models(old(self).nodes@))),
            r.total_attention_ops == total(attention_counts(node_models(old(self).nodes@))),
            r.total_subnodes == total(subnode_counts(node_models(old(self).nodes@))),
            r.nodes@ == node_models(old(self).nodes@).map_values(|n: NodeModel| n.metrics()),
            r.utilization@ == ranked(
                node_models(old(self).nodes@),
                crate::order::sorted_order(utilization_keys(node_models(old(self).nodes@))),
            ),
            node_models(final(self).nodes@) == node_models(old(self).nodes@).map_values(
                |n: NodeModel| n.metrics_reset(),
            ),
            final(self).config == old(self).config,
            final(self).num_nodes == old(self).num_nodes,
            final(self).scattering == old(self).scattering,
            final(self).topology == old(self).topology,
            final(self).is_training == old(self).is_training,
    {
        let ghost before = node_models(self.nodes@);
        let n: usize = self.nodes.len();
        let mut totals = BatchTotals {
            total_hops: 0,
            total_halted: 0,
            total_particles: 0,
            total_attention_ops: 0,
            total_subnodes: 0,
            utilization: Vec::with_capacity(n),
            nodes: Vec::with_capacity(n),
        };
        let mut keys: Vec<i128> = Vec::with_capacity(n);
        let mut i: usize = 0;
        assert(hop_counts(before).take(0) =~= Seq::empty());
        assert(halted_counts(before).take(0) =~= Seq::empty());
        assert(particle_counts(before).take(0) =~= Seq::empty());
        assert(attention_counts(before).take(0) =~= Seq::empty());
        assert(subnode_counts(before).take(0) =~= Seq::empty());
        while i < n
            invariant
                i <= n,
                n == before.len(),
                self.nodes@.len() == n,
                before.len() == n,
                forall|k: int|
                    0 <= k < n ==> (#[trigger] self.nodes@[k])@ == if k < i {
                        before[k].metrics_reset()
                    } else {
                        before[k]
                    },
                total(hop_counts(before)) <= u64::MAX,
                total(halted_counts(before)) <= u64::MAX,
                total(particle_counts(before)) <= u64::MAX,
                total(attention_counts(before)) <= u64::MAX,
                total(subnode_counts(before)) <= u64::MAX,
                totals.total_hops == total(hop_counts(before).take(i as int)),
                totals.total_halted == total(halted_counts(before).take(i as int)),
                totals.total_particles == total(particle_counts(before).take(i as int)),
                totals.total_attention_ops == total(attention_counts(before).take(i as int)),
                totals.total_subnodes == total(subnode_counts(before).take(i as int)),
                totals.nodes@ == before.map_values(|n: NodeModel| n.metrics()).take(i as int),
                totals.utilization@.len() == 0,
                keys@ == utilization_keys(before).take(i as int),
                self.config == old(self).config,
                self.num_nodes == old(self).num_nodes,
                self.scattering == old(self).scattering,
                self.topology == old(self).topology,
                self.is_training == old(self).is_training,
            decreases n - i,
        {
            proof {
                lemma_total_step(hop_counts(before), i as int);
                lemma_total_step(halted_counts(before), i as int);
                lemma_total_step(particle_counts(before), i as int);
                lemma_total_step(attention_counts(before), i as int);
                lemma_total_step(subnode_counts(before), i as int);
            }
            assert(self.nodes@[i as int]@ == before[i as int]);
            assert(self.nodes@[i as int].subnodes@.len() <= usize::MAX) by {
                let subnodes = self.nodes@[i as int].subnodes;
                assert(subnodes.len() == subnodes@.len());
            }
            let metrics: NodeMetrics = self.nodes[i].extract_and_reset_metrics();
            totals.total_hops = totals.total_hops + metrics.sum_hop_count;
            totals.total_halted = totals.total_halted + metrics.halted_particles_count;
            totals.total_particles = totals.total_particles + metrics.total_particles_processed;
            totals.total_attention_ops = totals.total_attention_ops + metrics.attention_ops_count;
            totals.total_subnodes = totals.total_subnodes + metrics.active_subnodes_count;
            totals.nodes.push(metrics);
            keys.push(metrics.total_particles_processed as i128);
            i += 1;
            assert(totals.nodes@ =~= before.map_values(|n: NodeModel| n.metrics()).take(i as int));
            assert(keys@ =~= utilization_keys(before).take(i as int));
        }
        assert(hop_counts(before).take(n as int) =~= hop_counts(before));
        assert(halted_counts(before).take(n as int) =~= halted_counts(before));
        assert(particle_counts(before).take(n as int) =~= particle_counts(before));
        assert(attention_counts(before).take(n as int) =~= attention_counts(before));
        assert(subnode_counts(before).take(n as int) =~= subnode_counts(before));
        assert(totals.nodes@ =~= before.map_values(|n: NodeModel| n.metrics()));
        assert(keys@ =~= utilization_keys(before));
        let order: Vec<usize> = stable_order(&keys);
        let mut utilization: Vec<u64> = Vec::with_capacity(n);
        i = 0;
        while i < n
            invariant
                i <= n,
                n == before.len(),
                totals.nodes@ == before.map_values(|n: NodeModel| n.metrics()),
                is_stable_order(utilization_keys(before), order@),
                utilization@ == ranked(before, order@).take(i as int),
            decreases n - i,
        {
            assert(order@[i as int] < n);
            utilization.push(totals.nodes[order[i]].total_particles_processed);
            i += 1;
            assert(utilization@ =~= ranked(before, order@).take(i as int));
        }
        assert(utilization@ =~= ranked(before, order@));
        totals.utilization = utilization;
        assert(node_models(self.nodes@) =~= before.map_values(|n: NodeModel| n.metrics_reset()));
        totals
    }
}

/// Particles per node, as a key to sort by.
pub open spec fn utilization_keys(list: Seq<NodeModel>) -> Seq<i128> {
    list.map_values(|n: NodeModel| n.total_particles_processed as i128)
}

/// Particles per node in the given order.
pub open spec fn ranked(list: Seq<NodeModel>, order: Seq<usize>) -> Seq<u64> {
    Seq::new(order.len(), |i: int| list[order[i] as int].total_particles_processed)
}

/// Particles per node come out in rising order.
pub proof fn law_utilization_rises(list: Seq<NodeModel>, order: Seq<usize>, i: int, j: int)
    requires
        is_stable_order(utilization_keys(list), order),
        0 <= i <= j < list.len(),
    ensures
        ranked(list, order)[i] <= ranked(list, order)[j],
{
    if i < j {
        assert(crate::order::precedes(utilization_keys(list), order[i], order[j]));
    }
}

/// Between two sequences a node keeps what it learned: subnodes, memory, counts of its
/// life.
pub proof fn law_reset_keeps_learning(node: NodeModel)
    ensures
        node.state_reset().subnodes == node.subnodes,
        node.state_reset().fast_weight == node.fast_weight,
        node.state_reset().cumulative_energy == node.cumulative_energy,
        node.state_reset().activation_count == node.activation_count,
        node.state_reset().cumulative_sequence_len == node.cumulative_sequence_len,
        node.state_reset().split_count == node.split_count,
{
}

/// After a reset no token is too late to learn from: the next one only sets the scene.
pub proof fn law_reset_forgets_tokens(node: NodeModel, token_id: u32)
    ensures
        node.state_reset().elapsed(token_id) is None,
{
}

/// A reset leaves an empty scene: no values met or predicted, no token, no loss and no recent
/// activation. The buffers keep their lengths, and everything else is as it was.
pub proof fn law_a_reset_empties_the_scene(node: NodeModel, i: int)
    requires
        0 <= i,
    ensures
        ({
            let after = node.state_reset();
            &&& after.last_p_in.len() == node.last_p_in.len()
            &&& after.last_prediction.len() == node.last_prediction.len()
            &&& i < node.last_p_in.len() ==> after.last_p_in[i].units() == 0
            &&& i < node.last_prediction.len() ==> after.last_prediction[i].units() == 0
            &&& after.last_token_id is None
            &&& after.recent_activation_count == 0
            &&& after.local_loss_accumulator.units() == 0
            &&& after.local_loss_count == 0
            &&& (NodeModel {
                last_p_in: node.last_p_in,
                last_prediction: node.last_prediction,
                last_token_id: node.last_token_id,
                recent_activation_count: node.recent_activation_count,
                local_loss_accumulator: node.local_loss_accumulator,
                local_loss_count: node.local_loss_count,
                ..after
            }) == node
        }),
{
}

/// What all nodes counted is the sum of what each counted: one node more adds what it counted
/// itself, and two groups together count what both count.
pub proof fn law_counts_add_up(list: Seq<NodeModel>, node: NodeModel, a: Seq<int>, b: Seq<int>)
    ensures
        total(Seq::empty()) == 0,
        total(a + b) == total(a) + total(b),
        total(hop_counts(list.push(node))) == total(hop_counts(list)) + node.sum_hop_count,
        total(halted_counts(list.push(node))) == total(halted_counts(list))
            + node.halted_particles_count,
        total(particle_counts(list.push(node))) == total(particle_counts(list))
            + node.total_particles_processed,
        total(attention_counts(list.push(node))) == total(attention_counts(list))
            + node.attention_ops_count,
        total(subnode_counts(list.push(node))) == total(subnode_counts(list)) + node.subnodes.len(),
        total(activation_counts(list.push(node))) == total(activation_counts(list))
            + node.activation_count,
        total(loss_counts(list.push(node))) == total(loss_counts(list)) + node.local_loss_count,
    decreases b.len(),
{
    let more = list.push(node);
    assert(hop_counts(more).drop_last() =~= hop_counts(list));
    assert(halted_counts(more).drop_last() =~= halted_counts(list));
    assert(particle_counts(more).drop_last() =~= particle_counts(list));
    assert(attention_counts(more).drop_last() =~= attention_counts(list));
    assert(subnode_counts(more).drop_last() =~= subnode_counts(list));
    assert(activation_counts(more).drop_last() =~= activation_counts(list));
    assert(loss_counts(more).drop_last() =~= loss_counts(list));
    if b.len() > 0 {
        law_counts_add_up(list, node, a, b.drop_last());
        assert((a + b).drop_last() =~= a + b.drop_last());
    } else {
        assert(a + b =~= a);
    }
}

/// The particles of every node stand somewhere in the ranking, and the ranking has a place for
/// each node.
pub proof fn law_every_node_is_ranked(list: Seq<NodeModel>, order: Seq<usize>, i: int)
    requires
        is_stable_order(utilization_keys(list), order),
        0 <= i < list.len() <= usize::MAX,
    ensures
        ranked(list, order).len() == list.len(),
        ranked(list, order).contains(list[i].total_particles_processed),
{
    let keys = utilization_keys(list);
    crate::order::lemma_order_covers(keys, order);
    assert(order.contains(i as usize));
    let k = order.index_of(i as usize);
    assert(ranked(list, order)[k] == list[i].total_particles_processed);
}


} // verus!
