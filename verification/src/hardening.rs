//! Hardening: nodes settle into their habits, and busy ones grow.
use crate::config::{law_thresholds_rise, risen_threshold};
use crate::mesh::{links, routing_models};
use crate::micro_block::NodeModel;
use crate::model::ANNPModel;
use crate::scalar::Scalar;
use crate::subnode::{SubnodeModel, SubnodeWeights};
use vstd::prelude::*;

verus! {

/// What a hardening pass did.
#[derive(Debug)]
pub struct HardeningResult {
    /// Links before the pass.
    pub links_before: usize,
    /// Links that were cut.
    pub links_pruned: usize,
    /// Nodes that grew, with their subnodes before and after.
    pub spawn_details: Vec<(usize, usize, usize)>,
}

/// What is computed for one node.
#[derive(Debug)]
pub struct NodeHardening {
    /// Scale that the node's first subnode takes.
    pub alpha: Scalar,
    /// Activations that the node needs to grow.
    pub needed: u64,
    /// Half the health of its active subnode.
    pub halved: Scalar,
    /// Weights of that subnode's child.
    pub weights: SubnodeWeights,
}

/// The node with the scale of its first subnode replaced.
pub open spec fn rescaled(node: NodeModel, alpha: Scalar) -> NodeModel {
    if node.subnodes.len() > 0 {
        NodeModel {
            subnodes: node.subnodes.update(0, SubnodeModel { alpha, ..node.subnodes[0] }),
            ..node
        }
    } else {
        node
    }
}

/// Whether a node grows: there is room for a subnode, and it was activated often enough.
pub open spec fn grows(node: NodeModel, needed: u64) -> bool {
    node.subnodes.len() < node.config.subnode_max && node.activation_count >= needed
}

/// The node after the pass. Where it grows, its activations are counted anew.
pub open spec fn hardened(node: NodeModel, h: NodeHardening) -> NodeModel {
    let scaled = rescaled(node, h.alpha);
    if grows(scaled, h.needed) {
        NodeModel { activation_count: 0, ..scaled.divided(h.halved, h.weights) }
    } else {
        scaled
    }
}

/// Which of the first `n` nodes grew.
pub open spec fn grown(nodes: Seq<NodeModel>, plan: Seq<NodeHardening>, n: int) -> Seq<
    (usize, usize, usize),
>
    decreases n,
{
    if n <= 0 {
        Seq::empty()
    } else {
        let front = grown(nodes, plan, n - 1);
        let scaled = rescaled(nodes[n - 1], plan[n - 1].alpha);
        if grows(scaled, plan[n - 1].needed) {
            front.push(
                (
                    (n - 1) as usize,
                    scaled.subnodes.len() as usize,
                    (scaled.subnodes.len() + 1) as usize,
                ),
            )
        } else {
            front
        }
    }
}

/// Whether the child that a node may get fits it.
pub open spec fn child_fits(node: NodeModel, h: NodeHardening) -> bool {
    let scaled = rescaled(node, h.alpha);
    grows(scaled, h.needed) ==> node.split_count < u32::MAX && scaled.child_fits(h.weights)
}

/// Takes a hardening pass over all nodes: the first subnode of each takes its new scale, and
/// the active one divides where the node was activated often enough. No link is cut.
pub fn apply_plastic_hardening(model: &mut ANNPModel, plan: Vec<NodeHardening>) -> (r: HardeningResult)
    requires
        plan@.len() == old(model).nodes@.len(),
        links(
            routing_models(old(model).topology.routing_tables@),
            old(model).topology.routing_tables@.len() as int,
        ) <= usize::MAX,
        forall|i: int|
            0 <= i < old(model).nodes@.len() ==> (#[trigger] old(model).nodes@[i])@.wf() && child_fits(
                old(model).nodes@[i]@,
                plan@[i],
            ),
    ensures
        r.links_before == links(
            routing_models(old(model).topology.routing_tables@),
            old(model).topology.routing_tables@.len() as int,
        ),
        r.links_pruned == 0,
        r.spawn_details@ == grown(
            crate::model::node_models(old(model).nodes@),
            plan@,
            plan@.len() as int,
        ),
        final(model).nodes@.len() == old(model).nodes@.len(),
        forall|i: int|
            0 <= i < old(model).nodes@.len() ==> (#[trigger] final(model).nodes@[i])@ == hardened(
                old(model).nodes@[i]@,
                plan@[i],
            ),
        final(model).config == old(model).config,
        final(model).num_nodes == old(model).num_nodes,
        final(model).scattering == old(model).scattering,
        final(model).topology == old(model).topology,
        final(model).is_training == old(model).is_training,
{
    let ghost before = model.nodes@;
    let ghost nodes = crate::model::node_models(before);
    let mut spawn_details: Vec<(usize, usize, usize)> = Vec::new();
    let mut i: usize = 0;
    while i < model.nodes.len()
        invariant
            i <= model.nodes.len(),
            model.nodes@.len() == before.len(),
            plan@.len() == before.len(),
            nodes == crate::model::node_models(before),
            forall|k: int|
                0 <= k < before.len() ==> (#[trigger] before[k])@.wf() && child_fits(
                    before[k]@,
                    plan@[k],
                ),
            forall|k: int|
                0 <= k < before.len() ==> (#[trigger] model.nodes@[k])@ == if k < i {
                    hardened(before[k]@, plan@[k])
                } else {
                    before[k]@
                },
            spawn_details@ == grown(nodes, plan@, i as int),
            model.config == old(model).config,
            model.num_nodes == old(model).num_nodes,
            model.scattering == old(model).scattering,
            model.topology == old(model).topology,
            model.is_training == old(model).is_training,
        decreases model.nodes.len() - i,
    {
        let h: &NodeHardening = &plan[i];
        let ghost node = before[i as int]@;
        assert(nodes[i as int] == node);
        assert(node.wf() && child_fits(node, plan@[i as int]));
        let mut primary: crate::subnode::Subnode = model.nodes[i].subnodes[0].clone();
        primary.alpha = h.alpha;
        model.nodes[i].subnodes.set(0, primary);
        assert(model.nodes@[i as int]@.subnodes =~= rescaled(node, h.alpha).subnodes);
        assert(model.nodes@[i as int]@ == rescaled(node, h.alpha));
        let count_before: usize = model.nodes[i].subnodes.len();
        let weights: SubnodeWeights = SubnodeWeights {
            gate: crate::scalar::copy_scalars(&h.weights.gate),
            up: crate::scalar::copy_scalars(&h.weights.up),
            down: crate::scalar::copy_scalars(&h.weights.down),
        };
        if count_before < model.nodes[i].config.subnode_max && model.nodes[i].activation_count
            >= h.needed {
            model.nodes[i].divide(h.halved, weights);
            model.nodes[i].activation_count = 0;
            spawn_details.push((i, count_before, count_before + 1));
        }
        i += 1;
    }
    let links_before: usize = model.topology.total_links();
    HardeningResult { links_before, links_pruned: 0, spawn_details }
}

/// Hardening never changes how many nodes there are. A node grows by one subnode where there
/// is room and it was activated as often as it needs, and is then counted anew; else it keeps
/// its subnodes and its count.
pub proof fn law_hardening_grows_by_one(node: NodeModel, h: NodeHardening)
    requires
        node.wf(),
        child_fits(node, h),
    ensures
        node.subnodes.len() < node.config.subnode_max && node.activation_count >= h.needed ==> {
            &&& hardened(node, h).subnodes.len() == node.subnodes.len() + 1
            &&& hardened(node, h).split_count == node.split_count + 1
            &&& hardened(node, h).activation_count == 0
        },
        !(node.subnodes.len() < node.config.subnode_max && node.activation_count >= h.needed)
            ==> {
            &&& hardened(node, h).subnodes.len() == node.subnodes.len()
            &&& hardened(node, h).split_count == node.split_count
            &&& hardened(node, h).activation_count == node.activation_count
        },
        hardened(node, h).subnodes.len() <= node.config.subnode_max || hardened(
            node,
            h,
        ).subnodes.len() == node.subnodes.len(),
{
}

/// With each growth a node needs no fewer activations than before, and fewer than it needs
/// never make it grow.
pub proof fn law_growth_takes_longer(
    node: NodeModel,
    h: NodeHardening,
    again: NodeHardening,
    count: u64,
)
    requires
        node.wf(),
        child_fits(node, h),
        node.config.progressive_hardening_factor.bits < 0x7f80_0000,
        h.needed == risen_threshold(
            node.config.neurogenesis_threshold as int,
            node.split_count as int,
            node.config.progressive_hardening_factor,
        ),
        again.needed == risen_threshold(
            node.config.neurogenesis_threshold as int,
            hardened(node, h).split_count as int,
            node.config.progressive_hardening_factor,
        ),
    ensures
        again.needed >= h.needed,
        count < again.needed ==> !grows(
            rescaled(NodeModel { activation_count: count, ..hardened(node, h) }, again.alpha),
            again.needed,
        ),
{
    law_hardening_grows_by_one(node, h);
    law_thresholds_rise(
        node.config.neurogenesis_threshold as int,
        node.split_count as int,
        hardened(node, h).split_count as int,
        node.config.progressive_hardening_factor,
    );
}

/// Hardening gives a node's first subnode its new scale. Beyond that it touches a subnode only
/// where the node grows, and there only the health of the active one. What the node itself
/// knows it keeps, but for how often it divided and was activated.
pub proof fn law_hardening_sets_the_first_scale(node: NodeModel, h: NodeHardening, i: int)
    requires
        node.wf(),
        child_fits(node, h),
        0 <= i < node.subnodes.len(),
    ensures
        ({
            let after = hardened(node, h);
            let grew = node.subnodes.len() < node.config.subnode_max && node.activation_count
                >= h.needed;
            &&& after.subnodes[i].alpha == if i == 0 {
                h.alpha
            } else {
                node.subnodes[i].alpha
            }
            &&& after.subnodes[i].health == if grew && i == node.active_subnode {
                h.halved
            } else {
                node.subnodes[i].health
            }
            &&& (SubnodeModel {
                alpha: node.subnodes[i].alpha,
                health: node.subnodes[i].health,
                ..after.subnodes[i]
            }) == node.subnodes[i]
            &&& (NodeModel {
                subnodes: node.subnodes,
                split_count: node.split_count,
                activation_count: node.activation_count,
                ..after
            }) == node
        }),
{
}

/// A node that grows gets one subnode more, behind those that it has, with the weights that
/// were drawn for it. It takes over the scale and the credit of the active subnode, as those
/// are after the pass, and has done nothing itself.
pub proof fn law_hardening_adds_the_drawn_child(node: NodeModel, h: NodeHardening)
    requires
        node.wf(),
        child_fits(node, h),
        node.subnodes.len() < node.config.subnode_max,
        node.activation_count >= h.needed,
    ensures
        ({
            let after = hardened(node, h);
            let parent = after.subnodes[node.active_subnode as int];
            let child = after.subnodes[node.subnodes.len() as int];
            &&& after.subnodes.len() == node.subnodes.len() + 1
            &&& child.w_gate == h.weights.gate@
            &&& child.w_up == h.weights.up@
            &&& child.w_down == h.weights.down@
            &&& child.subnode_id == node.subnodes.len()
            &&& child.alpha == parent.alpha
            &&& child.credit_stats.mean == parent.credit_stats.mean
            &&& child.credit_stats.m2 == parent.credit_stats.m2
            &&& child.credit_stats.count.units() == 2 * Scalar::one().units()
            &&& child.health == node.config.health_base
            &&& child.activation_count == 0
            &&& child.last_token_id is None
        }),
{
    crate::scalar::law_named_values();
}

/// The report names each node that had room and was activated often enough, and no other, in
/// the order of their numbers, with the subnodes that it had and one more.
pub proof fn law_growth_is_reported(nodes: Seq<NodeModel>, plan: Seq<NodeHardening>, n: int)
    requires
        0 <= n <= nodes.len() <= usize::MAX,
        forall|i: int|
            0 <= i < nodes.len() ==> 0 < (#[trigger] nodes[i]).subnodes.len() < usize::MAX,
    ensures
        forall|k: int|
            0 <= k < grown(nodes, plan, n).len() ==> {
                let (i, before, after) = #[trigger] grown(nodes, plan, n)[k];
                &&& i < n
                &&& nodes[i as int].subnodes.len() < nodes[i as int].config.subnode_max
                &&& nodes[i as int].activation_count >= plan[i as int].needed
                &&& before == nodes[i as int].subnodes.len()
                &&& after == before + 1
            },
        forall|i: int|
            0 <= i < n && (#[trigger] nodes[i]).subnodes.len() < nodes[i].config.subnode_max
                && nodes[i].activation_count >= plan[i].needed ==> exists|k: int|
                0 <= k < grown(nodes, plan, n).len() && (#[trigger] grown(nodes, plan, n)[k]).0 == i,
        forall|a: int, b: int|
            0 <= a < b < grown(nodes, plan, n).len() ==> (#[trigger] grown(nodes, plan, n)[a]).0 < (
            #[trigger] grown(nodes, plan, n)[b]).0,
    decreases n,
{
    if n > 0 {
        law_growth_is_reported(nodes, plan, n - 1);
        let front = grown(nodes, plan, n - 1);
        let all = grown(nodes, plan, n);
        assert forall|i: int|
            0 <= i < n && (#[trigger] nodes[i]).subnodes.len() < nodes[i].config.subnode_max
                && nodes[i].activation_count >= plan[i].needed implies exists|k: int|
            0 <= k < all.len() && (#[trigger] all[k]).0 == i by {
            if i < n - 1 {
                let k = choose|k: int| 0 <= k < front.len() && (#[trigger] front[k]).0 == i;
                assert(all[k] == front[k]);
            } else {
                assert(all[front.len() as int].0 == i);
            }
        }
        assert forall|k: int| 0 <= k < all.len() implies {
            let (i, before, after) = #[trigger] all[k];
            &&& i < n
            &&& nodes[i as int].subnodes.len() < nodes[i as int].config.subnode_max
            &&& nodes[i as int].activation_count >= plan[i as int].needed
            &&& before == nodes[i as int].subnodes.len()
            &&& after == before + 1
        } by {
            if k < front.len() {
                assert(all[k] == front[k]);
            } else {
                assert(nodes[n - 1].subnodes.len() < usize::MAX);
            }
        }
        assert forall|a: int, b: int| 0 <= a < b < all.len() implies (#[trigger] all[a]).0 < (
        #[trigger] all[b]).0 by {
            assert(all[a] == front[a]);
            if b < front.len() {
                assert(all[b] == front[b]);
            }
        }
    }
}


} // verus!
