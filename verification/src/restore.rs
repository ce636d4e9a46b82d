//! From a network to its checkpoint and back, and changes to a checkpoint.
use crate::checkpoint::{
    node_records, subnode_records, ModelCheckpoint, ModelRecord, NodeCheckpoint, NodeRecord,
    SubnodeCheckpoint, SubnodeRecord,
};
use crate::config::MicroBlockConfig;
use crate::mesh::routing_models;
use crate::metrics::OnlineStats;
use crate::micro_block::{MicroBlockNode, NodeModel};
use crate::model::{node_models, ANNPModel};
use crate::scalar::{copy_scalars, zeros, Scalar};
use crate::subnode::{blank, subnode_models, Subnode, SubnodeModel};
use crate::topology::{unobserved, RoutingModel, RoutingTable};
use vstd::prelude::*;

verus! {

/// The subnode that a record stands for. What the record does not keep is as in a newborn.
pub open spec fn revived_subnode(s: SubnodeRecord, d_head: usize) -> SubnodeModel {
    SubnodeModel {
        subnode_id: s.subnode_id,
        w_gate: s.w_gate,
        w_up: s.w_up,
        w_down: s.w_down,
        alpha: s.alpha,
        activation_count: s.activation_count,
        credit_stats: s.credit_stats,
        health: s.health,
        cumulative_energy: Scalar::zero(),
        last_p_in: blank(d_head as nat),
        last_prediction: blank(d_head as nat),
        last_token_id: None,
    }
}

/// `node` with what `r` keeps of it.
pub open spec fn revived_node(node: NodeModel, r: NodeRecord, d_head: usize) -> NodeModel {
    NodeModel {
        split_count: r.split_count,
        cumulative_sequence_len: r.cumulative_sequence_len,
        activation_count: r.activation_count,
        subnodes: r.subnodes.map_values(|s: SubnodeRecord| revived_subnode(s, d_head)),
        ..node
    }
}

/// The nodes after the first `n` records were applied, each to the node that it names.
/// Records of nodes that are not there are passed over.
pub open spec fn revived_nodes(nodes: Seq<NodeModel>, records: Seq<NodeRecord>, d_head: usize, n: int) -> Seq<
    NodeModel,
>
    decreases n,
{
    if n <= 0 {
        nodes
    } else {
        let front = revived_nodes(nodes, records, d_head, n - 1);
        let r = records[n - 1];
        if r.node_id < front.len() {
            front.update(r.node_id as int, revived_node(front[r.node_id as int], r, d_head))
        } else {
            front
        }
    }
}

/// What is kept of a subnode.
pub open spec fn subnode_record(s: SubnodeModel) -> SubnodeRecord {
    SubnodeRecord {
        subnode_id: s.subnode_id,
        w_gate: s.w_gate,
        w_up: s.w_up,
        w_down: s.w_down,
        alpha: s.alpha,
        activation_count: s.activation_count,
        credit_stats: s.credit_stats,
        health: s.health,
    }
}

/// What is kept of a node.
pub open spec fn extracted_node(n: NodeModel) -> NodeRecord {
    NodeRecord {
        node_id: n.node_id,
        split_count: n.split_count,
        cumulative_sequence_len: n.cumulative_sequence_len,
        activation_count: n.activation_count,
        subnodes: n.subnodes.map_values(|s: SubnodeModel| subnode_record(s)),
        fast_weight: n.fast_weight,
        cumulative_energy: n.cumulative_energy,
        last_p_in: n.last_p_in,
        last_prediction: n.last_prediction,
        last_token_id: n.last_token_id,
    }
}

/// What is kept of a network.
pub open spec fn extracted(model: ANNPModel, stage_completed: usize, epoch_completed: usize) -> ModelRecord {
    ModelRecord {
        stage_completed,
        epoch_completed,
        config: model.config,
        nodes: node_models(model.nodes@).map_values(|n: NodeModel| extracted_node(n)),
        routing_tables: routing_models(model.topology.routing_tables@),
    }
}

/// Whether `after` is the network `before` with the checkpoint `r` applied: each record to the
/// node that it names, and the links where the checkpoint has any.
pub open spec fn is_applied(before: ANNPModel, r: ModelRecord, after: ANNPModel) -> bool {
    &&& after.config == r.config
    &&& after.num_nodes == before.num_nodes
    &&& after.scattering == before.scattering
    &&& after.is_training == before.is_training
    &&& node_models(after.nodes@) == revived_nodes(
        node_models(before.nodes@),
        r.nodes,
        r.config.d_head,
        r.nodes.len() as int,
    )
    &&& routing_models(after.topology.routing_tables@) == if r.routing_tables.len() > 0 {
        r.routing_tables
    } else {
        routing_models(before.topology.routing_tables@)
    }
    &&& after.topology.num_nodes == if r.routing_tables.len() > 0 {
        before.nodes@.len() as usize
    } else {
        before.topology.num_nodes
    }
}

fn revive_subnode(s: &SubnodeCheckpoint, d_head: usize) -> (r: Subnode)
    ensures
        r@ == revived_subnode(s@, d_head),
{
    Subnode {
        subnode_id: s.subnode_id,
        w_gate: copy_scalars(&s.w_gate),
        w_up: copy_scalars(&s.w_up),
        w_down: copy_scalars(&s.w_down),
        alpha: s.alpha,
        activation_count: s.activation_count,
        credit_stats: s.credit_stats,
        health: s.health,
        cumulative_energy: Scalar::zero(),
        last_p_in: zeros(d_head),
        last_prediction: zeros(d_head),
        last_token_id: None,
    }
}

fn revive_node(node: &mut MicroBlockNode, record: &NodeCheckpoint, d_head: usize)
    ensures
        final(node)@ == revived_node(old(node)@, record@, d_head),
{
    let ghost before = node@;
    let ghost whole = revived_node(before, record@, d_head).subnodes;
    let mut subnodes: Vec<Subnode> = Vec::with_capacity(record.subnodes.len());
    let mut i: usize = 0;
    while i < record.subnodes.len()
        invariant
            i <= record.subnodes.len(),
            whole == revived_node(before, record@, d_head).subnodes,
            subnode_models(subnodes@) == whole.take(i as int),
        decreases record.subnodes.len() - i,
    {
        let subnode: Subnode = revive_subnode(&record.subnodes[i], d_head);
        let ghost front = subnode_models(subnodes@);
        assert(record@.subnodes[i as int] == record.subnodes@[i as int]@);
        assert(subnode@ == whole[i as int]);
        subnodes.push(subnode);
        i += 1;
        assert(subnode_models(subnodes@) =~= front.push(subnode@));
        assert(subnode_models(subnodes@) =~= whole.take(i as int));
    }
    assert(subnode_models(subnodes@) =~= whole);
    node.split_count = record.split_count;
    node.cumulative_sequence_len = record.cumulative_sequence_len;
    node.activation_count = record.activation_count;
    node.subnodes = subnodes;
}

fn copy_tables(tables: &Vec<RoutingTable>) -> (r: Vec<RoutingTable>)
    ensures
        routing_models(r@) == routing_models(tables@),
{
    let ghost whole = routing_models(tables@);
    let mut r: Vec<RoutingTable> = Vec::with_capacity(tables.len());
    let mut i: usize = 0;
    while i < tables.len()
        invariant
            i <= tables.len(),
            whole == routing_models(tables@),
            routing_models(r@) == whole.take(i as int),
        decreases tables.len() - i,
    {
        let table: RoutingTable = tables[i].clone();
        let ghost front = routing_models(r@);
        assert(table@ == whole[i as int]);
        r.push(table);
        i += 1;
        assert(routing_models(r@) =~= front.push(table@));
        assert(routing_models(r@) =~= whole.take(i as int));
    }
    assert(routing_models(r@) =~= whole);
    r
}

fn extract_subnode(s: &Subnode) -> (r: SubnodeCheckpoint)
    ensures
        r@ == subnode_record(s@),
{
    SubnodeCheckpoint {
        subnode_id: s.subnode_id,
        w_gate: copy_scalars(&s.w_gate),
        w_up: copy_scalars(&s.w_up),
        w_down: copy_scalars(&s.w_down),
        alpha: s.alpha,
        activation_count: s.activation_count,
        credit_stats: s.credit_stats,
        health: s.health,
    }
}

fn extract_node(node: &MicroBlockNode) -> (r: NodeCheckpoint)
    ensures
        r@ == extracted_node(node@),
{
    let ghost whole = extracted_node(node@).subnodes;
    let mut subnodes: Vec<SubnodeCheckpoint> = Vec::with_capacity(node.subnodes.len());
    let mut i: usize = 0;
    while i < node.subnodes.len()
        invariant
            i <= node.subnodes.len(),
            whole == extracted_node(node@).subnodes,
            subnode_records(subnodes@) == whole.take(i as int),
        decreases node.subnodes.len() - i,
    {
        let subnode: SubnodeCheckpoint = extract_subnode(&node.subnodes[i]);
        let ghost front = subnode_records(subnodes@);
        assert(node@.subnodes[i as int] == node.subnodes@[i as int]@);
        assert(subnode@ == whole[i as int]);
        subnodes.push(subnode);
        i += 1;
        assert(subnode_records(subnodes@) =~= front.push(subnode@));
        assert(subnode_records(subnodes@) =~= whole.take(i as int));
    }
    assert(subnode_records(subnodes@) =~= whole);
    NodeCheckpoint {
        node_id: node.node_id,
        split_count: node.split_count,
        cumulative_sequence_len: node.cumulative_sequence_len,
        activation_count: node.activation_count,
        subnodes,
        fast_weight: copy_scalars(&node.fast_weight),
        cumulative_energy: node.cumulative_energy,
        last_p_in: copy_scalars(&node.last_p_in),
        last_prediction: copy_scalars(&node.last_prediction),
        last_token_id: node.last_token_id,
    }
}

/// What is to be changed in a checkpoint.
#[derive(Debug)]
pub struct ModelEdits {
    /// A whole configuration, before the single values below.
    pub config: Option<MicroBlockConfig>,
    pub max_hop: Option<u16>,
    pub min_hop: Option<u16>,
    pub initial_energy: Option<Scalar>,
    pub weight_decay: Option<Scalar>,
    pub epoch: Option<usize>,
    pub stage: Option<usize>,
    /// Whether nodes forget what they were doing.
    pub reset_state: bool,
    /// Whether counts, credit and health start anew.
    pub reset_stats: bool,
    /// Whether the nodes' memories are blanked.
    pub reset_fast_weights: bool,
    /// New weights for each routing table, where the links start anew.
    pub routing_weights: Option<Vec<Vec<Scalar>>>,
}

/// The value in force: the new one where there is one.
pub open spec fn edited<T>(value: T, edit: Option<T>) -> T {
    match edit {
        Some(v) => v,
        None => value,
    }
}

/// The configuration after the edits.
pub open spec fn edited_config(config: MicroBlockConfig, e: ModelEdits) -> MicroBlockConfig {
    let base = edited(config, e.config);
    MicroBlockConfig {
        max_hop: edited(base.max_hop, e.max_hop),
        min_hop: edited(base.min_hop, e.min_hop),
        initial_energy: edited(base.initial_energy, e.initial_energy),
        weight_decay: edited(base.weight_decay, e.weight_decay),
        ..base
    }
}

/// A subnode whose statistics start anew.
pub open spec fn anew_subnode(s: SubnodeRecord, health: Scalar) -> SubnodeRecord {
    SubnodeRecord { activation_count: 0, credit_stats: OnlineStats::standard(), health, ..s }
}

/// A node after the edits, under the edited configuration.
pub open spec fn edited_node(r: NodeRecord, e: ModelEdits, config: MicroBlockConfig) -> NodeRecord {
    NodeRecord {
        node_id: r.node_id,
        split_count: r.split_count,
        cumulative_sequence_len: if e.reset_stats {
            0
        } else {
            r.cumulative_sequence_len
        },
        activation_count: if e.reset_stats {
            0
        } else {
            r.activation_count
        },
        subnodes: if e.reset_stats {
            r.subnodes.map_values(|s: SubnodeRecord| anew_subnode(s, config.health_base))
        } else {
            r.subnodes
        },
        fast_weight: if e.reset_fast_weights {
            blank(r.fast_weight.len())
        } else {
            r.fast_weight
        },
        cumulative_energy: if e.reset_fast_weights {
            config.initial_energy
        } else {
            r.cumulative_energy
        },
        last_p_in: if e.reset_state {
            Seq::empty()
        } else {
            r.last_p_in
        },
        last_prediction: if e.reset_state {
            Seq::empty()
        } else {
            r.last_prediction
        },
        last_token_id: if e.reset_state {
            None
        } else {
            r.last_token_id
        },
    }
}

/// A routing table with new weights and no credit.
pub open spec fn rewired(t: RoutingModel, weights: Seq<Scalar>) -> RoutingModel {
    RoutingModel { weights, edge_credit: unobserved(t.neighbors.len()), ..t }
}

/// A checkpoint after the edits.
pub open spec fn edited_record(r: ModelRecord, e: ModelEdits) -> ModelRecord {
    let config = edited_config(r.config, e);
    ModelRecord {
        stage_completed: edited(r.stage_completed, e.stage),
        epoch_completed: edited(r.epoch_completed, e.epoch),
        config,
        nodes: r.nodes.map_values(|n: NodeRecord| edited_node(n, e, config)),
        routing_tables: match e.routing_weights {
            Some(w) => Seq::new(
                r.routing_tables.len(),
                |i: int| rewired(r.routing_tables[i], w@[i]@),
            ),
            None => r.routing_tables,
        },
    }
}

fn edit_node(node: &mut NodeCheckpoint, e: &ModelEdits, config: &MicroBlockConfig)
    ensures
        final(node)@ == edited_node(old(node)@, *e, *config),
{
    let ghost before = node@;
    if e.reset_state {
        node.last_p_in = Vec::new();
        node.last_prediction = Vec::new();
        node.last_token_id = None;
    }
    if e.reset_stats {
        node.activation_count = 0;
        node.cumulative_sequence_len = 0;
        let ghost records = before.subnodes;
        let mut i: usize = 0;
        assert(node@.subnodes == records);
        assert forall|k: int| 0 <= k < node.subnodes@.len() implies (#[trigger] node.subnodes@[k])@
            == records[k] by {}
        while i < node.subnodes.len()
            invariant
                i <= node.subnodes.len(),
                node.subnodes@.len() == records.len(),
                e.reset_stats,
                forall|k: int|
                    0 <= k < records.len() ==> (#[trigger] node.subnodes@[k])@ == if k < i {
                        anew_subnode(records[k], config.health_base)
                    } else {
                        records[k]
                    },
                node@.last_p_in == edited_node(before, *e, *config).last_p_in,
                node@.last_prediction == edited_node(before, *e, *config).last_prediction,
                node@.last_token_id == edited_node(before, *e, *config).last_token_id,
                node@.activation_count == 0,
                node@.cumulative_sequence_len == 0,
                node@.node_id == before.node_id,
                node@.split_count == before.split_count,
                node@.fast_weight == before.fast_weight,
                node@.cumulative_energy == before.cumulative_energy,
            decreases node.subnodes.len() - i,
        {
            let s: &SubnodeCheckpoint = &node.subnodes[i];
            assert(s@ == records[i as int]);
            let anew = SubnodeCheckpoint {
                subnode_id: s.subnode_id,
                w_gate: copy_scalars(&s.w_gate),
                w_up: copy_scalars(&s.w_up),
                w_down: copy_scalars(&s.w_down),
                alpha: s.alpha,
                activation_count: 0,
                credit_stats: OnlineStats::default(),
                health: config.health_base,
            };
            assert(anew@ == anew_subnode(records[i as int], config.health_base));
            node.subnodes.set(i, anew);
            i += 1;
        }
        assert(node@.subnodes =~= edited_node(before, *e, *config).subnodes);
    }
    if e.reset_fast_weights {
        node.fast_weight = zeros(node.fast_weight.len());
        node.cumulative_energy = config.initial_energy;
    }
    assert(node@ =~= edited_node(before, *e, *config));
}

impl ModelCheckpoint {
    /// Gives a network what the checkpoint keeps of the configuration, of the division, the
    /// counts and the subnodes of each node, and of the links. The associative memory of a
    /// node, its energy, its last input, its last prediction and its last token are kept in
    /// the checkpoint too, but stay as they are in the network.
    pub fn apply_to_model(&self, model: &mut ANNPModel)
        ensures
            is_applied(*old(model), self@, *final(model)),
    {
        let ghost before = node_models(model.nodes@);
        let ghost records = self@.nodes;
        let d_head: usize = self.config.d_head;
        model.config = self.config;
        let mut i: usize = 0;
        while i < self.nodes.len()
            invariant
                i <= self.nodes.len(),
                records == self@.nodes,
                node_models(model.nodes@) == revived_nodes(before, records, d_head, i as int),
                model.nodes@.len() == before.len(),
                model.config == self@.config,
                model.num_nodes == old(model).num_nodes,
                model.scattering == old(model).scattering,
                model.is_training == old(model).is_training,
                model.topology == old(model).topology,
            decreases self.nodes.len() - i,
        {
            let record: &NodeCheckpoint = &self.nodes[i];
            assert(records[i as int] == record@);
            let ghost nodes = model.nodes@;
            let ghost front = node_models(nodes);
            if record.node_id < model.nodes.len() {
                let id: usize = record.node_id;
                revive_node(&mut model.nodes[id], record, d_head);
                assert(node_models(model.nodes@) =~= front.update(
                    id as int,
                    revived_node(front[id as int], record@, d_head),
                )) by {
                    assert forall|k: int| 0 <= k < nodes.len() implies node_models(model.nodes@)[k]
                        == #[trigger] front.update(
                        id as int,
                        revived_node(front[id as int], record@, d_head),
                    )[k] by {
                        assert(front[k] == nodes[k]@);
                    }
                }
            }
            i += 1;
        }
        if self.routing_tables.len() > 0 {
            model.topology.routing_tables = copy_tables(&self.routing_tables);
            model.topology.num_nodes = model.nodes.len();
        }
    }

    /// Keeps a network.
    pub fn extract_from_model(model: &ANNPModel, stage_completed: usize, epoch_completed: usize) -> (r:
        Self)
        ensures
            r@ == extracted(*model, stage_completed, epoch_completed),
    {
        let ghost whole = extracted(*model, stage_completed, epoch_completed).nodes;
        let mut nodes: Vec<NodeCheckpoint> = Vec::with_capacity(model.nodes.len());
        let mut i: usize = 0;
        while i < model.nodes.len()
            invariant
                i <= model.nodes.len(),
                whole == extracted(*model, stage_completed, epoch_completed).nodes,
                node_records(nodes@) == whole.take(i as int),
            decreases model.nodes.len() - i,
        {
            let node: NodeCheckpoint = extract_node(&model.nodes[i]);
            let ghost front = node_records(nodes@);
            assert(node_models(model.nodes@)[i as int] == model.nodes@[i as int]@);
            assert(node@ == whole[i as int]);
            nodes.push(node);
            i += 1;
            assert(node_records(nodes@) =~= front.push(node@));
            assert(node_records(nodes@) =~= whole.take(i as int));
        }
        assert(node_records(nodes@) =~= whole);
        ModelCheckpoint {
            stage_completed,
            epoch_completed,
            config: model.config,
            nodes,
            routing_tables: copy_tables(&model.topology.routing_tables),
        }
    }

    /// Changes the checkpoint. The weights of the links, where they start anew, are one list
    /// per routing table, with `d_head` values of the edited configuration per link.
    pub fn edit(&mut self, e: &ModelEdits)
        requires
            e.routing_weights matches Some(w) ==> {
                &&& w@.len() == old(self)@.routing_tables.len()
                &&& forall|i: int|
                    0 <= i < w@.len() ==> (#[trigger] w@[i])@.len() == edited_config(
                        old(self)@.config,
                        *e,
                    ).d_head * old(self)@.routing_tables[i].neighbors.len()
            },
        ensures
            final(self)@ == edited_record(old(self)@, *e),
    {
        let ghost before = self@;
        if let Some(config) = e.config {
            self.config = config;
        }
        if let Some(v) = e.max_hop {
            self.config.max_hop = v;
        }
        if let Some(v) = e.min_hop {
            self.config.min_hop = v;
        }
        if let Some(v) = e.initial_energy {
            self.config.initial_energy = v;
        }
        if let Some(v) = e.weight_decay {
            self.config.weight_decay = v;
        }
        if let Some(v) = e.epoch {
            self.epoch_completed = v;
        }
        if let Some(v) = e.stage {
            self.stage_completed = v;
        }
        let config: MicroBlockConfig = self.config;
        assert(config == edited_config(before.config, *e));
        let ghost records = before.nodes;
        assert forall|k: int| 0 <= k < self.nodes@.len() implies (#[trigger] self.nodes@[k])@
            == records[k] by {}
        let mut i: usize = 0;
        while i < self.nodes.len()
            invariant
                i <= self.nodes.len(),
                self.nodes@.len() == records.len(),
                forall|k: int|
                    0 <= k < records.len() ==> (#[trigger] self.nodes@[k])@ == if k < i {
                        edited_node(records[k], *e, config)
                    } else {
                        records[k]
                    },
                self.config == config,
                self@.routing_tables == before.routing_tables,
                self.stage_completed == edited(before.stage_completed, e.stage),
                self.epoch_completed == edited(before.epoch_completed, e.epoch),
            decreases self.nodes.len() - i,
        {
            edit_node(&mut self.nodes[i], e, &config);
            i += 1;
        }
        assert(self@.nodes =~= edited_record(before, *e).nodes);
        if let Some(weights) = &e.routing_weights {
            let ghost tables = before.routing_tables;
            assert forall|k: int| 0 <= k < self.routing_tables@.len() implies (
            #[trigger] self.routing_tables@[k])@ == tables[k] by {
                assert(self@.routing_tables[k] == self.routing_tables@[k]@);
            }
            i = 0;
            while i < self.routing_tables.len()
                invariant
                    i <= self.routing_tables.len(),
                    self.routing_tables@.len() == tables.len(),
                    weights@.len() == tables.len(),
                    forall|k: int|
                        0 <= k < tables.len() ==> (#[trigger] self.routing_tables@[k])@ == if k < i {
                            rewired(tables[k], weights@[k]@)
                        } else {
                            tables[k]
                        },
                    forall|k: int|
                        0 <= k < weights@.len() ==> (#[trigger] weights@[k])@.len() == config.d_head
                            * tables[k].neighbors.len(),
                    self.config == config,
                    self@.nodes == edited_record(before, *e).nodes,
                    self.stage_completed == edited(before.stage_completed, e.stage),
                    self.epoch_completed == edited(before.epoch_completed, e.epoch),
                decreases self.routing_tables.len() - i,
            {
                let mut table: RoutingTable = self.routing_tables[i].clone();
                table.weights = copy_scalars(&weights[i]);
                table.edge_credit = Vec::new();
                table.ensure_edge_credit();
                assert(table@ =~= rewired(tables[i as int], weights@[i as int]@));
                self.routing_tables.set(i, table);
                i += 1;
            }
            assert(self@.routing_tables =~= edited_record(before, *e).routing_tables);
        }
        assert(self@ =~= edited_record(before, *e));
    }
}

/// Whether one of the first `n` records names node `i`.
pub open spec fn names(records: Seq<NodeRecord>, n: int, i: int) -> bool {
    exists|k: int| 0 <= k < n && (#[trigger] records[k]).node_id == i
}

/// Applying records touches the nodes that they name, and no others: there are as many nodes
/// as before, and one that no record names is as it was.
pub proof fn law_apply_spares_the_unnamed(
    nodes: Seq<NodeModel>,
    records: Seq<NodeRecord>,
    d_head: usize,
    n: int,
    i: int,
)
    requires
        0 <= n <= records.len(),
        0 <= i < nodes.len(),
        !names(records, n, i),
    ensures
        revived_nodes(nodes, records, d_head, n).len() == nodes.len(),
        revived_nodes(nodes, records, d_head, n)[i] == nodes[i],
    decreases n,
{
    lemma_revived_len(nodes, records, d_head, n);
    if n > 0 {
        assert(records[n - 1].node_id != i);
        assert forall|k: int| 0 <= k < n - 1 implies (#[trigger] records[k]).node_id != i by {}
        law_apply_spares_the_unnamed(nodes, records, d_head, n - 1, i);
        lemma_revived_len(nodes, records, d_head, n - 1);
    }
}

/// Where no two records name the same node, each node that is named is given what its record
/// keeps.
pub proof fn law_apply_revives_the_named(
    nodes: Seq<NodeModel>,
    records: Seq<NodeRecord>,
    d_head: usize,
    n: int,
    k: int,
)
    requires
        0 <= k < n <= records.len(),
        records[k].node_id < nodes.len(),
        forall|a: int, b: int|
            0 <= a < b < records.len() ==> (#[trigger] records[a]).node_id != (
            #[trigger] records[b]).node_id,
    ensures
        revived_nodes(nodes, records, d_head, n)[records[k].node_id as int] == revived_node(
            nodes[records[k].node_id as int],
            records[k],
            d_head,
        ),
    decreases n,
{
    let i = records[k].node_id as int;
    lemma_revived_len(nodes, records, d_head, n - 1);
    if k == n - 1 {
        assert forall|a: int| 0 <= a < n - 1 implies (#[trigger] records[a]).node_id != i by {
            assert(records[a].node_id != records[k].node_id);
        }
        law_apply_spares_the_unnamed(nodes, records, d_head, n - 1, i);
    } else {
        assert(records[k].node_id != records[n - 1].node_id);
        law_apply_revives_the_named(nodes, records, d_head, n - 1, k);
    }
}

/// What comes back of a record that was applied to a node: all of it but the associative
/// memory, the energy, the last input, the last prediction and the last token, which are the
/// node's own.
pub open spec fn returned_node(node: NodeModel, r: NodeRecord) -> NodeRecord {
    NodeRecord {
        fast_weight: node.fast_weight,
        cumulative_energy: node.cumulative_energy,
        last_p_in: node.last_p_in,
        last_prediction: node.last_prediction,
        last_token_id: node.last_token_id,
        ..r
    }
}

/// A network that a checkpoint was applied to keeps it: extracted again, it gives the
/// checkpoint back, but for what the nodes were doing and their memories.
pub proof fn law_apply_restores(before: ANNPModel, r: ModelRecord, after: ANNPModel)
    requires
        is_applied(before, r, after),
        r.nodes.len() == before.nodes@.len(),
        r.routing_tables.len() > 0,
        forall|k: int| 0 <= k < r.nodes.len() ==> (#[trigger] r.nodes[k]).node_id == k,
        forall|k: int|
            0 <= k < before.nodes@.len() ==> (#[trigger] before.nodes@[k])@.node_id == k,
    ensures
        extracted(after, r.stage_completed, r.epoch_completed) == (ModelRecord {
            nodes: Seq::new(
                r.nodes.len(),
                |i: int| returned_node(before.nodes@[i]@, r.nodes[i]),
            ),
            ..r
        }),
{
    let nodes = node_models(before.nodes@);
    let d_head = r.config.d_head;
    let n = r.nodes.len() as int;
    let back = extracted(after, r.stage_completed, r.epoch_completed);
    let whole = Seq::new(
        r.nodes.len(),
        |i: int| returned_node(before.nodes@[i]@, r.nodes[i]),
    );
    lemma_revived_len(nodes, r.nodes, d_head, n);
    assert forall|i: int| 0 <= i < n implies #[trigger] back.nodes[i] == whole[i] by {
        assert(r.nodes[i].node_id == i);
        assert(nodes[i] == before.nodes@[i]@);
        law_apply_revives_the_named(nodes, r.nodes, d_head, n, i);
        let node = revived_node(nodes[i], r.nodes[i], d_head);
        assert(extracted_node(node).subnodes =~= r.nodes[i].subnodes);
        assert(node_models(after.nodes@)[i] == node);
    }
    assert(back.nodes =~= whole);
}

proof fn lemma_revived_len(nodes: Seq<NodeModel>, records: Seq<NodeRecord>, d_head: usize, n: int)
    ensures
        revived_nodes(nodes, records, d_head, n).len() == nodes.len(),
    decreases n,
{
    if n > 0 {
        lemma_revived_len(nodes, records, d_head, n - 1);
    }
}

/// Editing nothing changes nothing.
pub proof fn law_no_edit(r: ModelRecord, e: ModelEdits)
    requires
        e.config is None,
        e.max_hop is None,
        e.min_hop is None,
        e.initial_energy is None,
        e.weight_decay is None,
        e.epoch is None,
        e.stage is None,
        !e.reset_state,
        !e.reset_stats,
        !e.reset_fast_weights,
        e.routing_weights is None,
    ensures
        edited_record(r, e) == r,
{
    assert forall|i: int| 0 <= i < r.nodes.len() implies #[trigger] edited_record(r, e).nodes[i]
        == r.nodes[i] by {
        assert(edited_node(r.nodes[i], e, r.config) =~= r.nodes[i]);
    }
    assert(edited_record(r, e).nodes =~= r.nodes);
}

/// Resetting twice is resetting once.
pub proof fn law_reset_is_idempotent(r: NodeRecord, e: ModelEdits, config: MicroBlockConfig)
    ensures
        edited_node(edited_node(r, e, config), e, config) == edited_node(r, e, config),
{
    let once = edited_node(r, e, config);
    let twice = edited_node(once, e, config);
    assert(twice.subnodes =~= once.subnodes);
    assert(twice.fast_weight =~= once.fast_weight);
}

/// Each reset touches its own fields and only them. Without a reset of the memories every node
/// keeps its memory and its energy, whatever else is edited; with one its memory is all zeros
/// and its energy the initial one of the edited configuration.
pub proof fn law_memories_are_reset_on_demand(r: ModelRecord, e: ModelEdits, i: int)
    requires
        0 <= i < r.nodes.len(),
    ensures
        ({
            let before = r.nodes[i];
            let after = edited_record(r, e).nodes[i];
            &&& !e.reset_fast_weights ==> {
                &&& after.fast_weight == before.fast_weight
                &&& after.cumulative_energy == before.cumulative_energy
            }
            &&& e.reset_fast_weights ==> {
                &&& after.fast_weight.len() == before.fast_weight.len()
                &&& forall|k: int|
                    0 <= k < after.fast_weight.len() ==> #[trigger] after.fast_weight[k]
                        == Scalar::zero()
                &&& after.cumulative_energy == edited_record(r, e).config.initial_energy
            }
        }),
{
}

/// Without a reset of the state every node keeps its last input, its last prediction and its
/// last token, whatever else is edited; with one it has none of them.
pub proof fn law_state_is_reset_on_demand(r: ModelRecord, e: ModelEdits, i: int)
    requires
        0 <= i < r.nodes.len(),
    ensures
        ({
            let before = r.nodes[i];
            let after = edited_record(r, e).nodes[i];
            &&& !e.reset_state ==> {
                &&& after.last_p_in == before.last_p_in
                &&& after.last_prediction == before.last_prediction
                &&& after.last_token_id == before.last_token_id
            }
            &&& e.reset_state ==> {
                &&& after.last_p_in.len() == 0
                &&& after.last_prediction.len() == 0
                &&& after.last_token_id is None
            }
        }),
{
}

/// Without a reset of the statistics every node keeps its counts and its subnodes, whatever
/// else is edited; with one its counts are zero, and each subnode has the health of a newborn
/// and no credit. No edit changes the weights, the scale or the number of a subnode, nor which
/// node it belongs to and how often that has divided.
pub proof fn law_statistics_are_reset_on_demand(r: ModelRecord, e: ModelEdits, i: int, k: int)
    requires
        0 <= i < r.nodes.len(),
        0 <= k < r.nodes[i].subnodes.len(),
    ensures
        ({
            let before = r.nodes[i];
            let after = edited_record(r, e).nodes[i];
            let s = before.subnodes[k];
            let t = after.subnodes[k];
            &&& after.node_id == before.node_id
            &&& after.split_count == before.split_count
            &&& after.subnodes.len() == before.subnodes.len()
            &&& !e.reset_stats ==> {
                &&& after.cumulative_sequence_len == before.cumulative_sequence_len
                &&& after.activation_count == before.activation_count
                &&& after.subnodes == before.subnodes
            }
            &&& e.reset_stats ==> {
                &&& after.cumulative_sequence_len == 0
                &&& after.activation_count == 0
                &&& t.activation_count == 0
                &&& t.credit_stats.count == Scalar::zero()
                &&& t.credit_stats.mean == Scalar::zero()
                &&& t.credit_stats.m2 == Scalar::zero()
                &&& t.health == edited_record(r, e).config.health_base
            }
            &&& t.subnode_id == s.subnode_id
            &&& t.w_gate == s.w_gate
            &&& t.w_up == s.w_up
            &&& t.w_down == s.w_down
            &&& t.alpha == s.alpha
        }),
{
}

/// A value that is given takes the place of the old one, a whole configuration before the
/// single values; a value that is not given stays. Nothing but these values changes in the
/// configuration.
pub proof fn law_given_values_win(r: ModelRecord, e: ModelEdits)
    ensures
        ({
            let after = edited_record(r, e);
            let base = match e.config {
                Some(c) => c,
                None => r.config,
            };
            &&& after.config.max_hop == (match e.max_hop {
                Some(v) => v,
                None => base.max_hop,
            })
            &&& after.config.min_hop == (match e.min_hop {
                Some(v) => v,
                None => base.min_hop,
            })
            &&& after.config.initial_energy == (match e.initial_energy {
                Some(v) => v,
                None => base.initial_energy,
            })
            &&& after.config.weight_decay == (match e.weight_decay {
                Some(v) => v,
                None => base.weight_decay,
            })
            &&& (MicroBlockConfig {
                max_hop: base.max_hop,
                min_hop: base.min_hop,
                initial_energy: base.initial_energy,
                weight_decay: base.weight_decay,
                ..after.config
            }) == base
            &&& after.epoch_completed == (match e.epoch {
                Some(v) => v,
                None => r.epoch_completed,
            })
            &&& after.stage_completed == (match e.stage {
                Some(v) => v,
                None => r.stage_completed,
            })
        }),
{
}

/// New link weights take the place of the old ones, and the credit of the links starts anew;
/// which nodes are linked stays. Without new weights the links stay as they are.
pub proof fn law_links_are_reset_on_demand(r: ModelRecord, e: ModelEdits, i: int, k: int)
    requires
        0 <= i < r.routing_tables.len(),
        0 <= k < r.routing_tables[i].neighbors.len(),
    ensures
        edited_record(r, e).nodes.len() == r.nodes.len(),
        edited_record(r, e).routing_tables.len() == r.routing_tables.len(),
        e.routing_weights is None ==> edited_record(r, e).routing_tables == r.routing_tables,
        e.routing_weights matches Some(w) ==> {
            let after = edited_record(r, e).routing_tables[i];
            &&& after.neighbors == r.routing_tables[i].neighbors
            &&& after.d_head == r.routing_tables[i].d_head
            &&& after.weights == w@[i]@
            &&& after.edge_credit.len() == after.neighbors.len()
            &&& after.edge_credit[k].count == Scalar::zero()
            &&& after.edge_credit[k].mean == Scalar::zero()
            &&& after.edge_credit[k].m2 == Scalar::zero()
        },
{
}

/// What a checkpoint keeps of a node is what the node has, each value under its own name.
pub proof fn law_checkpoints_keep_nodes(n: NodeModel, k: int)
    requires
        0 <= k < n.subnodes.len(),
    ensures
        ({
            let r = extracted_node(n);
            let s = n.subnodes[k];
            let t = r.subnodes[k];
            &&& r.node_id == n.node_id
            &&& r.split_count == n.split_count
            &&& r.cumulative_sequence_len == n.cumulative_sequence_len
            &&& r.activation_count == n.activation_count
            &&& r.fast_weight == n.fast_weight
            &&& r.cumulative_energy == n.cumulative_energy
            &&& r.last_p_in == n.last_p_in
            &&& r.last_prediction == n.last_prediction
            &&& r.last_token_id == n.last_token_id
            &&& r.subnodes.len() == n.subnodes.len()
            &&& t.subnode_id == s.subnode_id
            &&& t.w_gate == s.w_gate
            &&& t.w_up == s.w_up
            &&& t.w_down == s.w_down
            &&& t.alpha == s.alpha
            &&& t.activation_count == s.activation_count
            &&& t.credit_stats == s.credit_stats
            &&& t.health == s.health
        }),
{
}

/// A checkpoint is labelled with the stage and the epoch it was made at, and keeps the
/// configuration, every node and every link of the network.
pub proof fn law_checkpoints_keep_networks(
    model: ANNPModel,
    stage_completed: usize,
    epoch_completed: usize,
    i: int,
)
    ensures
        ({
            let r = extracted(model, stage_completed, epoch_completed);
            &&& r.stage_completed == stage_completed
            &&& r.epoch_completed == epoch_completed
            &&& r.config == model.config
            &&& r.nodes.len() == model.nodes@.len()
            &&& r.routing_tables.len() == model.topology.routing_tables@.len()
            &&& 0 <= i < r.nodes.len() ==> r.nodes[i].node_id == model.nodes@[i].node_id
                && r.nodes[i].fast_weight == model.nodes@[i].fast_weight@
                && r.nodes[i].subnodes.len() == model.nodes@[i].subnodes@.len()
            &&& 0 <= i < r.routing_tables.len() ==> r.routing_tables[i].neighbors
                == model.topology.routing_tables@[i].neighbors@ && r.routing_tables[i].weights
                == model.topology.routing_tables@[i].weights@ && r.routing_tables[i].edge_credit
                == model.topology.routing_tables@[i].edge_credit@
        }),
{
}

/// A node that a record is applied to takes over its counts and its subnodes, each value under
/// its own name, and keeps its memory and what it was doing. The subnodes themselves remember
/// nothing.
pub proof fn law_records_revive_nodes(node: NodeModel, r: NodeRecord, d_head: usize, k: int)
    requires
        0 <= k < r.subnodes.len(),
    ensures
        ({
            let after = revived_node(node, r, d_head);
            let s = r.subnodes[k];
            let t = after.subnodes[k];
            &&& after.split_count == r.split_count
            &&& after.cumulative_sequence_len == r.cumulative_sequence_len
            &&& after.activation_count == r.activation_count
            &&& after.subnodes.len() == r.subnodes.len()
            &&& (NodeModel {
                split_count: node.split_count,
                cumulative_sequence_len: node.cumulative_sequence_len,
                activation_count: node.activation_count,
                subnodes: node.subnodes,
                ..after
            }) == node
            &&& t.subnode_id == s.subnode_id
            &&& t.w_gate == s.w_gate
            &&& t.w_up == s.w_up
            &&& t.w_down == s.w_down
            &&& t.alpha == s.alpha
            &&& t.activation_count == s.activation_count
            &&& t.credit_stats == s.credit_stats
            &&& t.health == s.health
            &&& t.cumulative_energy == Scalar::zero()
            &&& t.last_token_id is None
            &&& t.last_p_in.len() == d_head
            &&& t.last_prediction.len() == d_head
        }),
{
}

/// Applying a checkpoint takes over its configuration and touches nodes and links only. Whether
/// the network is training, how many nodes it has and where particles enter stay as they were.
/// A checkpoint without tables leaves the links alone.
pub proof fn law_applying_touches_nodes_and_links(
    before: ANNPModel,
    r: ModelRecord,
    after: ANNPModel,
    i: int,
)
    requires
        is_applied(before, r, after),
    ensures
        after.config == r.config,
        after.num_nodes == before.num_nodes,
        after.is_training == before.is_training,
        after.scattering.num_shards == before.scattering.num_shards,
        after.scattering.d_head == before.scattering.d_head,
        after.scattering.ingress_node_indices == before.scattering.ingress_node_indices,
        r.routing_tables.len() == 0 ==> after.topology.num_nodes == before.topology.num_nodes
            && after.topology.routing_tables@.len() == before.topology.routing_tables@.len(),
        r.routing_tables.len() == 0 && 0 <= i < before.topology.routing_tables@.len()
            ==> after.topology.routing_tables@[i]@ == before.topology.routing_tables@[i]@,
        r.routing_tables.len() > 0 ==> after.topology.routing_tables@.len() == r.routing_tables.len(),
        r.routing_tables.len() > 0 && 0 <= i < r.routing_tables.len()
            ==> after.topology.routing_tables@[i]@ == r.routing_tables[i],
{
    let (old_tables, new_tables) = (
        routing_models(before.topology.routing_tables@),
        routing_models(after.topology.routing_tables@),
    );
    assert(new_tables.len() == after.topology.routing_tables@.len());
    assert(old_tables.len() == before.topology.routing_tables@.len());
    if 0 <= i < new_tables.len() {
        assert(new_tables[i] == after.topology.routing_tables@[i]@);
    }
    if 0 <= i < old_tables.len() {
        assert(old_tables[i] == before.topology.routing_tables@[i]@);
    }
}

} // verus!
