//! What a written checkpoint reads back as.
use crate::bytes::{
    block_at, holds_at, le_block, lemma_block, lemma_holds_cut, lemma_holds_front, lemma_holds_split,
    lemma_long, lemma_word, scalars_at,
};
use crate::checkpoint::{
    checkpoint_bytes, checkpoint_of, config_bounds, head_bytes, indices_at, indices_bytes,
    legacy_node_at, magic, node_at, node_bytes, node_record, nodes_at, nodes_bytes, preamble_fits,
    preamble_of, route_at, route_bytes, routes_at, routes_bytes, subnode_at, subnode_bytes,
    subnodes_at, subnodes_bytes, CheckpointError, ModelRecord, NodeRecord, Preamble, SubnodeRecord,
    ANNPB_VERSION,
};
use crate::config::MicroBlockConfig;
use crate::metrics::OnlineStats;
use crate::scalar::Scalar;
use crate::topology::RoutingModel;
use crate::words::{le32, le64, long_at, word_at, WORD};
use vstd::prelude::*;

verus! {

broadcast use crate::words::group_word_sizes;

/// What the binary form keeps of a subnode.
pub open spec fn kept_subnode(s: SubnodeRecord, health: Scalar) -> SubnodeRecord {
    SubnodeRecord {
        credit_stats: OnlineStats { gamma: OnlineStats::standard().gamma, ..s.credit_stats },
        health,
        ..s
    }
}

/// What it keeps of a node.
pub open spec fn kept_node(r: NodeRecord, config: MicroBlockConfig) -> NodeRecord {
    node_record(
        r.node_id,
        r.split_count,
        r.cumulative_sequence_len,
        r.activation_count,
        r.subnodes.map_values(|s: SubnodeRecord| kept_subnode(s, config.health_base)),
        config,
    )
}

/// What it keeps of a routing table.
pub open spec fn kept_route(t: RoutingModel) -> RoutingModel {
    RoutingModel { edge_credit: Seq::empty(), ..t }
}

/// What it keeps of a checkpoint whose configuration is read back as `config`.
pub open spec fn kept(r: ModelRecord, config: MicroBlockConfig) -> ModelRecord {
    ModelRecord {
        config,
        nodes: r.nodes.map_values(|n: NodeRecord| kept_node(n, config)),
        routing_tables: r.routing_tables.map_values(|t: RoutingModel| kept_route(t)),
        ..r
    }
}

/// Every number of a subnode fits its field.
pub open spec fn subnode_fits(s: SubnodeRecord) -> bool {
    s.subnode_id < WORD && s.w_gate.len() < WORD && s.w_up.len() < WORD && s.w_down.len() < WORD
}

/// Every number of a node fits its field.
pub open spec fn node_fits(r: NodeRecord) -> bool {
    &&& r.node_id < WORD
    &&& r.subnodes.len() < WORD
    &&& forall|i: int| 0 <= i < r.subnodes.len() ==> subnode_fits(#[trigger] r.subnodes[i])
}

/// Every number of a routing table fits its field.
pub open spec fn route_fits(t: RoutingModel) -> bool {
    &&& t.d_head < WORD
    &&& t.neighbors.len() < WORD
    &&& t.weights.len() < WORD
    &&& forall|i: int| 0 <= i < t.neighbors.len() ==> (#[trigger] t.neighbors[i]) < WORD
}

/// Every number of a checkpoint fits its field.
pub open spec fn record_fits(r: ModelRecord) -> bool {
    &&& r.stage_completed < WORD
    &&& r.epoch_completed < WORD
    &&& r.nodes.len() < WORD
    &&& r.routing_tables.len() < WORD
    &&& forall|i: int| 0 <= i < r.nodes.len() ==> node_fits(#[trigger] r.nodes[i])
    &&& forall|i: int| 0 <= i < r.routing_tables.len() ==> route_fits(#[trigger] r.routing_tables[i])
}

proof fn lemma_subnode(data: Seq<u8>, pos: int, s: SubnodeRecord, health: Scalar)
    requires
        holds_at(data, pos, subnode_bytes(s)),
        subnode_fits(s),
    ensures
        subnode_at(data, pos, 4, health) == Some(
            (kept_subnode(s, health), pos + subnode_bytes(s).len()),
        ),
{
    let b9 = le_block(s.w_down);
    let b8 = le_block(s.w_up) + b9;
    let b7 = le_block(s.w_gate) + b8;
    let b6 = le32(s.credit_stats.m2.bits as int) + b7;
    let b5 = le32(s.credit_stats.mean.bits as int) + b6;
    let b4 = le32(s.credit_stats.count.bits as int) + b5;
    let b3 = le64(s.activation_count as int) + b4;
    let b2 = le32(s.alpha.bits as int) + b3;
    lemma_holds_split(data, pos, le32(s.subnode_id as int), b2);
    lemma_holds_split(data, pos + 4, le32(s.alpha.bits as int), b3);
    lemma_holds_split(data, pos + 8, le64(s.activation_count as int), b4);
    lemma_holds_split(data, pos + 16, le32(s.credit_stats.count.bits as int), b5);
    lemma_holds_split(data, pos + 20, le32(s.credit_stats.mean.bits as int), b6);
    lemma_holds_split(data, pos + 24, le32(s.credit_stats.m2.bits as int), b7);
    lemma_word(data, pos, s.subnode_id as int);
    lemma_word(data, pos + 4, s.alpha.bits as int);
    lemma_long(data, pos + 8, s.activation_count);
    lemma_word(data, pos + 16, s.credit_stats.count.bits as int);
    lemma_word(data, pos + 20, s.credit_stats.mean.bits as int);
    lemma_word(data, pos + 24, s.credit_stats.m2.bits as int);
    lemma_holds_split(data, pos + 28, le_block(s.w_gate), b8);
    lemma_block(data, pos + 28, s.w_gate);
    let p1 = pos + 28 + 4 + 4 * s.w_gate.len();
    lemma_holds_split(data, p1, le_block(s.w_up), b9);
    lemma_block(data, p1, s.w_up);
    let p2 = p1 + 4 + 4 * s.w_up.len();
    lemma_block(data, p2, s.w_down);
}

proof fn lemma_subnodes(data: Seq<u8>, pos: int, list: Seq<SubnodeRecord>, n: int, health: Scalar)
    requires
        0 <= n <= list.len(),
        holds_at(data, pos, subnodes_bytes(list, n)),
        forall|i: int| 0 <= i < list.len() ==> subnode_fits(#[trigger] list[i]),
    ensures
        subnodes_at(data, pos, 4, health, n) == Some(
            (
                list.take(n).map_values(|s: SubnodeRecord| kept_subnode(s, health)),
                pos + subnodes_bytes(list, n).len(),
            ),
        ),
    decreases n,
{
    let f = |s: SubnodeRecord| kept_subnode(s, health);
    if n > 0 {
        lemma_holds_split(data, pos, subnodes_bytes(list, n - 1), subnode_bytes(list[n - 1]));
        lemma_subnodes(data, pos, list, n - 1, health);
        lemma_subnode(data, pos + subnodes_bytes(list, n - 1).len(), list[n - 1], health);
        assert(list.take(n).map_values(f) =~= list.take(n - 1).map_values(f).push(f(list[n - 1])));
    } else {
        assert(list.take(0).map_values(f) =~= Seq::empty());
    }
}

proof fn lemma_node(data: Seq<u8>, pos: int, r: NodeRecord, config: MicroBlockConfig)
    requires
        holds_at(data, pos, node_bytes(r)),
        node_fits(r),
    ensures
        node_at(data, pos, 4, config) == Some((kept_node(r, config), pos + node_bytes(r).len())),
{
    let n = r.subnodes.len() as int;
    let b6 = subnodes_bytes(r.subnodes, n);
    let b5 = le32(n) + b6;
    let b4 = le64(r.activation_count as int) + b5;
    let b3 = le64(r.cumulative_sequence_len as int) + b4;
    let b2 = le32(r.split_count as int) + b3;
    lemma_holds_split(data, pos, le32(r.node_id as int), b2);
    lemma_holds_split(data, pos + 4, le32(r.split_count as int), b3);
    lemma_holds_split(data, pos + 8, le64(r.cumulative_sequence_len as int), b4);
    lemma_holds_split(data, pos + 16, le64(r.activation_count as int), b5);
    lemma_holds_split(data, pos + 24, le32(n), b6);
    lemma_word(data, pos, r.node_id as int);
    lemma_word(data, pos + 4, r.split_count as int);
    lemma_long(data, pos + 8, r.cumulative_sequence_len);
    lemma_long(data, pos + 16, r.activation_count);
    lemma_word(data, pos + 24, n);
    lemma_subnodes(data, pos + 28, r.subnodes, n, config.health_base);
    assert(r.subnodes.take(n) =~= r.subnodes);
}

proof fn lemma_nodes(data: Seq<u8>, pos: int, list: Seq<NodeRecord>, n: int, config: MicroBlockConfig)
    requires
        0 <= n <= list.len(),
        holds_at(data, pos, nodes_bytes(list, n)),
        forall|i: int| 0 <= i < list.len() ==> node_fits(#[trigger] list[i]),
    ensures
        nodes_at(data, pos, 4, config, n) == Some(
            (
                list.take(n).map_values(|r: NodeRecord| kept_node(r, config)),
                pos + nodes_bytes(list, n).len(),
            ),
        ),
    decreases n,
{
    let f = |r: NodeRecord| kept_node(r, config);
    if n > 0 {
        lemma_holds_split(data, pos, nodes_bytes(list, n - 1), node_bytes(list[n - 1]));
        lemma_nodes(data, pos, list, n - 1, config);
        lemma_node(data, pos + nodes_bytes(list, n - 1).len(), list[n - 1], config);
        assert(list.take(n).map_values(f) =~= list.take(n - 1).map_values(f).push(f(list[n - 1])));
    } else {
        assert(list.take(0).map_values(f) =~= Seq::empty());
    }
}

proof fn lemma_indices(data: Seq<u8>, pos: int, list: Seq<usize>, n: int)
    requires
        0 <= n <= list.len(),
        holds_at(data, pos, indices_bytes(list, n)),
        forall|i: int| 0 <= i < list.len() ==> (#[trigger] list[i]) < WORD,
    ensures
        indices_at(data, pos, n) == list.take(n),
        indices_bytes(list, n).len() == 4 * n,
    decreases n,
{
    if n > 0 {
        lemma_holds_split(data, pos, indices_bytes(list, n - 1), le32(list[n - 1] as int));
        lemma_indices(data, pos, list, n - 1);
        lemma_word(data, pos + 4 * (n - 1), list[n - 1] as int);
        assert(indices_at(data, pos, n) =~= indices_at(data, pos, n - 1).push(list[n - 1]));
        assert(list.take(n) =~= list.take(n - 1).push(list[n - 1]));
    } else {
        assert(indices_at(data, pos, n) =~= list.take(n));
    }
}

proof fn lemma_route(data: Seq<u8>, pos: int, t: RoutingModel)
    requires
        holds_at(data, pos, route_bytes(t)),
        route_fits(t),
    ensures
        route_at(data, pos) == Some((kept_route(t), pos + route_bytes(t).len())),
{
    let n = t.neighbors.len() as int;
    let b4 = le_block(t.weights);
    let b3 = indices_bytes(t.neighbors, n) + b4;
    let b2 = le32(n) + b3;
    lemma_holds_split(data, pos, le32(t.d_head as int), b2);
    lemma_holds_split(data, pos + 4, le32(n), b3);
    lemma_holds_split(data, pos + 8, indices_bytes(t.neighbors, n), b4);
    lemma_word(data, pos, t.d_head as int);
    lemma_word(data, pos + 4, n);
    lemma_indices(data, pos + 8, t.neighbors, n);
    lemma_block(data, pos + 8 + 4 * n, t.weights);
    assert(t.neighbors.take(n) =~= t.neighbors);
}

proof fn lemma_routes(data: Seq<u8>, pos: int, list: Seq<RoutingModel>, n: int)
    requires
        0 <= n <= list.len(),
        holds_at(data, pos, routes_bytes(list, n)),
        forall|i: int| 0 <= i < list.len() ==> route_fits(#[trigger] list[i]),
    ensures
        routes_at(data, pos, n) == Some(
            (
                list.take(n).map_values(|t: RoutingModel| kept_route(t)),
                pos + routes_bytes(list, n).len(),
            ),
        ),
    decreases n,
{
    let f = |t: RoutingModel| kept_route(t);
    if n > 0 {
        lemma_holds_split(data, pos, routes_bytes(list, n - 1), route_bytes(list[n - 1]));
        lemma_routes(data, pos, list, n - 1);
        lemma_route(data, pos + routes_bytes(list, n - 1).len(), list[n - 1]);
        assert(list.take(n).map_values(f) =~= list.take(n - 1).map_values(f).push(f(list[n - 1])));
    } else {
        assert(list.take(0).map_values(f) =~= Seq::empty());
    }
}

proof fn lemma_head(data: Seq<u8>, r: ModelRecord, config_json: Seq<u8>)
    requires
        holds_at(data, 0, head_bytes(r, config_json)),
        record_fits(r),
        config_json.len() < WORD,
        data.len() <= usize::MAX,
    ensures
        preamble_of(data) == Ok::<Preamble, CheckpointError>(
            Preamble {
                version: ANNPB_VERSION,
                stage_completed: r.stage_completed,
                epoch_completed: r.epoch_completed,
                config_start: 20,
                config_end: (20 + config_json.len()) as usize,
                num_nodes: r.nodes.len() as usize,
                num_routes: r.routing_tables.len() as usize,
            },
        ),
        head_bytes(r, config_json).len() == 28 + config_json.len(),
        data.subrange(20, 20 + config_json.len() as int) == config_json,
{
    let n = config_json.len() as int;
    let b8 = le32(r.routing_tables.len() as int);
    let b7 = le32(r.nodes.len() as int) + b8;
    let b6 = config_json + b7;
    let b5 = le32(n) + b6;
    let b4 = le32(r.epoch_completed as int) + b5;
    let b3 = le32(r.stage_completed as int) + b4;
    let b2 = le32(ANNPB_VERSION as int) + b3;
    lemma_holds_split(data, 0, magic(), b2);
    lemma_holds_split(data, 4, le32(ANNPB_VERSION as int), b3);
    lemma_holds_split(data, 8, le32(r.stage_completed as int), b4);
    lemma_holds_split(data, 12, le32(r.epoch_completed as int), b5);
    lemma_holds_split(data, 16, le32(n), b6);
    lemma_holds_split(data, 20, config_json, b7);
    lemma_holds_split(data, 20 + n, le32(r.nodes.len() as int), b8);
    lemma_word(data, 4, ANNPB_VERSION as int);
    lemma_word(data, 8, r.stage_completed as int);
    lemma_word(data, 12, r.epoch_completed as int);
    lemma_word(data, 16, n);
    lemma_word(data, 20 + n, r.nodes.len() as int);
    lemma_word(data, 24 + n, r.routing_tables.len() as int);
    lemma_holds_cut(data, 0, magic());
    lemma_holds_cut(data, 20, config_json);
}

/// A checkpoint reads back as it was written, whatever bytes follow it: stages, nodes,
/// subnodes, weights, credit and links. The configuration stands where the preamble says.
/// What the binary form does not carry is as in a fresh network.
pub proof fn law_read_back(
    r: ModelRecord,
    config_json: Seq<u8>,
    tail: Seq<u8>,
    config: MicroBlockConfig,
)
    requires
        record_fits(r),
        config_json.len() < WORD,
        (checkpoint_bytes(r, config_json) + tail).len() <= usize::MAX,
    ensures
        checkpoint_of(checkpoint_bytes(r, config_json) + tail, config) == Ok::<
            ModelRecord,
            CheckpointError,
        >(kept(r, config)),
        preamble_of(checkpoint_bytes(r, config_json) + tail) matches Ok(p) && (checkpoint_bytes(
            r,
            config_json,
        ) + tail).subrange(p.config_start as int, p.config_end as int) == config_json,
{
    let data = checkpoint_bytes(r, config_json) + tail;
    let n = r.nodes.len() as int;
    let m = r.routing_tables.len() as int;
    let body = nodes_bytes(r.nodes, n);
    let links = routes_bytes(r.routing_tables, m);
    lemma_holds_front(checkpoint_bytes(r, config_json), tail);
    lemma_holds_split(data, 0, head_bytes(r, config_json), body + links);
    lemma_head(data, r, config_json);
    let p0 = 28 + config_json.len() as int;
    lemma_holds_split(data, p0, body, links);
    lemma_nodes(data, p0, r.nodes, n, config);
    lemma_routes(data, p0 + body.len(), r.routing_tables, m);
    assert(r.nodes.take(n) =~= r.nodes);
    assert(r.routing_tables.take(m) =~= r.routing_tables);
}

/// Bytes that do not begin with the magic bytes are refused as such.
pub proof fn law_foreign_bytes_are_refused(data: Seq<u8>, config: MicroBlockConfig)
    requires
        data.len() >= 4,
        data.take(4) != magic(),
    ensures
        checkpoint_of(data, config) == Err::<ModelRecord, CheckpointError>(
            CheckpointError::InvalidMagic,
        ),
{
}

// ---------------------------------------------------------------------------
// Files cut short
// ---------------------------------------------------------------------------

/// `cut` is the front of `data`.
pub open spec fn is_front(cut: Seq<u8>, data: Seq<u8>) -> bool {
    cut.len() <= data.len() && cut == data.take(cut.len() as int)
}

proof fn lemma_front_word(cut: Seq<u8>, data: Seq<u8>, pos: int)
    requires
        is_front(cut, data),
        0 <= pos,
        pos + 4 <= cut.len(),
    ensures
        word_at(cut, pos) == word_at(data, pos),
{
    reveal(word_at);
}

proof fn lemma_front_long(cut: Seq<u8>, data: Seq<u8>, pos: int)
    requires
        is_front(cut, data),
        0 <= pos,
        pos + 8 <= cut.len(),
    ensures
        long_at(cut, pos) == long_at(data, pos),
{
    reveal(long_at);
    lemma_front_word(cut, data, pos);
    lemma_front_word(cut, data, pos + 4);
}

proof fn lemma_front_block(cut: Seq<u8>, data: Seq<u8>, pos: int)
    requires
        is_front(cut, data),
        0 <= pos,
        block_at(cut, pos) is Some,
    ensures
        block_at(data, pos) == block_at(cut, pos),
        pos <= block_at(cut, pos).unwrap().1 <= cut.len(),
{
    lemma_front_word(cut, data, pos);
    let n = word_at(cut, pos) as nat;
    let here = scalars_at(cut, pos + 4, n);
    let there = scalars_at(data, pos + 4, n);
    assert forall|i: int| 0 <= i < n implies #[trigger] here[i] == there[i] by {
        lemma_front_word(cut, data, pos + 4 + 4 * i);
    }
    assert(here =~= there);
}

proof fn lemma_front_subnode(cut: Seq<u8>, data: Seq<u8>, pos: int, version: int, health: Scalar)
    requires
        is_front(cut, data),
        0 <= pos,
        subnode_at(cut, pos, version, health) is Some,
    ensures
        subnode_at(data, pos, version, health) == subnode_at(cut, pos, version, health),
        pos <= subnode_at(cut, pos, version, health).unwrap().1 <= cut.len(),
{
    let head = if version >= 4 {
        28int
    } else {
        16
    };
    lemma_front_block(cut, data, pos + head);
    let p1 = block_at(cut, pos + head).unwrap().1;
    lemma_front_block(cut, data, p1);
    let p2 = block_at(cut, p1).unwrap().1;
    lemma_front_block(cut, data, p2);
    lemma_front_word(cut, data, pos);
    lemma_front_word(cut, data, pos + 4);
    lemma_front_long(cut, data, pos + 8);
    if version >= 4 {
        lemma_front_word(cut, data, pos + 16);
        lemma_front_word(cut, data, pos + 20);
        lemma_front_word(cut, data, pos + 24);
    }
}

proof fn lemma_front_subnodes(
    cut: Seq<u8>,
    data: Seq<u8>,
    pos: int,
    version: int,
    health: Scalar,
    n: int,
)
    requires
        is_front(cut, data),
        0 <= pos <= cut.len(),
        subnodes_at(cut, pos, version, health, n) is Some,
    ensures
        subnodes_at(data, pos, version, health, n) == subnodes_at(cut, pos, version, health, n),
        pos <= subnodes_at(cut, pos, version, health, n).unwrap().1 <= cut.len(),
    decreases n,
{
    if n > 0 {
        lemma_front_subnodes(cut, data, pos, version, health, n - 1);
        let p = subnodes_at(cut, pos, version, health, n - 1).unwrap().1;
        lemma_front_subnode(cut, data, p, version, health);
    }
}

proof fn lemma_front_node(cut: Seq<u8>, data: Seq<u8>, pos: int, version: int, config: MicroBlockConfig)
    requires
        is_front(cut, data),
        0 <= pos,
        node_at(cut, pos, version, config) is Some,
    ensures
        node_at(data, pos, version, config) == node_at(cut, pos, version, config),
        pos <= node_at(cut, pos, version, config).unwrap().1 <= cut.len(),
{
    lemma_front_word(cut, data, pos);
    lemma_front_word(cut, data, pos + 4);
    lemma_front_long(cut, data, pos + 8);
    lemma_front_long(cut, data, pos + 16);
    lemma_front_word(cut, data, pos + 24);
    lemma_front_subnodes(
        cut,
        data,
        pos + 28,
        version,
        config.health_base,
        word_at(cut, pos + 24),
    );
}

proof fn lemma_front_legacy_node(
    cut: Seq<u8>,
    data: Seq<u8>,
    pos: int,
    version: int,
    config: MicroBlockConfig,
)
    requires
        is_front(cut, data),
        0 <= pos,
        legacy_node_at(cut, pos, version, config) is Some,
    ensures
        legacy_node_at(data, pos, version, config) == legacy_node_at(cut, pos, version, config),
        pos <= legacy_node_at(cut, pos, version, config).unwrap().1 <= cut.len(),
{
    let head = if version >= 2 {
        24int
    } else {
        16
    };
    lemma_front_block(cut, data, pos + head);
    let p1 = block_at(cut, pos + head).unwrap().1;
    lemma_front_block(cut, data, p1);
    let p2 = block_at(cut, p1).unwrap().1;
    lemma_front_block(cut, data, p2);
    lemma_front_word(cut, data, pos);
    lemma_front_word(cut, data, pos + 4);
    lemma_front_long(cut, data, pos + 8);
    if version >= 2 {
        lemma_front_long(cut, data, pos + 16);
    }
}

proof fn lemma_front_nodes(
    cut: Seq<u8>,
    data: Seq<u8>,
    pos: int,
    version: int,
    config: MicroBlockConfig,
    n: int,
)
    requires
        is_front(cut, data),
        0 <= pos <= cut.len(),
        nodes_at(cut, pos, version, config, n) is Some,
    ensures
        nodes_at(data, pos, version, config, n) == nodes_at(cut, pos, version, config, n),
        pos <= nodes_at(cut, pos, version, config, n).unwrap().1 <= cut.len(),
    decreases n,
{
    if n > 0 {
        lemma_front_nodes(cut, data, pos, version, config, n - 1);
        let p = nodes_at(cut, pos, version, config, n - 1).unwrap().1;
        if version >= 3 {
            lemma_front_node(cut, data, p, version, config);
        } else {
            lemma_front_legacy_node(cut, data, p, version, config);
        }
    }
}

proof fn lemma_front_route(cut: Seq<u8>, data: Seq<u8>, pos: int)
    requires
        is_front(cut, data),
        0 <= pos,
        route_at(cut, pos) is Some,
    ensures
        route_at(data, pos) == route_at(cut, pos),
        pos <= route_at(cut, pos).unwrap().1 <= cut.len(),
{
    lemma_front_word(cut, data, pos);
    lemma_front_word(cut, data, pos + 4);
    let n = word_at(cut, pos + 4);
    lemma_front_block(cut, data, pos + 8 + 4 * n);
    let here = indices_at(cut, pos + 8, n);
    let there = indices_at(data, pos + 8, n);
    assert forall|i: int| 0 <= i < n implies #[trigger] here[i] == there[i] by {
        lemma_front_word(cut, data, pos + 8 + 4 * i);
    }
    assert(here =~= there);
}

proof fn lemma_front_routes(cut: Seq<u8>, data: Seq<u8>, pos: int, n: int)
    requires
        is_front(cut, data),
        0 <= pos <= cut.len(),
        routes_at(cut, pos, n) is Some,
    ensures
        routes_at(data, pos, n) == routes_at(cut, pos, n),
        pos <= routes_at(cut, pos, n).unwrap().1 <= cut.len(),
    decreases n,
{
    if n > 0 {
        lemma_front_routes(cut, data, pos, n - 1);
        let p = routes_at(cut, pos, n - 1).unwrap().1;
        lemma_front_route(cut, data, p);
    }
}

/// Where the last record of a file ends.
pub open spec fn records_end(data: Seq<u8>, config: MicroBlockConfig) -> int {
    match preamble_of(data) {
        Err(_) => 0,
        Ok(p) => match nodes_at(
            data,
            p.config_end + 8,
            p.version as int,
            config,
            p.num_nodes as int,
        ) {
            None => 0,
            Some((_, at)) => match routes_at(data, at, p.num_routes as int) {
                None => 0,
                Some((_, end)) => end,
            },
        },
    }
}

/// Whatever file loads, of whatever version, is refused as incomplete when it is cut before
/// the end of its last record.
pub proof fn law_cut_is_refused(data: Seq<u8>, len: int, config: MicroBlockConfig)
    requires
        checkpoint_of(data, config) is Ok,
        data.len() <= usize::MAX,
        0 <= len < records_end(data, config),
    ensures
        records_end(data, config) <= data.len(),
        checkpoint_of(data.take(len), config) == Err::<ModelRecord, CheckpointError>(
            CheckpointError::UnexpectedEof,
        ),
{
    let cut = data.take(len);
    let p = preamble_of(data)->Ok_0;
    let p0 = p.config_end + 8;
    let v = p.version as int;
    let n = p.num_nodes as int;
    let m = p.num_routes as int;
    let at = nodes_at(data, p0, v, config, n).unwrap().1;
    assert(data.take(data.len() as int) =~= data);
    lemma_front_nodes(data, data, p0, v, config, n);
    lemma_front_routes(data, data, at, m);
    if len >= 4 {
        assert(cut.take(4) =~= data.take(4));
        if len >= 16 {
            lemma_front_word(cut, data, 4);
            lemma_front_word(cut, data, 8);
            lemma_front_word(cut, data, 12);
            if len >= 20 {
                lemma_front_word(cut, data, 16);
            }
        }
        if preamble_fits(cut) {
            let stop = config_bounds(cut).1;
            lemma_front_word(cut, data, stop);
            lemma_front_word(cut, data, stop + 4);
            assert(preamble_of(cut) == preamble_of(data));
            if nodes_at(cut, p0, v, config, n) is Some {
                lemma_front_nodes(cut, data, p0, v, config, n);
                if routes_at(cut, at, m) is Some {
                    lemma_front_routes(cut, data, at, m);
                    assert(false);
                }
            }
        }
    }
}

/// A written checkpoint that is cut short anywhere is refused as incomplete.
pub proof fn law_written_cut_is_refused(
    r: ModelRecord,
    config_json: Seq<u8>,
    len: int,
    config: MicroBlockConfig,
)
    requires
        record_fits(r),
        config_json.len() < WORD,
        checkpoint_bytes(r, config_json).len() <= usize::MAX,
        0 <= len < checkpoint_bytes(r, config_json).len(),
    ensures
        checkpoint_of(checkpoint_bytes(r, config_json).take(len), config) == Err::<
            ModelRecord,
            CheckpointError,
        >(CheckpointError::UnexpectedEof),
{
    let data = checkpoint_bytes(r, config_json);
    let n = r.nodes.len() as int;
    let m = r.routing_tables.len() as int;
    let body = nodes_bytes(r.nodes, n);
    let links = routes_bytes(r.routing_tables, m);
    lemma_holds_front(data, Seq::empty());
    assert(data + Seq::<u8>::empty() =~= data);
    lemma_holds_split(data, 0, head_bytes(r, config_json), body + links);
    lemma_head(data, r, config_json);
    let p0 = 28 + config_json.len() as int;
    lemma_holds_split(data, p0, body, links);
    lemma_nodes(data, p0, r.nodes, n, config);
    lemma_routes(data, p0 + body.len(), r.routing_tables, m);
    law_cut_is_refused(data, len, config);
}

// ---------------------------------------------------------------------------
// Where everything stands
// ---------------------------------------------------------------------------

/// In what is written for a subnode its number comes first, then its scale, its activations,
/// the count, mean and sum of squares of its credit, and its three matrices, each with its
/// length in front.
pub proof fn law_layout_of_a_subnode(s: SubnodeRecord, i: int)
    requires
        subnode_fits(s),
        0 <= i,
    ensures
        ({
            let b = subnode_bytes(s);
            let up = 32 + 4 * s.w_gate.len();
            let down = up + 4 + 4 * s.w_up.len();
            &&& word_at(b, 0) == s.subnode_id
            &&& word_at(b, 4) == s.alpha.bits
            &&& long_at(b, 8) == s.activation_count
            &&& word_at(b, 16) == s.credit_stats.count.bits
            &&& word_at(b, 20) == s.credit_stats.mean.bits
            &&& word_at(b, 24) == s.credit_stats.m2.bits
            &&& word_at(b, 28) == s.w_gate.len()
            &&& i < s.w_gate.len() ==> word_at(b, 32 + 4 * i) == s.w_gate[i].bits
            &&& word_at(b, up as int) == s.w_up.len()
            &&& i < s.w_up.len() ==> word_at(b, up + 4 + 4 * i) == s.w_up[i].bits
            &&& word_at(b, down as int) == s.w_down.len()
            &&& i < s.w_down.len() ==> word_at(b, down + 4 + 4 * i) == s.w_down[i].bits
            &&& b.len() == down + 4 + 4 * s.w_down.len()
        }),
{
    let data = subnode_bytes(s);
    lemma_holds_front(data, Seq::empty());
    assert(data + Seq::<u8>::empty() =~= data);
    let b9 = le_block(s.w_down);
    let b8 = le_block(s.w_up) + b9;
    let b7 = le_block(s.w_gate) + b8;
    let b6 = le32(s.credit_stats.m2.bits as int) + b7;
    let b5 = le32(s.credit_stats.mean.bits as int) + b6;
    let b4 = le32(s.credit_stats.count.bits as int) + b5;
    let b3 = le64(s.activation_count as int) + b4;
    let b2 = le32(s.alpha.bits as int) + b3;
    lemma_holds_split(data, 0, le32(s.subnode_id as int), b2);
    lemma_holds_split(data, 4, le32(s.alpha.bits as int), b3);
    lemma_holds_split(data, 8, le64(s.activation_count as int), b4);
    lemma_holds_split(data, 16, le32(s.credit_stats.count.bits as int), b5);
    lemma_holds_split(data, 20, le32(s.credit_stats.mean.bits as int), b6);
    lemma_holds_split(data, 24, le32(s.credit_stats.m2.bits as int), b7);
    lemma_word(data, 0, s.subnode_id as int);
    lemma_word(data, 4, s.alpha.bits as int);
    lemma_long(data, 8, s.activation_count);
    lemma_word(data, 16, s.credit_stats.count.bits as int);
    lemma_word(data, 20, s.credit_stats.mean.bits as int);
    lemma_word(data, 24, s.credit_stats.m2.bits as int);
    lemma_holds_split(data, 28, le_block(s.w_gate), b8);
    lemma_layout_of_a_block(data, 28, s.w_gate, i);
    let p1 = 28int + 4 + 4 * s.w_gate.len();
    lemma_holds_split(data, p1, le_block(s.w_up), b9);
    lemma_layout_of_a_block(data, p1, s.w_up, i);
    let p2 = p1 + 4 + 4 * s.w_up.len();
    lemma_layout_of_a_block(data, p2, s.w_down, i);
}

proof fn lemma_layout_of_a_block(data: Seq<u8>, pos: int, values: Seq<Scalar>, i: int)
    requires
        holds_at(data, pos, le_block(values)),
        values.len() < WORD,
        0 <= i,
    ensures
        word_at(data, pos) == values.len(),
        i < values.len() ==> word_at(data, pos + 4 + 4 * i) == values[i].bits,
        le_block(values).len() == 4 + 4 * values.len(),
{
    lemma_block(data, pos, values);
    assert(scalars_at(data, pos + 4, values.len()) == values);
    if i < values.len() {
        assert(scalars_at(data, pos + 4, values.len())[i].bits == word_at(data, pos + 4 + 4 * i) as u32);
    }
}

/// In what is written for a node its number comes first, then how often it divided, how long
/// the sequences were that it saw, its activations, the number of its subnodes, and those one
/// after the other.
pub proof fn law_layout_of_a_node(r: NodeRecord, list: Seq<SubnodeRecord>, s: SubnodeRecord)
    requires
        node_fits(r),
    ensures
        word_at(node_bytes(r), 0) == r.node_id,
        word_at(node_bytes(r), 4) == r.split_count,
        long_at(node_bytes(r), 8) == r.cumulative_sequence_len,
        long_at(node_bytes(r), 16) == r.activation_count,
        word_at(node_bytes(r), 24) == r.subnodes.len(),
        node_bytes(r).skip(28) == subnodes_bytes(r.subnodes, r.subnodes.len() as int),
        subnodes_bytes(list.push(s), list.len() as int + 1) == subnodes_bytes(list, list.len() as int)
            + subnode_bytes(s),
        subnodes_bytes(Seq::empty(), 0).len() == 0,
{
    let data = node_bytes(r);
    lemma_holds_front(data, Seq::empty());
    assert(data + Seq::<u8>::empty() =~= data);
    let n = r.subnodes.len() as int;
    let b6 = subnodes_bytes(r.subnodes, n);
    let b5 = le32(n) + b6;
    let b4 = le64(r.activation_count as int) + b5;
    let b3 = le64(r.cumulative_sequence_len as int) + b4;
    let b2 = le32(r.split_count as int) + b3;
    lemma_holds_split(data, 0, le32(r.node_id as int), b2);
    lemma_holds_split(data, 4, le32(r.split_count as int), b3);
    lemma_holds_split(data, 8, le64(r.cumulative_sequence_len as int), b4);
    lemma_holds_split(data, 16, le64(r.activation_count as int), b5);
    lemma_holds_split(data, 24, le32(n), b6);
    lemma_word(data, 0, r.node_id as int);
    lemma_word(data, 4, r.split_count as int);
    lemma_long(data, 8, r.cumulative_sequence_len);
    lemma_long(data, 16, r.activation_count);
    lemma_word(data, 24, n);
    lemma_holds_cut(data, 28, b6);
    assert(data.skip(28) =~= b6);
    lemma_same_subnodes(list.push(s), list, list.len() as int);
}

proof fn lemma_same_subnodes(a: Seq<SubnodeRecord>, b: Seq<SubnodeRecord>, n: int)
    requires
        0 <= n <= a.len(),
        n <= b.len(),
        forall|i: int| 0 <= i < n ==> #[trigger] a[i] == b[i],
    ensures
        subnodes_bytes(a, n) == subnodes_bytes(b, n),
    decreases n,
{
    if n > 0 {
        lemma_same_subnodes(a, b, n - 1);
        assert(a[n - 1] == b[n - 1]);
    }
}

/// In what is written for a routing table the size of a node's values comes first, then the
/// number of its neighbors, the neighbors, and the weights with their length in front. Credit
/// is not written.
pub proof fn law_layout_of_a_table(t: RoutingModel, i: int)
    requires
        route_fits(t),
        0 <= i,
    ensures
        ({
            let b = route_bytes(t);
            let w = 8 + 4 * t.neighbors.len();
            &&& word_at(b, 0) == t.d_head
            &&& word_at(b, 4) == t.neighbors.len()
            &&& i < t.neighbors.len() ==> word_at(b, 8 + 4 * i) == t.neighbors[i]
            &&& word_at(b, w as int) == t.weights.len()
            &&& i < t.weights.len() ==> word_at(b, w + 4 + 4 * i) == t.weights[i].bits
            &&& b.len() == w + 4 + 4 * t.weights.len()
        }),
{
    let data = route_bytes(t);
    lemma_holds_front(data, Seq::empty());
    assert(data + Seq::<u8>::empty() =~= data);
    let n = t.neighbors.len() as int;
    let b4 = le_block(t.weights);
    let b3 = indices_bytes(t.neighbors, n) + b4;
    let b2 = le32(n) + b3;
    lemma_holds_split(data, 0, le32(t.d_head as int), b2);
    lemma_holds_split(data, 4, le32(n), b3);
    lemma_holds_split(data, 8, indices_bytes(t.neighbors, n), b4);
    lemma_word(data, 0, t.d_head as int);
    lemma_word(data, 4, n);
    lemma_indices(data, 8, t.neighbors, n);
    lemma_layout_of_a_block(data, 8 + 4 * n, t.weights, i);
    if i < n {
        assert(t.neighbors.take(n) =~= t.neighbors);
        assert(indices_at(data, 8, n)[i] == word_at(data, 8 + 4 * i) as usize);
    }
}

/// A file begins with the letters ANNP and the number of its version, four. Stage, epoch and
/// the length of the configuration follow, the configuration itself, the numbers of nodes and
/// of routing tables, and then those, the nodes first.
pub proof fn law_layout_of_a_file(r: ModelRecord, config_json: Seq<u8>)
    requires
        record_fits(r),
        config_json.len() < WORD,
        checkpoint_bytes(r, config_json).len() <= usize::MAX,
    ensures
        ({
            let b = checkpoint_bytes(r, config_json);
            let n = config_json.len() as int;
            &&& b[0] as char == 'A' && b[1] as char == 'N' && b[2] as char == 'N' && b[3] as char
                == 'P'
            &&& word_at(b, 4) == 4
            &&& word_at(b, 8) == r.stage_completed
            &&& word_at(b, 12) == r.epoch_completed
            &&& word_at(b, 16) == n
            &&& b.subrange(20, 20 + n) == config_json
            &&& word_at(b, 20 + n) == r.nodes.len()
            &&& word_at(b, 24 + n) == r.routing_tables.len()
            &&& b.skip(28 + n) == nodes_bytes(r.nodes, r.nodes.len() as int) + routes_bytes(
                r.routing_tables,
                r.routing_tables.len() as int,
            )
        }),
{
    let data = checkpoint_bytes(r, config_json);
    let n = config_json.len() as int;
    let rest = nodes_bytes(r.nodes, r.nodes.len() as int) + routes_bytes(
        r.routing_tables,
        r.routing_tables.len() as int,
    );
    lemma_holds_front(data, Seq::empty());
    assert(data + Seq::<u8>::empty() =~= data);
    lemma_holds_split(data, 0, head_bytes(r, config_json), rest);
    let b8 = le32(r.routing_tables.len() as int);
    let b7 = le32(r.nodes.len() as int) + b8;
    let b6 = config_json + b7;
    let b5 = le32(n) + b6;
    let b4 = le32(r.epoch_completed as int) + b5;
    let b3 = le32(r.stage_completed as int) + b4;
    let b2 = le32(4) + b3;
    lemma_holds_split(data, 0, magic(), b2);
    lemma_holds_split(data, 4, le32(4), b3);
    lemma_holds_split(data, 8, le32(r.stage_completed as int), b4);
    lemma_holds_split(data, 12, le32(r.epoch_completed as int), b5);
    lemma_holds_split(data, 16, le32(n), b6);
    lemma_holds_split(data, 20, config_json, b7);
    lemma_holds_split(data, 20 + n, le32(r.nodes.len() as int), b8);
    lemma_word(data, 4, 4);
    lemma_word(data, 8, r.stage_completed as int);
    lemma_word(data, 12, r.epoch_completed as int);
    lemma_word(data, 16, n);
    lemma_word(data, 20 + n, r.nodes.len() as int);
    lemma_word(data, 24 + n, r.routing_tables.len() as int);
    lemma_holds_cut(data, 0, magic());
    lemma_holds_cut(data, 20, config_json);
    lemma_holds_cut(data, 28 + n, rest);
    assert(data.skip(28 + n) =~= rest);
    let m = data.subrange(0, 4);
    assert(m[0] == data[0] && m[1] == data[1] && m[2] == data[2] && m[3] == data[3]);
}

/// Records follow each other in their order, nodes as tables.
pub proof fn law_records_follow_each_other(
    nodes: Seq<NodeRecord>,
    r: NodeRecord,
    tables: Seq<RoutingModel>,
    t: RoutingModel,
)
    ensures
        nodes_bytes(Seq::empty(), 0).len() == 0,
        nodes_bytes(nodes.push(r), nodes.len() as int + 1) == nodes_bytes(nodes, nodes.len() as int)
            + node_bytes(r),
        routes_bytes(Seq::empty(), 0).len() == 0,
        routes_bytes(tables.push(t), tables.len() as int + 1) == routes_bytes(
            tables,
            tables.len() as int,
        ) + route_bytes(t),
{
    lemma_same_nodes(nodes.push(r), nodes, nodes.len() as int);
    lemma_same_tables(tables.push(t), tables, tables.len() as int);
}

proof fn lemma_same_nodes(a: Seq<NodeRecord>, b: Seq<NodeRecord>, n: int)
    requires
        0 <= n <= a.len(),
        n <= b.len(),
        forall|i: int| 0 <= i < n ==> #[trigger] a[i] == b[i],
    ensures
        nodes_bytes(a, n) == nodes_bytes(b, n),
    decreases n,
{
    if n > 0 {
        lemma_same_nodes(a, b, n - 1);
        assert(a[n - 1] == b[n - 1]);
    }
}

proof fn lemma_same_tables(a: Seq<RoutingModel>, b: Seq<RoutingModel>, n: int)
    requires
        0 <= n <= a.len(),
        n <= b.len(),
        forall|i: int| 0 <= i < n ==> #[trigger] a[i] == b[i],
    ensures
        routes_bytes(a, n) == routes_bytes(b, n),
    decreases n,
{
    if n > 0 {
        lemma_same_tables(a, b, n - 1);
        assert(a[n - 1] == b[n - 1]);
    }
}

/// What stands before the nodes is read where the file begins with the letters ANNP and holds
/// all of it. The first version has no configuration: there the numbers of nodes and tables
/// stand at 16. Later ones have its length there, and the numbers behind it.
pub proof fn law_every_version_begins_alike(data: Seq<u8>)
    requires
        data.len() <= usize::MAX,
    ensures
        preamble_of(data) matches Ok(p) ==> {
            &&& data[0] as char == 'A' && data[1] as char == 'N' && data[2] as char == 'N' && data[3] as char
                == 'P'
            &&& p.version == word_at(data, 4)
            &&& p.stage_completed == word_at(data, 8)
            &&& p.epoch_completed == word_at(data, 12)
            &&& p.version < 2 ==> p.config_start == 16 && p.config_end == 16
            &&& p.version >= 2 ==> p.config_start == 20 && p.config_end == 20 + word_at(data, 16)
            &&& p.num_nodes == word_at(data, p.config_end as int)
            &&& p.num_routes == word_at(data, p.config_end + 4)
            &&& p.config_end + 8 <= data.len()
        },
        preamble_of(data) == Err::<Preamble, CheckpointError>(CheckpointError::InvalidMagic)
            <==> data.len() >= 4 && !(data[0] == 65 && data[1] == 78 && data[2] == 78 && data[3]
            == 80),
        data.len() >= 24 && data[0] == 65 && data[1] == 78 && data[2] == 78 && data[3] == 80
            && word_at(data, 4) < 2 ==> preamble_of(data) is Ok,
        data.len() >= 20 && data[0] == 65 && data[1] == 78 && data[2] == 78 && data[3] == 80
            && word_at(data, 4) >= 2 && data.len() >= 28 + word_at(data, 16) ==> preamble_of(data)
            is Ok,
{
    if data.len() >= 4 {
        let m = data.take(4);
        assert(m[0] == data[0] && m[1] == data[1] && m[2] == data[2] && m[3] == data[3]);
        assert(magic()[0] == 65 && magic()[1] == 78 && magic()[2] == 78 && magic()[3] == 80);
        if data[0] == 65 && data[1] == 78 && data[2] == 78 && data[3] == 80 {
            assert(m =~= magic());
        }
    }
}

/// A subnode is read field by field from where it stands. Before the fourth version its credit
/// is not there, and its statistics are those of an empty stream.
pub proof fn law_subnodes_are_read(data: Seq<u8>, pos: int, version: int, health: Scalar, i: int)
    requires
        0 <= pos,
        0 <= i,
        data.len() <= usize::MAX,
    ensures
        subnode_at(data, pos, version, health) matches Some((s, next)) ==> {
            let gate = if version >= 4 {
                pos + 28
            } else {
                pos + 16
            };
            let up = gate + 4 + 4 * s.w_gate.len();
            let down = up + 4 + 4 * s.w_up.len();
            &&& s.subnode_id == word_at(data, pos)
            &&& s.alpha.bits == word_at(data, pos + 4)
            &&& s.activation_count == long_at(data, pos + 8)
            &&& s.health == health
            &&& version >= 4 ==> s.credit_stats.count.bits == word_at(data, pos + 16)
                && s.credit_stats.mean.bits == word_at(data, pos + 20) && s.credit_stats.m2.bits
                == word_at(data, pos + 24)
            &&& version < 4 ==> s.credit_stats.count.units() == 0 && s.credit_stats.mean.units() == 0
                && s.credit_stats.m2.units() == 0
            &&& s.w_gate.len() == word_at(data, gate)
            &&& i < s.w_gate.len() ==> s.w_gate[i].bits == word_at(data, gate + 4 + 4 * i)
            &&& s.w_up.len() == word_at(data, up)
            &&& i < s.w_up.len() ==> s.w_up[i].bits == word_at(data, up + 4 + 4 * i)
            &&& s.w_down.len() == word_at(data, down)
            &&& i < s.w_down.len() ==> s.w_down[i].bits == word_at(data, down + 4 + 4 * i)
            &&& next == down + 4 + 4 * s.w_down.len() <= data.len()
        },
{
    reveal(long_at);
}

/// Before the third version a node had no subnodes: what it knew is that of its only one. The
/// first version did not count activations.
pub proof fn law_older_nodes_are_read(
    data: Seq<u8>,
    pos: int,
    version: int,
    config: MicroBlockConfig,
    i: int,
)
    requires
        0 <= pos,
        0 <= i,
        version < 3,
        data.len() <= usize::MAX,
    ensures
        nodes_at(data, pos, version, config, 1) matches Some((list, next)) ==> {
            let node = list[0];
            let s = node.subnodes[0];
            let gate = if version == 2 {
                pos + 24
            } else {
                pos + 16
            };
            let up = gate + 4 + 4 * s.w_gate.len();
            let down = up + 4 + 4 * s.w_up.len();
            &&& list.len() == 1
            &&& node.node_id == word_at(data, pos)
            &&& node.split_count == 0
            &&& node.cumulative_sequence_len == long_at(data, pos + 8)
            &&& version == 2 ==> node.activation_count == long_at(data, pos + 16)
            &&& version < 2 ==> node.activation_count == 0
            &&& node.subnodes.len() == 1
            &&& s.subnode_id == 0
            &&& s.activation_count == node.activation_count
            &&& s.alpha.bits == word_at(data, pos + 4)
            &&& s.health == config.health_base
            &&& s.credit_stats.count.units() == 0
            &&& s.w_gate.len() == word_at(data, gate)
            &&& i < s.w_gate.len() ==> s.w_gate[i].bits == word_at(data, gate + 4 + 4 * i)
            &&& s.w_up.len() == word_at(data, up)
            &&& i < s.w_up.len() ==> s.w_up[i].bits == word_at(data, up + 4 + 4 * i)
            &&& s.w_down.len() == word_at(data, down)
            &&& i < s.w_down.len() ==> s.w_down[i].bits == word_at(data, down + 4 + 4 * i)
            &&& next == down + 4 + 4 * s.w_down.len() <= data.len()
        },
{
    reveal(long_at);
    reveal_with_fuel(nodes_at, 2);
}

/// From the third version on a node stands with its subnodes behind it. Nothing of what it
/// remembered is in the file: it comes back without, and with the initial energy.
pub proof fn law_nodes_are_read(
    data: Seq<u8>,
    pos: int,
    version: int,
    config: MicroBlockConfig,
)
    requires
        0 <= pos,
        version >= 3,
        data.len() <= usize::MAX,
    ensures
        nodes_at(data, pos, version, config, 1) matches Some((list, next)) ==> {
            let node = list[0];
            &&& list.len() == 1
            &&& node.node_id == word_at(data, pos)
            &&& node.split_count == word_at(data, pos + 4)
            &&& node.cumulative_sequence_len == long_at(data, pos + 8)
            &&& node.activation_count == long_at(data, pos + 16)
            &&& subnodes_at(
                data,
                pos + 28,
                version,
                config.health_base,
                word_at(data, pos + 24),
            ) == Some((node.subnodes, next))
            &&& node.fast_weight.len() == 0
            &&& node.cumulative_energy == config.initial_energy
            &&& node.last_p_in.len() == 0
            &&& node.last_prediction.len() == 0
            &&& node.last_token_id is None
        },
{
    reveal(long_at);
    reveal_with_fuel(nodes_at, 2);
}

/// A routing table is read field by field from where it stands, with no credit.
pub proof fn law_tables_are_read(data: Seq<u8>, pos: int, i: int)
    requires
        0 <= pos,
        0 <= i,
        data.len() <= usize::MAX,
    ensures
        route_at(data, pos) matches Some((t, next)) ==> {
            let w = pos + 8 + 4 * t.neighbors.len();
            &&& t.d_head == word_at(data, pos)
            &&& t.neighbors.len() == word_at(data, pos + 4)
            &&& i < t.neighbors.len() ==> t.neighbors[i] == word_at(data, pos + 8 + 4 * i)
            &&& t.weights.len() == word_at(data, w)
            &&& i < t.weights.len() ==> t.weights[i].bits == word_at(data, w + 4 + 4 * i)
            &&& t.edge_credit.len() == 0
            &&& next == w + 4 + 4 * t.weights.len() <= data.len()
        },
{
}


} // verus!
