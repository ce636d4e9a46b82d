//! Checkpoints: what is kept of a network, and the binary form it is kept in.
use crate::bytes::{
    block_at, get_block, get_u32, get_u64, le_block, put_block, put_bytes, put_u32, put_u64, put_usize,
};
use crate::config::MicroBlockConfig;
use crate::mesh::routing_models;
use crate::metrics::OnlineStats;
use crate::scalar::Scalar;
use crate::topology::{RoutingModel, RoutingTable};
use crate::words::{le32, le64, long_at, word_at};
use vstd::prelude::*;

verus! {

broadcast use crate::words::group_word_sizes;

/// Version that is written.
pub const ANNPB_VERSION: u32 = 4;

/// The four bytes at the front of every file: "ANNP".
pub open spec fn magic() -> Seq<u8> {
    seq![65u8, 78u8, 78u8, 80u8]
}

/// What is kept of a subnode.
#[derive(Debug)]
pub struct SubnodeCheckpoint {
    pub subnode_id: usize,
    pub w_gate: Vec<Scalar>,
    pub w_up: Vec<Scalar>,
    pub w_down: Vec<Scalar>,
    pub alpha: Scalar,
    pub activation_count: u64,
    pub credit_stats: OnlineStats,
    pub health: Scalar,
}

/// What is kept of a node.
#[derive(Debug)]
pub struct NodeCheckpoint {
    pub node_id: usize,
    pub split_count: u32,
    pub cumulative_sequence_len: u64,
    pub activation_count: u64,
    pub subnodes: Vec<SubnodeCheckpoint>,
    pub fast_weight: Vec<Scalar>,
    pub cumulative_energy: Scalar,
    pub last_p_in: Vec<Scalar>,
    pub last_prediction: Vec<Scalar>,
    pub last_token_id: Option<u32>,
}

/// What is kept of a network.
#[derive(Debug)]
pub struct ModelCheckpoint {
    pub stage_completed: usize,
    pub epoch_completed: usize,
    pub config: MicroBlockConfig,
    pub nodes: Vec<NodeCheckpoint>,
    pub routing_tables: Vec<RoutingTable>,
}

/// A kept subnode as a value.
#[verifier::ext_equal]
pub struct SubnodeRecord {
    pub subnode_id: usize,
    pub w_gate: Seq<Scalar>,
    pub w_up: Seq<Scalar>,
    pub w_down: Seq<Scalar>,
    pub alpha: Scalar,
    pub activation_count: u64,
    pub credit_stats: OnlineStats,
    pub health: Scalar,
}

/// A kept node as a value.
#[verifier::ext_equal]
pub struct NodeRecord {
    pub node_id: usize,
    pub split_count: u32,
    pub cumulative_sequence_len: u64,
    pub activation_count: u64,
    pub subnodes: Seq<SubnodeRecord>,
    pub fast_weight: Seq<Scalar>,
    pub cumulative_energy: Scalar,
    pub last_p_in: Seq<Scalar>,
    pub last_prediction: Seq<Scalar>,
    pub last_token_id: Option<u32>,
}

/// A checkpoint as a value.
#[verifier::ext_equal]
pub struct ModelRecord {
    pub stage_completed: usize,
    pub epoch_completed: usize,
    pub config: MicroBlockConfig,
    pub nodes: Seq<NodeRecord>,
    pub routing_tables: Seq<RoutingModel>,
}

impl View for SubnodeCheckpoint {
    type V = SubnodeRecord;

    open spec fn view(&self) -> SubnodeRecord {
        SubnodeRecord {
            subnode_id: self.subnode_id,
            w_gate: self.w_gate@,
            w_up: self.w_up@,
            w_down: self.w_down@,
            alpha: self.alpha,
            activation_count: self.activation_count,
            credit_stats: self.credit_stats,
            health: self.health,
        }
    }
}

/// The kept subnodes of a list, as values.
pub open spec fn subnode_records(list: Seq<SubnodeCheckpoint>) -> Seq<SubnodeRecord> {
    list.map_values(|s: SubnodeCheckpoint| s@)
}

impl View for NodeCheckpoint {
    type V = NodeRecord;

    open spec fn view(&self) -> NodeRecord {
        NodeRecord {
            node_id: self.node_id,
            split_count: self.split_count,
            cumulative_sequence_len: self.cumulative_sequence_len,
            activation_count: self.activation_count,
            subnodes: subnode_records(self.subnodes@),
            fast_weight: self.fast_weight@,
            cumulative_energy: self.cumulative_energy,
            last_p_in: self.last_p_in@,
            last_prediction: self.last_prediction@,
            last_token_id: self.last_token_id,
        }
    }
}

/// The kept nodes of a list, as values.
pub open spec fn node_records(list: Seq<NodeCheckpoint>) -> Seq<NodeRecord> {
    list.map_values(|n: NodeCheckpoint| n@)
}

impl View for ModelCheckpoint {
    type V = ModelRecord;

    open spec fn view(&self) -> ModelRecord {
        ModelRecord {
            stage_completed: self.stage_completed,
            epoch_completed: self.epoch_completed,
            config: self.config,
            nodes: node_records(self.nodes@),
            routing_tables: routing_models(self.routing_tables@),
        }
    }
}

/// Why bytes are no checkpoint.
#[derive(Clone, Copy, Debug, PartialEq, Eq, Structural)]
pub enum CheckpointError {
    /// The bytes do not begin with the four magic bytes.
    InvalidMagic,
    /// The bytes end before the checkpoint does.
    UnexpectedEof,
}

/// What stands before the nodes.
#[derive(Clone, Copy, Debug, PartialEq, Eq, Structural)]
pub struct Preamble {
    pub version: u32,
    pub stage_completed: usize,
    pub epoch_completed: usize,
    /// Where the configuration begins. Version 1 has none.
    pub config_start: usize,
    /// Where it ends.
    pub config_end: usize,
    pub num_nodes: usize,
    pub num_routes: usize,
}

// ---------------------------------------------------------------------------
// What is written
// ---------------------------------------------------------------------------

/// A subnode in bytes.
pub open spec fn subnode_bytes(s: SubnodeRecord) -> Seq<u8> {
    le32(s.subnode_id as int) + (le32(s.alpha.bits as int) + (le64(s.activation_count as int) + (le32(
        s.credit_stats.count.bits as int,
    ) + (le32(s.credit_stats.mean.bits as int) + (le32(s.credit_stats.m2.bits as int) + (le_block(
        s.w_gate,
    ) + (le_block(s.w_up) + le_block(s.w_down))))))))
}

/// The first `n` subnodes in bytes.
pub open spec fn subnodes_bytes(list: Seq<SubnodeRecord>, n: int) -> Seq<u8>
    decreases n,
{
    if n <= 0 {
        Seq::empty()
    } else {
        subnodes_bytes(list, n - 1) + subnode_bytes(list[n - 1])
    }
}

/// A node in bytes.
pub open spec fn node_bytes(r: NodeRecord) -> Seq<u8> {
    le32(r.node_id as int) + (le32(r.split_count as int) + (le64(r.cumulative_sequence_len as int) + (
    le64(r.activation_count as int) + (le32(r.subnodes.len() as int) + subnodes_bytes(
        r.subnodes,
        r.subnodes.len() as int,
    )))))
}

/// The first `n` nodes in bytes.
pub open spec fn nodes_bytes(list: Seq<NodeRecord>, n: int) -> Seq<u8>
    decreases n,
{
    if n <= 0 {
        Seq::empty()
    } else {
        nodes_bytes(list, n - 1) + node_bytes(list[n - 1])
    }
}

/// The first `n` indices in bytes.
pub open spec fn indices_bytes(list: Seq<usize>, n: int) -> Seq<u8>
    decreases n,
{
    if n <= 0 {
        Seq::empty()
    } else {
        indices_bytes(list, n - 1) + le32(list[n - 1] as int)
    }
}

/// A routing table in bytes.
pub open spec fn route_bytes(t: RoutingModel) -> Seq<u8> {
    le32(t.d_head as int) + (le32(t.neighbors.len() as int) + (indices_bytes(
        t.neighbors,
        t.neighbors.len() as int,
    ) + le_block(t.weights)))
}

/// The first `n` routing tables in bytes.
pub open spec fn routes_bytes(list: Seq<RoutingModel>, n: int) -> Seq<u8>
    decreases n,
{
    if n <= 0 {
        Seq::empty()
    } else {
        routes_bytes(list, n - 1) + route_bytes(list[n - 1])
    }
}

/// What stands before the nodes, in bytes.
pub open spec fn head_bytes(r: ModelRecord, config_json: Seq<u8>) -> Seq<u8> {
    magic() + (le32(ANNPB_VERSION as int) + (le32(r.stage_completed as int) + (le32(
        r.epoch_completed as int,
    ) + (le32(config_json.len() as int) + (config_json + (le32(r.nodes.len() as int) + le32(
        r.routing_tables.len() as int,
    )))))))
}

/// A checkpoint in bytes, with its configuration as `config_json` has it.
pub open spec fn checkpoint_bytes(r: ModelRecord, config_json: Seq<u8>) -> Seq<u8> {
    head_bytes(r, config_json) + (nodes_bytes(r.nodes, r.nodes.len() as int) + routes_bytes(
        r.routing_tables,
        r.routing_tables.len() as int,
    ))
}

// ---------------------------------------------------------------------------
// What is read
// ---------------------------------------------------------------------------

/// The subnode at `pos`, with the position behind it. Versions before 4 carry no credit,
/// and none carries health.
pub open spec fn subnode_at(data: Seq<u8>, pos: int, version: int, health: Scalar) -> Option<
    (SubnodeRecord, int),
> {
    let head = if version >= 4 {
        28int
    } else {
        16
    };
    if pos + head > data.len() {
        None
    } else {
        match block_at(data, pos + head) {
            None => None,
            Some((w_gate, p1)) => match block_at(data, p1) {
                None => None,
                Some((w_up, p2)) => match block_at(data, p2) {
                    None => None,
                    Some((w_down, p3)) => Some(
                        (
                            SubnodeRecord {
                                subnode_id: word_at(data, pos) as usize,
                                w_gate,
                                w_up,
                                w_down,
                                alpha: Scalar { bits: word_at(data, pos + 4) as u32 },
                                activation_count: long_at(data, pos + 8) as u64,
                                credit_stats: if version >= 4 {
                                    OnlineStats {
                                        count: Scalar { bits: word_at(data, pos + 16) as u32 },
                                        mean: Scalar { bits: word_at(data, pos + 20) as u32 },
                                        m2: Scalar { bits: word_at(data, pos + 24) as u32 },
                                        gamma: OnlineStats::standard().gamma,
                                    }
                                } else {
                                    OnlineStats::standard()
                                },
                                health,
                            },
                            p3,
                        ),
                    ),
                },
            },
        }
    }
}

/// The `n` subnodes from `pos` on.
pub open spec fn subnodes_at(data: Seq<u8>, pos: int, version: int, health: Scalar, n: int) -> Option<
    (Seq<SubnodeRecord>, int),
>
    decreases n,
{
    if n <= 0 {
        Some((Seq::empty(), pos))
    } else {
        match subnodes_at(data, pos, version, health, n - 1) {
            None => None,
            Some((front, p)) => match subnode_at(data, p, version, health) {
                None => None,
                Some((s, q)) => Some((front.push(s), q)),
            },
        }
    }
}

/// A node with what no version carries filled in: its energy is the initial one of the
/// configuration, its memory and its last values are empty, and it has no last token.
pub open spec fn node_record(
    node_id: usize,
    split_count: u32,
    cumulative_sequence_len: u64,
    activation_count: u64,
    subnodes: Seq<SubnodeRecord>,
    config: MicroBlockConfig,
) -> NodeRecord {
    NodeRecord {
        node_id,
        split_count,
        cumulative_sequence_len,
        activation_count,
        subnodes,
        fast_weight: Seq::empty(),
        cumulative_energy: config.initial_energy,
        last_p_in: Seq::empty(),
        last_prediction: Seq::empty(),
        last_token_id: None,
    }
}

/// The node at `pos`, from version 3 on.
pub open spec fn node_at(data: Seq<u8>, pos: int, version: int, config: MicroBlockConfig) -> Option<
    (NodeRecord, int),
> {
    if pos + 28 > data.len() {
        None
    } else {
        match subnodes_at(data, pos + 28, version, config.health_base, word_at(data, pos + 24)) {
            None => None,
            Some((subnodes, p)) => Some(
                (
                    node_record(
                        word_at(data, pos) as usize,
                        word_at(data, pos + 4) as u32,
                        long_at(data, pos + 8) as u64,
                        long_at(data, pos + 16) as u64,
                        subnodes,
                        config,
                    ),
                    p,
                ),
            ),
        }
    }
}

/// The node at `pos` in versions 1 and 2, which know one subnode per node. Version 1 does
/// not count activations.
pub open spec fn legacy_node_at(data: Seq<u8>, pos: int, version: int, config: MicroBlockConfig) -> Option<
    (NodeRecord, int),
> {
    let head = if version >= 2 {
        24int
    } else {
        16
    };
    if pos + head > data.len() {
        None
    } else {
        match block_at(data, pos + head) {
            None => None,
            Some((w_gate, p1)) => match block_at(data, p1) {
                None => None,
                Some((w_up, p2)) => match block_at(data, p2) {
                    None => None,
                    Some((w_down, p3)) => {
                        let activation_count = if version >= 2 {
                            long_at(data, pos + 16) as u64
                        } else {
                            0
                        };
                        Some(
                            (
                                node_record(
                                    word_at(data, pos) as usize,
                                    0,
                                    long_at(data, pos + 8) as u64,
                                    activation_count,
                                    seq![
                                        SubnodeRecord {
                                            subnode_id: 0,
                                            w_gate,
                                            w_up,
                                            w_down,
                                            alpha: Scalar { bits: word_at(data, pos + 4) as u32 },
                                            activation_count,
                                            credit_stats: OnlineStats::standard(),
                                            health: config.health_base,
                                        },
                                    ],
                                    config,
                                ),
                                p3,
                            ),
                        )
                    },
                },
            },
        }
    }
}

/// The `n` nodes from `pos` on.
pub open spec fn nodes_at(data: Seq<u8>, pos: int, version: int, config: MicroBlockConfig, n: int) -> Option<
    (Seq<NodeRecord>, int),
>
    decreases n,
{
    if n <= 0 {
        Some((Seq::empty(), pos))
    } else {
        match nodes_at(data, pos, version, config, n - 1) {
            None => None,
            Some((front, p)) => {
                let next = if version >= 3 {
                    node_at(data, p, version, config)
                } else {
                    legacy_node_at(data, p, version, config)
                };
                match next {
                    None => None,
                    Some((r, q)) => Some((front.push(r), q)),
                }
            },
        }
    }
}

/// The `n` indices from `pos` on.
pub open spec fn indices_at(data: Seq<u8>, pos: int, n: int) -> Seq<usize> {
    Seq::new(n as nat, |i: int| word_at(data, pos + 4 * i) as usize)
}

/// The routing table at `pos`. Credit on links is not carried.
pub open spec fn route_at(data: Seq<u8>, pos: int) -> Option<(RoutingModel, int)> {
    if pos + 8 > data.len() || pos + 8 + 4 * word_at(data, pos + 4) > data.len() {
        None
    } else {
        let n = word_at(data, pos + 4);
        match block_at(data, pos + 8 + 4 * n) {
            None => None,
            Some((weights, p)) => Some(
                (
                    RoutingModel {
                        d_head: word_at(data, pos) as usize,
                        neighbors: indices_at(data, pos + 8, n),
                        weights,
                        edge_credit: Seq::empty(),
                    },
                    p,
                ),
            ),
        }
    }
}

/// The `n` routing tables from `pos` on.
pub open spec fn routes_at(data: Seq<u8>, pos: int, n: int) -> Option<(Seq<RoutingModel>, int)>
    decreases n,
{
    if n <= 0 {
        Some((Seq::empty(), pos))
    } else {
        match routes_at(data, pos, n - 1) {
            None => None,
            Some((front, p)) => match route_at(data, p) {
                None => None,
                Some((t, q)) => Some((front.push(t), q)),
            },
        }
    }
}

/// Whether the bytes begin with the magic bytes.
pub open spec fn has_magic(data: Seq<u8>) -> bool {
    data.len() >= 4 && data.take(4) == magic()
}

/// Where the configuration of a file lies: its first byte and the byte behind it.
pub open spec fn config_bounds(data: Seq<u8>) -> (int, int) {
    if word_at(data, 4) >= 2 {
        (20, 20 + word_at(data, 16))
    } else {
        (16, 16)
    }
}

/// Whether what stands before the nodes is all there.
pub open spec fn preamble_fits(data: Seq<u8>) -> bool {
    &&& data.len() >= 16
    &&& word_at(data, 4) >= 2 ==> data.len() >= 20
    &&& config_bounds(data).1 + 8 <= data.len()
}

/// What stands before the nodes.
pub open spec fn preamble_of(data: Seq<u8>) -> Result<Preamble, CheckpointError> {
    if data.len() < 4 {
        Err(CheckpointError::UnexpectedEof)
    } else if !has_magic(data) {
        Err(CheckpointError::InvalidMagic)
    } else if !preamble_fits(data) {
        Err(CheckpointError::UnexpectedEof)
    } else {
        let (start, end) = config_bounds(data);
        Ok(
            Preamble {
                version: word_at(data, 4) as u32,
                stage_completed: word_at(data, 8) as usize,
                epoch_completed: word_at(data, 12) as usize,
                config_start: start as usize,
                config_end: end as usize,
                num_nodes: word_at(data, end) as usize,
                num_routes: word_at(data, end + 4) as usize,
            },
        )
    }
}

/// The checkpoint in a file, given what its configuration was read as. What stands behind
/// it is passed over.
pub open spec fn checkpoint_of(data: Seq<u8>, config: MicroBlockConfig) -> Result<
    ModelRecord,
    CheckpointError,
> {
    match preamble_of(data) {
        Err(e) => Err(e),
        Ok(p) => match nodes_at(
            data,
            p.config_end + 8,
            p.version as int,
            config,
            p.num_nodes as int,
        ) {
            None => Err(CheckpointError::UnexpectedEof),
            Some((nodes, at)) => match routes_at(data, at, p.num_routes as int) {
                None => Err(CheckpointError::UnexpectedEof),
                Some((routing_tables, _)) => Ok(
                    ModelRecord {
                        stage_completed: p.stage_completed,
                        epoch_completed: p.epoch_completed,
                        config,
                        nodes,
                        routing_tables,
                    },
                ),
            },
        },
    }
}

// ---------------------------------------------------------------------------
// Writing
// ---------------------------------------------------------------------------

fn put_subnode(out: &mut Vec<u8>, s: &SubnodeCheckpoint)
    ensures
        final(out)@ == old(out)@ + subnode_bytes(s@),
{
    put_usize(out, s.subnode_id);
    put_u32(out, s.alpha.bits);
    put_u64(out, s.activation_count);
    put_u32(out, s.credit_stats.count.bits);
    put_u32(out, s.credit_stats.mean.bits);
    put_u32(out, s.credit_stats.m2.bits);
    put_block(out, &s.w_gate);
    put_block(out, &s.w_up);
    put_block(out, &s.w_down);
    assert(out@ =~= old(out)@ + subnode_bytes(s@));
}

fn put_node(out: &mut Vec<u8>, node: &NodeCheckpoint)
    ensures
        final(out)@ == old(out)@ + node_bytes(node@),
{
    put_usize(out, node.node_id);
    put_u32(out, node.split_count);
    put_u64(out, node.cumulative_sequence_len);
    put_u64(out, node.activation_count);
    put_usize(out, node.subnodes.len());
    let ghost front = out@;
    let ghost list = node@.subnodes;
    let mut i: usize = 0;
    assert(front + subnodes_bytes(list, 0) =~= front);
    while i < node.subnodes.len()
        invariant
            i <= node.subnodes.len(),
            list == node@.subnodes,
            out@ == front + subnodes_bytes(list, i as int),
        decreases node.subnodes.len() - i,
    {
        put_subnode(out, &node.subnodes[i]);
        assert(list[i as int] == node.subnodes@[i as int]@);
        i += 1;
        assert(out@ =~= front + subnodes_bytes(list, i as int));
    }
    assert(out@ =~= old(out)@ + node_bytes(node@));
}

fn put_route(out: &mut Vec<u8>, table: &RoutingTable)
    ensures
        final(out)@ == old(out)@ + route_bytes(table@),
{
    put_usize(out, table.d_head);
    put_usize(out, table.neighbors.len());
    let ghost front = out@;
    let ghost list = table@.neighbors;
    let mut i: usize = 0;
    assert(front + indices_bytes(list, 0) =~= front);
    while i < table.neighbors.len()
        invariant
            i <= table.neighbors.len(),
            list == table@.neighbors,
            out@ == front + indices_bytes(list, i as int),
        decreases table.neighbors.len() - i,
    {
        put_usize(out, table.neighbors[i]);
        i += 1;
        assert(out@ =~= front + indices_bytes(list, i as int));
    }
    put_block(out, &table.weights);
    assert(out@ =~= old(out)@ + route_bytes(table@));
}

// ---------------------------------------------------------------------------
// Reading
// ---------------------------------------------------------------------------

fn get_subnode(data: &[u8], pos: usize, version: u32, health: Scalar) -> (r: Option<
    (SubnodeCheckpoint, usize),
>)
    requires
        pos <= data.len(),
    ensures
        match subnode_at(data@, pos as int, version as int, health) {
            Some((record, next)) => r matches Some((s, n)) && s@ == record && n == next && n
                <= data.len(),
            None => r is None,
        },
{
    let head: usize = if version >= 4 {
        28
    } else {
        16
    };
    if data.len() - pos < head {
        return None;
    }
    let (w_gate, p1): (Vec<Scalar>, usize) = match get_block(data, pos + head) {
        Some(found) => found,
        None => {
            return None;
        },
    };
    let (w_up, p2): (Vec<Scalar>, usize) = match get_block(data, p1) {
        Some(found) => found,
        None => {
            return None;
        },
    };
    let (w_down, p3): (Vec<Scalar>, usize) = match get_block(data, p2) {
        Some(found) => found,
        None => {
            return None;
        },
    };
    let mut credit_stats: OnlineStats = OnlineStats::default();
    if version >= 4 {
        credit_stats.count = Scalar { bits: get_u32(data, pos + 16) };
        credit_stats.mean = Scalar { bits: get_u32(data, pos + 20) };
        credit_stats.m2 = Scalar { bits: get_u32(data, pos + 24) };
    }
    Some(
        (
            SubnodeCheckpoint {
                subnode_id: get_u32(data, pos) as usize,
                w_gate,
                w_up,
                w_down,
                alpha: Scalar { bits: get_u32(data, pos + 4) },
                activation_count: get_u64(data, pos + 8),
                credit_stats,
                health,
            },
            p3,
        ),
    )
}

fn get_node(data: &[u8], pos: usize, version: u32, config: &MicroBlockConfig) -> (r: Option<
    (NodeCheckpoint, usize),
>)
    requires
        pos <= data.len(),
    ensures
        match node_at(data@, pos as int, version as int, *config) {
            Some((record, next)) => r matches Some((s, n)) && s@ == record && n == next && n
                <= data.len(),
            None => r is None,
        },
{
    if data.len() - pos < 28 {
        return None;
    }
    let count: u32 = get_u32(data, pos + 24);
    let mut subnodes: Vec<SubnodeCheckpoint> = Vec::new();
    let mut at: usize = pos + 28;
    let mut i: u32 = 0;
    assert(subnode_records(subnodes@) =~= Seq::empty());
    while i < count
        invariant
            i <= count,
            count == word_at(data@, pos + 24),
            at <= data.len(),
            subnodes_at(data@, pos + 28, version as int, config.health_base, i as int) == Some(
                (subnode_records(subnodes@), at as int),
            ),
        decreases count - i,
    {
        match get_subnode(data, at, version, config.health_base) {
            Some((s, next)) => {
                let ghost front = subnode_records(subnodes@);
                subnodes.push(s);
                assert(subnode_records(subnodes@) =~= front.push(s@));
                at = next;
            },
            None => {
                proof {
                    assert(subnodes_at(
                        data@,
                        pos + 28,
                        version as int,
                        config.health_base,
                        i + 1,
                    ) is None);
                    lemma_subnodes_end(
                        data@,
                        pos + 28,
                        version as int,
                        config.health_base,
                        i + 1,
                        count as int,
                    );
                }
                return None;
            },
        }
        i += 1;
    }
    let node = NodeCheckpoint {
        node_id: get_u32(data, pos) as usize,
        split_count: get_u32(data, pos + 4),
        cumulative_sequence_len: get_u64(data, pos + 8),
        activation_count: get_u64(data, pos + 16),
        subnodes,
        fast_weight: Vec::new(),
        cumulative_energy: config.initial_energy,
        last_p_in: Vec::new(),
        last_prediction: Vec::new(),
        last_token_id: None,
    };
    Some((node, at))
}

proof fn lemma_subnodes_end(
    data: Seq<u8>,
    pos: int,
    version: int,
    health: Scalar,
    a: int,
    b: int,
)
    requires
        0 <= a <= b,
        subnodes_at(data, pos, version, health, a) is None,
    ensures
        subnodes_at(data, pos, version, health, b) is None,
    decreases b - a,
{
    if a < b {
        lemma_subnodes_end(data, pos, version, health, a, b - 1);
    }
}

fn get_legacy_node(data: &[u8], pos: usize, version: u32, config: &MicroBlockConfig) -> (r: Option<
    (NodeCheckpoint, usize),
>)
    requires
        pos <= data.len(),
    ensures
        match legacy_node_at(data@, pos as int, version as int, *config) {
            Some((record, next)) => r matches Some((s, n)) && s@ == record && n == next && n
                <= data.len(),
            None => r is None,
        },
{
    let head: usize = if version >= 2 {
        24
    } else {
        16
    };
    if data.len() - pos < head {
        return None;
    }
    let (w_gate, p1): (Vec<Scalar>, usize) = match get_block(data, pos + head) {
        Some(found) => found,
        None => {
            return None;
        },
    };
    let (w_up, p2): (Vec<Scalar>, usize) = match get_block(data, p1) {
        Some(found) => found,
        None => {
            return None;
        },
    };
    let (w_down, p3): (Vec<Scalar>, usize) = match get_block(data, p2) {
        Some(found) => found,
        None => {
            return None;
        },
    };
    let activation_count: u64 = if version >= 2 {
        get_u64(data, pos + 16)
    } else {
        0
    };
    let primary = SubnodeCheckpoint {
        subnode_id: 0,
        w_gate,
        w_up,
        w_down,
        alpha: Scalar { bits: get_u32(data, pos + 4) },
        activation_count,
        credit_stats: OnlineStats::default(),
        health: config.health_base,
    };
    let ghost kept = primary@;
    let mut subnodes: Vec<SubnodeCheckpoint> = Vec::new();
    subnodes.push(primary);
    assert(subnode_records(subnodes@) =~= seq![kept]);
    let node = NodeCheckpoint {
        node_id: get_u32(data, pos) as usize,
        split_count: 0,
        cumulative_sequence_len: get_u64(data, pos + 8),
        activation_count,
        subnodes,
        fast_weight: Vec::new(),
        cumulative_energy: config.initial_energy,
        last_p_in: Vec::new(),
        last_prediction: Vec::new(),
        last_token_id: None,
    };
    Some((node, p3))
}

fn get_route(data: &[u8], pos: usize) -> (r: Option<(RoutingTable, usize)>)
    requires
        pos <= data.len(),
    ensures
        match route_at(data@, pos as int) {
            Some((record, next)) => r matches Some((t, n)) && t@ == record && n == next && n
                <= data.len(),
            None => r is None,
        },
{
    if data.len() - pos < 8 {
        return None;
    }
    let count: usize = get_u32(data, pos + 4) as usize;
    if count > (data.len() - pos - 8) / 4 {
        return None;
    }
    let mut neighbors: Vec<usize> = Vec::with_capacity(count);
    let mut i: usize = 0;
    while i < count
        invariant
            i <= count,
            pos + 8 + 4 * count <= data.len(),
            neighbors@ == indices_at(data@, pos + 8, i as int),
        decreases count - i,
    {
        neighbors.push(get_u32(data, pos + 8 + 4 * i) as usize);
        i += 1;
        assert(neighbors@ =~= indices_at(data@, pos + 8, i as int));
    }
    match get_block(data, pos + 8 + 4 * count) {
        Some((weights, next)) => {
            let table = RoutingTable {
                d_head: get_u32(data, pos) as usize,
                neighbors,
                weights,
                edge_credit: Vec::new(),
            };
            Some((table, next))
        },
        None => None,
    }
}

/// Whether the bytes begin with the magic bytes.
pub fn is_annpb(data: &[u8]) -> (r: bool)
    ensures
        r == has_magic(data@),
{
    let r: bool = data.len() >= 4 && data[0] == 65 && data[1] == 78 && data[2] == 78 && data[3]
        == 80;
    proof {
        if data@.len() >= 4 {
            let front = data@.take(4);
            assert(front[0] == data@[0] && front[1] == data@[1] && front[2] == data@[2] && front[3]
                == data@[3]);
            if r {
                assert(front =~= magic());
            } else {
                let m = magic();
                assert(m[0] == 65 && m[1] == 78 && m[2] == 78 && m[3] == 80);
            }
        }
    }
    r
}

/// Reads what stands before the nodes, so that the configuration can be read next.
pub fn read_preamble(data: &[u8]) -> (r: Result<Preamble, CheckpointError>)
    ensures
        r == preamble_of(data@),
        r matches Ok(p) ==> p.config_start <= p.config_end && p.config_end + 8 <= data.len(),
{
    if data.len() < 4 {
        return Err(CheckpointError::UnexpectedEof);
    }
    if !is_annpb(data) {
        return Err(CheckpointError::InvalidMagic);
    }
    if data.len() < 16 {
        return Err(CheckpointError::UnexpectedEof);
    }
    let version: u32 = get_u32(data, 4);
    let mut config_start: usize = 16;
    let mut config_end: usize = 16;
    if version >= 2 {
        if data.len() < 20 {
            return Err(CheckpointError::UnexpectedEof);
        }
        let len: usize = get_u32(data, 16) as usize;
        if len > data.len() - 20 {
            return Err(CheckpointError::UnexpectedEof);
        }
        config_start = 20;
        config_end = 20 + len;
    }
    if data.len() - config_end < 8 {
        return Err(CheckpointError::UnexpectedEof);
    }
    Ok(
        Preamble {
            version,
            stage_completed: get_u32(data, 8) as usize,
            epoch_completed: get_u32(data, 12) as usize,
            config_start,
            config_end,
            num_nodes: get_u32(data, config_end) as usize,
            num_routes: get_u32(data, config_end + 4) as usize,
        },
    )
}

impl ModelCheckpoint {
    /// What stands before the nodes, in bytes.
    fn head(&self, config_json: &[u8]) -> (r: Vec<u8>)
        ensures
            r@ == head_bytes(self@, config_json@),
    {
        let mut out: Vec<u8> = Vec::new();
        out.push(65);
        out.push(78);
        out.push(78);
        out.push(80);
        assert(out@ =~= magic());
        put_u32(&mut out, ANNPB_VERSION);
        put_usize(&mut out, self.stage_completed);
        put_usize(&mut out, self.epoch_completed);
        put_usize(&mut out, config_json.len());
        put_bytes(&mut out, config_json);
        put_usize(&mut out, self.nodes.len());
        put_usize(&mut out, self.routing_tables.len());
        assert(out@ =~= head_bytes(self@, config_json@));
        out
    }

    /// The checkpoint in bytes. `config_json` is its configuration as text.
    pub fn save_binary(&self, config_json: &[u8]) -> (r: Vec<u8>)
        ensures
            r@ == checkpoint_bytes(self@, config_json@),
    {
        let mut out: Vec<u8> = self.head(config_json);
        let ghost head = out@;
        let ghost nodes = self@.nodes;
        let ghost routes = self@.routing_tables;
        let mut i: usize = 0;
        assert(head + nodes_bytes(nodes, 0) =~= head);
        while i < self.nodes.len()
            invariant
                i <= self.nodes.len(),
                nodes == self@.nodes,
                out@ == head + nodes_bytes(nodes, i as int),
            decreases self.nodes.len() - i,
        {
            put_node(&mut out, &self.nodes[i]);
            assert(nodes[i as int] == self.nodes@[i as int]@);
            i += 1;
            assert(out@ =~= head + nodes_bytes(nodes, i as int));
        }
        let ghost body = out@;
        i = 0;
        assert(body + routes_bytes(routes, 0) =~= body);
        while i < self.routing_tables.len()
            invariant
                i <= self.routing_tables.len(),
                routes == self@.routing_tables,
                out@ == body + routes_bytes(routes, i as int),
            decreases self.routing_tables.len() - i,
        {
            put_route(&mut out, &self.routing_tables[i]);
            assert(routes[i as int] == self.routing_tables@[i as int]@);
            i += 1;
            assert(out@ =~= body + routes_bytes(routes, i as int));
        }
        assert(out@ =~= checkpoint_bytes(self@, config_json@));
        out
    }

    /// Reads a checkpoint from bytes. `config` is what the configuration in it was read as;
    /// for version 1 it is the default one.
    pub fn load_binary(data: &[u8], config: MicroBlockConfig) -> (r: Result<Self, CheckpointError>)
        ensures
            match checkpoint_of(data@, config) {
                Ok(record) => r matches Ok(c) && c@ == record,
                Err(e) => r matches Err(x) && x == e,
            },
    {
        let p: Preamble = match read_preamble(data) {
            Ok(p) => p,
            Err(e) => {
                return Err(e);
            },
        };
        let start: usize = p.config_end + 8;
        let version: u32 = p.version;
        let mut nodes: Vec<NodeCheckpoint> = Vec::new();
        let mut at: usize = start;
        let mut i: usize = 0;
        assert(node_records(nodes@) =~= Seq::empty());
        while i < p.num_nodes
            invariant
                i <= p.num_nodes,
                at <= data.len(),
                version == p.version,
                start == p.config_end + 8,
                preamble_of(data@) == Ok::<Preamble, CheckpointError>(p),
                nodes_at(data@, start as int, version as int, config, i as int) == Some(
                    (node_records(nodes@), at as int),
                ),
            decreases p.num_nodes - i,
        {
            let next: Option<(NodeCheckpoint, usize)> = if version >= 3 {
                get_node(data, at, version, &config)
            } else {
                get_legacy_node(data, at, version, &config)
            };
            match next {
                Some((node, behind)) => {
                    let ghost front = node_records(nodes@);
                    nodes.push(node);
                    assert(node_records(nodes@) =~= front.push(node@));
                    at = behind;
                },
                None => {
                    proof {
                        assert(nodes_at(data@, start as int, version as int, config, i + 1) is None);
                        lemma_nodes_end(
                            data@,
                            start as int,
                            version as int,
                            config,
                            i + 1,
                            p.num_nodes as int,
                        );
                    }
                    return Err(CheckpointError::UnexpectedEof);
                },
            }
            i += 1;
        }
        let ghost behind_nodes = at as int;
        let mut routing_tables: Vec<RoutingTable> = Vec::new();
        i = 0;
        assert(routing_models(routing_tables@) =~= Seq::empty());
        while i < p.num_routes
            invariant
                i <= p.num_routes,
                at <= data.len(),
                routes_at(data@, behind_nodes, i as int) == Some(
                    (routing_models(routing_tables@), at as int),
                ),
                preamble_of(data@) == Ok::<Preamble, CheckpointError>(p),
                nodes_at(
                    data@,
                    p.config_end + 8,
                    p.version as int,
                    config,
                    p.num_nodes as int,
                ) == Some((node_records(nodes@), behind_nodes)),
            decreases p.num_routes - i,
        {
            match get_route(data, at) {
                Some((table, behind)) => {
                    let ghost front = routing_models(routing_tables@);
                    routing_tables.push(table);
                    assert(routing_models(routing_tables@) =~= front.push(table@));
                    at = behind;
                },
                None => {
                    proof {
                        assert(routes_at(data@, behind_nodes, i + 1) is None);
                        lemma_routes_end(data@, behind_nodes, i + 1, p.num_routes as int);
                    }
                    return Err(CheckpointError::UnexpectedEof);
                },
            }
            i += 1;
        }
        Ok(
            ModelCheckpoint {
                stage_completed: p.stage_completed,
                epoch_completed: p.epoch_completed,
                config,
                nodes,
                routing_tables,
            },
        )
    }
}

proof fn lemma_nodes_end(
    data: Seq<u8>,
    pos: int,
    version: int,
    config: MicroBlockConfig,
    a: int,
    b: int,
)
    requires
        0 <= a <= b,
        nodes_at(data, pos, version, config, a) is None,
    ensures
        nodes_at(data, pos, version, config, b) is None,
    decreases b - a,
{
    if a < b {
        lemma_nodes_end(data, pos, version, config, a, b - 1);
    }
}

proof fn lemma_routes_end(data: Seq<u8>, pos: int, a: int, b: int)
    requires
        0 <= a <= b,
        routes_at(data, pos, a) is None,
    ensures
        routes_at(data, pos, b) is None,
    decreases b - a,
{
    if a < b {
        lemma_routes_end(data, pos, a, b - 1);
    }
}

/// A kept subnode is known by all its fields.
pub proof fn law_a_kept_subnode_is_its_fields(s: SubnodeCheckpoint)
    ensures
        s@.subnode_id == s.subnode_id,
        s@.w_gate == s.w_gate@,
        s@.w_up == s.w_up@,
        s@.w_down == s.w_down@,
        s@.alpha == s.alpha,
        s@.activation_count == s.activation_count,
        s@.credit_stats == s.credit_stats,
        s@.health == s.health,
{
}

/// A kept node is known by all its fields, and each of its subnodes by all of its own.
pub proof fn law_a_kept_node_is_its_fields(n: NodeCheckpoint, i: int)
    requires
        0 <= i,
    ensures
        n@.node_id == n.node_id,
        n@.split_count == n.split_count,
        n@.cumulative_sequence_len == n.cumulative_sequence_len,
        n@.activation_count == n.activation_count,
        n@.subnodes.len() == n.subnodes@.len(),
        i < n.subnodes@.len() ==> n@.subnodes[i] == n.subnodes@[i]@,
        n@.fast_weight == n.fast_weight@,
        n@.cumulative_energy == n.cumulative_energy,
        n@.last_p_in == n.last_p_in@,
        n@.last_prediction == n.last_prediction@,
        n@.last_token_id == n.last_token_id,
{
}

/// A checkpoint is known by all its fields, and its nodes and tables by all of their own.
pub proof fn law_a_checkpoint_is_its_fields(m: ModelCheckpoint, i: int)
    requires
        0 <= i,
    ensures
        m@.stage_completed == m.stage_completed,
        m@.epoch_completed == m.epoch_completed,
        m@.config == m.config,
        m@.nodes.len() == m.nodes@.len(),
        i < m.nodes@.len() ==> m@.nodes[i] == m.nodes@[i]@,
        m@.routing_tables.len() == m.routing_tables@.len(),
        i < m.routing_tables@.len() ==> m@.routing_tables[i] == m.routing_tables@[i]@,
{
}

/// Bytes are taken for a checkpoint exactly where they begin with the letters ANNP.
pub proof fn law_checkpoints_begin_with_their_name(data: Seq<u8>)
    ensures
        has_magic(data) <==> data.len() >= 4 && data[0] as char == 'A' && data[1] as char == 'N'
            && data[2] as char == 'N' && data[3] as char == 'P',
{
    if data.len() >= 4 {
        let m = data.take(4);
        assert(m[0] == data[0] && m[1] == data[1] && m[2] == data[2] && m[3] == data[3]);
        assert(magic()[0] == 65 && magic()[1] == 78 && magic()[2] == 78 && magic()[3] == 80);
        if data[0] == 65 && data[1] == 78 && data[2] == 78 && data[3] == 80 {
            assert(m =~= magic());
        }
    }
}

} // verus!
