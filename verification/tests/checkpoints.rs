use annp::checkpoint::{is_annpb, read_preamble, CheckpointError, ModelCheckpoint, ANNPB_VERSION};
use annp::config::MicroBlockConfig;
use annp::metrics::OnlineStats;
use annp::model::{ANNPModel, ModelInit, NodeInit};
use annp::restore::ModelEdits;
use annp::scalar::Scalar;
use annp::settings::{backup_extension, is_binary_path};
use annp::subnode::SubnodeWeights;

fn scalar(x: f32) -> Scalar {
    Scalar::from_bits(x.to_bits())
}

fn filled(len: usize, x: f32) -> Vec<Scalar> {
    vec![scalar(x); len]
}

fn new_model(num_nodes: usize, num_shards: usize, config: MicroBlockConfig) -> ANNPModel {
    let degree = config.k_neighbors.min(num_nodes - 1);
    let len = config.d_head * config.d_head * config.ffn_expansion;
    let init = ModelInit {
        num_ingress: 1,
        link_weights: (0..num_nodes).map(|_| filled(config.d_head * degree, 0.5)).collect(),
        nodes: (0..num_nodes)
            .map(|i| NodeInit {
                weights: SubnodeWeights {
                    gate: filled(len, 0.1 * i as f32),
                    up: filled(len, 0.2),
                    down: filled(len, 0.3),
                },
                fast_weight: filled(config.d_head * config.d_head, 0.01),
            })
            .collect(),
        alpha_init: scalar(1.0),
        gamma: scalar(0.99),
    };
    ANNPModel::new_with_cuda(num_nodes, num_shards, config, false, &init)
}

fn no_edits() -> ModelEdits {
    ModelEdits {
        config: None,
        max_hop: None,
        min_hop: None,
        initial_energy: None,
        weight_decay: None,
        epoch: None,
        stage: None,
        reset_state: false,
        reset_stats: false,
        reset_fast_weights: false,
        routing_weights: None,
    }
}

fn edited_config() -> MicroBlockConfig {
    MicroBlockConfig {
        mesh_rows: 2,
        mesh_cols: 2,
        d_head: 16,
        ffn_expansion: 2,
        max_hop: 8,
        min_hop: 2,
        initial_energy: scalar(10.0),
        weight_decay: scalar(0.0001),
        health_base: scalar(1.0),
        ..MicroBlockConfig::default()
    }
}

fn create_test_checkpoint() -> ModelCheckpoint {
    let model = new_model(4, 2, edited_config());
    ModelCheckpoint::extract_from_model(&model, 1, 3)
}

#[test]
fn binary_checkpoints_read_back() {
    let config = MicroBlockConfig {
        mesh_rows: 4,
        mesh_cols: 4,
        d_head: 32,
        ffn_expansion: 1,
        ..MicroBlockConfig::default()
    };

    let model = new_model(16, 2, config);
    let mut ckpt = ModelCheckpoint::extract_from_model(&model, 1, 5);
    ckpt.nodes[0].activation_count = 123;
    ckpt.nodes[0].subnodes[0].credit_stats.count = scalar(2.5);

    let config_json = b"{\"d_head\":32}";
    let bytes = ckpt.save_binary(config_json);
    assert!(is_annpb(&bytes));
    let preamble = read_preamble(&bytes).unwrap();
    assert_eq!(preamble.version, ANNPB_VERSION);
    assert_eq!(&bytes[preamble.config_start..preamble.config_end], config_json);

    let loaded_bin = ModelCheckpoint::load_binary(&bytes, config).unwrap();
    assert_eq!(loaded_bin.stage_completed, 1);
    assert_eq!(loaded_bin.epoch_completed, 5);
    assert_eq!(loaded_bin.config.d_head, 32);
    assert_eq!(loaded_bin.nodes[0].activation_count, 123);
    assert_eq!(loaded_bin.nodes[0].subnodes.len(), 1);
    assert_eq!(loaded_bin.nodes[0].subnodes[0].credit_stats.count, scalar(2.5));
    assert_eq!(loaded_bin.nodes[3].subnodes[0].w_gate, ckpt.nodes[3].subnodes[0].w_gate);
    assert_eq!(loaded_bin.routing_tables[5].neighbors, ckpt.routing_tables[5].neighbors);
    assert_eq!(loaded_bin.routing_tables[5].weights, ckpt.routing_tables[5].weights);
    assert_eq!(loaded_bin.save_binary(config_json), bytes);

    let mut target_model = new_model(16, 2, MicroBlockConfig { ffn_expansion: 1, ..config });
    loaded_bin.apply_to_model(&mut target_model);
    assert_eq!(target_model.nodes.len(), 16);
    assert_eq!(target_model.config.d_head, 32);
    assert_eq!(target_model.nodes[0].activation_count, 123);
}

#[test]
fn broken_checkpoints_are_refused() {
    let ckpt = create_test_checkpoint();
    let bytes = ckpt.save_binary(b"{}");
    for len in 0..bytes.len() {
        let cut = ModelCheckpoint::load_binary(&bytes[..len], ckpt.config);
        assert_eq!(cut.err(), Some(CheckpointError::UnexpectedEof), "cut at {}", len);
    }
    let mut foreign = bytes.clone();
    foreign[0] = b'X';
    assert!(!is_annpb(&foreign));
    assert_eq!(
        ModelCheckpoint::load_binary(&foreign, ckpt.config).err(),
        Some(CheckpointError::InvalidMagic)
    );
    assert_eq!(read_preamble(&foreign).err(), Some(CheckpointError::InvalidMagic));
}

#[test]
fn files_of_the_first_version_are_refused_when_cut() {
    let config = edited_config();
    let mut bytes = create_test_checkpoint().save_binary(b"{}")[..4].to_vec();
    for word in [1u32, 2, 3, 1, 0, 0, 0x3f80_0000] {
        bytes.extend_from_slice(&word.to_le_bytes());
    }
    bytes.extend_from_slice(&9u64.to_le_bytes());
    for value in [0.5f32, 0.25, 0.125] {
        bytes.extend_from_slice(&1u32.to_le_bytes());
        bytes.extend_from_slice(&value.to_le_bytes());
    }
    let loaded = ModelCheckpoint::load_binary(&bytes, config).unwrap();
    assert_eq!(loaded.stage_completed, 2);
    assert_eq!(loaded.nodes[0].cumulative_sequence_len, 9);
    assert_eq!(loaded.nodes[0].subnodes[0].w_down, filled(1, 0.125));
    for len in 0..bytes.len() {
        let cut = ModelCheckpoint::load_binary(&bytes[..len], config);
        assert_eq!(cut.err(), Some(CheckpointError::UnexpectedEof), "cut at {}", len);
    }
}

#[test]
fn a_network_gives_back_what_was_applied_to_it() {
    let mut ckpt = create_test_checkpoint();
    for (i, node) in ckpt.nodes.iter_mut().enumerate() {
        node.split_count = i as u32;
        node.activation_count = 10 + i as u64;
        node.cumulative_sequence_len = 20 + i as u64;
        node.fast_weight = filled(16 * 16, 0.5);
        node.subnodes[0].health = scalar(0.25);
    }
    ckpt.routing_tables[1].edge_credit[0].mean = scalar(0.75);
    let mut model = new_model(4, 2, MicroBlockConfig { max_hop: 3, ..edited_config() });
    ckpt.apply_to_model(&mut model);
    let back = ModelCheckpoint::extract_from_model(&model, 1, 3);
    assert_eq!(back.config, ckpt.config);
    assert_eq!(back.save_binary(b"{}"), ckpt.save_binary(b"{}"));
    assert_eq!(back.nodes[3].subnodes[0].health, scalar(0.25));
    assert_eq!(back.routing_tables[1].edge_credit[0].mean, scalar(0.75));
    // the memory of a node stays its own
    assert_eq!(back.nodes[0].fast_weight, filled(16 * 16, 0.01));
    // a record of a node that is not there is passed over, and others stay as they are
    let mut few = create_test_checkpoint();
    few.nodes.truncate(1);
    few.nodes[0].node_id = 99;
    few.nodes[0].split_count = 7;
    few.apply_to_model(&mut model);
    assert_eq!(model.nodes.len(), 4);
    assert_eq!(model.nodes[3].split_count, 3);
    assert_eq!(model.nodes[0].split_count, 0);
}

#[test]
fn edits_override_configuration_and_progress() {
    let mut updated = create_test_checkpoint();
    let edits = ModelEdits {
        max_hop: Some(16),
        min_hop: Some(4),
        initial_energy: Some(scalar(20.0)),
        weight_decay: Some(scalar(0.01)),
        epoch: Some(10),
        stage: Some(3),
        ..no_edits()
    };
    updated.edit(&edits);
    assert_eq!(updated.stage_completed, 3);
    assert_eq!(updated.epoch_completed, 10);
    assert_eq!(updated.config.max_hop, 16);
    assert_eq!(updated.config.min_hop, 4);
    assert_eq!(updated.config.initial_energy, scalar(20.0));
    assert_eq!(updated.config.weight_decay, scalar(0.01));
    assert_eq!(updated.config.d_head, 16);

    let mut same = create_test_checkpoint();
    same.edit(&no_edits());
    assert_eq!(same.save_binary(b"{}"), create_test_checkpoint().save_binary(b"{}"));

    let mut replaced = create_test_checkpoint();
    replaced.edit(&ModelEdits {
        config: Some(MicroBlockConfig::default()),
        max_hop: Some(1),
        ..no_edits()
    });
    assert_eq!(replaced.config, MicroBlockConfig { max_hop: 1, ..MicroBlockConfig::default() });
}

#[test]
fn edits_reset_what_they_are_asked_to() {
    let mut ckpt = create_test_checkpoint();
    for node in &mut ckpt.nodes {
        node.last_p_in = filled(16, 1.0);
        node.last_prediction = filled(16, 2.0);
        node.last_token_id = Some(999);
        node.activation_count = 50;
        node.cumulative_sequence_len = 60;
        node.cumulative_energy = scalar(55.5);
        node.fast_weight = filled(16 * 16, 0.5);
        for subnode in &mut node.subnodes {
            subnode.activation_count = 50;
            subnode.health = scalar(0.42);
            subnode.credit_stats.count = scalar(1.0);
            subnode.credit_stats.mean = scalar(1.23);
        }
    }
    for rt in &mut ckpt.routing_tables {
        for stats in &mut rt.edge_credit {
            stats.count = scalar(1.0);
            stats.mean = scalar(0.88);
        }
    }
    let fresh = ckpt.routing_tables.iter().map(|rt| filled(16 * rt.neighbors.len(), 0.125)).collect();
    ckpt.edit(&ModelEdits {
        reset_state: true,
        reset_stats: true,
        reset_fast_weights: true,
        routing_weights: Some(fresh),
        ..no_edits()
    });
    for node in &ckpt.nodes {
        assert!(node.last_p_in.is_empty());
        assert!(node.last_prediction.is_empty());
        assert!(node.last_token_id.is_none());
        assert_eq!(node.activation_count, 0);
        assert_eq!(node.cumulative_sequence_len, 0);
        for subnode in &node.subnodes {
            assert_eq!(subnode.activation_count, 0);
            assert_eq!(subnode.credit_stats, OnlineStats::default());
            assert_eq!(subnode.health, ckpt.config.health_base);
        }
        assert!(node.fast_weight.iter().all(|&x| x == scalar(0.0)));
        assert_eq!(node.cumulative_energy, ckpt.config.initial_energy);
    }
    for rt in &ckpt.routing_tables {
        assert_eq!(rt.weights, filled(16 * rt.neighbors.len(), 0.125));
        for stats in &rt.edge_credit {
            assert_eq!(stats.count, scalar(0.0));
            assert_eq!(stats.mean, scalar(0.0));
        }
    }
}

#[test]
fn equal_networks_have_equal_bytes() {
    let first = create_test_checkpoint().save_binary(b"{}");
    let second = create_test_checkpoint().save_binary(b"{}");
    assert_eq!(first, second);
}

#[test]
fn paths_say_how_a_checkpoint_is_kept() {
    assert!(is_binary_path(&Some("annpb".to_string())));
    assert!(!is_binary_path(&Some("ANNPB".to_string())));
    assert!(!is_binary_path(&Some("json".to_string())));
    assert!(!is_binary_path(&None));
    assert_eq!(backup_extension(&Some("annpb".to_string())), "annpb.bak");
    assert_eq!(backup_extension(&Some("json".to_string())), "json.bak");
    assert_eq!(backup_extension(&None), "annpb.bak");
}
