use annp::config::MicroBlockConfig;
use annp::hardening::{apply_plastic_hardening, HardeningResult, NodeHardening};
use annp::mesh::{base_offset, link_node, TopologyGrid};
use annp::metrics::OnlineStats;
use annp::model::{ANNPModel, ModelInit, NodeInit};
use annp::particle::{Particle, ParticleHeader};
use annp::routing::{Route, Routing};
use annp::scalar::Scalar;
use annp::scattering::{gather, TokenScattering};
use annp::serializer::EgressSerializer;
use annp::subnode::SubnodeWeights;
use annp::topology::RoutingTable;

fn scalar(x: f32) -> Scalar {
    Scalar::from_bits(x.to_bits())
}

fn scalars(values: &[f32]) -> Vec<Scalar> {
    values.iter().map(|&x| scalar(x)).collect()
}

fn filled(len: usize, x: f32) -> Vec<Scalar> {
    vec![scalar(x); len]
}

fn weights(len: usize) -> SubnodeWeights {
    SubnodeWeights { gate: filled(len, 0.1), up: filled(len, 0.2), down: filled(len, 0.3) }
}

fn stats(count: f32, mean: f32) -> OnlineStats {
    OnlineStats { count: scalar(count), mean: scalar(mean), ..OnlineStats::default() }
}

fn new_model(num_nodes: usize, num_shards: usize, config: MicroBlockConfig) -> ANNPModel {
    let degree = config.k_neighbors.min(num_nodes.saturating_sub(1)).max(1);
    let degree = if num_nodes <= 1 { 0 } else { degree };
    let ffn_dim = config.d_head * config.ffn_expansion;
    let init = ModelInit {
        num_ingress: 1,
        link_weights: (0..num_nodes).map(|_| filled(config.d_head * degree, 0.5)).collect(),
        nodes: (0..num_nodes)
            .map(|_| NodeInit {
                weights: weights(config.d_head * ffn_dim),
                fast_weight: filled(config.d_head * config.d_head, 0.01),
            })
            .collect(),
        alpha_init: scalar(1.0),
        gamma: scalar(0.99),
    };
    ANNPModel::new_with_cuda(num_nodes, num_shards, config, false, &init)
}

#[test]
fn test_token_scattering_split() {
    let num_shards = 4;
    let d_head = 64;
    let d_model = num_shards * d_head;
    let seq_len = 5;

    let scattering = TokenScattering::new(num_shards, d_head, 4);
    let config = MicroBlockConfig::default();

    let tensor_data = filled(seq_len * d_model, 1.0);

    let particles = scattering.scatter_embeddings(&tensor_data, seq_len, d_model, &config, 0);

    assert_eq!(particles.len(), seq_len * num_shards);
    for p in &particles {
        assert_eq!(p.d_head(), d_head);
        assert_eq!(p.header.energy, config.initial_energy);
        assert!(!p.header.halted);
    }
}

#[test]
fn gathering_undoes_scattering() {
    let scattering = TokenScattering::new(2, 2, 1);
    let config = MicroBlockConfig::default();
    let data: Vec<Scalar> = (0..12).map(|i| scalar(i as f32)).collect();
    let mut particles = scattering.scatter_embeddings(&data, 3, 4, &config, 0);
    assert_eq!(particles[3].header.origin_token_id, 1);
    assert_eq!(particles[3].header.shard_id, 1);
    assert_eq!(particles[3].payload, scalars(&[6.0, 7.0]));
    particles.reverse();
    assert_eq!(gather(&particles, 3, 2, 2), data);
    particles.swap(0, 4);
    // strays among them change nothing
    let late = Particle::new(ParticleHeader::new(3, 0, scalar(1.0)), filled(2, 9.0));
    let wide = Particle::new(ParticleHeader::new(0, 2, scalar(1.0)), filled(2, 9.0));
    let mut crowd = particles.clone();
    crowd.insert(2, late);
    crowd.push(wide);
    assert_eq!(gather(&crowd, 3, 2, 2), data);
    let mut serializer = EgressSerializer::new(2, 2, &filled(16, 0.0));
    assert_eq!(serializer.w_egress[..6], scalars(&[1.0, 0.0, 0.0, 0.0, 0.0, 1.0])[..]);
    assert_eq!(serializer.reconstruct_sequence(3, &crowd), data);
    assert_eq!(serializer.last_full_data, data);
    particles.swap(0, 4);
    // a missing particle leaves zeros behind
    let lost = particles.remove(0);
    assert_eq!(lost.header.origin_token_id, 2);
    let rest = gather(&particles, 3, 2, 2);
    assert_eq!(rest[..10], data[..10]);
    assert_eq!(rest[10..], scalars(&[0.0, 0.0])[..]);
}

#[test]
fn offsets_number_tokens_on() {
    let scattering = TokenScattering::new(1, 2, 1);
    let config = MicroBlockConfig::default();
    let particles = scattering.scatter_embeddings(&filled(4, 0.5), 2, 2, &config, 7);
    let tokens: Vec<u32> = particles.iter().map(|p| p.header.origin_token_id).collect();
    assert_eq!(tokens, vec![7, 8]);
}

#[test]
fn test_egress_serializer_reconstruct_and_update() {
    let d_head = 64;
    let num_shards = 4;
    let d_model = d_head * num_shards;
    let seq_len = 2;

    let mut serializer = EgressSerializer::new(d_head, num_shards, &filled(d_model * d_model, 0.001));

    let particles = vec![
        Particle::new(ParticleHeader::new(0, 0, scalar(1.0)), filled(64, 1.0)),
        Particle::new(ParticleHeader::new(0, 1, scalar(1.0)), filled(64, 2.0)),
        Particle::new(ParticleHeader::new(0, 2, scalar(1.0)), filled(64, 3.0)),
        Particle::new(ParticleHeader::new(0, 3, scalar(1.0)), filled(64, 4.0)),
    ];

    let out = serializer.reconstruct_sequence(seq_len, &particles);
    assert_eq!(out.len(), seq_len * d_model);
    assert_eq!(out[0], scalar(1.0));
    assert_eq!(out[d_model - 1], scalar(4.0));
    assert_eq!(out[d_model], scalar(0.0));

    let stepped = filled(d_model * d_model, 0.5);
    let momentum = filled(d_model * d_model, 0.25);
    assert!(serializer.update_weights(seq_len * d_model, stepped, momentum));
    assert_eq!(serializer.w_egress[3], scalar(0.5));
    assert_eq!(serializer.v_egress[3], scalar(0.25));
}

#[test]
fn nodes_are_linked_to_others_once() {
    for num_nodes in 1..30usize {
        let base = base_offset(num_nodes);
        assert_eq!(base, (num_nodes as f32).sqrt().ceil() as usize);
        for k in 0..8 {
            for i in 0..num_nodes {
                let links = link_node(i, num_nodes, k, base);
                assert!(links.iter().all(|&n| n < num_nodes && n != i));
                let mut distinct = links.clone();
                distinct.sort();
                distinct.dedup();
                assert_eq!(distinct.len(), links.len());
                assert_eq!(links.len(), k.min(num_nodes - 1));
            }
        }
    }
}

#[test]
fn long_links_reach_a_square_root_far() {
    let pairs = [(0, 0), (1, 1), (2, 2), (4, 2), (5, 3), (100, 10), (101, 11), (1 << 20, 1 << 10)];
    for (num_nodes, reach) in pairs {
        assert_eq!(base_offset(num_nodes), reach);
    }
    let grid = TopologyGrid::new(10, 1, 4, &(0..10).map(|_| filled(4, 0.5)).collect());
    assert_eq!(grid.routing_tables[0].neighbors, vec![4, 8, 2, 6]);
    assert_eq!(grid.routing_tables[9].neighbors, vec![3, 7, 1, 5]);
}

#[test]
fn a_mesh_has_equal_degrees() {
    let grid = TopologyGrid::new(9, 2, 4, &(0..9).map(|_| filled(8, 0.5)).collect());
    assert_eq!(grid.total_links(), 36);
    assert!(grid.routing_tables.iter().all(|t| t.neighbors.len() == 4));
}

#[test]
fn unexplored_links_are_judged_neutrally() {
    let mut table = RoutingTable::new(1, vec![4, 5, 6], filled(3, 0.5));
    table.ensure_edge_credit();
    table.edge_credit[0] = stats(3.0, 0.75);
    let sampled = scalars(&[0.5, 9.0, 9.0]);
    let neutral = scalars(&[7.0, 0.25, 0.125]);
    assert!(table.is_explored(0));
    assert!(!table.is_explored(1));
    assert_eq!(table.known_means(), scalars(&[0.75]));
    assert_eq!(table.select_next_hop(&sampled, &neutral), 4);
    let lonely = RoutingTable::new(1, Vec::new(), Vec::new());
    assert_eq!(lonely.select_next_hop(&Vec::new(), &Vec::new()), 0);
}

#[test]
fn links_are_added_and_credited() {
    let mut table = RoutingTable::new(2, vec![4], scalars(&[1.0, 2.0]));
    table.add_neighbor(7, &scalars(&[8.0, 9.0]));
    assert_eq!(table.neighbors, vec![4, 7]);
    assert_eq!(table.weights, scalars(&[1.0, 8.0, 2.0, 9.0]));
    // a link that is there already is not added again
    table.add_neighbor(7, &scalars(&[0.0, 0.0]));
    assert_eq!(table.neighbors, vec![4, 7]);
    table.observe_credit(7, scalar(0.5), stats(1.0, 0.5), 2, &scalars(&[3.0, 4.0]));
    assert_eq!(table.edge_stats(7).map(|s| s.mean), Some(scalar(0.5)));
    assert_eq!(table.weights, scalars(&[1.0, 3.0, 2.0, 4.0]));
    let before = table.weights.clone();
    table.observe_credit(99, scalar(0.5), stats(1.0, 0.5), 2, &scalars(&[7.0, 7.0]));
    assert_eq!(table.weights, before);
    assert!(table.edge_stats(99).is_none());
}

#[test]
fn dominated_links_are_pruned() {
    let mut table = RoutingTable::new(1, vec![1, 2, 3, 4], scalars(&[0.1, 0.2, 0.3, 0.4]));
    table.edge_credit = vec![stats(9.0, 1.0), stats(9.0, -1.0), stats(1.0, -9.0), stats(9.0, 0.9)];
    let lower = scalars(&[0.8, -1.2, -9.0, 0.7]);
    let upper = scalars(&[1.2, -0.8, -9.0, 1.1]);
    assert_eq!(table.prune_dominated_links(&lower, &upper), 1);
    // the unexplored link stays, and so does the one whose range overlaps
    assert_eq!(table.neighbors, vec![1, 3, 4]);
    assert_eq!(table.weights, scalars(&[0.1, 0.3, 0.4]));
    // what was kept is kept again
    let again = table.prune_dominated_links(
        &scalars(&[0.8, -9.0, 0.7]),
        &scalars(&[1.2, -9.0, 1.1]),
    );
    assert_eq!(again, 0);
    assert_eq!(table.neighbors, vec![1, 3, 4]);
    assert_eq!(table.weights, scalars(&[0.1, 0.3, 0.4]));
}

#[test]
fn particles_are_routed_until_they_settle() {
    let config = MicroBlockConfig { max_hop: 3, ..MicroBlockConfig::default() };
    let tables: Vec<RoutingTable> =
        (0..3).map(|i| RoutingTable::new(1, vec![(i + 1) % 3], filled(1, 0.5))).collect();
    let particles: Vec<Particle> = (0..4u32)
        .map(|i| Particle::new(ParticleHeader::new(i, 0, scalar(1.0)), filled(1, i as f32)))
        .collect();
    let mut routing = Routing::start(particles, &vec![0, 2], 3, 10, 64);
    let mut steps = 0;
    while let Some(batches) = routing.begin_step() {
        steps += 1;
        for (node, batch) in batches.into_iter().enumerate() {
            for mut p in batch {
                p.header.step_hop(scalar(0.5), config.max_hop);
                let route = routing.route(p, &tables[node], &filled(1, 1.0), &filled(1, 1.0));
                if steps < 3 {
                    assert_eq!(route, Route::Sent { next_hop: (node + 1) % 3, learn: false });
                } else {
                    assert_eq!(route, Route::Settled);
                }
            }
        }
        routing.end_step();
    }
    let settled = routing.finish();
    let mut tokens: Vec<u32> = settled.iter().map(|p| p.header.origin_token_id).collect();
    tokens.sort();
    assert_eq!(tokens, vec![0, 1, 2, 3]);
    assert!(settled.iter().all(|p| p.header.hop_count == 3 && p.header.halted));
}

#[test]
fn running_out_of_steps_loses_no_particle() {
    let table = RoutingTable::new(1, vec![0], filled(1, 0.5));
    let particles = vec![Particle::new(ParticleHeader::new(3, 1, scalar(1.0)), filled(1, 2.0))];
    let mut routing = Routing::start(particles, &vec![0], 1, 2, 64);
    while let Some(batches) = routing.begin_step() {
        for p in batches.into_iter().flatten() {
            routing.route(p, &table, &filled(1, 1.0), &filled(1, 1.0));
        }
        routing.end_step();
    }
    let left = routing.finish();
    assert_eq!(left.len(), 1);
    assert_eq!(left[0].payload, scalars(&[2.0]));
}

#[test]
fn crowded_nodes_send_particles_elsewhere() {
    let table = RoutingTable::new(1, vec![1, 2], filled(2, 0.5));
    let mut routing = Routing::start(Vec::new(), &vec![0], 3, 10, 1);
    let mut hops = Vec::new();
    for i in 0..4 {
        let mut p = Particle::new(ParticleHeader::new(i, 0, scalar(1.0)), filled(1, 0.0));
        p.header.hop_count = 1;
        match routing.route(p, &table, &scalars(&[2.0, 1.0]), &scalars(&[2.0, 1.0])) {
            Route::Sent { next_hop, .. } => hops.push(next_hop),
            Route::Settled => panic!("not settled"),
        }
    }
    assert_eq!(hops, vec![1, 1, 2, 2]);
}

#[test]
fn networks_forget_between_sequences() {
    let config = MicroBlockConfig {
        d_head: 2,
        ffn_expansion: 1,
        k_neighbors: 2,
        ..MicroBlockConfig::default()
    };
    let mut model = new_model(4, 2, config);
    assert_eq!(model.nodes.len(), 4);
    assert_eq!(model.topology.total_links(), 8);
    model.nodes[1].last_token_id = Some(9);
    model.nodes[1].local_loss_count = 3;
    model.nodes[1].activation_count = 5;
    model.nodes[2].activation_count = 6;
    model.nodes[3].total_particles_processed = 7;
    assert_eq!(model.loss_count(), 3);
    assert_eq!(model.total_activations(), 11);
    let totals = model.extract_batch_metrics();
    assert_eq!(totals.total_particles, 7);
    assert_eq!(totals.total_subnodes, 4);
    assert_eq!(totals.utilization, vec![0, 0, 0, 7]);
    assert_eq!(model.extract_batch_metrics().total_particles, 0);
    model.reset_state();
    assert_eq!(model.nodes[1].last_token_id, None);
    assert_eq!(model.loss_count(), 0);
    assert_eq!(model.total_activations(), 11);
}

/// A pass at which every node needs as many activations as its divisions ask for.
fn harden(model: &mut ANNPModel) -> HardeningResult {
    let plan = model
        .nodes
        .iter()
        .enumerate()
        .map(|(i, node)| NodeHardening {
            alpha: scalar(0.25 * i as f32),
            needed: node.config.current_neurogenesis_threshold(node.split_count),
            halved: scalar(0.5),
            weights: weights(node.config.d_head * node.config.d_head * node.config.ffn_expansion),
        })
        .collect();
    apply_plastic_hardening(model, plan)
}

fn create_test_config() -> MicroBlockConfig {
    MicroBlockConfig {
        num_shards: 4,
        mesh_rows: 2,
        mesh_cols: 2,
        d_head: 64,
        ffn_expansion: 8,
        initial_energy: scalar(1.0),
        max_hop: 20,
        min_hop: 2,
        neurogenesis_threshold: 50,
        subnode_max: 8,
        progressive_hardening_factor: scalar(0.5),
        ..MicroBlockConfig::default()
    }
}

#[test]
fn test_subnode_neurogenesis_growth_and_progressive_threshold() {
    let mut model = new_model(4, 4, create_test_config());
    assert_eq!(model.nodes.len(), 4);
    assert_eq!(model.nodes[0].subnodes.len(), 1);
    assert_eq!(model.nodes[0].split_count, 0);

    // Activations of node 0 beyond the first threshold (50)
    model.nodes[0].activation_count = 60;
    model.nodes[1].activation_count = 10;
    let result = harden(&mut model);

    assert_eq!(result.spawn_details.len(), 1);
    let (node_id, count_before, count_after) = result.spawn_details[0];
    assert_eq!(node_id, 0);
    assert_eq!(count_before, 1);
    assert_eq!(count_after, 2);

    assert_eq!(model.nodes.len(), 4);
    assert_eq!(model.nodes[0].subnodes.len(), 2);
    assert_eq!(model.nodes[0].split_count, 1);
    assert_eq!(model.nodes[0].activation_count, 0);

    // 50 * (1 + 0.5 * 1) = 75
    let new_thresh =
        model.nodes[0].config.current_neurogenesis_threshold(model.nodes[0].split_count);
    assert_eq!(new_thresh, 75);

    // 60 < 75
    model.nodes[0].activation_count = 60;
    let result2 = harden(&mut model);
    assert_eq!(result2.spawn_details.len(), 0);

    // 80 >= 75
    model.nodes[0].activation_count = 80;
    let result3 = harden(&mut model);
    assert_eq!(result3.spawn_details.len(), 1);
    assert_eq!(model.nodes[0].subnodes.len(), 3);
    assert_eq!(model.nodes[0].split_count, 2);
}

#[test]
fn hardening_scales_and_grows_where_there_is_room() {
    let config = MicroBlockConfig {
        d_head: 2,
        ffn_expansion: 1,
        k_neighbors: 2,
        subnode_max: 2,
        ..MicroBlockConfig::default()
    };
    let mut model = new_model(4, 2, config);
    model.nodes[1].activation_count = 49;
    model.nodes[2].activation_count = 50;
    let result = harden(&mut model);
    assert_eq!(result.links_before, 8);
    assert_eq!(result.links_pruned, 0);
    assert_eq!(result.spawn_details, vec![(2, 1, 2)]);
    assert_eq!(model.nodes.len(), 4);
    assert_eq!(model.nodes[3].subnodes[0].alpha, scalar(0.75));
    assert_eq!(model.nodes[2].subnodes[0].health, scalar(0.5));
    assert_eq!(model.nodes[2].subnodes[1].health, config.health_base);
    assert_eq!(model.nodes[1].activation_count, 49);
    assert_eq!(model.nodes[2].activation_count, 0);

    model.nodes[2].activation_count = 1000;
    assert_eq!(harden(&mut model).spawn_details, vec![]);
    assert_eq!(model.nodes[2].subnodes.len(), 2);
    assert_eq!(model.nodes[2].activation_count, 1000);
}

#[test]
fn thresholds_rise_with_each_growth() {
    let config = |base: u64, factor: f32| MicroBlockConfig {
        neurogenesis_threshold: base,
        progressive_hardening_factor: scalar(factor),
        ..MicroBlockConfig::default()
    };
    let needed = |base, factor, splits| config(base, factor).current_neurogenesis_threshold(splits);
    assert_eq!(needed(50, 0.5, 0), 50);
    assert_eq!(needed(50, 0.5, 2), 100);
    assert_eq!(needed(7, 0.25, 1), 8);
    assert_eq!(needed(7, 0.25, 4), 14);
    assert_eq!(needed(50, 0.0, 9), 50);
    assert_eq!(needed(50, 3.0, 2), 350);
    assert_eq!(needed(50, f32::MIN_POSITIVE, u32::MAX), 50);
    assert_eq!(needed(1, f32::from_bits(1), 1), 1);
    assert_eq!(needed(1, 1e30, 1), u64::MAX);
    assert_eq!(needed(0, 1e30, 1), 0);
    assert_eq!(needed(1, f32::MAX, 1), u64::MAX);
    assert_eq!(needed(u64::MAX, 0.5, 1), u64::MAX);
    assert_eq!(needed(1 << 40, 0.5, 1), (1 << 40) + (1 << 39));
}
