use annp::config::MicroBlockConfig;
use annp::metrics::OnlineStats;
use annp::micro_block::{
    Lesson, MicroBlockNode, ParticleResult, SubBatchOpening, SubBatchOutcome,
};
use annp::particle::{Particle, ParticleHeader};
use annp::scalar::Scalar;
use annp::subnode::{Subnode, SubnodeWeights};
use rand::Rng;

fn scalar(x: f32) -> Scalar {
    Scalar::from_bits(x.to_bits())
}

fn number(s: Scalar) -> f32 {
    f32::from_bits(s.to_bits())
}

fn scalars(values: &[f32]) -> Vec<Scalar> {
    values.iter().map(|&x| scalar(x)).collect()
}

fn drawn(len: usize, scale: f32) -> Vec<Scalar> {
    let mut rng = rand::rng();
    (0..len).map(|_| scalar(rng.random_range(-scale..scale))).collect()
}

fn random_weights(len: usize) -> SubnodeWeights {
    SubnodeWeights { gate: drawn(len, 0.1), up: drawn(len, 0.1), down: drawn(len, 0.01) }
}

fn perturbed(values: &[Scalar]) -> Vec<Scalar> {
    let mut rng = rand::rng();
    values.iter().map(|&v| scalar(number(v) + rng.random_range(-0.01f32..0.01))).collect()
}

fn child_weights(parent: &Subnode) -> SubnodeWeights {
    SubnodeWeights {
        gate: perturbed(&parent.w_gate),
        up: perturbed(&parent.w_up),
        down: perturbed(&parent.w_down),
    }
}

fn new_node(config: MicroBlockConfig) -> MicroBlockNode {
    let ffn_dim = config.d_head * config.ffn_expansion;
    MicroBlockNode::new(
        0,
        config,
        false,
        random_weights(config.d_head * ffn_dim),
        drawn(config.d_head * config.d_head, 0.01),
        scalar(1.0),
        scalar(0.99),
    )
}

/// The statistics after one more observation.
fn with_value(stats: OnlineStats, value: f32) -> OnlineStats {
    let gamma = number(stats.gamma);
    let count = gamma * number(stats.count) + 1.0;
    let delta = value - number(stats.mean);
    let mean = number(stats.mean) + delta / count;
    let m2 = gamma * number(stats.m2) + delta * (value - mean);
    OnlineStats { count: scalar(count), mean: scalar(mean), m2: scalar(m2), gamma: stats.gamma }
}

fn variance(stats: OnlineStats) -> f32 {
    if number(stats.count) > 0.0 {
        (number(stats.m2) / number(stats.count)).max(0.0)
    } else {
        0.0
    }
}

fn threshold(node: &MicroBlockNode) -> Scalar {
    scalar(number(node.config.health_base) * (1.0 + node.subnodes.len() as f32))
}

fn try_neurogenesis(node: &mut MicroBlockNode) -> bool {
    let active = &node.subnodes[node.active_subnode];
    let spread = scalar(variance(active.credit_stats));
    let halved = scalar(number(active.health) * 0.5);
    let weights = child_weights(active);
    let needed = threshold(node);
    node.try_subnode_neurogenesis(needed, spread, halved, weights)
}

fn opening(node: &MicroBlockNode, p_in: Vec<Scalar>) -> SubBatchOpening {
    let health: Vec<Scalar> = node.subnodes.iter().map(|s| s.health).collect();
    SubBatchOpening {
        cumulative_energy: scalar(number(node.cumulative_energy) + 1.0),
        p_in,
        decayed: health.clone(),
        recovered: health.clone(),
        scores: health,
    }
}

fn outcome(node: &MicroBlockNode, results: Vec<ParticleResult>, credit: f32) -> SubBatchOutcome {
    let active = &node.subnodes[node.active_subnode];
    SubBatchOutcome {
        local_loss_accumulator: scalar(number(node.local_loss_accumulator) + 0.5),
        lesson: None,
        p_out: scalars(&[9.0, 9.0]),
        results,
        mean_credit: scalar(credit),
        credit_stats: with_value(active.credit_stats, credit),
        rewarded: scalar(number(active.health) + credit),
        penalized: scalar(number(active.health) + 0.5 * credit),
        sum_temporal_affinity: scalar(0.25),
        sum_credit_volatility: scalar(0.125),
        sum_squared_energy: scalar(2.0),
        sum_memory_density: scalar(0.75),
    }
}

fn result(payload: f32, credit: f32, remaining: f32) -> ParticleResult {
    ParticleResult {
        payload: scalars(&[payload, payload]),
        credit: scalar(credit),
        remaining: scalar(remaining),
    }
}

fn small_config() -> MicroBlockConfig {
    MicroBlockConfig { d_head: 2, ffn_expansion: 1, max_hop: 10, ..MicroBlockConfig::default() }
}

#[test]
fn test_particle_header_hop_and_energy_decay() {
    let mut header = ParticleHeader::new(101, 1, scalar(1.0));
    assert_eq!(header.origin_token_id, 101);
    assert_eq!(header.shard_id, 1);
    assert_eq!(header.energy, scalar(1.0));
    assert_eq!(header.hop_count, 0);
    assert!(!header.halted);

    let max_hop = 10;
    for i in 1..=10 {
        let remaining = number(header.energy) - 1.0 / max_hop as f32;
        header.step_hop(scalar(remaining), max_hop);
        assert_eq!(header.hop_count, i);
        if i < 10 {
            assert!(!header.halted);
        }
    }

    assert_eq!(header.energy, scalar(0.0));
    assert!(header.halted);
}

#[test]
fn test_particle_payload() {
    let header = ParticleHeader::new(0, 0, scalar(1.0));
    let payload = vec![scalar(0.5); 64];
    let particle = Particle::new(header, payload);
    assert_eq!(particle.d_head(), 64);
    assert_eq!(particle.trace_concentration, scalar(1.0));
}

#[test]
fn exhausted_particles_settle_before_the_ceiling() {
    let mut header = ParticleHeader::new(0, 0, scalar(1.0));
    header.step_hop(scalar(-0.5), 100);
    assert_eq!(header.energy, scalar(0.0));
    assert!(header.halted);
    let mut lost = ParticleHeader::new(0, 0, scalar(1.0));
    lost.step_hop(scalar(f32::NAN), 100);
    assert_eq!(lost.energy, scalar(0.0));
    assert!(lost.halted);
    lost.step_hop(scalar(0.5), 100);
    assert!(lost.halted);
}

#[test]
fn test_new_random_initialization() {
    let d_head = 64;
    let ffn_dim = 128;
    let alpha = 0.5;
    let gamma = 0.99;
    let node = Subnode::new_random(
        1,
        d_head,
        ffn_dim,
        random_weights(d_head * ffn_dim),
        scalar(alpha),
        scalar(gamma),
    );

    assert_eq!(node.subnode_id, 1);
    assert_eq!(node.alpha, scalar(0.5));
    assert_eq!(node.activation_count, 0);

    let w_len = d_head * ffn_dim;
    assert_eq!(node.w_gate.len(), w_len);
    assert_eq!(node.w_up.len(), w_len);
    assert_eq!(node.w_down.len(), w_len);
}

#[test]
fn test_spawn_from_parent() {
    let d_head = 32;
    let ffn_dim = 64;
    let gamma = 0.99;
    let parent = Subnode::new_random(
        0,
        d_head,
        ffn_dim,
        random_weights(d_head * ffn_dim),
        scalar(0.7),
        scalar(gamma),
    );

    let child =
        Subnode::spawn_from_parent(1, &parent, d_head, child_weights(&parent), scalar(1.0));

    assert_eq!(child.subnode_id, 1);
    assert_eq!(child.alpha, scalar(0.7));

    let w_len = d_head * ffn_dim;
    assert_eq!(child.w_gate.len(), w_len);

    let mut w_gate_diff = 0.0;
    for i in 0..w_len {
        w_gate_diff += (number(child.w_gate[i]) - number(parent.w_gate[i])).abs();
    }
    assert!(w_gate_diff > 0.0, "Child weights must be perturbed from parent");

    let mut w_down_diff = 0.0;
    for i in 0..w_len {
        w_down_diff += (number(child.w_down[i]) - number(parent.w_down[i])).abs();
    }
    assert!(w_down_diff > 0.0, "Child w_down must be perturbed from parent");
}

#[test]
fn test_subnode_initialization() {
    let d_head = 64;
    let ffn_dim = 256;
    let alpha = 1.0;

    let gamma = 0.99;
    let subnode = Subnode::new_random(
        0,
        d_head,
        ffn_dim,
        random_weights(d_head * ffn_dim),
        scalar(alpha),
        scalar(gamma),
    );

    assert_eq!(subnode.subnode_id, 0);
    assert_eq!(subnode.w_gate.len(), d_head * ffn_dim);
    assert_eq!(subnode.w_up.len(), d_head * ffn_dim);
    assert_eq!(subnode.w_down.len(), ffn_dim * d_head);

    let has_non_zero = subnode.w_down.iter().any(|&w| number(w) != 0.0);
    assert!(has_non_zero, "Randomly initialized w_down should not be all exactly zeros");
}

#[test]
fn test_subnode_spawn_from_parent() {
    let d_head = 64;
    let ffn_dim = 256;
    let alpha = 1.0;

    let gamma = 0.99;
    let parent = Subnode::new_random(
        0,
        d_head,
        ffn_dim,
        random_weights(d_head * ffn_dim),
        scalar(alpha),
        scalar(gamma),
    );
    let child =
        Subnode::spawn_from_parent(1, &parent, d_head, child_weights(&parent), scalar(1.0));

    assert_eq!(child.subnode_id, 1);

    let all_zero = child.w_down.iter().all(|&w| number(w) == 0.0);
    assert!(!all_zero, "Spawned subnode must have perturbed w_down to maintain smooth residual");

    let gate_differs = parent.w_gate.iter().zip(child.w_gate.iter()).any(|(p, c)| p != c);
    assert!(gate_differs, "w_gate should have small perturbations");
}

#[test]
fn children_inherit_credit_at_the_weight_of_two() {
    let mut parent =
        Subnode::new_random(0, 1, 1, random_weights(1), scalar(0.7), scalar(0.99));
    for value in [0.1, 0.3, 0.2] {
        let updated = with_value(parent.credit_stats, value);
        parent.credit_stats.observe(scalar(value), updated);
    }
    let child = Subnode::spawn_from_parent(1, &parent, 1, child_weights(&parent), scalar(1.5));
    assert_eq!(child.credit_stats.count, scalar(2.0));
    assert_eq!(child.credit_stats.mean, parent.credit_stats.mean);
    assert_eq!(child.health, scalar(1.5));
    assert_eq!(child.cumulative_energy, scalar(0.0));
}

#[test]
fn values_that_are_no_numbers_are_not_observed() {
    let mut stats = OnlineStats::default();
    assert_eq!(stats.gamma, scalar(0.99));
    let before = stats;
    let wrong = OnlineStats { count: scalar(7.0), ..stats };
    for value in [f32::NAN, f32::INFINITY, f32::NEG_INFINITY] {
        stats.observe(scalar(value), wrong);
        assert_eq!(stats, before);
    }
    let updated = with_value(stats, 0.5);
    stats.observe(scalar(0.5), updated);
    assert_eq!(stats.count, scalar(1.0));
    assert_eq!(stats.mean, scalar(0.5));
    assert!(!stats.has_history());
    let updated = with_value(stats, 0.5);
    stats.observe(scalar(0.5), updated);
    assert!(stats.has_history());
}

#[test]
fn test_micro_block_node_creation() {
    let config = MicroBlockConfig::default();

    let _max_kv_len = 128;

    let node = new_node(config);

    assert_eq!(node.node_id, 0);
    assert_eq!(node.subnodes.len(), 1); // Only 1 primary subnode at start

    // Independent workspace buffer sizing
    assert_eq!(node.p_in_buf.len(), 0);
    assert_eq!(node.p_out_buf.len(), 0);
}

#[test]
fn test_micro_block_node_process_batch() {
    let config = MicroBlockConfig::default();
    let mut node = new_node(config);

    let p1 = Particle::new(ParticleHeader::new(0, 0, scalar(1.0)), vec![scalar(0.5); 64]);
    let p2 = Particle::new(ParticleHeader::new(1, 0, scalar(1.0)), vec![scalar(0.8); 64]);
    let mut batch = vec![p1, p2];

    for (start, end) in MicroBlockNode::process_batch(&mut batch) {
        let first = opening(&node, batch[start].payload.clone());
        node.open_sub_batch(first);
        let results = (start..end)
            .map(|i| ParticleResult {
                payload: batch[i].payload.clone(),
                credit: scalar(0.1),
                remaining: scalar(0.9),
            })
            .collect();
        let last = outcome(&node, results, 0.1);
        node.process_sub_batch(&mut batch, start, end, last);
    }
    assert_eq!(node.activation_count, 2);
    assert_eq!(node.cumulative_sequence_len, 2);
}

#[test]
fn a_batch_moves_every_particle_once() {
    let mut node = new_node(small_config());
    let mut batch: Vec<Particle> = [(4u32, 0u16), (2, 0), (4, 1)]
        .iter()
        .map(|&(token, shard)| {
            Particle::new(ParticleHeader::new(token, shard, scalar(1.0)), vec![scalar(0.5); 2])
        })
        .collect();
    for (start, end) in MicroBlockNode::process_batch(&mut batch) {
        let first = opening(&node, batch[start].payload.clone());
        node.open_sub_batch(first);
        assert!(node.room_for(end - start));
        let results = (start..end).map(|_| result(0.5, 0.1, 0.9)).collect();
        let last = outcome(&node, results, 0.1);
        node.process_sub_batch(&mut batch, start, end, last);
    }
    let tags: Vec<(u32, u16)> =
        batch.iter().map(|p| (p.header.origin_token_id, p.header.shard_id)).collect();
    assert_eq!(tags, vec![(2, 0), (4, 0), (4, 1)]);
    assert!(batch.iter().all(|p| p.header.hop_count == 1 && p.credit_valid));
    assert_eq!(node.activation_count, 3);
    assert_eq!(node.recent_activation_count, 3);
    assert_eq!(node.cumulative_sequence_len, 3);
    assert_eq!(node.total_particles_processed, 3);
    node.activation_count = u64::MAX - 2;
    assert!(node.room_for(2));
    assert!(!node.room_for(3));

    // an empty batch changes nothing
    node.subnodes[0].health = scalar(-1.0);
    let weights = child_weights(node.primary_subnode());
    assert!(MicroBlockNode::process_batch(&mut Vec::new()).is_empty());
    assert_eq!(node.grow_and_prune(0, scalar(0.0), scalar(1.0), scalar(0.0), weights), (false, 0));
    assert_eq!(node.subnodes.len(), 1);
    assert_eq!(number(node.subnodes[0].health), -1.0);
}

#[test]
fn energy_falls_in_equal_shares() {
    let initial = 1.0f32;
    let max_hop = 8u16;
    let mut header = ParticleHeader::new(0, 0, scalar(initial));
    for k in 1..=max_hop {
        let left = number(header.energy) - initial / max_hop as f32;
        header.step_hop(scalar(left), max_hop);
        assert_eq!(number(header.energy), initial * (max_hop - k) as f32 / max_hop as f32);
        assert_eq!(header.halted, k == max_hop);
    }
}

#[test]
fn batches_are_cut_by_token() {
    let make = |token, shard| {
        Particle::new(ParticleHeader::new(token, shard, scalar(1.0)), vec![scalar(0.0)])
    };
    let mut batch = vec![make(2, 0), make(1, 0), make(2, 1), make(0, 3), make(1, 1)];
    let runs = MicroBlockNode::process_batch(&mut batch);
    let tags: Vec<(u32, u16)> =
        batch.iter().map(|p| (p.header.origin_token_id, p.header.shard_id)).collect();
    assert_eq!(tags, vec![(0, 3), (1, 0), (1, 1), (2, 0), (2, 1)]);
    assert_eq!(runs, vec![(0, 1), (1, 3), (3, 5)]);
    assert_eq!(MicroBlockNode::process_batch(&mut Vec::new()), Vec::new());
}

#[test]
fn test_subnode_neurogenesis_and_pruning() {
    let config = MicroBlockConfig {
        subnode_max: 4,
        health_base: scalar(1.0),
        ..MicroBlockConfig::default()
    };
    let mut node = new_node(config);
    assert_eq!(node.subnodes.len(), 1);

    // Initially health = 1.0, cannot trigger neurogenesis
    assert!(!try_neurogenesis(&mut node));

    // Boost health and provide variance observations
    node.subnodes[0].health = scalar(2.5);
    for value in [0.1, 0.3] {
        let updated = with_value(node.subnodes[0].credit_stats, value);
        node.subnodes[0].credit_stats.observe(scalar(value), updated);
    }
    assert!(variance(node.subnodes[0].credit_stats) > 0.0);

    // Should trigger neurogenesis
    assert!(try_neurogenesis(&mut node));
    assert_eq!(node.subnodes.len(), 2);
    assert_eq!(node.split_count, 1);
    // Parent health should be halved
    assert!((number(node.subnodes[0].health) - 1.25).abs() < 1e-5);
    // Child health should be 1.0
    assert_eq!(node.subnodes[1].health, scalar(1.0));

    // For 2 subnodes, threshold is 1.0 * (1 + 2) = 3.0
    // Parent has health 1.25, child has 1.0, neither exceeds 3.0
    assert!(!try_neurogenesis(&mut node));

    // Test pruning: set subnode 1 health to 0
    node.subnodes[1].health = scalar(0.0);
    let pruned = node.prune_dominated_subnodes();
    assert_eq!(pruned, 1);
    assert_eq!(node.subnodes.len(), 1);
}

#[test]
fn a_batch_ends_with_growth_and_then_death() {
    let mut node = new_node(small_config());
    {
        let primary = node.primary_subnode_mut();
        primary.health = scalar(9.0);
        primary.credit_stats =
            OnlineStats { count: scalar(2.0), ..OnlineStats::default() };
    }
    assert_eq!(number(node.primary_subnode().health), 9.0);
    let weights = child_weights(node.primary_subnode());
    let first = node.grow_and_prune(2, scalar(2.0), scalar(0.5), scalar(4.5), weights);
    assert_eq!(first, (true, 0));
    assert_eq!(node.subnodes.len(), 2);
    assert_eq!(number(node.primary_subnode().health), 4.5);
    node.subnodes[0].health = scalar(-1.0);
    let weights = child_weights(node.primary_subnode());
    let second = node.grow_and_prune(2, scalar(3.0), scalar(0.5), scalar(-0.5), weights);
    assert_eq!(second, (false, 1));
    assert_eq!(node.subnodes.len(), 1);
    assert_eq!(node.subnodes[0].subnode_id, 0);
}

#[test]
fn a_full_node_does_not_divide() {
    let mut node = new_node(MicroBlockConfig { subnode_max: 1, ..small_config() });
    node.subnodes[0].health = scalar(100.0);
    for value in [0.1, 0.9] {
        let updated = with_value(node.subnodes[0].credit_stats, value);
        node.subnodes[0].credit_stats.observe(scalar(value), updated);
    }
    assert!(!try_neurogenesis(&mut node));
    node.config.subnode_max = 2;
    assert!(try_neurogenesis(&mut node));
    assert!(!try_neurogenesis(&mut node));
}

#[test]
fn the_fittest_of_the_dead_is_revived() {
    let mut node = new_node(MicroBlockConfig { subnode_max: 3, ..small_config() });
    for _ in 0..2 {
        let child = node.subnodes[0].clone();
        node.subnodes.push(child);
    }
    node.subnodes[0].health = scalar(-3.0);
    node.subnodes[1].health = scalar(-1.0);
    node.subnodes[1].alpha = scalar(0.125);
    node.subnodes[2].health = scalar(-2.0);
    node.active_subnode = 2;
    assert_eq!(node.prune_dominated_subnodes(), 2);
    assert_eq!(node.subnodes.len(), 1);
    assert_eq!(node.subnodes[0].alpha, scalar(0.125));
    assert_eq!(node.subnodes[0].health, scalar(0.5));
    assert_eq!(node.subnodes[0].subnode_id, 0);
    assert_eq!(node.active_subnode, 0);
}

#[test]
fn survivors_are_numbered_anew() {
    let mut node = new_node(MicroBlockConfig { subnode_max: 3, ..small_config() });
    for _ in 0..2 {
        let child = node.subnodes[0].clone();
        node.subnodes.push(child);
    }
    node.subnodes[0].health = scalar(0.0);
    node.subnodes[1].health = scalar(1.0);
    node.subnodes[2].health = scalar(2.0);
    node.active_subnode = 2;
    assert_eq!(node.prune_dominated_subnodes(), 1);
    assert_eq!(node.subnodes[1].subnode_id, 1);
    assert_eq!(node.subnodes[1].health, scalar(2.0));
    assert_eq!(node.active_subnode, 1);
    assert_eq!(node.prune_dominated_subnodes(), 0);
}

#[test]
fn an_unknown_subnode_always_wins() {
    let mut node = new_node(small_config());
    let child = node.subnodes[0].clone();
    node.subnodes.push(child);
    node.subnodes[0].credit_stats.count = scalar(5.0);
    node.subnodes[1].credit_stats.count = scalar(1.0);
    let begun = SubBatchOpening {
        cumulative_energy: scalar(3.0),
        p_in: scalars(&[0.5, 0.5]),
        decayed: scalars(&[0.1, 0.2]),
        recovered: scalars(&[0.3, 0.4]),
        scores: scalars(&[100.0, -100.0]),
    };
    assert_eq!(node.open_sub_batch(begun), 1);
    assert_eq!(node.active_subnode, 1);
    assert_eq!(node.subnodes[0].health, scalar(0.1));
    assert_eq!(node.subnodes[1].health, scalar(0.4));
    assert_eq!(node.cumulative_energy, scalar(3.0));
    node.subnodes[1].credit_stats.count = scalar(2.0);
    let again = SubBatchOpening {
        cumulative_energy: scalar(4.0),
        p_in: scalars(&[0.5, 0.5]),
        decayed: scalars(&[0.1, 0.2]),
        recovered: scalars(&[0.3, 0.4]),
        scores: scalars(&[100.0, -100.0]),
    };
    assert_eq!(node.open_sub_batch(again), 0);
}

#[test]
fn a_sub_batch_moves_its_particles_only() {
    let mut node = new_node(small_config());
    let mut batch: Vec<Particle> = (0..3)
        .map(|i| {
            let token = if i == 0 { 4 } else { 5 };
            Particle::new(ParticleHeader::new(token, i as u16, scalar(1.0)), scalars(&[0.0, 0.0]))
        })
        .collect();
    batch[1].credit_valid = true;
    batch[1].credit = scalar(-0.5);
    node.open_sub_batch(opening(&node, scalars(&[0.5, 0.5])));
    let last = outcome(&node, vec![result(7.0, -0.25, 0.9), result(8.0, 0.25, 0.9)], 0.5);
    node.process_sub_batch(&mut batch, 1, 3, last);

    assert_eq!(batch[0].header.hop_count, 0);
    assert_eq!(batch[1].header.hop_count, 1);
    // twice without any good: it settles early
    assert!(batch[1].header.halted);
    assert!(!batch[2].header.halted);
    assert_eq!(batch[2].payload, scalars(&[8.0, 8.0]));
    assert_eq!(batch[2].credit, scalar(0.25));
    assert!(batch[2].credit_valid);

    assert_eq!(node.total_particles_processed, 2);
    assert_eq!(node.halted_particles_count, 1);
    assert_eq!(node.sum_hop_count, 2);
    assert_eq!(node.last_token_id, Some(5));
    // no earlier token: nothing to learn from
    assert_eq!(node.local_loss_count, 0);
    assert_eq!(node.subnodes[0].health, scalar(1.5));
    assert_eq!(node.subnodes[0].activation_count, 2);
}

#[test]
fn learning_needs_an_earlier_token() {
    let mut node = new_node(small_config());
    let memory = scalars(&[1.0, 2.0, 3.0, 4.0]);
    for token in [3u32, 5, 5] {
        let mut batch = vec![Particle::new(
            ParticleHeader::new(token, 0, scalar(1.0)),
            scalars(&[0.0, 0.0]),
        )];
        let late = node.elapsed_tokens(token);
        let before = node.fast_weight.clone();
        node.open_sub_batch(opening(&node, scalars(&[0.5, 0.5])));
        let mut last = outcome(&node, vec![result(1.0, -0.5, 0.9)], -0.5);
        last.lesson = Some(Lesson { fast_weight: memory.clone(), weights: random_weights(4) });
        node.process_sub_batch(&mut batch, 0, 1, last);
        if token == 5 && late.is_some() {
            assert_eq!(late, Some(2));
            assert_eq!(node.fast_weight, memory);
            assert_eq!(node.local_loss_count, 1);
        } else {
            assert_eq!(late, None);
            assert_eq!(node.fast_weight, before);
        }
    }
    assert_eq!(node.local_loss_count, 1);
    // three times half of the lost credit
    assert_eq!(node.subnodes[0].health, scalar(0.25));
}

#[test]
fn metrics_are_read_once() {
    let mut node = new_node(small_config());
    let mut batch =
        vec![Particle::new(ParticleHeader::new(0, 0, scalar(1.0)), scalars(&[0.0, 0.0]))];
    node.open_sub_batch(opening(&node, scalars(&[0.5, 0.5])));
    let last = outcome(&node, vec![result(1.0, 0.5, 0.0)], 0.5);
    node.process_sub_batch(&mut batch, 0, 1, last);
    let first = node.extract_and_reset_metrics();
    assert_eq!(first.sum_hop_count, 1);
    assert_eq!(first.halted_particles_count, 1);
    assert_eq!(first.total_particles_processed, 1);
    assert_eq!(first.active_subnodes_count, 1);
    assert_eq!(first.sum_memory_density, scalar(0.75));
    let second = node.extract_and_reset_metrics();
    assert_eq!(second.total_particles_processed, 0);
    assert_eq!(second.sum_memory_density, scalar(0.0));
    assert_eq!(second.active_subnodes_count, 1);
    // what was learned stays
    assert_eq!(node.activation_count, 1);
}

#[test]
fn constants_are_the_numbers_they_stand_for() {
    let config = MicroBlockConfig::default();
    assert_eq!(config.initial_energy, scalar(1.0));
    assert_eq!(config.weight_decay, scalar(1e-4));
    assert_eq!(config.ingress_ratio, scalar(0.1));
    assert_eq!(config.health_base, scalar(1.0));
    assert_eq!(config.num_nodes(), 100);
    assert_eq!(config.d_model(), 256);
    assert_eq!(Scalar::half(), scalar(0.5));
    assert_eq!(Scalar::two(), scalar(2.0));
    assert_eq!(Scalar::infinity(), scalar(f32::INFINITY));
    assert_eq!(Scalar::neg_infinity(), scalar(f32::NEG_INFINITY));
}

#[test]
fn scalars_are_ordered_as_numbers() {
    let values = [
        f32::NEG_INFINITY,
        -1.5,
        -f32::MIN_POSITIVE,
        -0.0,
        0.0,
        1e-40,
        1.0,
        f32::MAX,
        f32::INFINITY,
        f32::NAN,
    ];
    for a in values {
        for b in values {
            assert_eq!(scalar(a).lt(scalar(b)), a < b);
            assert_eq!(scalar(a).le(scalar(b)), a <= b);
            let larger = number(scalar(a).max(scalar(b)));
            assert!(larger == a.max(b) || (larger.is_nan() && a.max(b).is_nan()));
        }
        assert_eq!(scalar(a).is_nan(), a.is_nan());
        assert_eq!(scalar(a).is_finite(), a.is_finite());
    }
}
