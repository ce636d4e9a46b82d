use annp::cuda::{
    CudaMicroBlockRunner, CudaParticleAggregator, CudaParticleRouter, ParticleCudaHeader,
};
use annp::scalar::Scalar;

fn scalar(x: f32) -> Scalar {
    Scalar::from_bits(x.to_bits())
}

#[test]
fn test_particle_router_and_halting() {
    let batch_size = 2;
    let d_head = 8;
    let num_neighbors = 4;

    let p_in = vec![0.1f32; batch_size * d_head];
    let p_out = vec![0.10001f32; batch_size * d_head];
    let routing_table = vec![0.1f32; num_neighbors * d_head];
    let gumbel_noise = vec![0.0f32; batch_size * num_neighbors];
    let temperature = 1.0f32;

    let headers = vec![
        ParticleCudaHeader {
            origin_token_id: 0,
            shard_id: 0,
            pad0: [0; 2],
            energy: scalar(1.0),
            hop_count: 15,
            halted: 0,
            pad1: [0; 1],
        },
        ParticleCudaHeader {
            origin_token_id: 1,
            shard_id: 1,
            pad0: [0; 2],
            energy: scalar(1.0),
            hop_count: 5,
            halted: 0,
            pad1: [0; 1],
        },
    ];

    let mut scores = Vec::new();
    let mut delta_p = Vec::new();
    let mut entropy = Vec::new();
    for b in 0..batch_size {
        let row = &p_out[b * d_head..(b + 1) * d_head];
        let before = &p_in[b * d_head..(b + 1) * d_head];
        let mut logits = Vec::new();
        for n in 0..num_neighbors {
            let column = &routing_table[n * d_head..(n + 1) * d_head];
            let dot: f32 = row.iter().zip(column).map(|(a, c)| a * c).sum();
            logits.push((dot + gumbel_noise[b * num_neighbors + n]) / temperature);
        }
        let top = logits.iter().cloned().fold(f32::MIN, f32::max);
        let total: f32 = logits.iter().map(|x| (x - top).exp()).sum();
        let shares: Vec<f32> = logits.iter().map(|x| (x - top).exp() / total).collect();
        entropy.push(scalar(-shares.iter().map(|p| p * p.ln()).sum::<f32>()));
        let moved: f32 = row.iter().zip(before).map(|(a, c)| (a - c) * (a - c)).sum();
        delta_p.push(scalar(moved.sqrt()));
        scores.push(logits.into_iter().map(scalar).collect());
    }

    let (chosen, halting) = CudaParticleRouter::execute_routing(
        &scores,
        &delta_p,
        &entropy,
        scalar(1e-2),
        scalar(10.0),
        10,
        &headers,
    );

    assert_eq!(halting[0], true);
    assert_eq!(halting[1], false);

    assert!(chosen[0] < num_neighbors);
    assert!(chosen[1] < num_neighbors);
}

#[test]
fn test_particle_aggregator() {
    let num_particles = 3;
    let d_head = 4;

    let src_particles = vec![
        1.0, 2.0, 3.0, 4.0, // Particle 0
        5.0, 6.0, 7.0, 8.0, // Particle 1
        9.0, 10.0, 11.0, 12.0, // Particle 2
    ];

    let mut dst_buffer = vec![0.0f32; num_particles * d_head];
    let active_indices = vec![2, 0, 1]; // Shuffle order

    CudaParticleAggregator::execute_prefetch(
        &src_particles,
        &mut dst_buffer,
        Some(&active_indices),
        num_particles,
        d_head,
    );

    // dst_buffer[0] should match src_particles[2] (9.0, 10.0, 11.0, 12.0)
    assert_eq!(&dst_buffer[0..4], &[9.0, 10.0, 11.0, 12.0]);
    // dst_buffer[1] should match src_particles[0] (1.0, 2.0, 3.0, 4.0)
    assert_eq!(&dst_buffer[4..8], &[1.0, 2.0, 3.0, 4.0]);
    // dst_buffer[2] should match src_particles[1] (5.0, 6.0, 7.0, 8.0)
    assert_eq!(&dst_buffer[8..12], &[5.0, 6.0, 7.0, 8.0]);
}

#[test]
fn aggregation_without_a_list_keeps_the_order() {
    let src = vec![1u8, 2, 3, 4];
    let mut dst = vec![0u8; 4];
    CudaParticleAggregator::execute_prefetch(&src, &mut dst, None, 2, 2);
    assert_eq!(dst, src);
}

#[test]
fn particles_are_dealt_out_in_turn() {
    let mut out = vec![-1; 6];
    CudaParticleRouter::route_particles(5, 3, &mut out);
    assert_eq!(out, vec![0, 1, 2, 0, 1, -1]);
}

#[test]
fn workers_share_a_batch() {
    assert_eq!(CudaMicroBlockRunner::worker_ranges(0), Vec::new());
    assert_eq!(CudaMicroBlockRunner::worker_ranges(3), vec![(0, 1), (1, 2), (2, 3)]);
    assert_eq!(CudaMicroBlockRunner::worker_ranges(5), vec![(0, 2), (2, 4), (4, 5)]);
    assert_eq!(
        CudaMicroBlockRunner::worker_ranges(10),
        vec![(0, 3), (3, 6), (6, 9), (9, 10)]
    );
}
