//! Work on batches of particles that a device may take over.
use crate::dataset::{chunk_bounds, chunk_ranges};
use crate::order::{argmax, select_best};
use crate::scalar::Scalar;
use vstd::prelude::*;

verus! {

/// A particle header as the device holds it.
#[derive(Clone, Copy, Debug)]
pub struct ParticleCudaHeader {
    pub origin_token_id: u32,
    pub shard_id: u16,
    pub pad0: [u8; 2],
    pub energy: Scalar,
    pub hop_count: u16,
    pub halted: u8,
    pub pad1: [u8; 1],
}

/// Runs micro-blocks over a batch.
pub struct CudaMicroBlockRunner;

/// Workers that a batch is shared among: four, or fewer for a smaller batch.
pub open spec fn worker_count(batch_size: int) -> int {
    if batch_size < 4 {
        batch_size
    } else {
        4
    }
}

/// Particles of one worker.
pub open spec fn worker_share(batch_size: int) -> int {
    (batch_size + worker_count(batch_size) - 1) / worker_count(batch_size)
}

impl CudaMicroBlockRunner {
    /// The stretches of a batch that the workers take, one after the other. An empty batch
    /// needs none.
    pub fn worker_ranges(batch_size: usize) -> (r: Vec<(usize, usize)>)
        requires
            batch_size + 3 <= usize::MAX,
        ensures
            r@ == if batch_size == 0 {
                Seq::empty()
            } else {
                chunk_bounds(batch_size as int, worker_share(batch_size as int))
            },
    {
        if batch_size == 0 {
            return Vec::new();
        }
        let workers: usize = if batch_size < 4 {
            batch_size
        } else {
            4
        };
        let share: usize = (batch_size + (workers - 1)) / workers;
        assert(share > 0) by {
            vstd::arithmetic::div_mod::lemma_div_is_ordered(
                workers as int,
                batch_size + workers - 1,
                workers as int,
            );
            vstd::arithmetic::div_mod::lemma_div_by_self(workers as int);
        }
        chunk_ranges(batch_size, share)
    }
}

/// No batch takes more than four workers.
pub proof fn law_at_most_four_workers(batch_size: int)
    requires
        0 < batch_size <= usize::MAX,
    ensures
        chunk_bounds(batch_size, worker_share(batch_size)).len() <= worker_count(batch_size) <= 4,
{
    let w = worker_count(batch_size);
    let s = worker_share(batch_size);
    vstd::arithmetic::div_mod::lemma_fundamental_div_mod(batch_size + w - 1, w);
    vstd::arithmetic::div_mod::lemma_mod_bound(batch_size + w - 1, w);
    assert(w * s >= batch_size);
    assert(s > 0) by (nonlinear_arith)
        requires
            w * s >= batch_size,
            batch_size > 0,
            w > 0,
    ;
    let n = (batch_size + s - 1) / s;
    assert(batch_size + s - 1 < s * (w + 1)) by (nonlinear_arith)
        requires
            w * s >= batch_size,
            s > 0,
    ;
    vstd::arithmetic::div_mod::lemma_multiply_divide_lt(batch_size + s - 1, s, w + 1);
}

/// Sends particles to nodes.
pub struct CudaParticleRouter;

/// Whether a particle settles on its own: it has made enough hops, hardly changed, and its
/// attention is focused.
pub open spec fn settles(
    header: ParticleCudaHeader,
    delta_p: Scalar,
    entropy: Scalar,
    epsilon_p: Scalar,
    epsilon_h: Scalar,
    min_hop: u16,
) -> bool {
    header.hop_count >= min_hop && delta_p.below(epsilon_p) && entropy.below(epsilon_h)
}

/// Assignments after the first `batch_size` particles are dealt out over the nodes in turn.
pub open spec fn dealt(before: Seq<i32>, batch_size: int, num_nodes: int) -> Seq<i32> {
    Seq::new(
        before.len(),
        |i: int|
            if i < batch_size {
                (i % num_nodes) as i32
            } else {
                before[i]
            },
    )
}

impl CudaParticleRouter {
    /// Deals the first `batch_size` particles out over the nodes in turn.
    pub fn route_particles(batch_size: usize, num_nodes: usize, out_assignments: &mut Vec<i32>)
        requires
            0 < num_nodes <= i32::MAX,
        ensures
            final(out_assignments)@ == dealt(
                old(out_assignments)@,
                batch_size as int,
                num_nodes as int,
            ),
    {
        let ghost before = out_assignments@;
        let mut i: usize = 0;
        while i < out_assignments.len() && i < batch_size
            invariant
                0 < num_nodes <= i32::MAX,
                i <= batch_size,
                i <= out_assignments@.len(),
                out_assignments@.len() == before.len(),
                forall|k: int|
                    0 <= k < before.len() ==> #[trigger] out_assignments@[k] == if k < i {
                        (k % num_nodes as int) as i32
                    } else {
                        before[k]
                    },
            decreases out_assignments.len() - i,
        {
            out_assignments.set(i, (i % num_nodes) as i32);
            i += 1;
        }
        assert(out_assignments@ =~= dealt(before, batch_size as int, num_nodes as int));
    }

    /// Chooses for each particle the neighbor of the best score, and says which particles
    /// settle.
    pub fn execute_routing(
        scores: &Vec<Vec<Scalar>>,
        delta_p: &Vec<Scalar>,
        entropy: &Vec<Scalar>,
        epsilon_p: Scalar,
        epsilon_h: Scalar,
        min_hop: u16,
        headers: &Vec<ParticleCudaHeader>,
    ) -> (r: (Vec<usize>, Vec<bool>))
        requires
            scores@.len() == headers@.len(),
            delta_p@.len() == headers@.len(),
            entropy@.len() == headers@.len(),
        ensures
            r.0@.len() == headers@.len(),
            r.1@.len() == headers@.len(),
            forall|b: int|
                0 <= b < headers@.len() ==> #[trigger] r.0@[b] == argmax(scores@[b]@) && (
                scores@[b]@.len() > 0 ==> r.0@[b] < scores@[b]@.len()),
            forall|b: int|
                0 <= b < headers@.len() ==> #[trigger] r.1@[b] == settles(
                    headers@[b],
                    delta_p@[b],
                    entropy@[b],
                    epsilon_p,
                    epsilon_h,
                    min_hop,
                ),
    {
        let mut chosen: Vec<usize> = Vec::with_capacity(headers.len());
        let mut halting: Vec<bool> = Vec::with_capacity(headers.len());
        let mut b: usize = 0;
        while b < headers.len()
            invariant
                b <= headers.len(),
                scores@.len() == headers@.len(),
                delta_p@.len() == headers@.len(),
                entropy@.len() == headers@.len(),
                chosen@.len() == b,
                halting@.len() == b,
                forall|k: int|
                    0 <= k < b ==> #[trigger] chosen@[k] == argmax(scores@[k]@) && (
                    scores@[k]@.len() > 0 ==> chosen@[k] < scores@[k]@.len()),
                forall|k: int|
                    0 <= k < b ==> #[trigger] halting@[k] == settles(
                        headers@[k],
                        delta_p@[k],
                        entropy@[k],
                        epsilon_p,
                        epsilon_h,
                        min_hop,
                    ),
            decreases headers.len() - b,
        {
            chosen.push(select_best(&scores[b]));
            halting.push(
                headers[b].hop_count >= min_hop && delta_p[b].lt(epsilon_p) && entropy[b].lt(
                    epsilon_h,
                ),
            );
            b += 1;
        }
        (chosen, halting)
    }
}

/// A particle that has not made `min_hop` hops never settles on its own.
pub proof fn law_no_early_settling(
    header: ParticleCudaHeader,
    delta_p: Scalar,
    entropy: Scalar,
    epsilon_p: Scalar,
    epsilon_h: Scalar,
    min_hop: u16,
)
    requires
        header.hop_count < min_hop,
    ensures
        !settles(header, delta_p, entropy, epsilon_p, epsilon_h, min_hop),
{
}

/// Collects the payloads of particles.
pub struct CudaParticleAggregator;

/// Which particle goes to place `i`: the one listed there, or the `i`-th without a list.
pub open spec fn source_row(active_indices: Option<&Vec<i32>>, i: int) -> int {
    match active_indices {
        Some(list) => list@[i] as int,
        None => i,
    }
}

/// Row and column of value `c` lie inside `rows` rows of `cols`.
proof fn lemma_inside(row: int, col: int, rows: int, cols: int)
    requires
        0 <= row < rows,
        0 <= col < cols,
    ensures
        0 <= row * cols + col < rows * cols,
        (row * cols + col) / cols == row,
        (row * cols + col) % cols == col,
        row * cols + cols == (row + 1) * cols,
{
    vstd::arithmetic::div_mod::lemma_fundamental_div_mod_converse(row * cols + col, cols, row, col);
    assert(0 <= row * cols && row * cols + cols <= rows * cols) by (nonlinear_arith)
        requires
            0 <= row < rows,
            0 < cols,
    ;
    assert(row * cols + cols == (row + 1) * cols) by (nonlinear_arith);
}

/// The payloads of `d_head` values, one after the other in the listed order.
pub open spec fn prefetched<T>(
    src: Seq<T>,
    active_indices: Option<&Vec<i32>>,
    num_particles: int,
    d_head: int,
) -> Seq<T> {
    Seq::new(
        (num_particles * d_head) as nat,
        |c: int| src[source_row(active_indices, c / d_head) * d_head + c % d_head],
    )
}

impl CudaParticleAggregator {
    /// Copies payloads of `d_head` values into `dst_buffer`, in the listed order.
    pub fn execute_prefetch<T: Copy>(
        src_particles: &Vec<T>,
        dst_buffer: &mut Vec<T>,
        active_indices: Option<&Vec<i32>>,
        num_particles: usize,
        d_head: usize,
    )
        requires
            old(dst_buffer)@.len() == num_particles * d_head,
            active_indices matches Some(list) ==> list@.len() == num_particles,
            forall|i: int|
                0 <= i < num_particles ==> 0 <= #[trigger] source_row(active_indices, i) && (
                source_row(active_indices, i) + 1) * d_head <= src_particles@.len(),
        ensures
            final(dst_buffer)@ == prefetched(
                src_particles@,
                active_indices,
                num_particles as int,
                d_head as int,
            ),
    {
        let ghost goal = |c: int|
            src_particles@[source_row(active_indices, c / d_head as int) * d_head + c
                % d_head as int];
        let mut i: usize = 0;
        assert(0 * d_head == 0) by (nonlinear_arith);
        while i < num_particles
            invariant
                i <= num_particles,
                dst_buffer@.len() == num_particles * d_head,
                active_indices matches Some(list) ==> list@.len() == num_particles,
                forall|i: int|
                    0 <= i < num_particles ==> 0 <= #[trigger] source_row(active_indices, i) && (
                    source_row(active_indices, i) + 1) * d_head <= src_particles@.len(),
                goal == (|c: int|
                    src_particles@[source_row(active_indices, c / d_head as int) * d_head + c
                        % d_head as int]),
                forall|c: int| 0 <= c < i * d_head ==> #[trigger] dst_buffer@[c] == goal(c),
            decreases num_particles - i,
        {
            let ghost row = source_row(active_indices, i as int);
            let source: usize = match active_indices {
                Some(list) => list[i] as usize,
                None => i,
            };
            let mut d: usize = 0;
            while d < d_head
                invariant
                    i < num_particles,
                    d <= d_head,
                    dst_buffer@.len() == num_particles * d_head,
                    source == row,
                    row == source_row(active_indices, i as int),
                    0 <= row,
                    (row + 1) * d_head <= src_particles@.len(),
                    goal == (|c: int|
                        src_particles@[source_row(active_indices, c / d_head as int) * d_head + c
                            % d_head as int]),
                    forall|c: int|
                        0 <= c < i * d_head + d ==> #[trigger] dst_buffer@[c] == goal(c),
                decreases d_head - d,
            {
                proof {
                    lemma_inside(i as int, d as int, num_particles as int, d_head as int);
                    lemma_inside(row, d as int, row + 1, d_head as int);
                    assert(0 <= row * d_head) by (nonlinear_arith)
                        requires
                            0 <= row,
                            0 <= d_head,
                    ;
                    assert(0 <= i * d_head) by (nonlinear_arith)
                        requires
                            0 <= i,
                            0 <= d_head,
                    ;
                }
                assert(src_particles@.len() == src_particles.len());
                assert(dst_buffer@.len() == dst_buffer.len());
                let value: T = src_particles[source * d_head + d];
                dst_buffer.set(i * d_head + d, value);
                d += 1;
            }
            assert(i * d_head + d_head == (i + 1) * d_head) by (nonlinear_arith);
            i += 1;
        }
        assert(dst_buffer@ =~= prefetched(
            src_particles@,
            active_indices,
            num_particles as int,
            d_head as int,
        ));
    }
}

/// Particles are dealt out in turn: the first goes to the first node, each to the node behind
/// that of the one before, and behind the last node comes the first again. Beyond the batch
/// nothing changes.
pub proof fn law_nodes_take_turns(before: Seq<i32>, batch_size: int, num_nodes: int, i: int)
    requires
        0 < num_nodes <= i32::MAX,
        0 <= i < before.len(),
    ensures
        dealt(before, batch_size, num_nodes).len() == before.len(),
        i < batch_size ==> 0 <= dealt(before, batch_size, num_nodes)[i] < num_nodes,
        0 < batch_size ==> dealt(before, batch_size, num_nodes)[0] == 0,
        i + 1 < before.len() && i + 1 < batch_size ==> {
            let (here, next) = (
                dealt(before, batch_size, num_nodes)[i],
                dealt(before, batch_size, num_nodes)[i + 1],
            );
            next == if here + 1 == num_nodes {
                0
            } else {
                here + 1
            }
        },
        i >= batch_size ==> dealt(before, batch_size, num_nodes)[i] == before[i],
{
    vstd::arithmetic::div_mod::lemma_fundamental_div_mod(i, num_nodes);
    vstd::arithmetic::div_mod::lemma_mod_bound(i, num_nodes);
    vstd::arithmetic::div_mod::lemma_small_mod(0, num_nodes as nat);
    let (q, r) = (i / num_nodes, i % num_nodes);
    if r + 1 == num_nodes {
        assert(i + 1 == (q + 1) * num_nodes + 0) by (nonlinear_arith)
            requires
                i == num_nodes * q + r,
                r + 1 == num_nodes,
        ;
        vstd::arithmetic::div_mod::lemma_fundamental_div_mod_converse(i + 1, num_nodes, q + 1, 0);
    } else {
        assert(i + 1 == q * num_nodes + (r + 1)) by (nonlinear_arith)
            requires
                i == num_nodes * q + r,
        ;
        vstd::arithmetic::div_mod::lemma_fundamental_div_mod_converse(i + 1, num_nodes, q, r + 1);
    }
}

/// A particle settles on its own exactly where it has made enough hops, its change lies below
/// the bound on change, and its entropy below the bound on entropy. Where one of these is no
/// number it goes on.
pub proof fn law_what_settling_takes(
    header: ParticleCudaHeader,
    delta_p: Scalar,
    entropy: Scalar,
    epsilon_p: Scalar,
    epsilon_h: Scalar,
    min_hop: u16,
)
    ensures
        settles(header, delta_p, entropy, epsilon_p, epsilon_h, min_hop) ==> header.hop_count
            >= min_hop && delta_p.below(epsilon_p) && entropy.below(epsilon_h),
        header.hop_count >= min_hop && delta_p.below(epsilon_p) && entropy.below(epsilon_h)
            ==> settles(header, delta_p, entropy, epsilon_p, epsilon_h, min_hop),
        delta_p.not_a_number() || entropy.not_a_number() ==> !settles(
            header,
            delta_p,
            entropy,
            epsilon_p,
            epsilon_h,
            min_hop,
        ),
{
}

/// A batch is shared among four workers, or among one for each particle where there are fewer.
/// Their shares cover it, and shares smaller by one would not.
pub proof fn law_shares_cover_the_batch(batch_size: int)
    requires
        0 < batch_size,
    ensures
        batch_size >= 4 ==> worker_count(batch_size) == 4,
        batch_size <= 4 ==> worker_count(batch_size) == batch_size && worker_share(batch_size) == 1,
        (worker_share(batch_size) - 1) * worker_count(batch_size) < batch_size <= worker_share(
            batch_size,
        ) * worker_count(batch_size),
{
    let w = worker_count(batch_size);
    let s = worker_share(batch_size);
    vstd::arithmetic::div_mod::lemma_fundamental_div_mod(batch_size + w - 1, w);
    vstd::arithmetic::div_mod::lemma_mod_bound(batch_size + w - 1, w);
    assert(w * s == s * w && (s - 1) * w == s * w - w) by (nonlinear_arith);
    if batch_size <= 4 {
        vstd::arithmetic::div_mod::lemma_fundamental_div_mod_converse(
            batch_size + w - 1,
            w,
            1,
            w - 1,
        );
    }
}

/// Value `d` of the payload at place `i` is value `d` of the particle that is listed there, or
/// of particle `i` where nothing is listed.
pub proof fn law_payloads_are_moved_whole<T>(
    src: Seq<T>,
    list: Vec<i32>,
    num_particles: int,
    d_head: int,
    i: int,
    d: int,
)
    requires
        0 <= i < num_particles,
        0 <= d < d_head,
    ensures
        prefetched(src, Some(&list), num_particles, d_head).len() == num_particles * d_head,
        prefetched(src, Some(&list), num_particles, d_head)[i * d_head + d] == src[list@[i] * d_head
            + d],
        prefetched(src, None, num_particles, d_head)[i * d_head + d] == src[i * d_head + d],
{
    lemma_inside(i, d, num_particles, d_head);
}


} // verus!
