//! The mesh: which node is joined to which.
use crate::order::find_first;
use crate::scalar::{copy_scalars, Scalar};
use crate::topology::{unobserved, RoutingModel, RoutingTable};
use vstd::prelude::*;

verus! {

/// The square root of `n`, rounded up: it grows by one where its square falls short of `n`.
pub open spec fn ceil_root(n: nat) -> nat
    decreases n,
{
    if n == 0 {
        0
    } else {
        let r = ceil_root((n - 1) as nat);
        if n <= r * r {
            r
        } else {
            r + 1
        }
    }
}

/// The square root rounded up is the least number whose square is no less than `n`.
pub proof fn law_ceil_root(n: nat, r: nat)
    ensures
        r == ceil_root(n) <==> n <= r * r && (r > 0 ==> (r - 1) * (r - 1) < n),
    decreases n,
{
    let least = ceil_root(n);
    if n > 0 {
        law_ceil_root((n - 1) as nat, ceil_root((n - 1) as nat));
        let before = ceil_root((n - 1) as nat);
        assert((before + 1) * (before + 1) >= before * before + 1) by (nonlinear_arith);
        assert((before + 1 - 1) * (before + 1 - 1) == before * before);
    }
    assert(n <= least * least && (least > 0 ==> (least - 1) * (least - 1) < n));
    if r < least {
        assert(r * r <= (least - 1) * (least - 1)) by (nonlinear_arith)
            requires
                0 <= r <= least - 1,
        ;
    }
    if r > least {
        assert(least * least <= (r - 1) * (r - 1)) by (nonlinear_arith)
            requires
                0 <= least <= r - 1,
        ;
    }
}

/// How far the first long link of a node reaches in a mesh of `num_nodes` nodes: the square
/// root of their number, rounded up.
pub fn base_offset(num_nodes: usize) -> (r: usize)
    ensures
        r == ceil_root(num_nodes as nat),
        num_nodes <= r * r,
        r > 0 ==> (r - 1) * (r - 1) < num_nodes,
{
    let mut low: usize = 0;
    let mut high: usize = num_nodes;
    assert(num_nodes <= num_nodes * num_nodes) by (nonlinear_arith)
        requires
            num_nodes >= 0,
    ;
    while low < high
        invariant
            low <= high <= num_nodes,
            num_nodes <= high * high,
            low > 0 ==> (low - 1) * (low - 1) < num_nodes,
        decreases high - low,
    {
        let middle: usize = low + (high - low) / 2;
        assert(0 <= middle as u128 * middle as u128 <= u128::MAX) by (nonlinear_arith)
            requires
                0 <= middle <= 0xffff_ffff_ffff_ffff,
        ;
        if num_nodes as u128 <= middle as u128 * middle as u128 {
            high = middle;
        } else {
            low = middle + 1;
        }
    }
    proof {
        law_ceil_root(num_nodes as nat, high as nat);
    }
    high
}

/// How far the `m`-th long link of a node reaches.
pub open spec fn stride(base_offset: int, m: int) -> int {
    if base_offset * m > 1 {
        base_offset * m
    } else {
        1
    }
}

/// The nodes that node `i` would be joined to, in the order in which they are tried: first
/// at multiples of `base_offset`, then one by one, always around the ring.
pub open spec fn candidates(i: int, num_nodes: int, base_offset: int) -> Seq<usize> {
    Seq::new(
        (2 * (num_nodes - 1)) as nat,
        |t: int| candidate(i, num_nodes, base_offset, t),
    )
}

/// The `t`-th candidate.
pub open spec fn candidate(i: int, num_nodes: int, base_offset: int, t: int) -> usize {
    if t < num_nodes - 1 {
        ((i + stride(base_offset, t + 1)) % num_nodes) as usize
    } else {
        ((i + t - num_nodes + 2) % num_nodes) as usize
    }
}

/// The first `k` distinct entries of `list` other than `i`.
pub open spec fn first_distinct(list: Seq<usize>, i: usize, k: nat) -> Seq<usize>
    decreases list.len(),
{
    if list.len() == 0 {
        Seq::empty()
    } else {
        let front = first_distinct(list.drop_last(), i, k);
        if front.len() < k && list.last() != i && !front.contains(list.last()) {
            front.push(list.last())
        } else {
            front
        }
    }
}

/// How many neighbors a node gets when `k` are asked for.
pub open spec fn degree(num_nodes: int, k: int) -> int {
    if k < num_nodes - 1 {
        k
    } else {
        num_nodes - 1
    }
}

/// The neighbors of node `i`.
pub open spec fn mesh_neighbors(i: int, num_nodes: int, k: nat, base_offset: int) -> Seq<usize> {
    first_distinct(candidates(i, num_nodes, base_offset), i as usize, k)
}

proof fn lemma_first_distinct(list: Seq<usize>, i: usize, k: nat)
    ensures
        first_distinct(list, i, k).no_duplicates(),
        first_distinct(list, i, k).len() <= k,
        !first_distinct(list, i, k).contains(i),
        forall|a: int|
            0 <= a < first_distinct(list, i, k).len() ==> list.contains(
                #[trigger] first_distinct(list, i, k)[a],
            ),
        first_distinct(list, i, k).len() < k ==> forall|a: int|
            0 <= a < list.len() && #[trigger] list[a] != i ==> first_distinct(list, i, k).contains(list[a]),
    decreases list.len(),
{
    if list.len() > 0 {
        let front = list.drop_last();
        lemma_first_distinct(front, i, k);
        let f = first_distinct(front, i, k);
        let r = first_distinct(list, i, k);
        assert forall|a: int| 0 <= a < r.len() implies list.contains(#[trigger] r[a]) by {
            if a < f.len() {
                assert(front.contains(f[a]));
                let b = choose|b: int| 0 <= b < front.len() && front[b] == f[a];
                assert(list[b] == r[a]);
            } else {
                assert(list[list.len() - 1] == r[a]);
            }
        }
        if r.len() < k {
            assert forall|a: int| 0 <= a < list.len() && #[trigger] list[a] != i implies r.contains(list[a]) by {
                if a < front.len() {
                    assert(front[a] == list[a]);
                    assert(f.contains(list[a]));
                    let b = choose|b: int| 0 <= b < f.len() && f[b] == list[a];
                    assert(r[b] == list[a]);
                } else if !f.contains(list[a]) {
                    assert(r[r.len() - 1] == list[a]);
                }
            }
        }
    }
}

/// Collecting stops once `k` entries are there.
proof fn lemma_enough(list: Seq<usize>, i: usize, k: nat, n: int)
    requires
        0 <= n <= list.len(),
        first_distinct(list.take(n), i, k).len() >= k,
    ensures
        first_distinct(list, i, k) == first_distinct(list.take(n), i, k),
    decreases list.len() - n,
{
    if n < list.len() {
        assert(list.take(n + 1).drop_last() =~= list.take(n));
        lemma_enough(list, i, k, n + 1);
    } else {
        assert(list.take(n) =~= list);
    }
}

/// A node is joined to `k` others, or to all others where there are fewer; never to itself
/// and to none twice.
pub proof fn law_mesh_neighbors(i: int, num_nodes: int, k: nat, base_offset: int)
    requires
        0 <= i < num_nodes <= usize::MAX,
        0 <= base_offset,
    ensures
        mesh_neighbors(i, num_nodes, k, base_offset).no_duplicates(),
        !mesh_neighbors(i, num_nodes, k, base_offset).contains(i as usize),
        forall|a: int|
            0 <= a < mesh_neighbors(i, num_nodes, k, base_offset).len()
                ==> (#[trigger] mesh_neighbors(i, num_nodes, k, base_offset)[a]) < num_nodes,
        mesh_neighbors(i, num_nodes, k, base_offset).len() == degree(num_nodes, k as int),
{
    let list = candidates(i, num_nodes, base_offset);
    let r = mesh_neighbors(i, num_nodes, k, base_offset);
    lemma_first_distinct(list, i as usize, k);
    assert forall|a: int| 0 <= a < list.len() implies (#[trigger] list[a]) < num_nodes by {
        lemma_candidate(i, num_nodes, base_offset, a);
    }
    assert forall|a: int| 0 <= a < r.len() implies (#[trigger] r[a]) < num_nodes by {
        assert(list.contains(r[a]));
    }
    let others = Set::new(|x: usize| x < num_nodes && x != i);
    let all = Set::new(|x: usize| x < num_nodes as usize);
    crate::order::lemma_initial_set(num_nodes as usize);
    assert(others =~= all.remove(i as usize));
    assert(others.len() == num_nodes - 1);
    r.unique_seq_to_set();
    assert(r.to_set().subset_of(others)) by {
        assert forall|x: usize| r.to_set().contains(x) implies others.contains(x) by {
            assert(r.contains(x));
        }
    }
    vstd::set_lib::lemma_len_subset(r.to_set(), others);
    if r.len() < k {
        assert forall|x: usize| others.contains(x) implies r.to_set().contains(x) by {
            let j = if x > i {
                x - i
            } else {
                x - i + num_nodes
            };
            let t = num_nodes - 2 + j;
            assert(list[t] == x) by {
                assert((i + j) % num_nodes == x) by {
                    if x > i {
                        vstd::arithmetic::div_mod::lemma_small_mod(x as nat, num_nodes as nat);
                    } else {
                        vstd::arithmetic::div_mod::lemma_small_mod(x as nat, num_nodes as nat);
                        vstd::arithmetic::div_mod::lemma_mod_add_multiples_vanish(
                            x as int,
                            num_nodes,
                        );
                    }
                }
            }
            assert(list[t] != i as usize);
            assert(r.contains(list[t]));
        }
        assert(r.to_set() =~= others);
    }
}

proof fn lemma_candidate(i: int, num_nodes: int, base_offset: int, t: int)
    requires
        0 <= i < num_nodes <= usize::MAX,
        0 <= base_offset,
        0 <= t < 2 * (num_nodes - 1),
    ensures
        candidates(i, num_nodes, base_offset)[t] < num_nodes,
{
    let x = if t < num_nodes - 1 {
        i + stride(base_offset, t + 1)
    } else {
        i + t - num_nodes + 2
    };
    vstd::arithmetic::div_mod::lemma_mod_bound(x, num_nodes);
}

/// The neighbors of node `i`, given how far the first long link reaches.
pub fn link_node(i: usize, num_nodes: usize, neighbors_per_node: usize, base_offset: usize) -> (r:
    Vec<usize>)
    requires
        i < num_nodes,
        base_offset * num_nodes + num_nodes <= usize::MAX,
        2 * num_nodes <= usize::MAX,
    ensures
        r@ == mesh_neighbors(i as int, num_nodes as int, neighbors_per_node as nat, base_offset as int),
{
    let ghost list = candidates(i as int, num_nodes as int, base_offset as int);
    let ghost k = neighbors_per_node as nat;
    let mut neighbors: Vec<usize> = Vec::new();
    let mut step_mult: usize = 1;
    assert(list.take(0) =~= Seq::empty());
    while neighbors.len() < neighbors_per_node && step_mult < num_nodes
        invariant
            1 <= step_mult <= num_nodes,
            i < num_nodes,
            base_offset * num_nodes + num_nodes <= usize::MAX,
            list == candidates(i as int, num_nodes as int, base_offset as int),
            k == neighbors_per_node,
            neighbors@ == first_distinct(list.take(step_mult - 1), i, k),
        decreases num_nodes - step_mult,
    {
        assert(0 <= base_offset * step_mult <= base_offset * num_nodes) by (nonlinear_arith)
            requires
                0 <= step_mult <= num_nodes,
                0 <= base_offset,
        ;
        let reach: usize = base_offset * step_mult;
        let step: usize = if reach > 1 {
            reach
        } else {
            1
        };
        let neighbor_id: usize = (i + step) % num_nodes;
        assert(list.take(step_mult as int).drop_last() =~= list.take(step_mult - 1));
        assert(list.take(step_mult as int).last() == neighbor_id);
        if neighbor_id != i && find_first(&neighbors, neighbor_id).is_none() {
            neighbors.push(neighbor_id);
        }
        step_mult += 1;
    }
    let mut j: usize = 1;
    proof {
        if neighbors@.len() < k {
            assert(step_mult == num_nodes);
        } else {
            assert(list.take(num_nodes - 1).take(step_mult - 1) =~= list.take(step_mult - 1));
            lemma_enough(list.take(num_nodes - 1), i, k, step_mult - 1);
        }
    }
    while neighbors.len() < neighbors_per_node && j < num_nodes
        invariant
            1 <= j <= num_nodes,
            i < num_nodes,
            2 * num_nodes <= usize::MAX,
            list == candidates(i as int, num_nodes as int, base_offset as int),
            k == neighbors_per_node,
            neighbors@ == first_distinct(list.take(num_nodes - 2 + j), i, k),
        decreases num_nodes - j,
    {
        let neighbor_id: usize = (i + j) % num_nodes;
        let ghost t = num_nodes - 2 + j;
        assert(list.take(t + 1).drop_last() =~= list.take(t));
        assert(list.take(t + 1).last() == neighbor_id);
        if neighbor_id != i && find_first(&neighbors, neighbor_id).is_none() {
            neighbors.push(neighbor_id);
        }
        j += 1;
    }
    proof {
        if neighbors@.len() < k {
            assert(list.take(num_nodes - 2 + j) =~= list);
        } else {
            lemma_enough(list, i, k, num_nodes - 2 + j);
        }
    }
    neighbors
}

/// The mesh with the links of each node.
#[derive(Debug)]
pub struct TopologyGrid {
    pub num_nodes: usize,
    pub routing_tables: Vec<RoutingTable>,
}

/// The tables of a list, as values.
pub open spec fn routing_models(list: Seq<RoutingTable>) -> Seq<RoutingModel> {
    list.map_values(|t: RoutingTable| t@)
}

/// Links of the first `n` tables together.
pub open spec fn links(tables: Seq<RoutingModel>, n: int) -> int
    decreases n,
{
    if n <= 0 {
        0
    } else {
        links(tables, n - 1) + tables[n - 1].neighbors.len()
    }
}

/// The routing table of node `i` in a fresh mesh.
pub open spec fn fresh_table(
    i: int,
    num_nodes: int,
    d_head: usize,
    k: nat,
    base_offset: int,
    weights: Seq<Scalar>,
) -> RoutingModel {
    let neighbors = mesh_neighbors(i, num_nodes, k, base_offset);
    RoutingModel { d_head, neighbors, weights, edge_credit: unobserved(neighbors.len()) }
}

impl TopologyGrid {
    /// Joins `num_nodes` nodes, given the weights of each node's links.
    pub fn new(
        num_nodes: usize,
        d_head: usize,
        neighbors_per_node: usize,
        weights: &Vec<Vec<Scalar>>,
    ) -> (r: Self)
        requires
            ceil_root(num_nodes as nat) * num_nodes + num_nodes <= usize::MAX,
            2 * num_nodes <= usize::MAX,
            weights@.len() == num_nodes,
            forall|i: int|
                0 <= i < num_nodes ==> (#[trigger] weights@[i])@.len() == d_head * degree(
                    num_nodes as int,
                    neighbors_per_node as int,
                ),
        ensures
            r.num_nodes == num_nodes,
            r.routing_tables@.len() == num_nodes,
            forall|i: int|
                0 <= i < num_nodes ==> (#[trigger] r.routing_tables@[i])@ == fresh_table(
                    i,
                    num_nodes as int,
                    d_head,
                    neighbors_per_node as nat,
                    ceil_root(num_nodes as nat) as int,
                    weights@[i]@,
                ) && r.routing_tables@[i]@.wf(),
    {
        let reach: usize = base_offset(num_nodes);
        let mut routing_tables: Vec<RoutingTable> = Vec::new();
        let mut i: usize = 0;
        while i < num_nodes
            invariant
                i <= num_nodes,
                reach == ceil_root(num_nodes as nat),
                reach * num_nodes + num_nodes <= usize::MAX,
                2 * num_nodes <= usize::MAX,
                weights@.len() == num_nodes,
                forall|i: int|
                    0 <= i < num_nodes ==> (#[trigger] weights@[i])@.len() == d_head * degree(
                        num_nodes as int,
                        neighbors_per_node as int,
                    ),
                routing_tables@.len() == i,
                forall|j: int|
                    0 <= j < i ==> (#[trigger] routing_tables@[j])@ == fresh_table(
                        j,
                        num_nodes as int,
                        d_head,
                        neighbors_per_node as nat,
                        ceil_root(num_nodes as nat) as int,
                        weights@[j]@,
                    ) && routing_tables@[j]@.wf(),
            decreases num_nodes - i,
        {
            proof {
                law_mesh_neighbors(
                    i as int,
                    num_nodes as int,
                    neighbors_per_node as nat,
                    reach as int,
                );
            }
            let neighbors: Vec<usize> = link_node(i, num_nodes, neighbors_per_node, reach);
            assert(weights@[i as int]@.len() == d_head * neighbors@.len());
            routing_tables.push(RoutingTable::new(d_head, neighbors, copy_scalars(&weights[i])));
            i += 1;
        }
        TopologyGrid { num_nodes, routing_tables }
    }

    /// Links of all nodes together.
    pub fn total_links(&self) -> (r: usize)
        requires
            links(routing_models(self.routing_tables@), self.routing_tables@.len() as int)
                <= usize::MAX,
        ensures
            r == links(routing_models(self.routing_tables@), self.routing_tables@.len() as int),
    {
        let ghost tables = routing_models(self.routing_tables@);
        let mut total: usize = 0;
        let mut i: usize = 0;
        while i < self.routing_tables.len()
            invariant
                i <= self.routing_tables.len(),
                tables == routing_models(self.routing_tables@),
                total == links(tables, i as int),
                links(tables, self.routing_tables@.len() as int) <= usize::MAX,
            decreases self.routing_tables.len() - i,
        {
            proof {
                lemma_links_grow(tables, i + 1, self.routing_tables@.len() as int);
            }
            assert(tables[i as int] == self.routing_tables@[i as int]@);
            total += self.routing_tables[i].neighbors.len();
            i += 1;
        }
        total
    }
}

proof fn lemma_links_grow(tables: Seq<RoutingModel>, a: int, b: int)
    requires
        0 <= a <= b,
    ensures
        links(tables, a) <= links(tables, b),
    decreases b - a,
{
    if a < b {
        lemma_links_grow(tables, a, b - 1);
    }
}

/// A fresh mesh has the same number of links at each node.
pub proof fn law_fresh_mesh_links(tables: Seq<RoutingModel>, num_nodes: int, k: nat, base_offset: int, n: int)
    requires
        0 <= base_offset,
        0 <= n <= num_nodes == tables.len(),
        num_nodes <= usize::MAX,
        forall|i: int|
            0 <= i < num_nodes ==> (#[trigger] tables[i]).neighbors == mesh_neighbors(
                i,
                num_nodes,
                k,
                base_offset,
            ),
    ensures
        links(tables, n) == n * degree(num_nodes, k as int),
    decreases n,
{
    let each = degree(num_nodes, k as int);
    if n > 0 {
        law_fresh_mesh_links(tables, num_nodes, k, base_offset, n - 1);
        law_mesh_neighbors(n - 1, num_nodes, k, base_offset);
        assert(tables[n - 1].neighbors.len() == each);
        assert((n - 1) * each + each == n * each) by (nonlinear_arith);
    } else {
        assert(0 * each == 0) by (nonlinear_arith);
    }
}

/// What was collected stays in front of what is collected later.
proof fn lemma_front_stays(list: Seq<usize>, i: usize, k: nat, n: int)
    requires
        0 <= n <= list.len(),
    ensures
        first_distinct(list.take(n), i, k).len() <= first_distinct(list, i, k).len(),
        first_distinct(list, i, k).take(first_distinct(list.take(n), i, k).len() as int)
            == first_distinct(list.take(n), i, k),
    decreases list.len(),
{
    let front = first_distinct(list.take(n), i, k);
    if n < list.len() {
        assert(list.drop_last().take(n) =~= list.take(n));
        lemma_front_stays(list.drop_last(), i, k, n);
        assert(first_distinct(list, i, k).take(front.len() as int) =~= front);
    } else {
        assert(list.take(n) =~= list);
        assert(front.take(front.len() as int) =~= front);
    }
}

/// As long as the long links do not go round the ring, all of them are kept.
proof fn lemma_long_links(i: int, num_nodes: int, k: nat, base_offset: int, m: int)
    requires
        0 <= i < num_nodes <= usize::MAX,
        1 <= base_offset,
        0 <= m <= k,
        base_offset * m < num_nodes,
    ensures
        m <= num_nodes - 1,
        first_distinct(candidates(i, num_nodes, base_offset).take(m), i as usize, k).len() == m,
        forall|a: int|
            0 <= a < m ==> #[trigger] first_distinct(
                candidates(i, num_nodes, base_offset).take(m),
                i as usize,
                k,
            )[a] == (i + base_offset * (a + 1)) % num_nodes,
    decreases m,
{
    let list = candidates(i, num_nodes, base_offset);
    assert(m <= base_offset * m) by (nonlinear_arith)
        requires
            1 <= base_offset,
            0 <= m,
    ;
    if m > 0 {
        assert(base_offset * (m - 1) <= base_offset * m) by (nonlinear_arith)
            requires
                1 <= base_offset,
        ;
        lemma_long_links(i, num_nodes, k, base_offset, m - 1);
        let front = first_distinct(list.take(m - 1), i as usize, k);
        let all = first_distinct(list.take(m), i as usize, k);
        assert(list.take(m).drop_last() =~= list.take(m - 1));
        let reach = base_offset * m;
        assert(stride(base_offset, m) == reach);
        let x = (i + reach) % num_nodes;
        vstd::arithmetic::div_mod::lemma_mod_bound(i + reach, num_nodes);
        assert(list.take(m).last() == x);
        lemma_round_the_ring(i, 0, reach, num_nodes);
        vstd::arithmetic::div_mod::lemma_small_mod(i as nat, num_nodes as nat);
        assert(!front.contains(x as usize)) by {
            if front.contains(x as usize) {
                let a = choose|a: int| 0 <= a < front.len() && front[a] == x as usize;
                let other = base_offset * (a + 1);
                assert(0 < other < reach) by (nonlinear_arith)
                    requires
                        1 <= base_offset,
                        0 <= a < m - 1,
                        other == base_offset * (a + 1),
                        reach == base_offset * m,
                ;
                lemma_round_the_ring(i, other, reach, num_nodes);
            }
        }
        assert(all == front.push(x as usize));
    }
}

/// Two steps of different length, neither once round the ring, end at different places.
proof fn lemma_round_the_ring(i: int, a: int, b: int, n: int)
    requires
        0 <= i < n,
        0 <= a < b < n,
    ensures
        (i + a) % n != (i + b) % n,
{
    if (i + a) % n == (i + b) % n {
        vstd::arithmetic::div_mod::lemma_fundamental_div_mod(i + a, n);
        vstd::arithmetic::div_mod::lemma_fundamental_div_mod(i + b, n);
        let (p, q) = ((i + a) / n, (i + b) / n);
        assert(b - a == n * (q - p)) by (nonlinear_arith)
            requires
                i + a == n * p + (i + a) % n,
                i + b == n * q + (i + b) % n,
                (i + a) % n == (i + b) % n,
        ;
        assert(false) by (nonlinear_arith)
            requires
                b - a == n * (q - p),
                0 < b - a < n,
        ;
    }
}

/// The first links of a node are the long ones: the `m`-th reaches `m` times the base offset
/// round the ring, as far as that is not once round.
pub proof fn law_long_links_come_first(i: int, num_nodes: int, k: nat, base_offset: int, m: int)
    requires
        0 <= i < num_nodes <= usize::MAX,
        1 <= base_offset,
        1 <= m <= k,
        base_offset * m < num_nodes,
    ensures
        m <= mesh_neighbors(i, num_nodes, k, base_offset).len(),
        mesh_neighbors(i, num_nodes, k, base_offset)[m - 1] == (i + base_offset * m) % num_nodes,
{
    let list = candidates(i, num_nodes, base_offset);
    lemma_long_links(i, num_nodes, k, base_offset, m);
    lemma_front_stays(list, i as usize, k, m);
    let front = first_distinct(list.take(m), i as usize, k);
    assert(first_distinct(list, i as usize, k).take(m)[m - 1] == front[m - 1]);
    assert(front[m - 1] == (i + base_offset * (m - 1 + 1)) % num_nodes);
}

/// An entry was collected when its turn came: everything in front of it in the list, but the
/// node itself, stands in front of it.
proof fn lemma_turn(list: Seq<usize>, i: usize, k: nat, p: int)
    requires
        0 <= p < first_distinct(list, i, k).len(),
    ensures
        exists|t: int|
            0 <= t < list.len() && #[trigger] list[t] == first_distinct(list, i, k)[p] && (forall|a: int|
                0 <= a < t && #[trigger] list[a] != i ==> first_distinct(list, i, k).take(p).contains(
                    list[a],
                )),
    decreases list.len(),
{
    let all = first_distinct(list, i, k);
    let front = first_distinct(list.drop_last(), i, k);
    if p < front.len() {
        lemma_turn(list.drop_last(), i, k, p);
        let t = choose|t: int|
            0 <= t < list.drop_last().len() && #[trigger] list.drop_last()[t] == front[p] && (forall|
                a: int,
            |
                0 <= a < t && #[trigger] list.drop_last()[a] != i ==> front.take(p).contains(
                    list.drop_last()[a],
                ));
        assert(all.take(p) =~= front.take(p));
        assert(list[t] == all[p]);
        assert forall|a: int| 0 <= a < t && #[trigger] list[a] != i implies all.take(p).contains(
            list[a],
        ) by {
            assert(list.drop_last()[a] == list[a]);
        }
    } else {
        let t = list.len() - 1;
        lemma_first_distinct(list.drop_last(), i, k);
        assert(all.take(p) =~= front);
        assert(list[t] == all[p]);
        assert forall|a: int| 0 <= a < t && #[trigger] list[a] != i implies all.take(p).contains(
            list[a],
        ) by {
            assert(list.drop_last()[a] == list[a]);
        }
    }
}

/// Behind the long links come the nearest nodes: a link to the node `j` places on that is no
/// long link stands behind the links to all nodes that are nearer.
pub proof fn law_then_come_the_nearest(
    i: int,
    num_nodes: int,
    k: nat,
    base_offset: int,
    p: int,
    j: int,
    nearer: int,
)
    requires
        0 <= i < num_nodes <= usize::MAX,
        1 <= base_offset,
        0 <= p < mesh_neighbors(i, num_nodes, k, base_offset).len(),
        1 <= nearer < j < num_nodes,
        mesh_neighbors(i, num_nodes, k, base_offset)[p] == (i + j) % num_nodes,
        forall|m: int|
            1 <= m < num_nodes ==> #[trigger] ((i + base_offset * m) % num_nodes) != (i + j)
                % num_nodes,
    ensures
        mesh_neighbors(i, num_nodes, k, base_offset).take(p).contains(
            ((i + nearer) % num_nodes) as usize,
        ),
{
    let list = candidates(i, num_nodes, base_offset);
    let all = mesh_neighbors(i, num_nodes, k, base_offset);
    lemma_turn(list, i as usize, k, p);
    let t = choose|t: int|
        0 <= t < list.len() && #[trigger] list[t] == all[p] && (forall|a: int|
            0 <= a < t && #[trigger] list[a] != i as usize ==> all.take(p).contains(list[a]));
    if t < num_nodes - 1 {
        let m = t + 1;
        assert(base_offset * m >= 1) by (nonlinear_arith)
            requires
                base_offset >= 1,
                m >= 1,
        ;
        assert(stride(base_offset, m) == base_offset * m);
        vstd::arithmetic::div_mod::lemma_mod_bound(i + base_offset * m, num_nodes);
        assert((i + base_offset * m) % num_nodes != (i + j) % num_nodes);
        assert(false);
    }
    let far = t - num_nodes + 2;
    vstd::arithmetic::div_mod::lemma_mod_bound(i + far, num_nodes);
    if far < j {
        lemma_round_the_ring(i, far, j, num_nodes);
    } else if far > j {
        lemma_round_the_ring(i, j, far, num_nodes);
    }
    let a = num_nodes - 2 + nearer;
    vstd::arithmetic::div_mod::lemma_mod_bound(i + nearer, num_nodes);
    lemma_round_the_ring(i, 0, nearer, num_nodes);
    vstd::arithmetic::div_mod::lemma_small_mod(i as nat, num_nodes as nat);
    assert(list[a] == ((i + nearer) % num_nodes) as usize);
}

/// A table in a fresh mesh holds the weights and the size that it was given, and no link in it
/// has been observed.
pub proof fn law_fresh_tables_know_nothing(
    i: int,
    num_nodes: int,
    d_head: usize,
    k: nat,
    base_offset: int,
    weights: Seq<Scalar>,
    e: int,
)
    requires
        0 <= e < fresh_table(i, num_nodes, d_head, k, base_offset, weights).neighbors.len(),
    ensures
        ({
            let table = fresh_table(i, num_nodes, d_head, k, base_offset, weights);
            &&& table.d_head == d_head
            &&& table.weights == weights
            &&& table.neighbors == mesh_neighbors(i, num_nodes, k, base_offset)
            &&& table.edge_credit.len() == table.neighbors.len()
            &&& table.edge_credit[e].count.units() == 0
            &&& table.edge_credit[e].mean.units() == 0
            &&& table.edge_credit[e].m2.units() == 0
        }),
{
}


/// A long link reaches at least one node on, and a multiple of the base offset.
pub proof fn law_links_reach_somewhere(base_offset: int, m: int)
    requires
        0 <= base_offset,
        1 <= m,
    ensures
        stride(base_offset, m) >= 1,
        base_offset >= 1 ==> stride(base_offset, m) == base_offset * m,
        base_offset == 0 ==> stride(base_offset, m) == 1,
{
    assert(base_offset >= 1 ==> base_offset * m >= 1) by (nonlinear_arith)
        requires
            1 <= m,
    ;
    assert(base_offset == 0 ==> base_offset * m == 0) by (nonlinear_arith);
}

} // verus!
