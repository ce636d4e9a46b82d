//! Who a node sends particles to, and what it knows of each link.
use crate::metrics::OnlineStats;
use crate::order::{choose_flagged, find_first, select_best};
use crate::scalar::{copy_scalars, Scalar};
use vstd::prelude::*;

verus! {

broadcast use vstd::seq_lib::group_seq_properties;

/// The links of one node.
#[derive(Debug)]
pub struct RoutingTable {
    pub d_head: usize,
    /// The nodes that can be reached in one hop.
    pub neighbors: Vec<usize>,
    /// How close a payload is to each link: `d_head` rows, one column per neighbor.
    pub weights: Vec<Scalar>,
    /// Credit earned over each link. It may be missing until the first observation.
    pub edge_credit: Vec<OnlineStats>,
}

/// A routing table as a value.
#[verifier::ext_equal]
pub struct RoutingModel {
    pub d_head: usize,
    pub neighbors: Seq<usize>,
    pub weights: Seq<Scalar>,
    pub edge_credit: Seq<OnlineStats>,
}

impl View for RoutingTable {
    type V = RoutingModel;

    open spec fn view(&self) -> RoutingModel {
        RoutingModel {
            d_head: self.d_head,
            neighbors: self.neighbors@,
            weights: self.weights@,
            edge_credit: self.edge_credit@,
        }
    }
}

/// The rows of a matrix of `rows` times `cols` cells, one after the other.
pub open spec fn matrix(rows: int, cols: int, cell: spec_fn(int, int) -> Scalar) -> Seq<Scalar> {
    Seq::new((rows * cols) as nat, |i: int| cell(i / cols, i % cols))
}

/// The mean credit of the links that have a history, in the order of the links.
pub open spec fn known(credit: Seq<OnlineStats>) -> Seq<Scalar> {
    credit.filter(|s: OnlineStats| s.seasoned()).map_values(|s: OnlineStats| s.mean)
}

/// `n` entries without an observation.
pub open spec fn unobserved(n: nat) -> Seq<OnlineStats> {
    Seq::new(n, |i: int| OnlineStats::standard())
}

/// Position of a cell.
proof fn lemma_cell(d: int, k: int, cols: int)
    requires
        0 <= d,
        0 <= k < cols,
    ensures
        (d * cols + k) / cols == d,
        (d * cols + k) % cols == k,
        0 <= d * cols,
{
    vstd::arithmetic::div_mod::lemma_fundamental_div_mod_converse(d * cols + k, cols, d, k);
    assert(0 <= d * cols) by (nonlinear_arith)
        requires
            0 <= d,
            0 <= cols,
    ;
}

/// A cell of a matrix with `rows` rows lies inside it.
proof fn lemma_cell_inside(d: int, k: int, rows: int, cols: int)
    requires
        0 <= d < rows,
        0 <= k < cols,
    ensures
        d * cols + k < rows * cols,
        (d + 1) * cols <= rows * cols,
        d * cols + cols == (d + 1) * cols,
{
    assert((d + 1) * cols <= rows * cols) by (nonlinear_arith)
        requires
            d + 1 <= rows,
            0 <= cols,
    ;
    assert((d + 1) * cols == d * cols + cols) by (nonlinear_arith);
}

impl RoutingModel {
    /// The weights form a matrix with one column per neighbor.
    pub open spec fn wf(self) -> bool {
        self.weights.len() == self.d_head * self.neighbors.len()
    }

    /// The weight of neighbor `k` in row `d`.
    pub open spec fn weight(self, d: int, k: int) -> Scalar {
        self.weights[d * self.neighbors.len() + k]
    }

    /// The table with a statistic for each neighbor. Statistics that do not match the
    /// neighbors are dropped.
    pub open spec fn with_credit(self) -> Self {
        if self.edge_credit.len() != self.neighbors.len() {
            RoutingModel { edge_credit: unobserved(self.neighbors.len()), ..self }
        } else {
            self
        }
    }

    /// What is known of the link to a neighbor: of the first, where there are several. Nothing
    /// where there is none.
    pub open spec fn credit_towards(self, neighbor: usize) -> Option<OnlineStats> {
        match crate::order::first_index(self.neighbors, neighbor) {
            Some(i) => Some(self.with_credit().edge_credit[i]),
            None => None,
        }
    }

    /// Whether enough is known of link `k` to judge it.
    pub open spec fn explored(self, k: int) -> bool {
        k < self.edge_credit.len() && !self.edge_credit[k].count.at_most(Scalar::one())
    }

    /// The table with one neighbor more.
    pub open spec fn linked(self, neighbor_id: usize, column: Seq<Scalar>) -> Self {
        if self.neighbors.contains(neighbor_id) {
            self
        } else {
            let n = self.neighbors.len() as int;
            RoutingModel {
                d_head: self.d_head,
                neighbors: self.neighbors.push(neighbor_id),
                weights: matrix(
                    self.d_head as int,
                    n + 1,
                    |d: int, k: int|
                        if k < n {
                            self.weight(d, k)
                        } else {
                            column[d]
                        },
                ),
                edge_credit: self.edge_credit.push(OnlineStats::standard()),
            }
        }
    }

    /// The table with the links listed in `keep` only, in that order.
    pub open spec fn only(self, keep: Seq<usize>) -> Self {
        RoutingModel {
            d_head: self.d_head,
            neighbors: Seq::new(keep.len(), |i: int| self.neighbors[keep[i] as int]),
            weights: matrix(
                self.d_head as int,
                keep.len() as int,
                |d: int, k: int| self.weight(d, keep[k] as int),
            ),
            edge_credit: Seq::new(keep.len(), |i: int| self.edge_credit[keep[i] as int]),
        }
    }

    /// The score by which link `k` is chosen: the drawn one where the link is explored,
    /// the neutral one where it is not.
    pub open spec fn score(self, sampled: Seq<Scalar>, neutral: Seq<Scalar>, k: int) -> Scalar {
        if self.explored(k) {
            sampled[k]
        } else {
            neutral[k]
        }
    }

    /// All scores.
    pub open spec fn scores(self, sampled: Seq<Scalar>, neutral: Seq<Scalar>) -> Seq<Scalar> {
        Seq::new(self.neighbors.len(), |k: int| self.score(sampled, neutral, k))
    }

    /// Where a particle goes next. Without neighbors that is node 0.
    pub open spec fn next_hop(self, sampled: Seq<Scalar>, neutral: Seq<Scalar>) -> usize {
        if self.neighbors.len() == 0 {
            0
        } else {
            self.neighbors[crate::order::argmax(self.scores(sampled, neutral))]
        }
    }

    /// The largest lower bound among the first `n` links, of those that are explored.
    pub open spec fn best_lower(self, lower: Seq<Scalar>, n: int) -> Scalar
        decreases n,
    {
        if n <= 0 {
            Scalar::neg_infinity()
        } else {
            self.best_lower(lower, n - 1).larger(
                if self.explored(n - 1) {
                    lower[n - 1]
                } else {
                    Scalar::neg_infinity()
                },
            )
        }
    }

    /// Which links are not dominated: their upper bound reaches the best lower bound.
    pub open spec fn undominated(self, lower: Seq<Scalar>, upper: Seq<Scalar>) -> Seq<bool> {
        let best = self.best_lower(lower, self.edge_credit.len() as int);
        Seq::new(
            self.edge_credit.len(),
            |k: int|
                best.at_most(
                    if self.explored(k) {
                        upper[k]
                    } else {
                        Scalar::infinity()
                    },
                ),
        )
    }

    /// The table without its dominated links.
    pub open spec fn pruned(self, lower: Seq<Scalar>, upper: Seq<Scalar>) -> Self {
        let table = self.with_credit();
        let keep = crate::order::chosen(table.undominated(lower, upper));
        if table.neighbors.len() <= 1 || keep.len() == table.neighbors.len() {
            table
        } else {
            table.only(keep)
        }
    }

    /// Which links pruning keeps, by their places.
    pub open spec fn kept(self, lower: Seq<Scalar>, upper: Seq<Scalar>) -> Seq<usize> {
        let table = self.with_credit();
        let keep = crate::order::chosen(table.undominated(lower, upper));
        if table.neighbors.len() <= 1 || keep.len() == table.neighbors.len() {
            Seq::new(table.neighbors.len(), |i: int| i as usize)
        } else {
            keep
        }
    }

    /// The table after credit was seen on the link to `neighbor`.
    pub open spec fn credited(
        self,
        neighbor: usize,
        credit: Scalar,
        observed: OnlineStats,
        payload_len: int,
        column: Seq<Scalar>,
    ) -> Self {
        let table = self.with_credit();
        match crate::order::first_index(table.neighbors, neighbor) {
            None => table,
            Some(i) => {
                let n = table.neighbors.len() as int;
                RoutingModel {
                    edge_credit: table.edge_credit.update(
                        i,
                        table.edge_credit[i].observed(credit, observed),
                    ),
                    weights: if Scalar::zero().below(credit) && payload_len == table.d_head {
                        matrix(
                            table.d_head as int,
                            n,
                            |d: int, k: int|
                                if k == i {
                                    column[d]
                                } else {
                                    table.weight(d, k)
                                },
                        )
                    } else {
                        table.weights
                    },
                    ..table
                }
            },
        }
    }
}

impl RoutingTable {
    /// A table with the given links and weights and no credit yet.
    pub fn new(d_head: usize, neighbors: Vec<usize>, weights: Vec<Scalar>) -> (r: Self)
        requires
            weights@.len() == d_head * neighbors@.len(),
        ensures
            r@ == (RoutingModel {
                d_head,
                neighbors: neighbors@,
                weights: weights@,
                edge_credit: unobserved(neighbors@.len()),
            }),
            r@.wf(),
    {
        let edge_credit: Vec<OnlineStats> = no_credit(neighbors.len());
        RoutingTable { d_head, neighbors, weights, edge_credit }
    }

    /// Adds a link, with the weights of its column. A link that is there already stays as
    /// it is.
    pub fn add_neighbor(&mut self, neighbor_id: usize, column: &Vec<Scalar>)
        requires
            old(self)@.wf(),
            column@.len() == old(self)@.d_head,
            old(self)@.d_head * (old(self)@.neighbors.len() + 1) <= usize::MAX,
        ensures
            final(self)@ == old(self)@.linked(neighbor_id, column@),
            final(self)@.wf(),
    {
        if find_first(&self.neighbors, neighbor_id).is_some() {
            return;
        }
        let n: usize = self.neighbors.len();
        let ghost cell = |d: int, k: int|
            if k < n {
                self@.weight(d, k)
            } else {
                column@[d]
            };
        let mut weights: Vec<Scalar> = Vec::new();
        let mut d: usize = 0;
        assert((0int) * (n + 1) == 0) by (nonlinear_arith);
        while d < self.d_head
            invariant
                d <= self.d_head,
                n == self.neighbors.len(),
                self@.wf(),
                column@.len() == self.d_head,
                self.d_head * (n + 1) <= usize::MAX,
                cell == (|d: int, k: int|
                    if k < n {
                        self@.weight(d, k)
                    } else {
                        column@[d]
                    }),
                weights@.len() == d * (n + 1),
                forall|i: int|
                    0 <= i < weights@.len() ==> #[trigger] weights@[i] == cell(
                        i / (n + 1),
                        i % (n + 1),
                    ),
            decreases self.d_head - d,
        {
            let mut k: usize = 0;
            while k < n
                invariant
                    k <= n,
                    d < self.d_head,
                    n == self.neighbors.len(),
                    self@.wf(),
                    cell == (|d: int, k: int|
                        if k < n {
                            self@.weight(d, k)
                        } else {
                            column@[d]
                        }),
                    weights@.len() == d * (n + 1) + k,
                    forall|i: int|
                        0 <= i < weights@.len() ==> #[trigger] weights@[i] == cell(
                            i / (n + 1),
                            i % (n + 1),
                        ),
                decreases n - k,
            {
                proof {
                    lemma_cell(d as int, k as int, n as int);
                    lemma_cell_inside(d as int, k as int, self.d_head as int, n as int);
                    lemma_cell(d as int, k as int, n + 1);
                }
                assert(d * n + k < self.weights.len());
                weights.push(self.weights[d * n + k]);
                k += 1;
            }
            proof {
                lemma_cell(d as int, n as int, n + 1);
                lemma_cell_inside(d as int, n as int, self.d_head as int, n + 1);
            }
            weights.push(column[d]);
            d += 1;
        }
        let ghost before = self@;
        self.neighbors.push(neighbor_id);
        self.weights = weights;
        self.edge_credit.push(OnlineStats::default());
        assert(self@.weights =~= matrix(
            self.d_head as int,
            n + 1,
            |d: int, k: int|
                if k < n {
                    before.weight(d, k)
                } else {
                    column@[d]
                },
        ));
    }

    /// Gives each neighbor a statistic.
    pub fn ensure_edge_credit(&mut self)
        ensures
            final(self)@ == old(self)@.with_credit(),
    {
        if self.edge_credit.len() != self.neighbors.len() {
            self.edge_credit = no_credit(self.neighbors.len());
        }
    }

    /// Whether enough is known of link `k` to judge it. Only then does its drawn score
    /// count.
    pub fn is_explored(&self, k: usize) -> (r: bool)
        ensures
            r == self@.explored(k as int),
    {
        k < self.edge_credit.len() && !self.edge_credit[k].count.le(Scalar::one())
    }

    /// The mean credits from which the credit of an unexplored link is estimated: those of
    /// the links with more than one observation.
    pub fn known_means(&self) -> (r: Vec<Scalar>)
        ensures
            r@ == known(self@.edge_credit),
            r@ == self@.edge_credit.filter(|s: OnlineStats| s.seasoned()).map_values(
                |s: OnlineStats| s.mean,
            ),
    {
        let ghost keep = |s: OnlineStats| s.seasoned();
        let ghost mean = |s: OnlineStats| s.mean;
        let mut r: Vec<Scalar> = Vec::new();
        let mut k: usize = 0;
        proof {
            reveal(Seq::filter);
        }
        assert(self.edge_credit@.take(0).filter(keep).map_values(mean) =~= Seq::empty());
        while k < self.edge_credit.len()
            invariant
                k <= self.edge_credit.len(),
                keep == (|s: OnlineStats| s.seasoned()),
                mean == (|s: OnlineStats| s.mean),
                r@ == self.edge_credit@.take(k as int).filter(keep).map_values(mean),
            decreases self.edge_credit.len() - k,
        {
            let ghost front = self.edge_credit@.take(k as int);
            assert(self.edge_credit@.take(k + 1) =~= front.push(self.edge_credit@[k as int]));
            proof {
                reveal(Seq::filter);
                assert(front.push(self.edge_credit@[k as int]).drop_last() =~= front);
            }
            if self.edge_credit[k].has_history() {
                r.push(self.edge_credit[k].mean);
            }
            k += 1;
            assert(r@ =~= self.edge_credit@.take(k as int).filter(keep).map_values(mean));
        }
        assert(self.edge_credit@.take(k as int) =~= self.edge_credit@);
        r
    }

    /// Where a particle goes next, given for each link a score drawn around its credit and
    /// a score at the neutral credit. The link with the best score wins, the first of
    /// them on a tie.
    pub fn select_next_hop(&self, sampled: &Vec<Scalar>, neutral: &Vec<Scalar>) -> (r: usize)
        requires
            sampled@.len() == self@.neighbors.len(),
            neutral@.len() == self@.neighbors.len(),
        ensures
            r == self@.next_hop(sampled@, neutral@),
    {
        let n: usize = self.neighbors.len();
        if n == 0 {
            return 0;
        }
        let mut scores: Vec<Scalar> = Vec::with_capacity(n);
        let mut k: usize = 0;
        while k < n
            invariant
                k <= n,
                n == self@.neighbors.len(),
                sampled@.len() == n,
                neutral@.len() == n,
                scores@ == self@.scores(sampled@, neutral@).take(k as int),
            decreases n - k,
        {
            if self.is_explored(k) {
                scores.push(sampled[k]);
            } else {
                scores.push(neutral[k]);
            }
            k += 1;
            assert(scores@ =~= self@.scores(sampled@, neutral@).take(k as int));
        }
        assert(scores@ =~= self@.scores(sampled@, neutral@));
        self.neighbors[select_best(&scores)]
    }

    /// The statistic that the next credit on the link to `neighbor` is added to, `None`
    /// where there is no such link.
    pub fn edge_stats(&self, neighbor: usize) -> (r: Option<OnlineStats>)
        ensures
            r == self@.credit_towards(neighbor),
            r == match crate::order::first_index(self@.neighbors, neighbor) {
                Some(i) => Some(self@.with_credit().edge_credit[i]),
                None => None,
            },
    {
        match find_first(&self.neighbors, neighbor) {
            Some(i) => {
                if self.edge_credit.len() != self.neighbors.len() {
                    Some(OnlineStats::default())
                } else {
                    Some(self.edge_credit[i])
                }
            },
            None => None,
        }
    }

    /// Takes in credit seen on the link to `neighbor`, given what the link's statistic
    /// becomes and what its column becomes. The column moves on positive credit only, and
    /// only where the payload has the table's length.
    pub fn observe_credit(
        &mut self,
        neighbor: usize,
        credit: Scalar,
        observed: OnlineStats,
        payload_len: usize,
        column: &Vec<Scalar>,
    )
        requires
            old(self)@.wf(),
            column@.len() == old(self)@.d_head,
        ensures
            final(self)@ == old(self)@.credited(
                neighbor,
                credit,
                observed,
                payload_len as int,
                column@,
            ),
            final(self)@.wf(),
    {
        self.ensure_edge_credit();
        let ghost table = self@;
        if let Some(index) = find_first(&self.neighbors, neighbor) {
            let n: usize = self.neighbors.len();
            let mut stats: OnlineStats = self.edge_credit[index];
            stats.observe(credit, observed);
            self.edge_credit[index] = stats;
            if Scalar::zero().lt(credit) && payload_len == self.d_head {
                let ghost whole = matrix(
                    table.d_head as int,
                    n as int,
                    |d: int, k: int|
                        if k == index {
                            column@[d]
                        } else {
                            table.weight(d, k)
                        },
                );
                let mut d: usize = 0;
                while d < self.d_head
                    invariant
                        d <= self.d_head,
                        self.d_head == table.d_head,
                        self.neighbors@ == table.neighbors,
                        n == table.neighbors.len(),
                        index < n,
                        column@.len() == table.d_head,
                        table.wf(),
                        self.edge_credit@ == table.edge_credit.update(
                            index as int,
                            table.edge_credit[index as int].observed(credit, observed),
                        ),
                        self.weights@.len() == table.weights.len(),
                        forall|i: int|
                            0 <= i < self.weights@.len() ==> #[trigger] self.weights@[i] == if i % (
                            n as int) == index && i / (n as int) < d {
                                column@[i / (n as int)]
                            } else {
                                table.weights[i]
                            },
                    decreases self.d_head - d,
                {
                    proof {
                        lemma_cell(d as int, index as int, n as int);
                        lemma_cell_inside(d as int, index as int, self.d_head as int, n as int);
                    }
                    assert(d * n + index < self.weights.len());
                    self.weights.set(d * n + index, column[d]);
                    assert forall|i: int| 0 <= i < self.weights@.len() implies #[trigger] self.weights@[i]
                        == if i % (n as int) == index && i / (n as int) < d + 1 {
                        column@[i / (n as int)]
                    } else {
                        table.weights[i]
                    } by {
                        vstd::arithmetic::div_mod::lemma_fundamental_div_mod(i, n as int);
                        assert(n * (i / (n as int)) == (i / (n as int)) * n) by (nonlinear_arith);
                    }
                    d += 1;
                }
                assert forall|i: int| 0 <= i < whole.len() implies self.weights@[i] == #[trigger] whole[i] by {
                    vstd::arithmetic::div_mod::lemma_fundamental_div_mod(i, n as int);
                    assert(n * (i / (n as int)) == (i / (n as int)) * n) by (nonlinear_arith);
                    assert(i / (n as int) < table.d_head) by {
                        assert(table.d_head * n == n * table.d_head) by (nonlinear_arith);
                        vstd::arithmetic::div_mod::lemma_multiply_divide_lt(
                            i,
                            n as int,
                            table.d_head as int,
                        );
                    }
                }
                assert(self.weights@ =~= whole);
            }
        }
    }

    /// Drops the links that are dominated, given the bounds between which the credit of
    /// each explored link lies. Returns how many were dropped.
    pub fn prune_dominated_links(&mut self, lower: &Vec<Scalar>, upper: &Vec<Scalar>) -> (r: usize)
        requires
            old(self)@.wf(),
            lower@.len() == old(self)@.neighbors.len(),
            upper@.len() == old(self)@.neighbors.len(),
        ensures
            final(self)@ == old(self)@.pruned(lower@, upper@),
            final(self)@.wf(),
            r == old(self)@.neighbors.len() - final(self)@.neighbors.len(),
    {
        self.ensure_edge_credit();
        let ghost table = self@;
        let n: usize = self.neighbors.len();
        if n <= 1 {
            return 0;
        }
        let mut best: Scalar = Scalar::neg_infinity();
        let mut k: usize = 0;
        while k < n
            invariant
                k <= n,
                self@ == table,
                n == table.neighbors.len(),
                n == table.edge_credit.len(),
                lower@.len() == n,
                best == table.best_lower(lower@, k as int),
            decreases n - k,
        {
            best =
            best.max(
                if self.is_explored(k) {
                    lower[k]
                } else {
                    Scalar::neg_infinity()
                },
            );
            k += 1;
        }
        let mut flags: Vec<bool> = Vec::with_capacity(n);
        k = 0;
        while k < n
            invariant
                k <= n,
                self@ == table,
                n == table.neighbors.len(),
                n == table.edge_credit.len(),
                upper@.len() == n,
                best == table.best_lower(lower@, n as int),
                flags@ == table.undominated(lower@, upper@).take(k as int),
            decreases n - k,
        {
            flags.push(
                best.le(
                    if self.is_explored(k) {
                        upper[k]
                    } else {
                        Scalar::infinity()
                    },
                ),
            );
            k += 1;
            assert(flags@ =~= table.undominated(lower@, upper@).take(k as int));
        }
        assert(flags@ =~= table.undominated(lower@, upper@));
        let keep: Vec<usize> = choose_flagged(&flags);
        if keep.len() == n {
            return 0;
        }
        let dropped: usize = n - keep.len();
        let weights: Vec<Scalar> = columns(&self.weights, self.d_head, n, &keep);
        let mut neighbors: Vec<usize> = Vec::with_capacity(keep.len());
        let mut edge_credit: Vec<OnlineStats> = Vec::with_capacity(keep.len());
        k = 0;
        while k < keep.len()
            invariant
                k <= keep.len(),
                self@ == table,
                n == table.neighbors.len(),
                n == table.edge_credit.len(),
                forall|i: int| 0 <= i < keep.len() ==> #[trigger] keep[i] < n,
                neighbors@ == table.only(keep@).neighbors.take(k as int),
                edge_credit@ == table.only(keep@).edge_credit.take(k as int),
            decreases keep.len() - k,
        {
            neighbors.push(self.neighbors[keep[k]]);
            edge_credit.push(self.edge_credit[keep[k]]);
            k += 1;
            assert(neighbors@ =~= table.only(keep@).neighbors.take(k as int));
            assert(edge_credit@ =~= table.only(keep@).edge_credit.take(k as int));
        }
        self.neighbors = neighbors;
        self.weights = weights;
        self.edge_credit = edge_credit;
        assert(self@.neighbors =~= table.only(keep@).neighbors);
        assert(self@.edge_credit =~= table.only(keep@).edge_credit);
        assert(self@.weights =~= table.only(keep@).weights);
        dropped
    }
}

impl Clone for RoutingTable {
    fn clone(&self) -> (r: Self)
        ensures
            r@ == self@,
    {
        let mut neighbors: Vec<usize> = Vec::with_capacity(self.neighbors.len());
        let mut i: usize = 0;
        while i < self.neighbors.len()
            invariant
                i <= self.neighbors.len(),
                neighbors@ == self.neighbors@.take(i as int),
            decreases self.neighbors.len() - i,
        {
            neighbors.push(self.neighbors[i]);
            i += 1;
            assert(neighbors@ =~= self.neighbors@.take(i as int));
        }
        let mut edge_credit: Vec<OnlineStats> = Vec::with_capacity(self.edge_credit.len());
        i = 0;
        while i < self.edge_credit.len()
            invariant
                i <= self.edge_credit.len(),
                edge_credit@ == self.edge_credit@.take(i as int),
            decreases self.edge_credit.len() - i,
        {
            edge_credit.push(self.edge_credit[i]);
            i += 1;
            assert(edge_credit@ =~= self.edge_credit@.take(i as int));
        }
        assert(neighbors@ =~= self.neighbors@);
        assert(edge_credit@ =~= self.edge_credit@);
        RoutingTable {
            d_head: self.d_head,
            neighbors,
            weights: copy_scalars(&self.weights),
            edge_credit,
        }
    }
}

/// `n` entries without an observation.
fn no_credit(n: usize) -> (r: Vec<OnlineStats>)
    ensures
        r@ == unobserved(n as nat),
{
    let mut r: Vec<OnlineStats> = Vec::with_capacity(n);
    let mut i: usize = 0;
    while i < n
        invariant
            i <= n,
            r@ == unobserved(i as nat),
        decreases n - i,
    {
        r.push(OnlineStats::default());
        i += 1;
        assert(r@ =~= unobserved(i as nat));
    }
    r
}

/// The listed columns of a matrix.
fn columns(weights: &Vec<Scalar>, rows: usize, cols: usize, keep: &Vec<usize>) -> (r: Vec<Scalar>)
    requires
        weights@.len() == rows * cols,
        keep@.len() <= cols,
        forall|i: int| 0 <= i < keep@.len() ==> #[trigger] keep@[i] < cols,
    ensures
        r@ == matrix(
            rows as int,
            keep@.len() as int,
            |d: int, k: int| weights@[d * cols + keep@[k] as int],
        ),
{
    let m: usize = keep.len();
    let ghost cell = |d: int, k: int| weights@[d * cols + keep@[k] as int];
    let mut r: Vec<Scalar> = Vec::new();
    let mut d: usize = 0;
    assert((0int) * m == 0) by (nonlinear_arith);
    while d < rows
        invariant
            d <= rows,
            m == keep.len(),
            weights@.len() == rows * cols,
            forall|i: int| 0 <= i < keep@.len() ==> #[trigger] keep@[i] < cols,
            cell == (|d: int, k: int| weights@[d * cols + keep@[k] as int]),
            r@.len() == d * m,
            forall|i: int|
                0 <= i < r@.len() ==> #[trigger] r@[i] == cell(i / (m as int), i % (m as int)),
        decreases rows - d,
    {
        let mut k: usize = 0;
        while k < m
            invariant
                k <= m,
                d < rows,
                m == keep.len(),
                weights@.len() == rows * cols,
                forall|i: int| 0 <= i < keep@.len() ==> #[trigger] keep@[i] < cols,
                cell == (|d: int, k: int| weights@[d * cols + keep@[k] as int]),
                r@.len() == d * m + k,
                forall|i: int|
                    0 <= i < r@.len() ==> #[trigger] r@[i] == cell(i / (m as int), i % (m as int)),
            decreases m - k,
        {
            proof {
                lemma_cell(d as int, keep@[k as int] as int, cols as int);
                lemma_cell_inside(d as int, keep@[k as int] as int, rows as int, cols as int);
                lemma_cell(d as int, k as int, m as int);
            }
            assert(d * cols + keep@[k as int] < weights.len());
            r.push(weights[d * cols + keep[k]]);
            k += 1;
        }
        assert(d * m + m == (d + 1) * m) by (nonlinear_arith);
        d += 1;
    }
    assert(r@ =~= matrix(rows as int, m as int, cell));
    r
}

/// Pruning never takes the last link: where each explored link's bounds are numbers in
/// their order, a table with links keeps at least one.
pub proof fn law_pruning_keeps_a_link(table: RoutingModel, lower: Seq<Scalar>, upper: Seq<Scalar>)
    requires
        table.neighbors.len() > 0,
        table.neighbors.len() <= usize::MAX,
        lower.len() == table.neighbors.len(),
        upper.len() == table.neighbors.len(),
        forall|k: int|
            0 <= k < table.neighbors.len() && table.explored(k) ==> (#[trigger] lower[k]).at_most(
                upper[k],
            ),
    ensures
        table.pruned(lower, upper).neighbors.len() > 0,
{
    let t = table.with_credit();
    let n = t.edge_credit.len() as int;
    assert forall|k: int| 0 <= k < n && t.explored(k) implies (#[trigger] lower[k]).at_most(upper[k]) by {
        assert(table.explored(k));
    }
    lemma_best_lower(t, lower, n);
    let flags = t.undominated(lower, upper);
    let best = t.best_lower(lower, n);
    let witness = if exists|j: int| 0 <= j < n && t.explored(j) && #[trigger] lower[j] == best {
        choose|j: int| 0 <= j < n && t.explored(j) && #[trigger] lower[j] == best
    } else {
        0
    };
    assert(flags[witness]) by {
        if !(t.explored(witness) && lower[witness] == best) {
            assert(best == Scalar::neg_infinity());
            if t.explored(witness) {
                assert(lower[witness].at_most(upper[witness]));
            }
        }
    }
    crate::order::lemma_chosen(flags);
    assert(crate::order::chosen(flags).contains(witness as usize));
}

/// The best lower bound is one of the explored links', or negative infinity.
proof fn lemma_best_lower(table: RoutingModel, lower: Seq<Scalar>, n: int)
    requires
        0 <= n <= lower.len(),
        n <= table.edge_credit.len(),
        forall|k: int|
            0 <= k < n && table.explored(k) ==> !(#[trigger] lower[k]).not_a_number(),
    ensures
        table.best_lower(lower, n) == Scalar::neg_infinity() || exists|j: int|
            0 <= j < n && table.explored(j) && #[trigger] lower[j] == table.best_lower(lower, n),
    decreases n,
{
    if n > 0 {
        lemma_best_lower(table, lower, n - 1);
        if table.explored(n - 1) {
            assert(!lower[n - 1].not_a_number());
        }
    }
}

/// A link with at most one observation is never pruned.
pub proof fn law_pruning_spares_the_unexplored(
    table: RoutingModel,
    lower: Seq<Scalar>,
    upper: Seq<Scalar>,
    k: int,
)
    requires
        table.neighbors.len() <= usize::MAX,
        0 <= k < table.neighbors.len(),
        !table.with_credit().explored(k),
    ensures
        table.pruned(lower, upper).neighbors.contains(table.neighbors[k]),
{
    let t = table.with_credit();
    lemma_best_lower_is_number(t, lower, t.edge_credit.len() as int);
    let flags = t.undominated(lower, upper);
    assert(flags[k]);
    crate::order::lemma_chosen(flags);
    let keep = crate::order::chosen(flags);
    if t.neighbors.len() > 1 && keep.len() != t.neighbors.len() {
        let at = choose|i: int| 0 <= i < keep.len() && keep[i] == k as usize;
        assert(t.only(keep).neighbors[at] == t.neighbors[k]);
    }
}

/// The best lower bound is a number.
proof fn lemma_best_lower_is_number(table: RoutingModel, lower: Seq<Scalar>, n: int)
    ensures
        !table.best_lower(lower, n).not_a_number(),
    decreases n,
{
    if n > 0 {
        lemma_best_lower_is_number(table, lower, n - 1);
    }
}

/// The entries of a list at the given places.
pub open spec fn picked(list: Seq<Scalar>, places: Seq<usize>) -> Seq<Scalar> {
    Seq::new(places.len(), |i: int| list[places[i] as int])
}

/// No explored link has a lower bound above the best one.
proof fn lemma_best_lower_bounds(table: RoutingModel, lower: Seq<Scalar>, n: int, k: int)
    requires
        0 <= k < n,
        table.explored(k),
        !lower[k].not_a_number(),
    ensures
        lower[k].at_most(table.best_lower(lower, n)),
    decreases n,
{
    lemma_best_lower_is_number(table, lower, n - 1);
    lemma_best_lower_is_number(table, lower, n);
    if k < n - 1 {
        lemma_best_lower_bounds(table, lower, n - 1, k);
    }
}

/// Where all lower bounds that are numbers stay at or below `top`, so does the best.
proof fn lemma_best_lower_below(table: RoutingModel, lower: Seq<Scalar>, n: int, top: Scalar)
    requires
        !top.not_a_number(),
        forall|k: int|
            0 <= k < n && table.explored(k) && !(#[trigger] lower[k]).not_a_number()
                ==> lower[k].at_most(top),
    ensures
        table.best_lower(lower, n).at_most(top),
    decreases n,
{
    if n > 0 {
        lemma_best_lower_below(table, lower, n - 1, top);
        lemma_best_lower_is_number(table, lower, n - 1);
        let other = lower[n - 1];
        if table.explored(n - 1) && !other.not_a_number() {
            assert(other.at_most(top));
        }
    }
}

/// Pruning prunes once: what it kept, with the bounds that it had, it keeps again.
pub proof fn law_pruning_is_idempotent(table: RoutingModel, lower: Seq<Scalar>, upper: Seq<Scalar>)
    requires
        table.neighbors.len() <= usize::MAX,
        lower.len() == table.neighbors.len(),
        upper.len() == table.neighbors.len(),
    ensures
        ({
            let once = table.pruned(lower, upper);
            let keep = table.kept(lower, upper);
            once.pruned(picked(lower, keep), picked(upper, keep)) == once
        }),
{
    let t = table.with_credit();
    let flags = t.undominated(lower, upper);
    let chosen = crate::order::chosen(flags);
    let once = table.pruned(lower, upper);
    let keep = table.kept(lower, upper);
    let lower2 = picked(lower, keep);
    let upper2 = picked(upper, keep);
    crate::order::lemma_chosen(flags);
    if t.neighbors.len() <= 1 || chosen.len() == t.neighbors.len() {
        assert(lower2 =~= lower);
        assert(upper2 =~= upper);
    } else {
        let n = t.edge_credit.len() as int;
        let m = once.edge_credit.len() as int;
        let best = t.best_lower(lower, n);
        lemma_best_lower_is_number(t, lower, n);
        assert forall|k: int|
            0 <= k < m && once.explored(k) && !(#[trigger] lower2[k]).not_a_number() implies lower2[k].at_most(
            best,
        ) by {
            lemma_best_lower_bounds(t, lower, n, keep[k] as int);
        }
        lemma_best_lower_below(once, lower2, m, best);
        let flags2 = once.undominated(lower2, upper2);
        assert forall|k: int| 0 <= k < flags2.len() implies #[trigger] flags2[k] by {
            assert(flags[keep[k] as int]);
        }
        crate::order::lemma_chosen(flags2);
    }
}

/// A particle takes a link that no other outscores, the first of equal ones. Each link with
/// more than one observation competes with the score drawn for it, each other one with its
/// neutral score.
pub proof fn law_the_best_link_is_taken(
    table: RoutingModel,
    sampled: Seq<Scalar>,
    neutral: Seq<Scalar>,
    k: int,
)
    requires
        sampled.len() == table.neighbors.len(),
        neutral.len() == table.neighbors.len(),
        0 <= k < table.neighbors.len(),
    ensures
        exists|j: int|
            0 <= j < table.neighbors.len() && table.next_hop(sampled, neutral)
                == #[trigger] table.neighbors[j] && {
                let score = |x: int|
                    if x < table.edge_credit.len() && !table.edge_credit[x].count.at_most(
                        Scalar::one(),
                    ) {
                        sampled[x]
                    } else {
                        neutral[x]
                    };
                &&& !score(j).below(score(k))
                &&& k < j && !score(k).not_a_number() ==> score(k).below(score(j))
            },
{
    let scores = table.scores(sampled, neutral);
    crate::order::law_argmax(scores);
    let j = crate::order::argmax(scores);
    assert(scores[j] == table.score(sampled, neutral, j));
    assert(scores[k] == table.score(sampled, neutral, k));
    assert(table.next_hop(sampled, neutral) == table.neighbors[j]);
}

/// Where every link has more than one observation, only what was drawn decides: the hop goes to
/// a neighbor whose drawn score is at least that of every other, whatever the neutral scores.
pub proof fn law_earned_credit_decides(
    table: RoutingModel,
    sampled: Seq<Scalar>,
    neutral: Seq<Scalar>,
    other: Seq<Scalar>,
    k: int,
)
    requires
        sampled.len() == table.neighbors.len(),
        neutral.len() == table.neighbors.len(),
        other.len() == table.neighbors.len(),
        table.edge_credit.len() == table.neighbors.len(),
        0 <= k < table.neighbors.len(),
        forall|x: int|
            0 <= x < table.neighbors.len() ==> Scalar::one().below(
                (#[trigger] table.edge_credit[x]).count,
            ) && !sampled[x].not_a_number(),
    ensures
        exists|j: int|
            0 <= j < table.neighbors.len() && table.next_hop(sampled, neutral)
                == #[trigger] table.neighbors[j] && sampled[k].at_most(sampled[j]),
        table.next_hop(sampled, neutral) == table.next_hop(sampled, other),
{
    law_the_best_link_is_taken(table, sampled, neutral, k);
    let scores = table.scores(sampled, neutral);
    assert forall|x: int| 0 <= x < scores.len() implies scores[x] == sampled[x] by {
        assert(Scalar::one().below(table.edge_credit[x].count));
    }
    assert(table.scores(sampled, other) =~= scores) by {
        assert forall|x: int| 0 <= x < scores.len() implies table.scores(sampled, other)[x]
            == scores[x] by {
            assert(Scalar::one().below(table.edge_credit[x].count));
        }
    }
    crate::order::law_argmax(scores);
    let j = crate::order::argmax(scores);
    assert(table.next_hop(sampled, neutral) == table.neighbors[j]);
    assert(!scores[j].below(scores[k]));
    assert(Scalar::one().below(table.edge_credit[j].count));
    assert(Scalar::one().below(table.edge_credit[k].count));
}

/// Where nothing is known of any link, nothing that was drawn counts.
pub proof fn law_unknown_links_compete_neutrally(
    table: RoutingModel,
    sampled: Seq<Scalar>,
    other: Seq<Scalar>,
    neutral: Seq<Scalar>,
)
    requires
        forall|x: int|
            0 <= x < table.edge_credit.len() ==> (#[trigger] table.edge_credit[x]).count.at_most(
                Scalar::one(),
            ),
    ensures
        table.next_hop(sampled, neutral) == table.next_hop(other, neutral),
        table.neighbors.len() == 0 ==> table.next_hop(sampled, neutral) == 0,
{
    assert(table.scores(sampled, neutral) =~= table.scores(other, neutral)) by {
        assert forall|x: int| 0 <= x < table.neighbors.len() implies table.scores(
            sampled,
            neutral,
        )[x] == table.scores(other, neutral)[x] by {
            if x < table.edge_credit.len() {
                assert(table.edge_credit[x].count.at_most(Scalar::one()));
            }
        }
    }
}

/// A link that is added comes last, with its own weights and no credit. The links that were
/// there keep their place, their weights and their credit; one that is there already is not
/// added again.
pub proof fn law_a_new_link_comes_last(
    table: RoutingModel,
    neighbor_id: usize,
    column: Seq<Scalar>,
    d: int,
    k: int,
)
    requires
        table.wf(),
        table.edge_credit.len() == table.neighbors.len(),
        column.len() == table.d_head,
        0 <= d < table.d_head,
    ensures
        table.neighbors.contains(neighbor_id) ==> table.linked(neighbor_id, column) == table,
        !table.neighbors.contains(neighbor_id) ==> {
            let after = table.linked(neighbor_id, column);
            let n = table.neighbors.len() as int;
            &&& after.wf()
            &&& after.d_head == table.d_head
            &&& after.neighbors == table.neighbors.push(neighbor_id)
            &&& after.weights[d * (n + 1) + n] == column[d]
            &&& after.edge_credit.len() == n + 1
            &&& after.edge_credit[n].count == Scalar::zero()
            &&& 0 <= k < n ==> after.weights[d * (n + 1) + k] == table.weights[d * n + k]
                && after.edge_credit[k] == table.edge_credit[k]
        },
{
    if !table.neighbors.contains(neighbor_id) {
        let n = table.neighbors.len() as int;
        lemma_cell(d, n, n + 1);
        lemma_cell_inside(d, n, table.d_head as int, n + 1);
        if 0 <= k < n {
            lemma_cell(d, k, n + 1);
            lemma_cell_inside(d, k, table.d_head as int, n + 1);
        }
        assert(table.d_head * (n + 1) >= 0) by (nonlinear_arith)
            requires
                n >= 0,
        ;
    }
}

/// Credit is noted on the link it was earned on. The other links keep their credit and their
/// weights, and no link comes or goes. The weights of the link move on positive credit only,
/// and only for a payload of the table's length.
pub proof fn law_credit_stays_on_its_link(
    table: RoutingModel,
    neighbor: usize,
    credit: Scalar,
    observed: OnlineStats,
    payload_len: int,
    column: Seq<Scalar>,
    d: int,
    k: int,
)
    requires
        table.wf(),
        table.edge_credit.len() == table.neighbors.len(),
        column.len() == table.d_head,
        0 <= d < table.d_head,
        0 <= k < table.neighbors.len(),
        table.neighbors.no_duplicates(),
    ensures
        ({
            let after = table.credited(neighbor, credit, observed, payload_len, column);
            let n = table.neighbors.len() as int;
            let finite = credit.magnitude() < crate::scalar::INFINITY_BITS;
            &&& after.d_head == table.d_head
            &&& after.neighbors == table.neighbors
            &&& after.edge_credit.len() == n
            &&& after.weights.len() == table.weights.len()
            &&& table.neighbors[k] != neighbor ==> after.edge_credit[k] == table.edge_credit[k]
                && after.weights[d * n + k] == table.weights[d * n + k]
            &&& table.neighbors[k] == neighbor && finite ==> {
                &&& after.edge_credit[k].count == observed.count
                &&& after.edge_credit[k].mean == observed.mean
                &&& after.edge_credit[k].m2 == observed.m2
                &&& after.edge_credit[k].gamma == table.edge_credit[k].gamma
            }
            &&& table.neighbors[k] == neighbor && !finite ==> after.edge_credit[k]
                == table.edge_credit[k]
            &&& table.neighbors[k] == neighbor && Scalar::zero().below(credit) && payload_len
                == table.d_head ==> after.weights[d * n + k] == column[d]
            &&& !Scalar::zero().below(credit) || payload_len != table.d_head ==> after.weights
                == table.weights
        }),
{
    let n = table.neighbors.len() as int;
    crate::order::lemma_first_index(table.neighbors, neighbor);
    lemma_cell(d, k, n);
    lemma_cell_inside(d, k, table.d_head as int, n);
}

/// A table whose statistics do not match its links starts to count anew; one whose do is left
/// alone.
pub proof fn law_missing_credit_starts_at_zero(table: RoutingModel, k: int)
    requires
        0 <= k < table.neighbors.len(),
    ensures
        ({
            let after = table.with_credit();
            &&& after.neighbors == table.neighbors
            &&& after.weights == table.weights
            &&& after.d_head == table.d_head
            &&& after.edge_credit.len() == table.neighbors.len()
            &&& table.edge_credit.len() == table.neighbors.len() ==> after == table
            &&& table.edge_credit.len() != table.neighbors.len() ==> after.edge_credit[k].count
                == Scalar::zero() && after.edge_credit[k].mean == Scalar::zero()
                && after.edge_credit[k].m2 == Scalar::zero()
        }),
{
}

/// What dominates a link: pruning drops an explored link exactly where its upper bound lies
/// below the lower bound of another explored one. Bounds are numbers here.
pub proof fn law_dominated_links_are_dropped(
    table: RoutingModel,
    lower: Seq<Scalar>,
    upper: Seq<Scalar>,
    k: int,
)
    requires
        1 < table.neighbors.len() <= usize::MAX,
        table.edge_credit.len() == table.neighbors.len(),
        table.neighbors.no_duplicates(),
        lower.len() == table.neighbors.len(),
        upper.len() == table.neighbors.len(),
        0 <= k < table.neighbors.len(),
        forall|x: int|
            0 <= x < table.neighbors.len() ==> !(#[trigger] lower[x]).not_a_number()
                && !upper[x].not_a_number(),
    ensures
        table.pruned(lower, upper).neighbors.contains(table.neighbors[k]) <==> !({
            &&& !table.edge_credit[k].count.at_most(Scalar::one())
            &&& exists|j: int|
                0 <= j < table.neighbors.len() && !table.edge_credit[j].count.at_most(Scalar::one())
                    && upper[k].below(#[trigger] lower[j])
        }),
{
    let n = table.edge_credit.len() as int;
    let flags = table.undominated(lower, upper);
    let best = table.best_lower(lower, n);
    let keep = crate::order::chosen(flags);
    let after = table.pruned(lower, upper);
    crate::order::lemma_chosen(flags);
    lemma_best_lower_is_number(table, lower, n);
    assert forall|x: int| 0 <= x < n && table.explored(x) implies !(#[trigger] lower[x]).not_a_number() by {}
    lemma_best_lower(table, lower, n);
    assert forall|j: int| 0 <= j < n && table.explored(j) implies (#[trigger] lower[j]).at_most(best) by {
        lemma_best_lower_bounds(table, lower, n, j);
    }
    assert(!lower[k].not_a_number());
    if flags[k] {
        assert(keep.contains(k as usize));
        if keep.len() != n {
            let at = choose|at: int| 0 <= at < keep.len() && keep[at] == k as usize;
            assert(after.neighbors[at] == table.neighbors[k]);
        } else {
            assert(after.neighbors[k] == table.neighbors[k]);
        }
        assert forall|j: int| 0 <= j < n && table.explored(j) && table.explored(k) implies !upper[k].below(
            #[trigger] lower[j],
        ) by {
            assert(lower[j].at_most(best));
        }
    } else {
        assert(keep.len() != n);
        if after.neighbors.contains(table.neighbors[k]) {
            let at = choose|at: int|
                0 <= at < after.neighbors.len() && after.neighbors[at] == table.neighbors[k];
            assert(table.neighbors[keep[at] as int] == table.neighbors[k]);
            assert(keep[at] == k);
            assert(flags[keep[at] as int]);
        }
        assert(table.explored(k));
        let j = choose|j: int| 0 <= j < n && table.explored(j) && #[trigger] lower[j] == best;
        assert(upper[k].below(lower[j]));
    }
}

/// A link that pruning keeps keeps its weights and its credit, and the links keep their order.
pub proof fn law_pruning_moves_links_whole(
    table: RoutingModel,
    lower: Seq<Scalar>,
    upper: Seq<Scalar>,
    a: int,
    d: int,
)
    requires
        table.wf(),
        table.neighbors.len() <= usize::MAX,
        table.edge_credit.len() == table.neighbors.len(),
        lower.len() == table.neighbors.len(),
        upper.len() == table.neighbors.len(),
        0 <= a < table.pruned(lower, upper).neighbors.len(),
        0 <= d < table.d_head,
    ensures
        ({
            let after = table.pruned(lower, upper);
            let m = after.neighbors.len() as int;
            let n = table.neighbors.len() as int;
            &&& after.d_head == table.d_head
            &&& after.edge_credit.len() == m
            &&& after.weights.len() == table.d_head * m
            &&& exists|k: int|
                a <= k < n && after.neighbors[a] == #[trigger] table.neighbors[k]
                    && after.edge_credit[a] == table.edge_credit[k] && after.weights[d * m + a]
                    == table.weights[d * n + k] && (a > 0 ==> exists|j: int|
                    0 <= j < k && after.neighbors[a - 1] == #[trigger] table.neighbors[j])
        }),
{
    let flags = table.undominated(lower, upper);
    let keep = crate::order::chosen(flags);
    let after = table.pruned(lower, upper);
    let n = table.neighbors.len() as int;
    let m = after.neighbors.len() as int;
    crate::order::lemma_chosen(flags);
    lemma_cell(d, a, m);
    lemma_cell_inside(d, a, table.d_head as int, m);
    if n <= 1 || keep.len() == n {
        assert(after == table);
        assert(after.neighbors[a] == table.neighbors[a]);
        if a > 0 {
            assert(after.neighbors[a - 1] == table.neighbors[a - 1]);
        }
    } else {
        let k = keep[a] as int;
        lemma_place_grows(keep, a);
        assert(table.d_head * m >= 0) by (nonlinear_arith)
            requires
                m >= 0,
        ;
        assert(after.neighbors[a] == table.neighbors[k]);
        assert(after.weights[d * m + a] == table.weight(d, k));
        if a > 0 {
            assert(keep[a - 1] < keep[a]);
            assert(after.neighbors[a - 1] == table.neighbors[keep[a - 1] as int]);
        }
    }
}

/// Rising places are no smaller than their index.
proof fn lemma_place_grows(keep: Seq<usize>, a: int)
    requires
        0 <= a < keep.len(),
        forall|i: int, j: int| 0 <= i < j < keep.len() ==> (#[trigger] keep[i]) < (#[trigger] keep[j]),
    ensures
        a <= keep[a],
    decreases a,
{
    if a > 0 {
        lemma_place_grows(keep, a - 1);
        assert(keep[a - 1] < keep[a]);
    }
}

/// A routing table is known by all its fields.
pub proof fn law_a_table_is_its_fields(t: RoutingTable)
    ensures
        t@.d_head == t.d_head,
        t@.neighbors == t.neighbors@,
        t@.weights == t.weights@,
        t@.edge_credit == t.edge_credit@,
{
}

/// The means of links with a history stand in the order of the links; links without one are
/// passed over. A history takes a count above one.
pub proof fn law_known_means_keep_their_order(credit: Seq<OnlineStats>, s: OnlineStats)
    ensures
        known(Seq::empty()).len() == 0,
        !s.count.not_a_number() && !s.count.at_most(Scalar::one()) ==> known(credit.push(s)) == known(
            credit,
        ).push(s.mean),
        s.count.not_a_number() || s.count.at_most(Scalar::one()) ==> known(credit.push(s)) == known(
            credit,
        ),
{
    reveal(Seq::filter);
    let keep = |s: OnlineStats| s.seasoned();
    let mean = |s: OnlineStats| s.mean;
    assert(known(Seq::empty()) =~= Seq::empty());
    assert(credit.push(s).drop_last() =~= credit);
    assert(credit.filter(keep).push(s).map_values(mean) =~= known(credit).push(s.mean));
}

/// What is known of a link is asked for by the neighbor that it leads to. Where a table has no
/// credit for each of its links, nothing has been observed of any.
pub proof fn law_credit_is_found_by_neighbor(table: RoutingModel, k: int)
    requires
        0 <= k < table.neighbors.len(),
        forall|i: int| 0 <= i < k ==> #[trigger] table.neighbors[i] != table.neighbors[k],
    ensures
        table.edge_credit.len() == table.neighbors.len() ==> table.credit_towards(table.neighbors[k])
            == Some(table.edge_credit[k]),
        table.edge_credit.len() != table.neighbors.len() ==> (table.credit_towards(
            table.neighbors[k],
        ) matches Some(s) && s.count.units() == 0 && s.mean.units() == 0 && s.m2.units() == 0),
{
    crate::order::law_the_first_is_found(table.neighbors, table.neighbors[k]);
    assert(table.neighbors[k] == table.neighbors[k]);
    let at = crate::order::first_index(table.neighbors, table.neighbors[k])->0;
    if at < k {
        assert(table.neighbors[at] != table.neighbors[k]);
    } else if k < at {
        assert(table.neighbors[k] != table.neighbors[k]);
    }
}

} // verus!
