//! Evaluations: their course and the order statistics of what they measure.
use crate::order::{sorted_order, stable_order};
use crate::scalar::Scalar;
use vstd::prelude::*;

verus! {

/// How far an evaluation has come.
#[derive(Clone, Copy, Debug, PartialEq, Eq, Structural)]
pub struct EvalProgress {
    /// Batches to be evaluated. The first one always is.
    pub batches: usize,
    /// Batches from one report to the next.
    pub sample_interval: usize,
    /// Batches evaluated.
    pub evaluated: usize,
}

/// What follows a batch.
#[derive(Clone, Copy, Debug, PartialEq, Eq, Structural)]
pub struct EvalStep {
    /// The batch is reported.
    pub report: bool,
    /// It was the last one.
    pub done: bool,
}

/// Why an evaluation has no result.
#[derive(Clone, Copy, Debug, PartialEq, Eq, Structural)]
pub enum EvalError {
    /// No evaluation batches were processed.
    NoBatches,
}

impl EvalProgress {
    /// Reports come at intervals of at least one batch.
    pub open spec fn wf(self) -> bool {
        self.sample_interval >= 1
    }

    /// Begins an evaluation. An interval of nothing is taken for one batch.
    pub fn start(batches: usize, sample_interval: usize) -> (r: Self)
        ensures
            r.batches == batches,
            r.sample_interval == if sample_interval < 1 {
                1
            } else {
                sample_interval
            },
            r.evaluated == 0,
            r.wf(),
    {
        EvalProgress {
            batches,
            sample_interval: if sample_interval < 1 {
                1
            } else {
                sample_interval
            },
            evaluated: 0,
        }
    }

    /// What follows the next batch.
    pub open spec fn step(self) -> EvalStep {
        EvalStep {
            report: (self.evaluated + 1) % self.sample_interval as int == 0 || self.evaluated + 1
                == self.batches,
            done: self.evaluated + 1 >= self.batches,
        }
    }

    /// Notes that a batch was evaluated.
    pub fn record(&mut self) -> (r: EvalStep)
        requires
            old(self).wf(),
            old(self).evaluated < usize::MAX,
        ensures
            *final(self) == (EvalProgress { evaluated: (old(self).evaluated + 1) as usize, ..*old(self) }),
            r == old(self).step(),
            r.report == ((old(self).evaluated + 1) % old(self).sample_interval as int == 0 || old(
                self,
            ).evaluated + 1 == old(self).batches),
            r.done == (old(self).evaluated + 1 >= old(self).batches),
            final(self).wf(),
    {
        self.evaluated += 1;
        EvalStep {
            report: self.evaluated % self.sample_interval == 0 || self.evaluated == self.batches,
            done: self.evaluated >= self.batches,
        }
    }

    /// The number of batches that the result rests on.
    pub open spec fn result(self) -> Result<usize, EvalError> {
        if self.evaluated == 0 {
            Err(EvalError::NoBatches)
        } else {
            Ok(self.evaluated)
        }
    }

    /// Ends an evaluation: the number of batches it rests on.
    pub fn finish(&self) -> (r: Result<usize, EvalError>)
        ensures
            r == self.result(),
    {
        if self.evaluated == 0 {
            Err(EvalError::NoBatches)
        } else {
            Ok(self.evaluated)
        }
    }
}

/// The predictions of a sequence that have a successor to be held against, and the number
/// over which their errors are averaged.
pub open spec fn predictions(seq_len: int) -> (int, int) {
    if seq_len > 1 {
        (seq_len - 1, seq_len - 1)
    } else {
        (0, 1)
    }
}

/// The predictions of a sequence that have a successor to be held against, and the number
/// over which their errors are averaged.
pub fn prediction_counts(seq_len: usize) -> (r: (usize, usize))
    ensures
        (r.0 as int, r.1 as int) == predictions(seq_len as int),
{
    if seq_len > 1 {
        (seq_len - 1, seq_len - 1)
    } else {
        (0, 1)
    }
}

/// Keys that sort scalars by their value.
pub open spec fn value_keys(values: Seq<Scalar>) -> Seq<i128> {
    values.map_values(|v: Scalar| v.position() as i128)
}

/// Scalars by rising value.
pub open spec fn sorted(values: Seq<Scalar>) -> Seq<Scalar> {
    let order = sorted_order(value_keys(values));
    Seq::new(values.len(), |i: int| values[order[i] as int])
}

/// Scalars by rising value, equal ones in the order in which they came. What is no number
/// goes to the ends.
pub fn sort_values(values: &Vec<Scalar>) -> (r: Vec<Scalar>)
    ensures
        r@ == sorted(values@),
{
    let mut keys: Vec<i128> = Vec::with_capacity(values.len());
    let mut i: usize = 0;
    while i < values.len()
        invariant
            i <= values.len(),
            keys@ == value_keys(values@).take(i as int),
        decreases values.len() - i,
    {
        keys.push(values[i].place() as i128);
        i += 1;
        assert(keys@ =~= value_keys(values@).take(i as int));
    }
    assert(keys@ =~= value_keys(values@));
    let order: Vec<usize> = stable_order(&keys);
    let mut r: Vec<Scalar> = Vec::with_capacity(values.len());
    i = 0;
    while i < values.len()
        invariant
            i <= values.len(),
            order@ == sorted_order(value_keys(values@)),
            crate::order::is_stable_order(value_keys(values@), order@),
            r@ == sorted(values@).take(i as int),
        decreases values.len() - i,
    {
        assert(0 <= order@[i as int] < values@.len());
        r.push(values[order[i]]);
        i += 1;
        assert(r@ =~= sorted(values@).take(i as int));
    }
    assert(r@ =~= sorted(values@));
    r
}

/// The value at a rank, or the highest where the rank is beyond it. Zero where there are no
/// values.
pub open spec fn at_rank(ranked: Seq<Scalar>, rank: int) -> Scalar {
    if ranked.len() == 0 {
        Scalar::zero()
    } else if rank < ranked.len() {
        ranked[rank]
    } else {
        ranked.last()
    }
}

/// Lowest, middle and highest values.
#[derive(Clone, Copy, Debug, PartialEq, Eq, Structural)]
pub struct OrderStatistics {
    pub min: Scalar,
    pub median: Scalar,
    pub high: Scalar,
    pub max: Scalar,
}

/// The median of a list of values: the one at half their number, rounded up, counted from zero
/// in rising order.
pub open spec fn median_of(values: Seq<Scalar>) -> Scalar {
    at_rank(sorted(values), (values.len() as int + 1) / 2)
}

/// The lowest and the highest of a list of values, its median, and the one at `high_rank`.
/// The median is the value at half the number of values, rounded up, counted from zero.
pub fn order_statistics(values: &Vec<Scalar>, high_rank: usize) -> (r: OrderStatistics)
    ensures
        r.min == at_rank(sorted(values@), 0),
        r.median == median_of(values@),
        r.median == at_rank(sorted(values@), (values@.len() as int + 1) / 2),
        r.high == at_rank(sorted(values@), high_rank as int),
        r.max == at_rank(sorted(values@), values@.len() as int),
{
    let ranked: Vec<Scalar> = sort_values(values);
    let n: usize = ranked.len();
    if n == 0 {
        return OrderStatistics {
            min: Scalar::zero(),
            median: Scalar::zero(),
            high: Scalar::zero(),
            max: Scalar::zero(),
        };
    }
    let middle: usize = n / 2 + n % 2;
    let median: Scalar = if middle < n {
        ranked[middle]
    } else {
        ranked[n - 1]
    };
    let high: Scalar = if high_rank < n {
        ranked[high_rank]
    } else {
        ranked[n - 1]
    };
    OrderStatistics { min: ranked[0], median, high, max: ranked[n - 1] }
}

/// Sorted numbers rise.
pub proof fn law_sorted_rises(values: Seq<Scalar>, i: int, j: int)
    requires
        0 <= i <= j < values.len() <= usize::MAX,
    ensures
        !sorted(values)[j].below(sorted(values)[i]),
{
    let keys = value_keys(values);
    crate::order::law_stable_order_exists(keys);
    let order = sorted_order(keys);
    if i < j {
        assert(crate::order::precedes(keys, order[i], order[j]));
    }
}

/// The lowest of the statistics is below none of the values, and none is below the highest.
pub proof fn law_statistics_enclose(values: Seq<Scalar>, i: int)
    requires
        0 <= i < values.len() <= usize::MAX,
    ensures
        !values[i].below(at_rank(sorted(values), 0)),
        !at_rank(sorted(values), values.len() as int).below(values[i]),
{
    let keys = value_keys(values);
    crate::order::law_stable_order_exists(keys);
    let order = sorted_order(keys);
    crate::order::lemma_order_covers(keys, order);
    assert(order.contains(i as usize));
    let k = order.index_of(i as usize);
    assert(sorted(values)[k] == values[i]);
    law_sorted_rises(values, 0, k);
    law_sorted_rises(values, k, values.len() - 1);
}

/// Sorting loses nothing and makes nothing up: each value stands at one place, and values that
/// are as large as each other stand in the order in which they came.
pub proof fn law_sorting_moves_values(values: Seq<Scalar>)
    requires
        values.len() <= usize::MAX,
    ensures
        sorted(values).len() == values.len(),
        exists|order: Seq<usize>|
            {
                &&& order.len() == values.len()
                &&& #[trigger] order.no_duplicates()
                &&& forall|k: int|
                    0 <= k < order.len() ==> order[k] < values.len() && #[trigger] sorted(values)[k]
                        == values[order[k] as int]
                &&& forall|k: int, l: int|
                    #![trigger order[k], order[l]]
                    0 <= k < l < order.len() && values[order[k] as int].position() == values[order[l] as int].position()
                        ==> order[k] < order[l]
            },
{
    let keys = value_keys(values);
    crate::order::law_stable_order_exists(keys);
    let order = sorted_order(keys);
    assert(order.no_duplicates()) by {
        assert forall|a: int, b: int| 0 <= a < b < order.len() implies order[a] != order[b] by {
            assert(crate::order::precedes(keys, order[a], order[b]));
        }
    }
    assert forall|k: int| 0 <= k < order.len() implies order[k] < values.len() && #[trigger] sorted(
        values,
    )[k] == values[order[k] as int] by {}
    assert forall|k: int, l: int|
        #![trigger order[k], order[l]]
        0 <= k < l < order.len() && values[order[k] as int].position()
            == values[order[l] as int].position() implies order[k] < order[l] by {
        assert(crate::order::precedes(keys, order[k], order[l]));
    }
}

/// The median stands in the middle: of the sorted values no more lie behind it than before it,
/// and at most two fewer. The last value stands for a place behind it.
pub proof fn law_the_median_is_in_the_middle(values: Seq<Scalar>)
    requires
        0 < values.len() <= usize::MAX,
    ensures
        exists|m: int|
            {
                &&& 0 <= m < values.len()
                &&& median_of(values) == #[trigger] sorted(values)[m]
                &&& values.len() > 1 ==> 2 * m == values.len() || 2 * m == values.len() + 1
            },
        at_rank(sorted(values), values.len() as int) == sorted(values).last(),
{
    let m = if (values.len() as int + 1) / 2 < values.len() {
        (values.len() as int + 1) / 2
    } else {
        values.len() - 1
    };
    assert(median_of(values) == sorted(values)[m]);
}

/// Without values there is nothing but zeros. A rank beyond the values stands for the highest.
pub proof fn law_ranks_stay_inside(ranked: Seq<Scalar>, rank: int)
    requires
        0 <= rank,
    ensures
        ranked.len() == 0 ==> at_rank(ranked, rank).units() == 0,
        rank < ranked.len() ==> at_rank(ranked, rank) == ranked[rank],
        0 < ranked.len() <= rank ==> at_rank(ranked, rank) == ranked[ranked.len() - 1],
{
}

/// A batch is reported exactly where its number, counted from one, is a multiple of the
/// interval, or it is the last that was asked for; and it is the last where as many are
/// evaluated as were asked for.
pub proof fn law_reports_come_at_intervals(progress: EvalProgress, k: int)
    requires
        progress.wf(),
        0 <= k,
    ensures
        progress.evaluated + 1 == k * progress.sample_interval ==> progress.step().report,
        k * progress.sample_interval < progress.evaluated + 1 < (k + 1) * progress.sample_interval
            && progress.evaluated + 1 != progress.batches ==> !progress.step().report,
        progress.evaluated + 1 == progress.batches ==> progress.step().report
            && progress.step().done,
        progress.evaluated + 1 < progress.batches <==> !progress.step().done,
{
    let n = progress.evaluated + 1;
    let d = progress.sample_interval as int;
    assert((k + 1) * d == k * d + d) by (nonlinear_arith);
    if n == k * d {
        vstd::arithmetic::div_mod::lemma_fundamental_div_mod_converse(n, d, k, 0);
    } else if k * d < n < (k + 1) * d {
        vstd::arithmetic::div_mod::lemma_fundamental_div_mod_converse(n, d, k, n - k * d);
    }
}

/// Every row but the last has a successor to be held against, and nothing is divided by zero.
pub proof fn law_predictions_have_successors(seq_len: int)
    requires
        0 <= seq_len,
    ensures
        seq_len >= 1 ==> predictions(seq_len).0 == seq_len - 1,
        seq_len == 0 ==> predictions(seq_len).0 == 0,
        predictions(seq_len).1 > 0,
        predictions(seq_len).0 > 0 ==> predictions(seq_len).1 == predictions(seq_len).0,
        predictions(seq_len).0 == 0 ==> predictions(seq_len).1 == 1,
{
}


/// An evaluation has a result exactly where a batch was evaluated, and it rests on all of them.
pub proof fn law_results_rest_on_batches(progress: EvalProgress)
    ensures
        progress.result() is Ok <==> progress.evaluated > 0,
        progress.result() matches Ok(n) ==> n == progress.evaluated,
{
}

} // verus!
