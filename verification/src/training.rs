//! Training runs: which batches are learnt in which epoch, and on what device.
use crate::text::{ascii_lowercased, decimal, lowercased, put_decimal, same_text, to_lowercase};
use vstd::prelude::*;

verus! {

/// A training run. An epoch is a stretch between two checkpoints: the dataset is gone
/// through once, over all epochs together.
#[derive(Clone, Copy, Debug, PartialEq, Eq, Structural)]
pub struct TrainPlan {
    /// First epoch to train.
    pub start_epoch: usize,
    /// Epochs in all.
    pub epochs: usize,
    /// Batches between two checkpoints.
    pub batches_per_epoch: usize,
    /// Batches that earlier runs have learnt.
    pub skip_batches: usize,
}

/// Batches between two checkpoints: an equal share of the dataset, and at least one.
pub open spec fn share_of(total_batches: int, epochs: int) -> int {
    if total_batches / epochs < 1 {
        1
    } else {
        total_batches / epochs
    }
}

/// The epoch that a run begins with, behind the one that was completed last.
pub open spec fn first_epoch(completed: Option<usize>) -> int {
    match completed {
        Some(c) => c + 1,
        None => 0,
    }
}

/// Plans a run over `total_batches`, from the beginning or behind a completed epoch.
pub fn plan_training(total_batches: usize, epochs: usize, completed: Option<usize>) -> (r: TrainPlan)
    requires
        epochs > 0,
        first_epoch(completed) <= usize::MAX,
        first_epoch(completed) * share_of(total_batches as int, epochs as int) <= usize::MAX,
    ensures
        r.start_epoch == first_epoch(completed),
        r.epochs == epochs,
        r.batches_per_epoch == share_of(total_batches as int, epochs as int),
        r.skip_batches == first_epoch(completed) * share_of(total_batches as int, epochs as int),
{
    let start_epoch: usize = match completed {
        Some(c) => c + 1,
        None => 0,
    };
    let share: usize = total_batches / epochs;
    let batches_per_epoch: usize = if share < 1 {
        1
    } else {
        share
    };
    TrainPlan {
        start_epoch,
        epochs,
        batches_per_epoch,
        skip_batches: start_epoch * batches_per_epoch,
    }
}

impl TrainPlan {
    /// Place in the dataset of a batch of an epoch.
    pub open spec fn place(self, epoch: int, batch: int) -> int {
        epoch * self.batches_per_epoch + batch
    }
}

/// No batch is learnt twice: batches of later epochs lie behind those of earlier ones.
pub proof fn law_no_batch_repeats(plan: TrainPlan, e1: int, b1: int, e2: int, b2: int)
    requires
        0 <= e1 < e2,
        0 <= b1 < plan.batches_per_epoch,
        0 <= b2 < plan.batches_per_epoch,
    ensures
        plan.place(e1, b1) < plan.place(e2, b2),
{
    assert(e1 * plan.batches_per_epoch + plan.batches_per_epoch <= e2 * plan.batches_per_epoch)
        by (nonlinear_arith)
        requires
            0 <= e1 < e2,
            0 <= plan.batches_per_epoch,
    ;
}

/// An epoch begins where the one before it ends.
pub proof fn law_epochs_adjoin(plan: TrainPlan, epoch: int)
    ensures
        plan.place(epoch + 1, 0) == plan.place(epoch, plan.batches_per_epoch as int),
{
    assert((epoch + 1) * plan.batches_per_epoch == epoch * plan.batches_per_epoch
        + plan.batches_per_epoch) by (nonlinear_arith);
}

/// Where there is a batch for each epoch, all epochs together stay inside the dataset.
pub proof fn law_epochs_fit(plan: TrainPlan, total_batches: int, epoch: int, batch: int)
    requires
        0 < plan.epochs <= total_batches,
        plan.batches_per_epoch == share_of(total_batches, plan.epochs as int),
        0 <= epoch < plan.epochs,
        0 <= batch < plan.batches_per_epoch,
    ensures
        0 <= plan.place(epoch, batch) < total_batches,
{
    let n = plan.epochs as int;
    let s = plan.batches_per_epoch as int;
    vstd::arithmetic::div_mod::lemma_fundamental_div_mod(total_batches, n);
    vstd::arithmetic::div_mod::lemma_mod_bound(total_batches, n);
    assert(total_batches / n >= 1) by {
        vstd::arithmetic::div_mod::lemma_div_is_ordered(n, total_batches, n);
        vstd::arithmetic::div_mod::lemma_div_by_self(n);
    }
    assert(s * n <= total_batches) by {
        assert(s * n == n * s) by (nonlinear_arith);
    }
    assert(0 <= epoch * s && epoch * s + s <= n * s) by (nonlinear_arith)
        requires
            0 <= epoch < n,
            0 < s,
    ;
    assert(s * n == n * s) by (nonlinear_arith);
}

/// A resumed run goes on where an uninterrupted one would be: it passes over exactly the
/// batches of the epochs that are done.
pub proof fn law_resumed_run_goes_on(whole: TrainPlan, resumed: TrainPlan, total_batches: int, completed: usize)
    requires
        0 < whole.epochs,
        whole.epochs == resumed.epochs,
        whole.batches_per_epoch == share_of(total_batches, whole.epochs as int),
        resumed.batches_per_epoch == share_of(total_batches, resumed.epochs as int),
        resumed.start_epoch == first_epoch(Some(completed)),
        resumed.skip_batches == first_epoch(Some(completed)) * share_of(
            total_batches,
            resumed.epochs as int,
        ),
    ensures
        resumed.skip_batches == whole.place(completed as int, whole.batches_per_epoch as int),
        forall|e: int, b: int| resumed.place(e, b) == whole.place(e, b),
{
    law_epochs_adjoin(whole, completed as int);
}

/// What a run does next.
#[derive(Clone, Copy, Debug, PartialEq, Eq, Structural)]
pub enum TrainAction {
    /// Take the next batch and learn it.
    Learn { epoch: usize, batch: usize },
    /// Sum the epoch up and save a checkpoint.
    Close { epoch: usize, steps: usize },
    /// Nothing more.
    Finished,
}

/// Whether the `n`-th batch of an epoch, counted from one, is reported.
pub open spec fn is_reported(n: int) -> bool {
    n % 2 == 0
}

/// A run under way.
#[derive(Clone, Copy, Debug, PartialEq, Eq, Structural)]
pub struct TrainingRun {
    pub plan: TrainPlan,
    /// Epoch under way.
    pub epoch: usize,
    /// Batches learnt in it.
    pub batch: usize,
}

impl TrainingRun {
    /// No more batches are learnt than an epoch has.
    pub open spec fn wf(self) -> bool {
        self.batch <= self.plan.batches_per_epoch && (self.epoch < self.plan.epochs || self.batch
            == 0)
    }

    /// What is to be done.
    pub open spec fn action(self) -> TrainAction {
        if self.epoch >= self.plan.epochs {
            TrainAction::Finished
        } else if self.batch < self.plan.batches_per_epoch {
            TrainAction::Learn { epoch: self.epoch, batch: self.batch }
        } else {
            TrainAction::Close { epoch: self.epoch, steps: self.batch }
        }
    }

    /// Begins a run.
    pub fn start(plan: TrainPlan) -> (r: Self)
        ensures
            r == (TrainingRun { plan, epoch: plan.start_epoch, batch: 0 }),
            r.wf(),
    {
        TrainingRun { plan, epoch: plan.start_epoch, batch: 0 }
    }

    /// What is to be done.
    pub fn next(&self) -> (r: TrainAction)
        ensures
            r == self.action(),
    {
        if self.epoch >= self.plan.epochs {
            TrainAction::Finished
        } else if self.batch < self.plan.batches_per_epoch {
            TrainAction::Learn { epoch: self.epoch, batch: self.batch }
        } else {
            TrainAction::Close { epoch: self.epoch, steps: self.batch }
        }
    }

    /// Notes that a batch was learnt. Every second one is reported.
    pub fn learnt(&mut self) -> (r: bool)
        requires
            old(self).wf(),
            old(self).action() is Learn,
        ensures
            *final(self) == (TrainingRun { batch: (old(self).batch + 1) as usize, ..*old(self) }),
            final(self).wf(),
            r == is_reported(old(self).batch + 1),
            r == ((old(self).batch + 1) % 2 == 0),
    {
        self.batch += 1;
        self.batch % 2 == 0
    }

    /// Notes that the epoch is over, because all its batches are learnt or because there are
    /// no more. Returns its index and the batches learnt in it.
    pub fn close_epoch(&mut self) -> (r: (usize, usize))
        requires
            old(self).wf(),
            !(old(self).action() is Finished),
        ensures
            r == (old(self).epoch, old(self).batch),
            *final(self) == (TrainingRun {
                epoch: (old(self).epoch + 1) as usize,
                batch: 0,
                ..*old(self)
            }),
            final(self).wf(),
    {
        let r: (usize, usize) = (self.epoch, self.batch);
        self.epoch += 1;
        self.batch = 0;
        r
    }

    /// How much of the run is left.
    pub open spec fn left(self) -> int {
        (self.plan.epochs - self.epoch) * (self.plan.batches_per_epoch + 1) - self.batch
    }
}

/// A run comes to an end: learning a batch and closing an epoch both leave less to do, and
/// nothing is left only when it is finished.
pub proof fn law_run_ends(run: TrainingRun)
    requires
        run.wf(),
        !(run.action() is Finished),
    ensures
        run.left() > 0,
        0 <= (TrainingRun { epoch: (run.epoch + 1) as usize, batch: 0, ..run }).left() < run.left(),
        run.action() is Learn ==> 0 <= (TrainingRun { batch: (run.batch + 1) as usize, ..run }).left()
            < run.left(),
{
    let n = run.plan.epochs - run.epoch;
    let w = run.plan.batches_per_epoch + 1;
    assert(n * w >= w && (n - 1) * w == n * w - w && (n - 1) * w >= 0) by (nonlinear_arith)
        requires
            n >= 1,
            w >= 1,
    ;
}

/// The name of the checkpoint behind an epoch.
pub open spec fn checkpoint_file(epoch: int, binary: bool) -> Seq<char> {
    "checkpoint_epoch"@ + decimal((epoch + 1) as nat) + "."@ + if binary {
        "annpb"@
    } else {
        "json"@
    }
}

/// The name of the checkpoint behind an epoch. Epochs are counted from one there.
pub fn checkpoint_name(epoch: usize, binary: bool) -> (r: String)
    requires
        epoch < usize::MAX,
    ensures
        r@ == checkpoint_file(epoch as int, binary),
{
    let mut r: String = "checkpoint_epoch".to_owned();
    put_decimal(&mut r, (epoch + 1) as u64);
    r.append(".");
    if binary {
        r.append("annpb");
    } else {
        r.append("json");
    }
    r
}

/// No epoch's checkpoint overwrites another's.
pub proof fn law_checkpoints_differ(a: int, b: int, binary: bool)
    requires
        0 <= a,
        0 <= b,
        a != b,
    ensures
        checkpoint_file(a, binary) != checkpoint_file(b, binary),
{
    let x = decimal((a + 1) as nat);
    let y = decimal((b + 1) as nat);
    crate::text::law_decimal_is_read_back((a + 1) as nat);
    crate::text::law_decimal_is_read_back((b + 1) as nat);
    let front = "checkpoint_epoch"@;
    let ext = if binary {
        "annpb"@
    } else {
        "json"@
    };
    if checkpoint_file(a, binary) == checkpoint_file(b, binary) {
        assert(front + x + "."@ + ext =~= front + x + ("."@ + ext));
        assert(front + y + "."@ + ext =~= front + y + ("."@ + ext));
        crate::text::lemma_same_middle(front, x, y, "."@ + ext);
    }
}

/// Whether training checkpoints of this format name, in lower case, are binary.
pub open spec fn names_binary_training(name: Seq<char>) -> bool {
    name == "annpb"@ || name == "binary"@
}

/// Whether training checkpoints of this format name, in lower case, are binary.
pub fn is_binary_training(name: &str) -> (r: bool)
    ensures
        r == names_binary_training(name@),
{
    same_text(name, "annpb") || same_text(name, "binary")
}

/// Whether training checkpoints are binary, by the name of their format.
pub fn trains_binary(format: &str) -> (r: bool)
    ensures
        r == names_binary_training(lowercased(format@)),
        vstd::utf8::is_ascii_chars(format@) ==> r == names_binary_training(
            ascii_lowercased(format@),
        ),
{
    let lower: String = to_lowercase(format);
    is_binary_training(lower.as_str())
}

/// Where a model is to run.
#[derive(Clone, Copy, Debug, PartialEq, Eq, Structural)]
pub struct DeviceChoice {
    /// On a graphics processor rather than on the main one.
    pub use_cuda: bool,
    /// One was asked for but there is none.
    pub fell_back: bool,
}

/// Whether a name in lower case asks for a graphics processor.
pub open spec fn wants_cuda(name: Seq<char>) -> bool {
    name == "cuda"@ || name == "gpu"@ || name == "auto"@ || name == ""@
}

/// Where a model is to run, for a device name in lower case.
pub open spec fn device_of(name: Seq<char>, cuda_available: bool) -> DeviceChoice {
    DeviceChoice {
        use_cuda: wants_cuda(name) && cuda_available,
        fell_back: wants_cuda(name) && !cuda_available,
    }
}

/// Where a model is to run, for a device name in lower case.
pub fn choose_device(name: &str, cuda_available: bool) -> (r: DeviceChoice)
    ensures
        r == device_of(name@, cuda_available),
{
    let wanted: bool = same_text(name, "cuda") || same_text(name, "gpu") || same_text(name, "auto")
        || same_text(name, "");
    DeviceChoice { use_cuda: wanted && cuda_available, fell_back: wanted && !cuda_available }
}

/// Where a model is to run.
pub fn select_device(device_str: &str, cuda_available: bool) -> (r: DeviceChoice)
    ensures
        r == device_of(lowercased(device_str@), cuda_available),
        vstd::utf8::is_ascii_chars(device_str@) ==> r == device_of(
            ascii_lowercased(device_str@),
            cuda_available,
        ),
{
    let lower: String = to_lowercase(device_str);
    choose_device(lower.as_str(), cuda_available)
}

/// The main processor is used whenever it is asked for.
pub proof fn law_cpu_is_honoured(cuda_available: bool)
    ensures
        device_of("cpu"@, cuda_available) == (DeviceChoice { use_cuda: false, fell_back: false }),
{
    reveal_strlit("cpu");
    reveal_strlit("cuda");
    reveal_strlit("gpu");
    reveal_strlit("auto");
    reveal_strlit("");
    assert("cpu"@.len() == 3 && "cuda"@.len() == 4 && "auto"@.len() == 4 && ""@.len() == 0);
    assert("gpu"@[0] != "cpu"@[0]);
}

/// The rows of a sequence that a model is shown and those that it is to predict: each row is
/// to be followed by the next one. A sequence of one row is to be followed by itself.
#[derive(Clone, Copy, Debug, PartialEq, Eq, Structural)]
pub struct NextTokenSplit {
    pub input_start: usize,
    pub target_start: usize,
    pub len: usize,
}

/// The rows shown and to be predicted of a sequence of `seq_len` rows.
pub open spec fn split_of(seq_len: int) -> NextTokenSplit {
    if seq_len >= 2 {
        NextTokenSplit { input_start: 0, target_start: 1, len: (seq_len - 1) as usize }
    } else {
        NextTokenSplit { input_start: 0, target_start: 0, len: seq_len as usize }
    }
}

/// Splits a sequence for the prediction of the next row.
pub fn next_token_split(seq_len: usize) -> (r: NextTokenSplit)
    ensures
        r == split_of(seq_len as int),
        r.input_start == 0,
        seq_len >= 2 ==> r.target_start == 1 && r.len == seq_len - 1,
        seq_len < 2 ==> r.target_start == 0 && r.len == seq_len,
{
    if seq_len >= 2 {
        NextTokenSplit { input_start: 0, target_start: 1, len: seq_len - 1 }
    } else {
        NextTokenSplit { input_start: 0, target_start: 0, len: seq_len }
    }
}

/// Each row is followed by the one behind it: the row that is to be predicted for row `i` is
/// row `i` + 1. All rows but the last are shown. One row alone is followed by itself.
pub proof fn law_each_row_predicts_the_next(seq_len: usize, i: int)
    requires
        0 <= i < split_of(seq_len as int).len,
    ensures
        ({
            let split = split_of(seq_len as int);
            let shown = split.input_start + i;
            let target = split.target_start + i;
            &&& seq_len >= 2 ==> shown == i && target == i + 1 && target < seq_len
            &&& seq_len >= 2 ==> split.len + 1 == seq_len
            &&& seq_len == 1 ==> shown == 0 && target == 0
        }),
{
}

/// The share of an epoch is as large as the dataset allows, and at least one batch: all epochs
/// together take no more batches than there are, and one more for each would be too many.
pub proof fn law_shares_use_the_dataset(total_batches: int, epochs: int)
    requires
        0 <= total_batches,
        0 < epochs,
    ensures
        share_of(total_batches, epochs) >= 1,
        total_batches >= epochs ==> share_of(total_batches, epochs) * epochs <= total_batches < (
        share_of(total_batches, epochs) + 1) * epochs,
        total_batches < epochs ==> share_of(total_batches, epochs) == 1,
{
    let s = total_batches / epochs;
    vstd::arithmetic::div_mod::lemma_fundamental_div_mod(total_batches, epochs);
    vstd::arithmetic::div_mod::lemma_mod_bound(total_batches, epochs);
    assert(epochs * s == s * epochs && (s + 1) * epochs == s * epochs + epochs) by (nonlinear_arith);
    if total_batches < epochs {
        vstd::arithmetic::div_mod::lemma_basic_div(total_batches, epochs);
    } else {
        assert(s >= 1) by (nonlinear_arith)
            requires
                total_batches < (s + 1) * epochs,
                total_batches >= epochs,
                epochs > 0,
        ;
    }
}

/// A run from the beginning starts with epoch zero; one behind a completed epoch with the epoch
/// after it.
pub proof fn law_runs_start_behind_what_is_done(completed: usize)
    ensures
        first_epoch(None) == 0,
        first_epoch(Some(completed)) == completed + 1,
{
}

/// What a run does next: as long as there are epochs, it learns the batches of the epoch under
/// way one after the other, and closes the epoch when all are learnt.
pub proof fn law_a_run_learns_then_closes(run: TrainingRun)
    ensures
        run.epoch < run.plan.epochs && run.batch < run.plan.batches_per_epoch <==> (
        run.action() matches TrainAction::Learn { epoch, batch } && epoch == run.epoch && batch
            == run.batch),
        run.epoch < run.plan.epochs && run.batch >= run.plan.batches_per_epoch <==> (
        run.action() matches TrainAction::Close { epoch, steps } && epoch == run.epoch && steps
            == run.batch),
        run.epoch >= run.plan.epochs <==> run.action() is Finished,
{
}

/// Of two batches that follow each other one is reported, and of the first two the second.
pub proof fn law_every_second_batch_is_reported(n: int)
    ensures
        is_reported(n) <==> !is_reported(n + 1),
        !is_reported(1),
        is_reported(2),
{
}

/// The name of a checkpoint tells its epoch, counted from one, and its form.
pub proof fn law_checkpoint_names_tell_epoch_and_form(epoch: int)
    requires
        0 <= epoch,
    ensures
        checkpoint_file(epoch, true) == "checkpoint_epoch"@ + decimal((epoch + 1) as nat)
            + ".annpb"@,
        checkpoint_file(epoch, false) == "checkpoint_epoch"@ + decimal((epoch + 1) as nat)
            + ".json"@,
{
    reveal_strlit(".");
    reveal_strlit("annpb");
    reveal_strlit("json");
    reveal_strlit(".annpb");
    reveal_strlit(".json");
    assert("."@ + "annpb"@ =~= ".annpb"@);
    assert("."@ + "json"@ =~= ".json"@);
    let front = "checkpoint_epoch"@ + decimal((epoch + 1) as nat);
    assert(front + "."@ + "annpb"@ =~= front + ("."@ + "annpb"@));
    assert(front + "."@ + "json"@ =~= front + ("."@ + "json"@));
}

/// Four names ask for a graphics processor, the empty one among them. It is used where there is
/// one and missed where there is none; with any other name it is neither.
pub proof fn law_devices_are_used_where_they_are(name: Seq<char>, cuda_available: bool)
    ensures
        name == "cuda"@ || name == "gpu"@ || name == "auto"@ || name == ""@ ==> {
            &&& device_of(name, true) == (DeviceChoice { use_cuda: true, fell_back: false })
            &&& device_of(name, false) == (DeviceChoice { use_cuda: false, fell_back: true })
        },
        !(name == "cuda"@ || name == "gpu"@ || name == "auto"@ || name == ""@) ==> {
            let choice = device_of(name, cuda_available);
            !choice.use_cuda && !choice.fell_back
        },
        names_binary_training(name) <==> name == "annpb"@ || name == "binary"@,
{
}


} // verus!
