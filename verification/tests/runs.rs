use annp::evaluation::{order_statistics, prediction_counts, sort_values, EvalError, EvalProgress};
use annp::generation::{best_token, generate_len, last_row, output_file, Generation};
use annp::scalar::Scalar;
use annp::training::{
    checkpoint_name, next_token_split, plan_training, select_device, trains_binary, DeviceChoice,
    NextTokenSplit, TrainAction, TrainingRun,
};

fn scalar(x: f32) -> Scalar {
    Scalar::from_bits(x.to_bits())
}

fn scalars(values: &[f32]) -> Vec<Scalar> {
    values.iter().map(|&x| scalar(x)).collect()
}

/// The places in the dataset that a run learns, and the epochs that it closes.
fn trace(total: usize, epochs: usize, completed: Option<usize>) -> (Vec<usize>, Vec<(usize, usize)>) {
    let plan = plan_training(total, epochs, completed);
    let mut run = TrainingRun::start(plan);
    let mut cursor = plan.skip_batches;
    let mut learnt = Vec::new();
    let mut closed = Vec::new();
    loop {
        match run.next() {
            TrainAction::Learn { .. } => {
                if cursor < total {
                    learnt.push(cursor);
                    cursor += 1;
                    run.learnt();
                } else {
                    closed.push(run.close_epoch());
                }
            }
            TrainAction::Close { .. } => closed.push(run.close_epoch()),
            TrainAction::Finished => break,
        }
    }
    (learnt, closed)
}

#[test]
fn a_dataset_is_gone_through_once() {
    let (learnt, closed) = trace(10, 3, None);
    assert_eq!(learnt, (0..9).collect::<Vec<_>>());
    assert_eq!(closed, vec![(0, 3), (1, 3), (2, 3)]);
}

#[test]
fn a_resumed_run_goes_on() {
    let (whole, _) = trace(12, 4, None);
    let (rest, closed) = trace(12, 4, Some(1));
    assert_eq!(rest, whole[6..].to_vec());
    assert_eq!(closed, vec![(2, 3), (3, 3)]);
    let (nothing, _) = trace(12, 4, Some(3));
    assert!(nothing.is_empty());
}

#[test]
fn short_datasets_leave_epochs_empty() {
    let (learnt, closed) = trace(2, 4, None);
    assert_eq!(learnt, vec![0, 1]);
    assert_eq!(closed, vec![(0, 1), (1, 1), (2, 0), (3, 0)]);
}

#[test]
fn every_second_batch_is_reported() {
    let mut run = TrainingRun::start(plan_training(4, 1, None));
    let reported: Vec<bool> = (0..4).map(|_| run.learnt()).collect();
    assert_eq!(reported, vec![false, true, false, true]);
    assert_eq!(run.next(), TrainAction::Close { epoch: 0, steps: 4 });
}

#[test]
fn checkpoints_are_named_by_epoch() {
    assert_eq!(checkpoint_name(0, true), "checkpoint_epoch1.annpb");
    assert_eq!(checkpoint_name(41, false), "checkpoint_epoch42.json");
    assert!(trains_binary("ANNPB"));
    assert!(trains_binary("binary"));
    assert!(!trains_binary("bin"));
    assert!(!trains_binary("json"));
}

#[test]
fn devices_are_chosen_by_name() {
    let none = DeviceChoice { use_cuda: false, fell_back: false };
    for available in [false, true] {
        assert_eq!(select_device("CPU", available), none);
        assert_eq!(select_device("tpu", available), none);
        for name in ["Cuda", "GPU", "auto", ""] {
            assert_eq!(
                select_device(name, available),
                DeviceChoice { use_cuda: available, fell_back: !available }
            );
        }
    }
}

#[test]
fn each_row_is_followed_by_the_next() {
    assert_eq!(
        next_token_split(5),
        NextTokenSplit { input_start: 0, target_start: 1, len: 4 }
    );
    assert_eq!(
        next_token_split(1),
        NextTokenSplit { input_start: 0, target_start: 0, len: 1 }
    );
}

#[test]
fn evaluations_report_at_intervals() {
    let mut progress = EvalProgress::start(5, 2);
    assert_eq!(progress.finish(), Err(EvalError::NoBatches));
    let steps: Vec<(bool, bool)> = (0..5)
        .map(|_| {
            let step = progress.record();
            (step.report, step.done)
        })
        .collect();
    assert_eq!(
        steps,
        vec![(false, false), (true, false), (false, false), (true, false), (true, true)]
    );
    assert_eq!(progress.finish(), Ok(5));
    assert!(EvalProgress::start(3, 0).record().report);
    assert_eq!(prediction_counts(64), (63, 63));
    assert_eq!(prediction_counts(1), (0, 1));
    assert_eq!(prediction_counts(0), (0, 1));
}

#[test]
fn order_statistics_of_measurements() {
    let values = scalars(&[3.0, -1.0, 2.0, 0.5]);
    assert_eq!(sort_values(&values), scalars(&[-1.0, 0.5, 2.0, 3.0]));
    let rank = (values.len() as f64 * 0.95).round() as usize;
    let statistics = order_statistics(&values, rank);
    assert_eq!(statistics.min, scalar(-1.0));
    assert_eq!(statistics.median, scalar(2.0));
    assert_eq!(statistics.high, scalar(3.0));
    assert_eq!(statistics.max, scalar(3.0));
    for n in 1..40usize {
        let list: Vec<Scalar> = (0..n).map(|i| scalar(i as f32)).collect();
        let middle = ((n as f64 * 0.5).round() as usize).min(n - 1);
        assert_eq!(order_statistics(&list, 0).median, scalar(middle as f32));
    }
    assert_eq!(order_statistics(&Vec::new(), 3).max, scalar(0.0));
}

#[test]
fn the_first_of_the_best_tokens_is_taken() {
    assert_eq!(best_token(&scalars(&[0.5, 2.0, 2.0])), 2);
    assert_eq!(best_token(&scalars(&[f32::NAN, f32::NEG_INFINITY, -4.0])), 3);
    assert_eq!(best_token(&scalars(&[f32::NEG_INFINITY])), 1);
    assert_eq!(best_token(&Vec::new()), 1);
    assert_eq!(generate_len(true), 5);
    assert_eq!(generate_len(false), 20);
}

#[test]
fn generation_shows_each_row_once() {
    let mut generation = Generation::start(16);
    for step in 0..20 {
        assert_eq!(generation.position, 16 + step);
        generation.advance(4);
    }
    assert_eq!(generation.pending, 1);
    assert_eq!(generation.particles, (16 + 19) * 4);
}

#[test]
fn outputs_are_framed() {
    let rows = scalars(&[1.0, 2.0, 3.0, 4.0]);
    assert_eq!(last_row(&rows, 2, 2), scalars(&[3.0, 4.0]));
    let bytes = output_file(2, 2, &rows);
    assert_eq!(&bytes[..9], b"ANNPB_OUT");
    assert_eq!(&bytes[9..13], &2u32.to_le_bytes());
    assert_eq!(&bytes[13..17], &2u32.to_le_bytes());
    assert_eq!(&bytes[17..21], &1.0f32.to_le_bytes());
    assert_eq!(bytes.len(), 17 + 16);
}
