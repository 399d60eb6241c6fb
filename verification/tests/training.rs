use pose_obc_retrieval::batches::{count_batches, EpochOrder};
use pose_obc_retrieval::floats::Double;
use pose_obc_retrieval::training::{checkpoints_after, BestLoss, TrainingRun, TrainingStep};
use rand::rngs::StdRng;
use rand::seq::SliceRandom;
use rand::SeedableRng;

fn whole_order(order: &EpochOrder) -> Vec<usize> {
    let mut indices = Vec::new();
    for k in 0..count_batches(order.len(), 3) {
        indices.extend(order.batch(3, k));
    }
    indices
}

#[test]
fn epochs_are_shuffled_by_the_seeded_generator() {
    let mut expected: Vec<usize> = (0..11).collect();
    let mut rng = StdRng::seed_from_u64(42);
    let mut order = EpochOrder::new(11, 42, true);

    for _ in 0..3 {
        expected.shuffle(&mut rng);
        order.next_epoch();
        assert_eq!(whole_order(&order), expected);
    }
    assert_ne!(expected, (0..11).collect::<Vec<usize>>());
}

#[test]
fn same_seed_gives_the_same_epochs() {
    let mut first = EpochOrder::new(20, 7, true);
    let mut second = EpochOrder::new(20, 7, true);
    let mut other = EpochOrder::new(20, 8, true);
    first.next_epoch();
    second.next_epoch();
    other.next_epoch();

    assert_eq!(whole_order(&first), whole_order(&second));
    assert_ne!(whole_order(&first), whole_order(&other));
}

#[test]
fn every_epoch_visits_every_sample_once() {
    let mut order = EpochOrder::new(10, 1, true);
    for _ in 0..4 {
        order.next_epoch();
        let mut indices = whole_order(&order);
        indices.sort();
        assert_eq!(indices, (0..10).collect::<Vec<usize>>());
    }
}

#[test]
fn unshuffled_epochs_keep_the_order() {
    let mut order = EpochOrder::new(5, 42, false);
    order.next_epoch();
    order.next_epoch();

    assert_eq!(order.len(), 5);
    assert_eq!(order.batch(2, 0), vec![0, 1]);
    assert_eq!(order.batch(2, 2), vec![4]);
}

#[test]
fn batches_are_counted_up() {
    assert_eq!(count_batches(0, 4), 0);
    assert_eq!(count_batches(8, 4), 2);
    assert_eq!(count_batches(9, 4), 3);
    assert_eq!(count_batches(usize::MAX, 1), usize::MAX);
}

#[test]
fn run_trains_and_finishes_each_epoch() {
    let mut run = TrainingRun::new(3, 2, 2, false, 42, 2);

    assert_eq!(
        run.next(),
        TrainingStep::Train {
            epoch: 1,
            indices: vec![0, 1]
        }
    );
    assert!(!run.reports_batch());
    assert_eq!((run.train_batches(), run.train_samples()), (1, 2));
    assert_eq!(
        run.next(),
        TrainingStep::Train {
            epoch: 1,
            indices: vec![2]
        }
    );
    assert!(run.reports_batch());
    assert_eq!((run.train_batches(), run.train_samples()), (2, 3));
    assert_eq!(
        run.next(),
        TrainingStep::FinishEpoch {
            epoch: 1,
            batches: 2,
            samples: 3
        }
    );
    assert_eq!(
        run.next(),
        TrainingStep::Train {
            epoch: 2,
            indices: vec![0, 1]
        }
    );
    run.next();
    run.next();
    assert_eq!(run.next(), TrainingStep::Done);
    assert_eq!(run.next(), TrainingStep::Done);
}

#[test]
fn run_follows_the_shuffled_order() {
    let mut expected: Vec<usize> = (0..6).collect();
    let mut rng = StdRng::seed_from_u64(9);
    let mut run = TrainingRun::new(6, 2, 6, true, 9, 0);

    for epoch in 1..=2 {
        expected.shuffle(&mut rng);
        assert_eq!(
            run.next(),
            TrainingStep::Train {
                epoch,
                indices: expected.clone()
            }
        );
        assert!(!run.reports_batch());
        run.next();
    }
}

#[test]
fn run_without_samples_finishes_empty_epochs() {
    let mut run = TrainingRun::new(0, 1, 4, true, 0, 1);

    assert_eq!(
        run.next(),
        TrainingStep::FinishEpoch {
            epoch: 1,
            batches: 0,
            samples: 0
        }
    );
    assert_eq!(run.next(), TrainingStep::Done);
}

#[test]
fn checkpoints_are_named_by_epoch() {
    assert_eq!(checkpoints_after(7, true, true), vec!["epoch_007", "last", "best"]);
    assert_eq!(checkpoints_after(1234, true, false), vec!["epoch_1234", "last"]);
    assert_eq!(checkpoints_after(7, false, false), vec!["last"]);
}

#[test]
fn best_loss_is_the_lowest() {
    let loss = |value: f64| Some(Double::from_bits(value.to_bits()));
    let mut best = BestLoss::new();

    assert!(!best.record(None));
    assert!(best.record(loss(0.5)));
    assert!(!best.record(loss(0.5)));
    assert!(best.record(loss(0.25)));
    assert!(!best.record(loss(f64::NAN)));
    assert_eq!(best.loss, loss(0.25));
}

#[test]
fn run_without_epochs_is_done() {
    let mut run = TrainingRun::new(3, 0, 2, true, 7, 1);

    assert_eq!(run.next(), TrainingStep::Done);
    assert_eq!(run.next(), TrainingStep::Done);
}

#[test]
fn run_takes_any_number_of_epochs() {
    let mut run = TrainingRun::new(1, usize::MAX, 1, false, 0, 0);

    for epoch in 1..=3 {
        assert_eq!(
            run.next(),
            TrainingStep::Train {
                epoch,
                indices: vec![0]
            }
        );
        assert_eq!(
            run.next(),
            TrainingStep::FinishEpoch {
                epoch,
                batches: 1,
                samples: 1
            }
        );
    }
}
