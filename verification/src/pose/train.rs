//! Training of the pose network: its settings, and the batches that are prepared ahead.

use vstd::prelude::*;

use crate::floats::Double;
use crate::pose::network::LiteHrNetPoseConfig;
use crate::pose::shapes::{halve, halvings};

verus! {

/// The bits of the usual learning rate, 0.002.
pub const DEFAULT_LEARNING_RATE: u64 = 0x3f60_624d_d2f1_a9fc;

/// Why training failed.
#[derive(Debug)]
pub enum PoseTrainError {
    InvalidConfig(String),
    Prefetch(String),
}

impl PoseTrainError {
    /// What went wrong.
    pub fn message(&self) -> (r: String)
        ensures
            r@ == match *self {
                PoseTrainError::InvalidConfig(text) => "invalid config: "@ + text@,
                PoseTrainError::Prefetch(text) => "prefetch error: "@ + text@,
            },
    {
        match self {
            PoseTrainError::InvalidConfig(text) => {
                let mut r = "invalid config: ".to_owned();
                r.append(text.as_str());
                r
            },
            PoseTrainError::Prefetch(text) => {
                let mut r = "prefetch error: ".to_owned();
                r.append(text.as_str());
                r
            },
        }
    }

    /// Whether the settings are invalid in these words.
    pub open spec fn says(self, words: Seq<char>) -> bool {
        self is InvalidConfig && self->InvalidConfig_0@ == words
    }
}

fn misconfigured(words: &str) -> (r: Result<(), PoseTrainError>)
    ensures
        r is Err,
        r->Err_0.says(words@),
        r->Err_0 is InvalidConfig,
        r->Err_0->InvalidConfig_0@ == words@,
{
    Err(PoseTrainError::InvalidConfig(words.to_owned()))
}

/// Settings of a training run.
#[derive(Debug)]
pub struct PoseTrainingConfig {
    pub model: LiteHrNetPoseConfig,
    pub epochs: usize,
    pub batch_size: usize,
    pub learning_rate: Double,
    pub shuffle: bool,
    pub seed: u64,
    pub max_train_samples: Option<usize>,
    pub max_val_samples: Option<usize>,
    pub checkpoint_dir: String,
    pub log_every: usize,
    pub save_every_epoch: bool,
    pub prefetch_batches: usize,
}

impl PoseTrainingConfig {
    pub fn coco_default(checkpoint_dir: &str) -> (r: PoseTrainingConfig)
        ensures
            r.model.backbone.is_coco(seq![2usize, 4, 2]),
            r.model.num_joints == 17,
            r.epochs == 210,
            r.batch_size == 32,
            r.learning_rate == (Double { bits: DEFAULT_LEARNING_RATE }),
            r.learning_rate.bits == 0x3f60_624d_d2f1_a9fc,
            r.shuffle,
            r.seed == 42,
            r.max_train_samples is None,
            r.max_val_samples is None,
            r.checkpoint_dir@ == checkpoint_dir@,
            r.log_every == 50,
            r.save_every_epoch,
            r.prefetch_batches == 0,
    {
        PoseTrainingConfig {
            model: LiteHrNetPoseConfig::litehrnet18_coco(),
            epochs: 210,
            batch_size: 32,
            learning_rate: Double { bits: DEFAULT_LEARNING_RATE },
            shuffle: true,
            seed: 42,
            max_train_samples: None,
            max_val_samples: None,
            checkpoint_dir: checkpoint_dir.to_owned(),
            log_every: 50,
            save_every_epoch: true,
            prefetch_batches: 0,
        }
    }

    /// The words for the first setting that makes no sense.
    pub open spec fn fault(self) -> Option<Seq<char>> {
        if self.batch_size == 0 {
            Some("batch_size must be greater than zero"@)
        } else if self.epochs == 0 {
            Some("epochs must be greater than zero"@)
        } else {
            None
        }
    }

    /// Checks the settings.
    pub fn validate(&self) -> (r: Result<(), PoseTrainError>)
        ensures
            match self.fault() {
                Some(words) => r is Err && r->Err_0.says(words),
                None => r is Ok,
            },
            r is Ok == (self.batch_size > 0 && self.epochs > 0),
            self.batch_size == 0 ==> r is Err && r->Err_0.says(
                "batch_size must be greater than zero"@,
            ),
            self.batch_size > 0 && self.epochs == 0 ==> r is Err && r->Err_0.says(
                "epochs must be greater than zero"@,
            ),
    {
        if self.batch_size == 0 {
            return misconfigured("batch_size must be greater than zero");
        }
        if self.epochs == 0 {
            return misconfigured("epochs must be greater than zero");
        }
        Ok(())
    }
}

/// Checks that the limits leave samples to train on and, where there is validation, to validate
/// with.
pub fn ensure_samples(train_samples: usize, val_samples: Option<usize>) -> (r: Result<
    (),
    PoseTrainError,
>)
    ensures
        r is Ok == (train_samples > 0 && val_samples != Some(0usize)),
        train_samples == 0 ==> r is Err && r->Err_0.says(
            "training dataset is empty after applying max_train_samples"@,
        ),
        train_samples > 0 && val_samples == Some(0usize) ==> r is Err && r->Err_0.says(
            "validation dataset is empty after applying max_val_samples"@,
        ),
{
    if train_samples == 0 {
        return misconfigured("training dataset is empty after applying max_train_samples");
    }
    if let Some(samples) = val_samples {
        if samples == 0 {
            return misconfigured("validation dataset is empty after applying max_val_samples");
        }
    }
    Ok(())
}

/// Checks what a dataset is evaluated with.
pub fn ensure_evaluable(batch_size: usize, samples: usize) -> (r: Result<(), PoseTrainError>)
    ensures
        r is Ok == (batch_size > 0 && samples > 0),
        batch_size == 0 ==> r is Err && r->Err_0.says("batch_size must be greater than zero"@),
        batch_size > 0 && samples == 0 ==> r is Err && r->Err_0.says("validation dataset is empty"@),
{
    if batch_size == 0 {
        return misconfigured("batch_size must be greater than zero");
    }
    if samples == 0 {
        return misconfigured("validation dataset is empty");
    }
    Ok(())
}

/// The batches that a worker prepares ahead and that are still to come.
#[derive(Clone, Copy, Debug, PartialEq, Eq, Structural)]
pub struct PrefetchedTensorBatches {
    pub remaining: usize,
}

impl PrefetchedTensorBatches {
    pub fn new(total_batches: usize) -> (r: PrefetchedTensorBatches)
        ensures
            r.remaining == total_batches,
    {
        PrefetchedTensorBatches { remaining: total_batches }
    }

    /// Says whether another batch is to be received, and counts it.
    pub fn expects_batch(&mut self) -> (r: bool)
        ensures
            r == (old(self).remaining > 0),
            final(self).remaining == if r {
                old(self).remaining - 1
            } else {
                0
            },
    {
        if self.remaining == 0 {
            return false;
        }
        self.remaining -= 1;
        true
    }

    /// The error for a worker that stopped before its last batch.
    pub fn worker_stopped() -> (r: PoseTrainError)
        ensures
            r is Prefetch,
            r->Prefetch_0@ == "batch prefetch worker stopped"@,
    {
        PoseTrainError::Prefetch("batch prefetch worker stopped".to_owned())
    }
}

/// The heatmaps of the data have the size of those that the network puts out, where the input
/// size is a multiple of four.
pub proof fn law_heatmap_size_matches_network(side: usize)
    requires
        side % 4 == 0,
    ensures
        halvings(side, 2) == side / 4,
{
    reveal_with_fuel(halvings, 3);
    assert(halve(side) == side / 2);
}

/// Invalid settings say the words that they are reported with, and no others.
pub proof fn law_a_training_error_says_its_words(error: PoseTrainError, words: Seq<char>)
    ensures
        error.says(words) <==> error is InvalidConfig && error->InvalidConfig_0@ == words,
{
}

} // verus!
