//! The course of a training run: epochs, batches and checkpoints.

use vstd::prelude::*;
use vstd::string::*;

use crate::batches::{
    batch_count, batch_of, batches_joined, count_batches, law_batches_make_up_epoch,
    law_epoch_visits_every_sample_once, lemma_batch_start, order_at, EpochOrder,
};
use crate::floats::Double;
use crate::text::{padded, padded_text};

verus! {

/// What a training run does next.
#[derive(Debug, PartialEq, Eq)]
pub enum TrainingStep {
    /// Train on a batch of samples.
    Train { epoch: usize, indices: Vec<usize> },
    /// All batches of an epoch were trained on.
    FinishEpoch { epoch: usize, batches: usize, samples: usize },
    /// All epochs are over.
    Done,
}

/// A training run: every epoch goes through the batches of its own order.
pub struct TrainingRun {
    order: EpochOrder,
    epochs: usize,
    batch_size: usize,
    log_every: usize,
    epoch: usize,
    finished: bool,
    batches: usize,
    samples: usize,
}

/// Number of samples in the first `k` batches.
pub open spec fn samples_in(n: nat, batch_size: nat, k: nat) -> nat {
    if k * batch_size < n {
        k * batch_size
    } else {
        n
    }
}

impl TrainingRun {
    /// Number of samples of the data.
    pub closed spec fn size(self) -> nat {
        self.order.samples()
    }

    /// The order of samples in the current epoch.
    pub closed spec fn order(self) -> Seq<usize> {
        self.order.order()
    }

    /// The seed of the run.
    pub closed spec fn seed(self) -> u64 {
        self.order.seed()
    }

    /// Whether epochs are shuffled.
    pub closed spec fn shuffles(self) -> bool {
        self.order.shuffles()
    }

    pub closed spec fn epoch_limit(self) -> nat {
        self.epochs as nat
    }

    pub closed spec fn step_size(self) -> nat {
        self.batch_size as nat
    }

    pub closed spec fn log_interval(self) -> nat {
        self.log_every as nat
    }

    /// The current epoch, from one on; beyond the limit the run is over.
    pub closed spec fn at_epoch(self) -> nat {
        if self.finished {
            self.epochs as nat + 1
        } else {
            self.epoch as nat
        }
    }

    /// Number of batches of the current epoch that were handed out.
    pub closed spec fn at_batch(self) -> nat {
        self.batches as nat
    }

    /// Number of samples of the current epoch that were handed out.
    pub closed spec fn seen(self) -> nat {
        self.samples as nat
    }

    /// What all steps keep, apart from the epoch and the batch.
    pub open spec fn same_run(self, other: TrainingRun) -> bool {
        &&& self.size() == other.size()
        &&& self.seed() == other.seed()
        &&& self.shuffles() == other.shuffles()
        &&& self.epoch_limit() == other.epoch_limit()
        &&& self.step_size() == other.step_size()
        &&& self.log_interval() == other.log_interval()
    }

    /// The order is that of the current epoch, and what was handed out are its first batches.
    pub closed spec fn wf(self) -> bool {
        &&& self.order.wf()
        &&& self.batch_size > 0
        &&& !self.finished ==> {
            &&& 0 < self.epoch <= self.epochs
            &&& self.order.epoch() == self.epoch
            &&& self.order.order() == order_at(
                self.order.samples(),
                self.order.seed(),
                self.order.shuffles(),
                self.epoch as nat,
            ).0
            &&& self.batches <= batch_count(self.order.samples(), self.batch_size as nat)
            &&& self.samples == samples_in(
                self.order.samples(),
                self.batch_size as nat,
                self.batches as nat,
            )
        }
        &&& self.finished ==> self.batches == 0 && self.samples == 0
    }

    /// A run is in one of its epochs or past the last, in the order that its seed gives, and has
    /// handed out the first batches of the epoch.
    pub proof fn law_run_follows_its_order(self)
        requires
            self.wf(),
        ensures
            self.step_size() > 0,
            0 < self.at_epoch() <= self.epoch_limit() + 1,
            self.at_epoch() <= self.epoch_limit() ==> {
                &&& self.order() == order_at(
                    self.size(),
                    self.seed(),
                    self.shuffles(),
                    self.at_epoch(),
                ).0
                &&& self.at_batch() <= batch_count(self.size(), self.step_size())
                &&& self.seen() == samples_in(self.size(), self.step_size(), self.at_batch())
            },
    {
    }

    pub fn new(
        samples: usize,
        epochs: usize,
        batch_size: usize,
        shuffle: bool,
        seed: u64,
        log_every: usize,
    ) -> (r: TrainingRun)
        requires
            batch_size > 0,
        ensures
            r.wf(),
            r.size() == samples,
            r.seed() == seed,
            r.shuffles() == shuffle,
            r.epoch_limit() == epochs,
            r.step_size() == batch_size,
            r.log_interval() == log_every,
            r.at_epoch() == 1,
            r.at_batch() == 0,
    {
        let mut order = EpochOrder::new(samples, seed, shuffle);
        order.next_epoch();
        proof {
            assert(samples_in(samples as nat, batch_size as nat, 0) == 0);
        }
        TrainingRun {
            order,
            epochs,
            batch_size,
            log_every,
            epoch: 1,
            finished: epochs == 0,
            batches: 0,
            samples: 0,
        }
    }

    /// Takes the next step.
    pub fn next(&mut self) -> (r: TrainingStep)
        requires
            old(self).wf(),
        ensures
            final(self).wf(),
            final(self).same_run(*old(self)),
            ({
                let e = old(self).at_epoch();
                let k = old(self).at_batch();
                if e > old(self).epoch_limit() {
                    &&& r == TrainingStep::Done
                    &&& final(self).at_epoch() == e
                    &&& final(self).at_batch() == k
                } else if k < batch_count(old(self).size(), old(self).step_size()) {
                    &&& r is Train
                    &&& r->Train_epoch == e
                    &&& r->indices@ == batch_of(old(self).order(), old(self).step_size(), k)
                    &&& 0 < r->indices@.len() <= old(self).step_size()
                    &&& final(self).seen() == old(self).seen() + r->indices@.len()
                    &&& old(self).seen() == k * old(self).step_size()
                    &&& forall|i: int|
                        0 <= i < r->indices@.len() ==> #[trigger] r->indices@[i]
                            == old(self).order()[old(self).seen() + i]
                    &&& final(self).at_epoch() == e
                    &&& final(self).at_batch() == k + 1
                    &&& final(self).order() == old(self).order()
                } else {
                    &&& r is FinishEpoch
                    &&& r->FinishEpoch_epoch == e
                    &&& r->batches == k
                    &&& r->samples == old(self).size()
                    &&& final(self).at_epoch() == e + 1
                    &&& final(self).at_batch() == 0
                }
            }),
    {
        if self.finished {
            return TrainingStep::Done;
        }
        let n: usize = self.order.len();
        let count = count_batches(n, self.batch_size);
        let epoch: usize = self.epoch;
        if self.batches < count {
            let k: usize = self.batches;
            let indices = self.order.batch(self.batch_size, k);
            proof {
                law_epoch_visits_every_sample_once(self.order);
                lemma_samples_step(n as nat, self.batch_size as nat, k as nat);
                assert(indices@.len() == samples_in(n as nat, self.batch_size as nat, (k + 1) as nat)
                    - samples_in(n as nat, self.batch_size as nat, k as nat));
            }
            self.batches = k + 1;
            self.samples = self.samples + indices.len();
            return TrainingStep::Train { epoch, indices };
        }
        proof {
            lemma_all_samples(n as nat, self.batch_size as nat);
        }
        let step = TrainingStep::FinishEpoch { epoch, batches: self.batches, samples: self.samples };
        self.batches = 0;
        self.samples = 0;
        if epoch < self.epochs {
            self.epoch = epoch + 1;
            self.order.next_epoch();
        } else {
            self.finished = true;
        }
        proof {
            assert(samples_in(n as nat, self.batch_size as nat, 0) == 0);
        }
        step
    }

    /// Whether progress is reported after the last batch.
    pub fn reports_batch(&self) -> (r: bool)
        ensures
            r == (self.log_interval() > 0 && self.at_batch() % self.log_interval() == 0),
    {
        self.log_every > 0 && self.batches % self.log_every == 0
    }

    /// Number of batches of this epoch that were handed out.
    pub fn train_batches(&self) -> (r: usize)
        ensures
            r == self.at_batch(),
    {
        self.batches
    }

    /// Number of samples of this epoch that were handed out.
    pub fn train_samples(&self) -> (r: usize)
        ensures
            r == self.seen(),
    {
        self.samples
    }
}

/// A batch adds its samples.
proof fn lemma_samples_step(n: nat, batch_size: nat, k: nat)
    requires
        batch_size > 0,
        k < batch_count(n, batch_size),
    ensures
        samples_in(n, batch_size, k) == k * batch_size,
        samples_in(n, batch_size, (k + 1) as nat) == if k * batch_size + batch_size < n {
            k * batch_size + batch_size
        } else {
            n
        },
        k * batch_size < n,
{
    lemma_batch_start(n, batch_size, k);
    assert((k + 1) * batch_size == k * batch_size + batch_size) by (nonlinear_arith);
}

/// All batches together hold all samples.
proof fn lemma_all_samples(n: nat, batch_size: nat)
    requires
        batch_size > 0,
    ensures
        samples_in(n, batch_size, batch_count(n, batch_size)) == n,
{
    let count = batch_count(n, batch_size);
    vstd::arithmetic::div_mod::lemma_fundamental_div_mod(n as int, batch_size as int);
    let q = n / batch_size;
    let r = n % batch_size;
    assert(count * batch_size >= n) by (nonlinear_arith)
        requires
            n == batch_size * q + r,
            r < batch_size,
            count == q + 1 || (count == q && r == 0),
    ;
}

/// The batches of an epoch are the epoch's order, so every sample is trained on once per epoch.
pub proof fn law_epoch_trains_on_its_order(run: TrainingRun)
    requires
        run.wf(),
    ensures
        batches_joined(run.order(), run.step_size(), batch_count(run.order().len(), run.step_size()))
            == run.order(),
{
    law_batches_make_up_epoch(run.order(), run.step_size());
}

/// The name of the checkpoint of an epoch: its number with at least three digits.
pub open spec fn epoch_name(epoch: nat) -> Seq<char> {
    "epoch_"@ + padded(epoch, 3)
}

/// The names of the checkpoints after an epoch: its own where every epoch is kept, the last, and
/// the best where it is the best so far.
pub open spec fn checkpoint_names(epoch: nat, save_every_epoch: bool, is_best: bool) -> Seq<
    Seq<char>,
> {
    let own = if save_every_epoch {
        seq![epoch_name(epoch)]
    } else {
        Seq::empty()
    };
    let best = if is_best {
        seq!["best"@]
    } else {
        Seq::empty()
    };
    own + seq!["last"@] + best
}

/// The names of the checkpoints after an epoch, in the order in which they are written.
pub fn checkpoints_after(epoch: usize, save_every_epoch: bool, is_best: bool) -> (r: Vec<String>)
    ensures
        r@.map_values(|name: String| name@) == checkpoint_names(
            epoch as nat,
            save_every_epoch,
            is_best,
        ),
        r@.len() == 1 + (if save_every_epoch {
            1int
        } else {
            0
        }) + (if is_best {
            1int
        } else {
            0
        }),
        save_every_epoch ==> r@[0]@ == "epoch_"@ + padded(epoch as nat, 3) && r@[1]@ == "last"@,
        !save_every_epoch ==> r@[0]@ == "last"@,
        is_best ==> r@.last()@ == "best"@,
{
    let mut r: Vec<String> = Vec::new();
    if save_every_epoch {
        let mut name = "epoch_".to_owned();
        name.append(padded_text(epoch, 3).as_str());
        r.push(name);
    }
    r.push("last".to_owned());
    if is_best {
        r.push("best".to_owned());
    }
    assert(r@.map_values(|name: String| name@) =~= checkpoint_names(
        epoch as nat,
        save_every_epoch,
        is_best,
    ));
    r
}

/// The best validation loss so far, which a smaller one replaces.
#[derive(Clone, Copy, Debug, PartialEq, Eq, Structural)]
pub struct BestLoss {
    pub loss: Option<Double>,
}

/// The best loss after a list of losses; epochs without validation do not count.
pub open spec fn best_after(losses: Seq<Option<Double>>) -> Option<Double>
    decreases losses.len(),
{
    if losses.len() == 0 {
        None
    } else {
        let before = best_after(losses.drop_last());
        match losses.last() {
            None => before,
            Some(loss) => if before is None || loss.lt(before->0) {
                Some(loss)
            } else {
                before
            },
        }
    }
}

impl BestLoss {
    pub fn new() -> (r: BestLoss)
        ensures
            r.loss == best_after(Seq::empty()),
            r.loss is None,
    {
        BestLoss { loss: None }
    }

    /// Takes the loss of an epoch, and says whether it is the best so far.
    pub fn record(&mut self, val_loss: Option<Double>) -> (r: bool)
        ensures
            r == (val_loss is Some && (old(self).loss is None || val_loss->0.lt(old(self).loss->0))),
            final(self).loss == if r {
                val_loss
            } else {
                old(self).loss
            },
            forall|losses: Seq<Option<Double>>|
                old(self).loss == #[trigger] best_after(losses) ==> final(self).loss == best_after(
                    losses.push(val_loss),
                ),
    {
        let is_best: bool = match val_loss {
            Some(loss) => match self.loss {
                Some(best) => loss.less(best),
                None => true,
            },
            None => false,
        };
        if is_best {
            self.loss = val_loss;
        }
        proof {
            assert forall|losses: Seq<Option<Double>>|
                old(self).loss == #[trigger] best_after(losses) implies self.loss == best_after(
                losses.push(val_loss),
            ) by {
                assert(losses.push(val_loss).drop_last() =~= losses);
            }
        }
        is_best
    }
}

/// Where the best loss is a number, no loss is below it.
pub proof fn law_best_loss_is_lowest(losses: Seq<Option<Double>>, i: int)
    requires
        0 <= i < losses.len(),
        losses[i] is Some,
        best_after(losses) is Some,
        !best_after(losses)->0.nan(),
    ensures
        !losses[i]->0.lt(best_after(losses)->0),
    decreases losses.len(),
{
    let rest = losses.drop_last();
    if i < rest.len() {
        assert(rest[i] == losses[i]);
        lemma_best_exists(rest, i);
        law_best_loss_is_lowest(rest, i);
    }
}

/// Once there was a loss, there is a best one.
proof fn lemma_best_exists(losses: Seq<Option<Double>>, i: int)
    requires
        0 <= i < losses.len(),
        losses[i] is Some,
    ensures
        best_after(losses) is Some,
    decreases losses.len(),
{
    if i < losses.len() - 1 {
        assert(losses.drop_last()[i] == losses[i]);
        lemma_best_exists(losses.drop_last(), i);
    }
}

/// The best loss is one of the losses, or none where no epoch was validated.
pub proof fn law_best_loss_is_one_of_the_losses(losses: Seq<Option<Double>>)
    ensures
        best_after(losses) is Some ==> losses.contains(best_after(losses)),
        best_after(losses) is None ==> forall|i: int|
            0 <= i < losses.len() ==> #[trigger] losses[i] is None,
    decreases losses.len(),
{
    if losses.len() > 0 {
        let rest = losses.drop_last();
        law_best_loss_is_one_of_the_losses(rest);
        let best = best_after(losses);
        if best is Some {
            if rest.contains(best) {
                let i = choose|i: int| 0 <= i < rest.len() && rest[i] == best;
                assert(losses[i] == best);
            } else {
                assert(losses[losses.len() - 1] == best);
            }
        } else {
            assert forall|i: int| 0 <= i < losses.len() implies #[trigger] losses[i] is None by {
                if i < rest.len() {
                    assert(rest[i] == losses[i]);
                }
            }
        }
    }
}

} // verus!
