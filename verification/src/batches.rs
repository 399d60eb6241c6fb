//! The order in which a training epoch visits its samples, and the batches that it makes of them.

use rand::rngs::StdRng;
use rand::seq::SliceRandom;
use rand::SeedableRng;
use vstd::prelude::*;

verus! {

/// A random number generator of the `rand` crate. Nothing is said about what is inside.
#[verifier::external_type_specification]
#[verifier::external_body]
pub struct ExStdRng(StdRng);

/// The generator that `StdRng::seed_from_u64` makes of a seed.
pub uninterp spec fn seeded_rng(seed: u64) -> StdRng;

/// What `SliceRandom::shuffle` makes of a list and a generator.
pub uninterp spec fn shuffle_outcome(items: Seq<usize>, rng: StdRng) -> (Seq<usize>, StdRng);

/// Calls `StdRng::seed_from_u64`. The generator depends on the seed alone.
#[verifier::external_body]
fn seed_rng(seed: u64) -> (r: StdRng)
    ensures
        r == seeded_rng(seed),
{
    StdRng::seed_from_u64(seed)
}

/// Calls `SliceRandom::shuffle`. The new order and the generator's next state depend on the list
/// and the generator alone, and the list keeps its items. Which of the orders comes out is left
/// unsaid.
#[verifier::external_body]
fn shuffle_items(items: &mut Vec<usize>, rng: &mut StdRng)
    ensures
        final(items)@ == shuffle_outcome(old(items)@, *old(rng)).0,
        *final(rng) == shuffle_outcome(old(items)@, *old(rng)).1,
        final(items)@.to_multiset() == old(items)@.to_multiset(),
{
    items.shuffle(rng);
}

/// The positions from zero up to `n`.
pub open spec fn positions(n: nat) -> Seq<usize> {
    Seq::new(n, |i: int| i as usize)
}

/// The order of an epoch and the generator after it; before the first epoch nothing is shuffled.
pub open spec fn order_at(n: nat, seed: u64, shuffle: bool, epoch: nat) -> (Seq<usize>, StdRng)
    decreases epoch,
{
    if epoch == 0 {
        (positions(n), seeded_rng(seed))
    } else {
        let before = order_at(n, seed, shuffle, (epoch - 1) as nat);
        if shuffle {
            shuffle_outcome(before.0, before.1)
        } else {
            before
        }
    }
}

/// The order in which epochs visit samples. The same number of samples, seed and choice to
/// shuffle give the same orders.
pub struct EpochOrder {
    indices: Vec<usize>,
    rng: StdRng,
    shuffle: bool,
    seed: Ghost<u64>,
    epoch: Ghost<nat>,
}

impl EpochOrder {
    /// Number of samples.
    pub closed spec fn samples(self) -> nat {
        self.indices@.len()
    }

    /// The seed.
    pub closed spec fn seed(self) -> u64 {
        self.seed@
    }

    /// Whether epochs are shuffled.
    pub closed spec fn shuffles(self) -> bool {
        self.shuffle
    }

    /// Number of epochs that were begun.
    pub closed spec fn epoch(self) -> nat {
        self.epoch@
    }

    /// The samples in the order of this epoch.
    pub closed spec fn order(self) -> Seq<usize> {
        self.indices@
    }

    /// The order holds every sample once and is that of the epoch.
    pub closed spec fn wf(self) -> bool {
        &&& self.indices@.to_multiset() == positions(self.indices@.len()).to_multiset()
        &&& order_at(self.indices@.len(), self.seed@, self.shuffle, self.epoch@) == (
            self.indices@,
            self.rng,
        )
    }

    pub fn new(samples: usize, seed: u64, shuffle: bool) -> (r: EpochOrder)
        ensures
            r.wf(),
            r.samples() == samples,
            r.seed() == seed,
            r.shuffles() == shuffle,
            r.epoch() == 0,
            r.order() == positions(samples as nat),
            r.order().len() == samples,
            forall|i: int| 0 <= i < samples ==> #[trigger] r.order()[i] == i,
    {
        let mut indices: Vec<usize> = Vec::new();
        for i in 0..samples
            invariant
                indices@ =~= positions(i as nat),
        {
            indices.push(i);
        }
        let rng = seed_rng(seed);
        EpochOrder { indices, rng, shuffle, seed: Ghost(seed), epoch: Ghost(0) }
    }

    /// Begins the next epoch.
    pub fn next_epoch(&mut self)
        requires
            old(self).wf(),
        ensures
            final(self).wf(),
            final(self).samples() == old(self).samples(),
            final(self).seed() == old(self).seed(),
            final(self).shuffles() == old(self).shuffles(),
            final(self).epoch() == old(self).epoch() + 1,
            final(self).order() == order_at(
                old(self).samples(),
                old(self).seed(),
                old(self).shuffles(),
                old(self).epoch() + 1,
            ).0,
    {
        if self.shuffle {
            shuffle_items(&mut self.indices, &mut self.rng);
        }
        proof {
            self.indices@.to_multiset_ensures();
            old(self).indices@.to_multiset_ensures();
            assert(self.indices@.len() == old(self).indices@.len());
        }
        self.epoch = Ghost((self.epoch@ + 1) as nat);
    }

    /// Number of samples.
    pub fn len(&self) -> (r: usize)
        ensures
            r == self.samples(),
    {
        self.indices.len()
    }

    /// Batch `k` of this epoch.
    pub fn batch(&self, batch_size: usize, k: usize) -> (r: Vec<usize>)
        requires
            self.wf(),
            batch_size > 0,
            k < batch_count(self.samples(), batch_size as nat),
        ensures
            r@ == batch_of(self.order(), batch_size as nat, k as nat),
            0 < r@.len() <= batch_size,
            r@.len() < batch_size ==> k * batch_size + r@.len() == self.samples(),
            k * batch_size + r@.len() <= self.samples(),
            forall|i: int|
                0 <= i < r@.len() ==> #[trigger] r@[i] == self.order()[k * batch_size + i],
            forall|i: int| 0 <= i < r@.len() ==> #[trigger] r@[i] < self.samples(),
    {
        let n: usize = self.indices.len();
        proof {
            lemma_batch_start(n as nat, batch_size as nat, k as nat);
        }
        let from: usize = k * batch_size;
        let to: usize = if n - from < batch_size { n } else { from + batch_size };
        let mut r: Vec<usize> = Vec::new();
        for i in from..to
            invariant
                to <= self.indices@.len(),
                r@ =~= self.indices@.subrange(from as int, i as int),
        {
            r.push(self.indices[i]);
        }
        proof {
            assert(r@ =~= batch_of(self.order(), batch_size as nat, k as nat));
            assert forall|i: int| 0 <= i < r@.len() implies #[trigger] r@[i] < self.samples() by {
                lemma_order_in_range(*self, from + i);
            }
        }
        r
    }
}

/// The samples of an order are samples.
proof fn lemma_order_in_range(order: EpochOrder, i: int)
    requires
        order.wf(),
        0 <= i < order.samples(),
    ensures
        order.order()[i] < order.samples(),
{
    let indices = order.indices@;
    let all = positions(indices.len());
    indices.to_multiset_ensures();
    all.to_multiset_ensures();
    assert(indices.to_multiset().count(indices[i]) > 0) by {
        assert(indices.contains(indices[i]));
    }
    assert(all.contains(indices[i]));
}

/// An epoch visits every sample once, whatever the shuffling does.
pub proof fn law_epoch_visits_every_sample_once(order: EpochOrder)
    requires
        order.wf(),
    ensures
        order.order().to_multiset() == positions(order.samples()).to_multiset(),
        order.order().len() == order.samples(),
{
}

/// Two runs with the same samples, seed and choice to shuffle visit the samples in the same order.
pub proof fn law_same_seed_same_order(a: EpochOrder, b: EpochOrder)
    requires
        a.wf(),
        b.wf(),
        a.samples() == b.samples(),
        a.seed() == b.seed(),
        a.shuffles() == b.shuffles(),
        a.epoch() == b.epoch(),
    ensures
        a.order() == b.order(),
{
}

/// Number of batches that `n` samples make: whole batches, and one more for what is left.
pub open spec fn batch_count(n: nat, batch_size: nat) -> nat {
    (n / batch_size + if n % batch_size > 0 {
        1nat
    } else {
        0nat
    }) as nat
}

/// Batch `k`.
pub open spec fn batch_of(items: Seq<usize>, batch_size: nat, k: nat) -> Seq<usize> {
    let from = (k * batch_size) as int;
    let to = from + batch_size;
    items.subrange(
        from,
        if to < items.len() {
            to
        } else {
            items.len() as int
        },
    )
}

/// Number of batches that `n` samples make.
pub fn count_batches(n: usize, batch_size: usize) -> (r: usize)
    requires
        batch_size > 0,
    ensures
        r == batch_count(n as nat, batch_size as nat),
        (r - 1) * batch_size < n <= r * batch_size || (n == 0 && r == 0),
{
    proof {
        vstd::arithmetic::div_mod::lemma_fundamental_div_mod(n as int, batch_size as int);
        let q = n as int / batch_size as int;
        let m = n as int % batch_size as int;
        assert(m > 0 ==> q * batch_size < n <= (q + 1) * batch_size) by (nonlinear_arith)
            requires
                n == batch_size * q + m,
                0 <= m < batch_size,
        ;
        assert(m == 0 && n > 0 ==> (q - 1) * batch_size < n <= q * batch_size) by (nonlinear_arith)
            requires
                n == batch_size * q + m,
                batch_size > 0,
        ;
        assert(m == 0 && n == 0 ==> q == 0) by (nonlinear_arith)
            requires
                n == batch_size * q + m,
                batch_size > 0,
        ;
    }
    let whole: usize = n / batch_size;
    let rest: usize = n % batch_size;
    if rest > 0 {
        proof {
            vstd::arithmetic::div_mod::lemma_fundamental_div_mod(n as int, batch_size as int);
            assert(whole < n) by (nonlinear_arith)
                requires
                    n == batch_size * whole + rest,
                    rest > 0,
                    batch_size > 0,
            ;
        }
        whole + 1
    } else {
        whole
    }
}

/// A batch starts inside the samples.
pub proof fn lemma_batch_start(n: nat, batch_size: nat, k: nat)
    requires
        batch_size > 0,
        k < batch_count(n, batch_size),
    ensures
        k * batch_size < n,
{
    vstd::arithmetic::div_mod::lemma_fundamental_div_mod(n as int, batch_size as int);
    let q = n / batch_size;
    let r = n % batch_size;
    assert(k * batch_size < n) by (nonlinear_arith)
        requires
            n == batch_size * q + r,
            r < batch_size,
            batch_size > 0,
            k < q || (k == q && r > 0),
    ;
}

/// The first `k` batches one after the other.
pub open spec fn batches_joined(items: Seq<usize>, batch_size: nat, k: nat) -> Seq<usize>
    decreases k,
{
    if k == 0 {
        Seq::empty()
    } else {
        batches_joined(items, batch_size, (k - 1) as nat) + batch_of(
            items,
            batch_size,
            (k - 1) as nat,
        )
    }
}

/// The batches of an epoch are its order cut into pieces: nothing is left out, and nothing comes
/// twice.
pub proof fn law_batches_make_up_epoch(items: Seq<usize>, batch_size: nat)
    requires
        batch_size > 0,
    ensures
        batches_joined(items, batch_size, batch_count(items.len(), batch_size)) == items,
{
    let n = items.len();
    let count = batch_count(n, batch_size);
    vstd::arithmetic::div_mod::lemma_fundamental_div_mod(n as int, batch_size as int);
    let q = n / batch_size;
    let r = n % batch_size;
    lemma_batches_prefix(items, batch_size, count);
    assert(count * batch_size >= n) by (nonlinear_arith)
        requires
            n == batch_size * q + r,
            r < batch_size,
            count == q + 1 || (count == q && r == 0),
    ;
    assert(items.take(n as int) =~= items);
}

/// The first batches are the first samples.
proof fn lemma_batches_prefix(items: Seq<usize>, batch_size: nat, k: nat)
    requires
        batch_size > 0,
        k <= batch_count(items.len(), batch_size),
    ensures
        batches_joined(items, batch_size, k) == items.take(
            if k * batch_size < items.len() {
                (k * batch_size) as int
            } else {
                items.len() as int
            },
        ),
    decreases k,
{
    if k == 0 {
        assert(items.take(0) =~= Seq::<usize>::empty());
    } else {
        let j = (k - 1) as nat;
        lemma_batches_prefix(items, batch_size, j);
        lemma_batch_start(items.len(), batch_size, j);
        assert(k * batch_size == j * batch_size + batch_size) by (nonlinear_arith)
            requires
                k == j + 1,
        ;
        let from = (j * batch_size) as int;
        let to = if from + batch_size < items.len() {
            from + batch_size
        } else {
            items.len() as int
        };
        assert(items.take(from) + items.subrange(from, to) =~= items.take(to));
    }
}

/// No batch is larger than the batch size, and none is empty.
pub proof fn law_batch_sizes(items: Seq<usize>, batch_size: nat, k: nat)
    requires
        batch_size > 0,
        k < batch_count(items.len(), batch_size),
    ensures
        0 < batch_of(items, batch_size, k).len() <= batch_size,
        k + 1 < batch_count(items.len(), batch_size) ==> batch_of(items, batch_size, k).len()
            == batch_size,
{
    lemma_batch_start(items.len(), batch_size, k);
    if k + 1 < batch_count(items.len(), batch_size) {
        lemma_batch_start(items.len(), batch_size, k + 1);
        assert((k + 1) * batch_size == k * batch_size + batch_size) by (nonlinear_arith);
    }
}

/// Before the first epoch the samples stand in their own order. A run that shuffles shuffles the
/// order of the epoch before, with the generator as that epoch left it; any other run keeps it.
pub proof fn law_orders_follow_each_other(n: nat, seed: u64, epoch: nat)
    requires
        n <= usize::MAX,
    ensures
        order_at(n, seed, true, 0).1 == seeded_rng(seed),
        order_at(n, seed, true, 0).0.len() == n,
        forall|i: int| 0 <= i < n ==> #[trigger] order_at(n, seed, true, 0).0[i] == i,
        order_at(n, seed, true, (epoch + 1) as nat) == shuffle_outcome(
            order_at(n, seed, true, epoch).0,
            order_at(n, seed, true, epoch).1,
        ),
        order_at(n, seed, false, epoch).0.len() == n,
        forall|i: int| 0 <= i < n ==> #[trigger] order_at(n, seed, false, epoch).0[i] == i,
    decreases epoch,
{
    if epoch > 0 {
        law_orders_follow_each_other(n, seed, (epoch - 1) as nat);
    }
}

} // verus!
