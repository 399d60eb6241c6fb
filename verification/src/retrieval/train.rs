//! Contrastive training of the retrieval model: its settings and its batches.

use vstd::prelude::*;

use crate::error::{invalid, RetrievalError};
use crate::floats::Double;
use crate::retrieval::model::{
    ensure_feature_dim, wrong_dim, RetrievalModelConfig, DEFAULT_RETRIEVAL_EMBEDDING_DIM,
    DEFAULT_RETRIEVAL_HIDDEN_DIM, RETRIEVAL_FEATURE_DIM,
};
use crate::text::{decimal, decimal_text};

verus! {

/// The bits of the usual learning rate, 0.001.
pub const DEFAULT_LEARNING_RATE: u64 = 0x3f50_624d_d2f1_a9fc;

/// The bits of the usual temperature, 0.07.
pub const DEFAULT_TEMPERATURE: u64 = 0x3fb1_eb85_1eb8_51ec;

/// Settings of a training run.
#[derive(Debug)]
pub struct RetrievalTrainingConfig {
    pub model: RetrievalModelConfig,
    pub epochs: usize,
    pub batch_size: usize,
    pub learning_rate: Double,
    pub temperature: Double,
    pub shuffle: bool,
    pub seed: u64,
    pub max_pairs: Option<usize>,
    pub checkpoint_dir: String,
    pub log_every: usize,
    pub save_every_epoch: bool,
}

impl RetrievalTrainingConfig {
    pub fn default_with_checkpoint_dir(checkpoint_dir: &str) -> (r: RetrievalTrainingConfig)
        ensures
            r.model.input_dim == RETRIEVAL_FEATURE_DIM,
            r.model.hidden_dim == DEFAULT_RETRIEVAL_HIDDEN_DIM,
            r.model.embedding_dim == DEFAULT_RETRIEVAL_EMBEDDING_DIM,
            r.model.input_dim == 111,
            r.model.hidden_dim == 128,
            r.model.embedding_dim == 64,
            r.learning_rate.bits == 0x3f50_624d_d2f1_a9fc,
            r.temperature.bits == 0x3fb1_eb85_1eb8_51ec,
            r.epochs == 20,
            r.batch_size == 32,
            r.learning_rate == (Double { bits: DEFAULT_LEARNING_RATE }),
            r.temperature == (Double { bits: DEFAULT_TEMPERATURE }),
            r.shuffle,
            r.seed == 42,
            r.max_pairs is None,
            r.checkpoint_dir@ == checkpoint_dir@,
            r.log_every == 20,
            !r.save_every_epoch,
    {
        RetrievalTrainingConfig {
            model: RetrievalModelConfig::default(),
            epochs: 20,
            batch_size: 32,
            learning_rate: Double { bits: DEFAULT_LEARNING_RATE },
            temperature: Double { bits: DEFAULT_TEMPERATURE },
            shuffle: true,
            seed: 42,
            max_pairs: None,
            checkpoint_dir: checkpoint_dir.to_owned(),
            log_every: 20,
            save_every_epoch: false,
        }
    }

    /// The words for the first setting that makes no sense.
    pub open spec fn fault(self) -> Option<Seq<char>> {
        if self.epochs == 0 {
            Some("epochs must be greater than zero"@)
        } else if self.batch_size == 0 {
            Some("batch_size must be greater than zero"@)
        } else if !self.temperature.positive_finite() {
            Some("temperature must be a finite positive number"@)
        } else {
            None
        }
    }

    /// Checks the settings.
    pub fn validate(&self) -> (r: Result<(), RetrievalError>)
        ensures
            match self.fault() {
                Some(words) => r is Err && r->Err_0.says(words),
                None => r is Ok,
            },
            r is Ok == (self.epochs > 0 && self.batch_size > 0 && self.temperature.finite()
                && self.temperature.rank() > 0),
            self.epochs == 0 ==> r is Err && r->Err_0.says("epochs must be greater than zero"@),
            self.epochs > 0 && self.batch_size == 0 ==> r is Err && r->Err_0.says(
                "batch_size must be greater than zero"@,
            ),
            self.epochs > 0 && self.batch_size > 0 && r is Err ==> r->Err_0.says(
                "temperature must be a finite positive number"@,
            ),
    {
        if self.epochs == 0 {
            return invalid("epochs must be greater than zero");
        }
        if self.batch_size == 0 {
            return invalid("batch_size must be greater than zero");
        }
        if !self.temperature.is_positive_finite() {
            return invalid("temperature must be a finite positive number");
        }
        Ok(())
    }
}

/// Checks that there are pairs to contrast.
pub fn ensure_contrast(pairs: usize) -> (r: Result<(), RetrievalError>)
    ensures
        r is Ok == (pairs >= 2),
        r is Err ==> r->Err_0.says("contrastive retrieval training requires at least two pairs"@),
{
    if pairs < 2 {
        return invalid("contrastive retrieval training requires at least two pairs");
    }
    Ok(())
}

/// The features of a pose and of its glyph.
#[derive(Debug)]
pub struct FeaturePair<T> {
    pub pose: Vec<T>,
    pub glyph: Vec<T>,
}

/// A batch of pairs: the features row by row, and for each pose and each glyph whether they belong
/// together.
#[derive(Debug)]
pub struct RetrievalBatch<T> {
    pub rows: usize,
    pub pose: Vec<T>,
    pub glyph: Vec<T>,
    pub labels: Vec<bool>,
}

/// The pose features of the pairs at `indices`, one after the other.
pub open spec fn pose_rows<T>(pairs: Seq<FeaturePair<T>>, indices: Seq<usize>) -> Seq<T>
    decreases indices.len(),
{
    if indices.len() == 0 {
        Seq::empty()
    } else {
        pose_rows(pairs, indices.drop_last()) + pairs[indices.last() as int].pose@
    }
}

/// The glyph features of the pairs at `indices`, one after the other.
pub open spec fn glyph_rows<T>(pairs: Seq<FeaturePair<T>>, indices: Seq<usize>) -> Seq<T>
    decreases indices.len(),
{
    if indices.len() == 0 {
        Seq::empty()
    } else {
        glyph_rows(pairs, indices.drop_last()) + pairs[indices.last() as int].glyph@
    }
}

/// Whether a pose and a glyph of a batch belong together: those of the same pair.
pub open spec fn identity_labels(rows: nat) -> Seq<bool> {
    Seq::new(rows * rows, |i: int| i / rows as int == i % rows as int)
}

/// The words for what is wrong with the pair at an index: it is missing, or its features have the
/// wrong length.
pub open spec fn pair_fault<T>(pairs: Seq<FeaturePair<T>>, index: usize, input_dim: usize) -> Option<
    Seq<char>,
> {
    if index >= pairs.len() {
        Some("feature pair index "@ + decimal(index as nat) + " out of range"@)
    } else if pairs[index as int].pose@.len() != input_dim {
        Some(wrong_dim(pairs[index as int].pose@.len(), input_dim as nat))
    } else if pairs[index as int].glyph@.len() != input_dim {
        Some(wrong_dim(pairs[index as int].glyph@.len(), input_dim as nat))
    } else {
        None
    }
}

/// Whether all pairs at `indices` can go into a batch.
pub open spec fn pairs_fit<T>(pairs: Seq<FeaturePair<T>>, indices: Seq<usize>, input_dim: usize) -> bool {
    forall|r: int| 0 <= r < indices.len() ==> pair_fault(pairs, #[trigger] indices[r], input_dim) is None
}

/// Appends values to a list.
fn append_values<T: Copy>(list: &mut Vec<T>, values: &Vec<T>)
    ensures
        final(list)@ == old(list)@ + values@,
{
    let n: usize = values.len();
    for i in 0..n
        invariant
            n == values@.len(),
            list@ =~= old(list)@ + values@.take(i as int),
    {
        list.push(values[i]);
    }
    assert(values@.take(n as int) =~= values@);
}

/// For each pose and each glyph of a batch, whether they belong together.
pub fn batch_labels(rows: usize) -> (r: Vec<bool>)
    requires
        rows * rows <= usize::MAX,
    ensures
        r@ == identity_labels(rows as nat),
{
    let total: usize = rows * rows;
    let mut r: Vec<bool> = Vec::new();
    for i in 0..total
        invariant
            total == rows * rows,
            r@.len() == i,
            forall|j: int| 0 <= j < i ==> #[trigger] r@[j] == (j / rows as int == j % rows as int),
    {
        assert(rows > 0) by (nonlinear_arith)
            requires
                i < rows * rows,
                0 <= i,
                0 <= rows,
        ;
        r.push(i / rows == i % rows);
    }
    assert(r@ =~= identity_labels(rows as nat));
    r
}

/// Makes the batch of the pairs at `indices`.
pub fn retrieval_batch<T: Copy>(
    pairs: &Vec<FeaturePair<T>>,
    indices: &Vec<usize>,
    input_dim: usize,
) -> (r: Result<RetrievalBatch<T>, RetrievalError>)
    requires
        indices@.len() * indices@.len() <= usize::MAX,
    ensures
        r is Ok == (indices@.len() > 0 && pairs_fit(pairs@, indices@, input_dim)),
        r is Ok == (indices@.len() > 0 && forall|k: int|
            0 <= k < indices@.len() ==> {
                &&& (#[trigger] indices@[k]) < pairs@.len()
                &&& pairs@[indices@[k] as int].pose@.len() == input_dim
                &&& pairs@[indices@[k] as int].glyph@.len() == input_dim
            }),
        r is Ok ==> {
            let batch = r->Ok_0;
            &&& batch.rows == indices@.len()
            &&& batch.pose@ == pose_rows(pairs@, indices@)
            &&& batch.glyph@ == glyph_rows(pairs@, indices@)
            &&& batch.labels@ == identity_labels(indices@.len())
        },
        indices@.len() == 0 ==> r is Err && r->Err_0.says(
            "retrieval batch requires at least one pair"@,
        ),
        indices@.len() > 0 && r is Err ==> exists|k: int|
            0 <= k < indices@.len() && pairs_fit(pairs@, indices@.take(k), input_dim) && pair_fault(
                pairs@,
                #[trigger] indices@[k],
                input_dim,
            ) is Some && r->Err_0.says(pair_fault(pairs@, indices@[k], input_dim)->0),
{
    let rows: usize = indices.len();
    if rows == 0 {
        return invalid("retrieval batch requires at least one pair");
    }
    let mut pose: Vec<T> = Vec::new();
    let mut glyph: Vec<T> = Vec::new();
    assert(indices@.take(0) =~= Seq::<usize>::empty());
    for k in 0..rows
        invariant
            rows == indices@.len(),
            pose@ == pose_rows(pairs@, indices@.take(k as int)),
            glyph@ == glyph_rows(pairs@, indices@.take(k as int)),
            forall|j: int|
                0 <= j < k ==> pair_fault(pairs@, #[trigger] indices@[j], input_dim) is None,
    {
        let index: usize = indices[k];
        assert(pairs_fit(pairs@, indices@.take(k as int), input_dim)) by {
            assert forall|j: int| 0 <= j < k implies pair_fault(
                pairs@,
                #[trigger] indices@.take(k as int)[j],
                input_dim,
            ) is None by {
                assert(indices@.take(k as int)[j] == indices@[j]);
            }
        }
        if index >= pairs.len() {
            let mut words = "feature pair index ".to_owned();
            words.append(decimal_text(index).as_str());
            words.append(" out of range");
            assert(pair_fault(pairs@, indices@[k as int], input_dim) is Some);
            return invalid(words.as_str());
        }
        match ensure_feature_dim(pairs[index].pose.len(), input_dim) {
            Err(error) => {
                assert(pair_fault(pairs@, indices@[k as int], input_dim) is Some);
                return Err(error);
            },
            Ok(()) => {},
        }
        match ensure_feature_dim(pairs[index].glyph.len(), input_dim) {
            Err(error) => {
                assert(pair_fault(pairs@, indices@[k as int], input_dim) is Some);
                return Err(error);
            },
            Ok(()) => {},
        }
        append_values(&mut pose, &pairs[index].pose);
        append_values(&mut glyph, &pairs[index].glyph);
        assert(indices@.take(k + 1).drop_last() =~= indices@.take(k as int));
    }
    assert(indices@.take(rows as int) =~= indices@);
    assert forall|k: int| 0 <= k < indices@.len() implies {
        &&& (#[trigger] indices@[k]) < pairs@.len()
        &&& pairs@[indices@[k] as int].pose@.len() == input_dim
        &&& pairs@[indices@[k] as int].glyph@.len() == input_dim
    } by {
        assert(pair_fault(pairs@, indices@[k], input_dim) is None);
    }
    let labels = batch_labels(rows);
    Ok(RetrievalBatch { rows, pose, glyph, labels })
}

/// The features of row `r` of a batch are those of its pair.
pub proof fn law_batch_rows_keep_features<T>(
    pairs: Seq<FeaturePair<T>>,
    indices: Seq<usize>,
    input_dim: usize,
    r: int,
    c: int,
)
    requires
        pairs_fit(pairs, indices, input_dim),
        0 <= r < indices.len(),
        0 <= c < input_dim,
    ensures
        pose_rows(pairs, indices).len() == indices.len() * input_dim,
        glyph_rows(pairs, indices).len() == indices.len() * input_dim,
        pose_rows(pairs, indices)[r * input_dim + c] == pairs[indices[r] as int].pose@[c],
        glyph_rows(pairs, indices)[r * input_dim + c] == pairs[indices[r] as int].glyph@[c],
    decreases indices.len(),
{
    let rest = indices.drop_last();
    let n = indices.len() as int;
    assert(pairs_fit(pairs, rest, input_dim)) by {
        assert forall|j: int| 0 <= j < rest.len() implies pair_fault(
            pairs,
            #[trigger] rest[j],
            input_dim,
        ) is None by {
            assert(rest[j] == indices[j]);
        }
    }
    assert(pair_fault(pairs, indices[n - 1], input_dim) is None);
    lemma_rows_len(pairs, rest, input_dim);
    assert(n * input_dim == (n - 1) * input_dim + input_dim) by (nonlinear_arith);
    if r < n - 1 {
        law_batch_rows_keep_features(pairs, rest, input_dim, r, c);
        assert(0 <= r * input_dim + c < (n - 1) * input_dim) by (nonlinear_arith)
            requires
                0 <= r < n - 1,
                0 <= c < input_dim,
        ;
    }
}

/// All rows together have as many values as they should.
proof fn lemma_rows_len<T>(pairs: Seq<FeaturePair<T>>, indices: Seq<usize>, input_dim: usize)
    requires
        pairs_fit(pairs, indices, input_dim),
    ensures
        pose_rows(pairs, indices).len() == indices.len() * input_dim,
        glyph_rows(pairs, indices).len() == indices.len() * input_dim,
    decreases indices.len(),
{
    if indices.len() > 0 {
        let rest = indices.drop_last();
        let n = indices.len() as int;
        assert(pairs_fit(pairs, rest, input_dim)) by {
            assert forall|j: int| 0 <= j < rest.len() implies pair_fault(
                pairs,
                #[trigger] rest[j],
                input_dim,
            ) is None by {
                assert(rest[j] == indices[j]);
            }
        }
        assert(pair_fault(pairs, indices[n - 1], input_dim) is None);
        lemma_rows_len(pairs, rest, input_dim);
        assert(n * input_dim == (n - 1) * input_dim + input_dim) by (nonlinear_arith);
    } else {
        assert(0 * input_dim == 0) by (nonlinear_arith);
    }
}

/// Every pose of a batch has one glyph that belongs to it, and every glyph one pose.
pub proof fn law_labels_pair_rows(rows: nat, r: int, c: int)
    requires
        0 <= r < rows,
        0 <= c < rows,
    ensures
        0 <= r * rows + c < rows * rows,
        identity_labels(rows)[r * rows + c] == (r == c),
{
    assert(0 <= r * rows + c < rows * rows) by (nonlinear_arith)
        requires
            0 <= r < rows,
            0 <= c < rows,
    ;
    vstd::arithmetic::div_mod::lemma_fundamental_div_mod_converse(
        r * rows + c,
        rows as int,
        r,
        c,
    );
}

/// What is wrong with a pair: that there is none, or else the length of its pose features, or else
/// that of its glyph features.
pub proof fn law_faults_of_a_pair<T>(pairs: Seq<FeaturePair<T>>, index: usize, input_dim: usize)
    ensures
        ({
            let fault = pair_fault(pairs, index, input_dim);
            let pose = pairs[index as int].pose@.len();
            let glyph = pairs[index as int].glyph@.len();
            let expected = "feature dimension mismatch: expected "@ + decimal(input_dim as nat)
                + ", got "@;
            &&& index >= pairs.len() ==> fault == Some(
                "feature pair index "@ + decimal(index as nat) + " out of range"@,
            )
            &&& index < pairs.len() && pose != input_dim ==> fault == Some(expected + decimal(pose))
            &&& index < pairs.len() && pose == input_dim && glyph != input_dim ==> fault == Some(
                expected + decimal(glyph),
            )
            &&& index < pairs.len() && pose == input_dim && glyph == input_dim ==> fault is None
        }),
{
}

} // verus!
