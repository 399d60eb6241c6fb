//! Pose samples: which annotations become samples, and how samples become batches.

use std::collections::HashMap;

use vstd::prelude::*;

use crate::floats::{Single, ONE, ZERO};
use crate::spinepose::{keypoints_in, match_spinepose_person, matched_points, Keypoint};
use crate::text::{decimal, decimal_text};

verus! {

broadcast use vstd::std_specs::hash::group_hash_axioms;

/// Why pose data cannot be used.
#[derive(Debug)]
pub enum PoseDataError {
    InvalidDataset(String),
}

impl PoseDataError {
    /// Whether the dataset is invalid in these words.
    pub open spec fn says(self, words: Seq<char>) -> bool {
        self->0@ == words
    }

    /// What went wrong.
    pub fn message(&self) -> (r: String)
        ensures
            r@ == "invalid dataset: "@ + self->0@,
    {
        match self {
            PoseDataError::InvalidDataset(text) => {
                let mut r = "invalid dataset: ".to_owned();
                r.append(text.as_str());
                r
            },
        }
    }
}

/// The error for an invalid dataset.
fn unusable<T>(words: &str) -> (r: Result<T, PoseDataError>)
    ensures
        r is Err,
        r->Err_0.says(words@),
        r->Err_0->0@ == words@,
{
    Err(PoseDataError::InvalidDataset(words.to_owned()))
}

/// How samples are cut out, normalised and turned into heatmaps.
#[derive(Clone, Copy, Debug, PartialEq, Eq, Structural)]
pub struct PoseDataConfig {
    pub input_height: usize,
    pub input_width: usize,
    pub heatmap_height: usize,
    pub heatmap_width: usize,
    pub num_joints: usize,
    pub sigma: Single,
    pub bbox_padding: Single,
    pub mean_red: Single,
    pub mean_green: Single,
    pub mean_blue: Single,
    pub std_red: Single,
    pub std_green: Single,
    pub std_blue: Single,
}

impl PoseDataConfig {
    /// The values that do not depend on the input size: a sigma of 2, a padding of 1.25, and the
    /// means 0.485, 0.456 and 0.406 and deviations 0.229, 0.224 and 0.225 of the colours.
    pub open spec fn has_usual_values(self) -> bool {
        &&& self.sigma.bits == 0x4000_0000
        &&& self.bbox_padding.bits == 0x3fa0_0000
        &&& self.mean_red.bits == 0x3ef8_51ec
        &&& self.mean_green.bits == 0x3ee9_78d5
        &&& self.mean_blue.bits == 0x3ecf_df3b
        &&& self.std_red.bits == 0x3e6a_7efa
        &&& self.std_green.bits == 0x3e65_6042
        &&& self.std_blue.bits == 0x3e66_6666
    }

    pub fn coco_256x192(num_joints: usize) -> (r: PoseDataConfig)
        ensures
            r.input_height == 256,
            r.input_width == 192,
            r.heatmap_height == 64,
            r.heatmap_width == 48,
            r.num_joints == num_joints,
            r.has_usual_values(),
            r.sigma.bits == 0x4000_0000,
            r.bbox_padding.bits == 0x3fa0_0000,
            r.mean_red.bits == 0x3ef8_51ec,
            r.mean_green.bits == 0x3ee9_78d5,
            r.mean_blue.bits == 0x3ecf_df3b,
            r.std_red.bits == 0x3e6a_7efa,
            r.std_green.bits == 0x3e65_6042,
            r.std_blue.bits == 0x3e66_6666,
    {
        PoseDataConfig {
            input_height: 256,
            input_width: 192,
            heatmap_height: 64,
            heatmap_width: 48,
            num_joints,
            sigma: Single { bits: 0x4000_0000 },
            bbox_padding: Single { bits: 0x3fa0_0000 },
            mean_red: Single { bits: 0x3ef8_51ec },
            mean_green: Single { bits: 0x3ee9_78d5 },
            mean_blue: Single { bits: 0x3ecf_df3b },
            std_red: Single { bits: 0x3e6a_7efa },
            std_green: Single { bits: 0x3e65_6042 },
            std_blue: Single { bits: 0x3e66_6666 },
        }
    }

    /// The configuration for an input size: heatmaps have a quarter of the resolution.
    pub fn from_input(input_height: usize, input_width: usize, num_joints: usize) -> (r: PoseDataConfig)
        ensures
            r.input_height == input_height,
            r.input_width == input_width,
            r.heatmap_height == input_height / 4,
            r.heatmap_width == input_width / 4,
            r.num_joints == num_joints,
            r.has_usual_values(),
            r.sigma.bits == 0x4000_0000,
            r.bbox_padding.bits == 0x3fa0_0000,
            r.mean_red.bits == 0x3ef8_51ec,
            r.mean_green.bits == 0x3ee9_78d5,
            r.mean_blue.bits == 0x3ecf_df3b,
            r.std_red.bits == 0x3e6a_7efa,
            r.std_green.bits == 0x3e65_6042,
            r.std_blue.bits == 0x3e66_6666,
    {
        PoseDataConfig {
            input_height,
            input_width,
            heatmap_height: input_height / 4,
            heatmap_width: input_width / 4,
            ..Self::coco_256x192(num_joints)
        }
    }
}

/// The box of an annotation.
#[derive(Clone, Copy, Debug, PartialEq, Eq, Structural)]
pub struct AnnotationBox {
    pub x: Single,
    pub y: Single,
    pub width: Single,
    pub height: Single,
}

/// A person in an image.
#[derive(Debug)]
pub struct PoseSample {
    pub image_path: String,
    pub image_width: u32,
    pub image_height: u32,
    pub bbox: AnnotationBox,
    pub keypoints: Vec<Keypoint>,
}

/// What a sample holds.
pub struct SampleView {
    pub image_path: Seq<char>,
    pub image_width: u32,
    pub image_height: u32,
    pub bbox: AnnotationBox,
    pub keypoints: Seq<Keypoint>,
}

impl View for PoseSample {
    type V = SampleView;

    open spec fn view(&self) -> SampleView {
        SampleView {
            image_path: self.image_path@,
            image_width: self.image_width,
            image_height: self.image_height,
            bbox: self.bbox,
            keypoints: self.keypoints@,
        }
    }
}

impl Clone for PoseSample {
    fn clone(&self) -> (r: PoseSample)
        ensures
            r@ == self@,
            r.image_path@ == self.image_path@,
            r.image_width == self.image_width,
            r.image_height == self.image_height,
            r.bbox == self.bbox,
            r.keypoints@ == self.keypoints@,
    {
        let keypoints = self.keypoints.clone();
        assert(keypoints@ =~= self.keypoints@);
        PoseSample {
            image_path: self.image_path.clone(),
            image_width: self.image_width,
            image_height: self.image_height,
            bbox: self.bbox,
            keypoints,
        }
    }
}

/// The views of a list of samples.
pub open spec fn sample_views(samples: Seq<PoseSample>) -> Seq<SampleView> {
    samples.map_values(|sample: PoseSample| sample@)
}

/// An image of an annotation file, with the path to it.
#[derive(Debug)]
pub struct CocoImage {
    pub id: u64,
    pub path: String,
    pub width: Option<u32>,
    pub height: Option<u32>,
}

/// A person in an annotation file.
#[derive(Debug)]
pub struct CocoAnnotation {
    pub image_id: u64,
    pub bbox: Vec<Single>,
    pub keypoints: Vec<Single>,
    pub num_keypoints: Option<u32>,
    pub iscrowd: Option<u32>,
}

/// What a person in an annotation file holds.
pub struct AnnotationView {
    pub image_id: u64,
    pub bbox: Seq<Single>,
    pub keypoints: Seq<Single>,
    pub num_keypoints: Option<u32>,
    pub iscrowd: Option<u32>,
}

impl View for CocoAnnotation {
    type V = AnnotationView;

    open spec fn view(&self) -> AnnotationView {
        AnnotationView {
            image_id: self.image_id,
            bbox: self.bbox@,
            keypoints: self.keypoints@,
            num_keypoints: self.num_keypoints,
            iscrowd: self.iscrowd,
        }
    }
}

/// The views of a list of annotations.
pub open spec fn annotation_views(annotations: Seq<CocoAnnotation>) -> Seq<AnnotationView> {
    annotations.map_values(|annotation: CocoAnnotation| annotation@)
}

/// Whether image `i` is the one for an id: the last with it.
pub open spec fn image_for(images: Seq<CocoImage>, id: u64, i: int) -> bool {
    &&& 0 <= i < images.len()
    &&& images[i].id == id
    &&& forall|j: int| i < j < images.len() ==> (#[trigger] images[j]).id != id
}

/// Whether there is an image for an id.
pub open spec fn has_image(images: Seq<CocoImage>, id: u64) -> bool {
    exists|i: int| 0 <= i < images.len() && (#[trigger] images[i]).id == id
}

/// Joint `k` of an annotation.
pub open spec fn joint_at(values: Seq<Single>, k: int) -> Keypoint {
    Keypoint { x: values[3 * k], y: values[3 * k + 1], confidence: values[3 * k + 2] }
}

/// The first joints of an annotation.
pub open spec fn joints_in(values: Seq<Single>, num_joints: nat) -> Seq<Keypoint> {
    Seq::new(num_joints, |k: int| joint_at(values, k))
}

/// Whether one of the first joints is labeled.
pub open spec fn any_labeled(values: Seq<Single>, num_joints: nat) -> bool {
    exists|k: int|
        0 <= k < num_joints && (Single { bits: ZERO }).lt(#[trigger] joint_at(values, k).confidence)
}

/// A number that counts as zero where it is missing.
pub open spec fn or_zero(n: Option<u32>) -> u32 {
    match n {
        Some(n) => n,
        None => 0,
    }
}

/// Whether an annotation becomes a sample: it is no crowd, has a box larger than a pixel and all
/// joints, counts labeled joints or has one, and there is an image for it.
pub open spec fn usable(annotation: AnnotationView, images: Seq<CocoImage>, num_joints: nat) -> bool {
    &&& or_zero(annotation.iscrowd) == 0
    &&& annotation.bbox.len() >= 4
    &&& annotation.keypoints.len() >= 3 * num_joints
    &&& or_zero(annotation.num_keypoints) != 0 || any_labeled(annotation.keypoints, num_joints)
    &&& has_image(images, annotation.image_id)
    &&& !annotation.bbox[2].le(Single { bits: ONE })
    &&& !annotation.bbox[3].le(Single { bits: ONE })
}

/// The sample that an annotation and its image make.
pub open spec fn sample_of(annotation: AnnotationView, image: CocoImage, num_joints: nat) -> SampleView {
    SampleView {
        image_path: image.path@,
        image_width: or_zero(image.width),
        image_height: or_zero(image.height),
        bbox: AnnotationBox {
            x: annotation.bbox[0],
            y: annotation.bbox[1],
            width: annotation.bbox[2],
            height: annotation.bbox[3],
        },
        keypoints: joints_in(annotation.keypoints, num_joints),
    }
}

/// The samples that annotations make, in their order.
pub open spec fn samples_of(
    annotations: Seq<AnnotationView>,
    images: Seq<CocoImage>,
    num_joints: nat,
) -> Seq<SampleView>
    decreases annotations.len(),
{
    if annotations.len() == 0 {
        Seq::empty()
    } else {
        let before = samples_of(annotations.drop_last(), images, num_joints);
        let annotation = annotations.last();
        if usable(annotation, images, num_joints) {
            let i = choose|i: int| image_for(images, annotation.image_id, i);
            before.push(sample_of(annotation, images[i], num_joints))
        } else {
            before
        }
    }
}

/// The values of keypoints, one after the other: for each its place and its confidence.
pub open spec fn values_of(points: Seq<Keypoint>) -> Seq<Single> {
    Seq::new(
        3 * points.len(),
        |f: int|
            if f % 3 == 0 {
                points[f / 3].x
            } else if f % 3 == 1 {
                points[f / 3].y
            } else {
                points[f / 3].confidence
            },
    )
}

/// What becomes of an annotation that gets the keypoints of the person who matches it best.
/// Nothing becomes of one without a whole box, without people in its image, or without a match.
/// The counted joints are those of other keypoints, and are forgotten.
pub open spec fn matched_annotation(
    annotation: AnnotationView,
    people: Map<u64, Vec<Vec<Keypoint>>>,
    scores: Seq<Single>,
    num_joints: usize,
) -> Option<AnnotationView> {
    if annotation.bbox.len() < 4 || !people.contains_key(annotation.image_id) {
        None
    } else {
        match matched_points(people[annotation.image_id]@, scores, num_joints) {
            Some(points) => Some(
                AnnotationView {
                    image_id: annotation.image_id,
                    bbox: annotation.bbox,
                    keypoints: values_of(points),
                    num_keypoints: None,
                    iscrowd: annotation.iscrowd,
                },
            ),
            None => None,
        }
    }
}

/// The annotations with the keypoints of the people who match them, in their order. `scores` says
/// of each annotation how well each person in its image matches it.
pub open spec fn matched_annotations(
    annotations: Seq<AnnotationView>,
    people: Map<u64, Vec<Vec<Keypoint>>>,
    scores: Seq<Vec<Single>>,
    num_joints: usize,
) -> Seq<AnnotationView>
    decreases annotations.len(),
{
    if annotations.len() == 0 {
        Seq::empty()
    } else {
        let before = matched_annotations(annotations.drop_last(), people, scores, num_joints);
        let last = annotations.len() - 1;
        match matched_annotation(annotations[last], people, scores[last]@, num_joints) {
            Some(matched) => before.push(matched),
            None => before,
        }
    }
}

/// Whether there is a score for each person in the image of each annotation.
pub open spec fn scores_fit(
    annotations: Seq<CocoAnnotation>,
    people: Map<u64, Vec<Vec<Keypoint>>>,
    scores: Seq<Vec<Single>>,
) -> bool {
    &&& annotations.len() <= scores.len()
    &&& forall|a: int|
        0 <= a < annotations.len() && people.contains_key((#[trigger] annotations[a]).image_id)
            ==> people[annotations[a].image_id]@.len() <= scores[a]@.len()
}

/// Lists the values of keypoints, one after the other.
pub fn list_values(points: &Vec<Keypoint>) -> (r: Vec<Single>)
    ensures
        r@ == values_of(points@),
        r@.len() == 3 * points@.len(),
        forall|k: int|
            0 <= k < points@.len() ==> {
                &&& r@[3 * k] == (#[trigger] points@[k]).x
                &&& r@[3 * k + 1] == points@[k].y
                &&& r@[3 * k + 2] == points@[k].confidence
            },
{
    let n: usize = points.len();
    let mut r: Vec<Single> = Vec::new();
    for k in 0..n
        invariant
            n == points@.len(),
            r@.len() == 3 * k,
            forall|f: int| 0 <= f < 3 * k ==> #[trigger] r@[f] == values_of(points@)[f],
    {
        r.push(points[k].x);
        r.push(points[k].y);
        r.push(points[k].confidence);
    }
    assert(r@ =~= values_of(points@));
    r
}

/// Gives annotations the keypoints of the people who match them best, and leaves out those that
/// nobody matches.
pub fn match_annotations(
    annotations: &Vec<CocoAnnotation>,
    people: &HashMap<u64, Vec<Vec<Keypoint>>>,
    scores: &Vec<Vec<Single>>,
    num_joints: usize,
) -> (r: Vec<CocoAnnotation>)
    requires
        scores_fit(annotations@, people@, scores@),
    ensures
        annotation_views(r@) == matched_annotations(
            annotation_views(annotations@),
            people@,
            scores@,
            num_joints,
        ),
{
    let n: usize = annotations.len();
    let ghost views = annotation_views(annotations@);
    let mut r: Vec<CocoAnnotation> = Vec::new();
    assert(views.take(0) =~= Seq::<AnnotationView>::empty());
    assert(annotation_views(r@) =~= Seq::<AnnotationView>::empty());
    for a in 0..n
        invariant
            n == annotations@.len(),
            views == annotation_views(annotations@),
            scores_fit(annotations@, people@, scores@),
            annotation_views(r@) == matched_annotations(
                views.take(a as int),
                people@,
                scores@,
                num_joints,
            ),
    {
        let ghost before = r@;
        let annotation = &annotations[a];
        assert(views.take(a + 1).drop_last() =~= views.take(a as int));
        assert(views.take(a + 1)[a as int] == annotation@);
        if annotation.bbox.len() >= 4 {
            let found = people.get(&annotation.image_id);
            if let Some(there) = found {
                assert(people@.contains_key(annotations@[a as int].image_id));
                let best = match_spinepose_person(there, &scores[a], num_joints);
                if let Some(points) = best {
                    let bbox = annotation.bbox.clone();
                    assert(bbox@ =~= annotation.bbox@);
                    let matched = CocoAnnotation {
                        image_id: annotation.image_id,
                        bbox,
                        keypoints: list_values(&points),
                        num_keypoints: None,
                        iscrowd: annotation.iscrowd,
                    };
                    let ghost kept = matched@;
                    r.push(matched);
                    assert(annotation_views(r@) =~= annotation_views(before).push(kept));
                }
            }
        }
    }
    assert(views.take(n as int) =~= views);
    r
}

/// Pose samples and how they are used.
#[derive(Debug)]
pub struct CocoPoseDataset {
    samples: Vec<PoseSample>,
    config: PoseDataConfig,
}

/// What a dataset holds.
pub struct DatasetView {
    pub samples: Seq<SampleView>,
    pub config: PoseDataConfig,
}

impl View for CocoPoseDataset {
    type V = DatasetView;

    closed spec fn view(&self) -> DatasetView {
        DatasetView { samples: sample_views(self.samples@), config: self.config }
    }
}

/// Reads the first joints of an annotation.
fn read_joints(values: &Vec<Single>, num_joints: usize) -> (r: Vec<Keypoint>)
    requires
        values@.len() >= 3 * num_joints,
    ensures
        r@ == joints_in(values@, num_joints as nat),
{
    let total: usize = values.len();
    let mut r: Vec<Keypoint> = Vec::new();
    for k in 0..num_joints
        invariant
            total == values@.len(),
            total >= 3 * num_joints,
            r@ =~= joints_in(values@, num_joints as nat).take(k as int),
    {
        r.push(
            Keypoint { x: values[3 * k], y: values[3 * k + 1], confidence: values[3 * k + 2] },
        );
    }
    assert(r@ =~= joints_in(values@, num_joints as nat));
    r
}

/// Whether one of the first joints is labeled.
fn is_labeled(values: &Vec<Single>, num_joints: usize) -> (r: bool)
    requires
        values@.len() >= 3 * num_joints,
    ensures
        r == any_labeled(values@, num_joints as nat),
{
    let total: usize = values.len();
    let zero = Single { bits: ZERO };
    for k in 0..num_joints
        invariant
            total == values@.len(),
            total >= 3 * num_joints,
            zero == (Single { bits: ZERO }),
            forall|j: int| 0 <= j < k ==> !zero.lt(#[trigger] joint_at(values@, j).confidence),
    {
        if zero.less(values[3 * k + 2]) {
            assert(zero.lt(joint_at(values@, k as int).confidence));
            return true;
        }
    }
    false
}

/// The position of the last image with each id.
fn index_images(images: &Vec<CocoImage>) -> (r: HashMap<u64, usize>)
    ensures
        forall|id: u64| #[trigger] r@.contains_key(id) == has_image(images@, id),
        forall|id: u64| #[trigger]
            r@.contains_key(id) ==> image_for(images@, id, r@[id] as int),
{
    let n: usize = images.len();
    let mut by_id: HashMap<u64, usize> = HashMap::new();
    for i in 0..n
        invariant
            n == images@.len(),
            forall|id: u64| #[trigger]
                by_id@.contains_key(id) == exists|j: int| 0 <= j < i && (#[trigger] images@[j]).id == id,
            forall|id: u64| #[trigger]
                by_id@.contains_key(id) ==> by_id@[id] < i && images@[by_id@[id] as int].id == id
                    && forall|j: int| by_id@[id] < j < i ==> (#[trigger] images@[j]).id != id,
    {
        let ghost before = by_id@;
        let id: u64 = images[i].id;
        by_id.insert(id, i);
        proof {
            assert forall|other: u64| #[trigger] by_id@.contains_key(other) == exists|j: int|
                0 <= j < i + 1 && (#[trigger] images@[j]).id == other by {
                if other == id {
                    assert(images@[i as int].id == other);
                } else {
                    assert(by_id@.contains_key(other) == before.contains_key(other));
                    if before.contains_key(other) {
                        let j = choose|j: int| 0 <= j < i && (#[trigger] images@[j]).id == other;
                        assert(images@[j].id == other);
                    }
                }
            }
        }
    }
    by_id
}

impl CocoPoseDataset {
    /// Makes the dataset of an annotation file. `shown_path` is how the file is shown.
    pub fn from_coco(
        shown_path: &str,
        images: &Vec<CocoImage>,
        annotations: &Vec<CocoAnnotation>,
        config: PoseDataConfig,
    ) -> (r: Result<CocoPoseDataset, PoseDataError>)
        ensures
            ({
                let samples = samples_of(
                    annotation_views(annotations@),
                    images@,
                    config.num_joints as nat,
                );
                &&& r is Ok == (samples.len() > 0)
                &&& r is Ok ==> r->Ok_0@ == (DatasetView { samples, config })
                &&& r is Err ==> r->Err_0.says(
                    "no valid pose samples found in "@ + shown_path@,
                )
            }),
    {
        let by_id = index_images(images);
        let n: usize = annotations.len();
        let num_joints: usize = config.num_joints;
        let one = Single { bits: ONE };
        let mut samples: Vec<PoseSample> = Vec::new();
        let ghost views = annotation_views(annotations@);
        assert(views.take(0) =~= Seq::<AnnotationView>::empty());
        assert(sample_views(samples@) =~= Seq::<SampleView>::empty());
        for a in 0..n
            invariant
                n == annotations@.len(),
                views == annotation_views(annotations@),
                num_joints == config.num_joints,
                one == (Single { bits: ONE }),
                forall|id: u64| #[trigger] by_id@.contains_key(id) == has_image(images@, id),
                forall|id: u64| #[trigger]
                    by_id@.contains_key(id) ==> image_for(images@, id, by_id@[id] as int),
                sample_views(samples@) == samples_of(
                    views.take(a as int),
                    images@,
                    num_joints as nat,
                ),
        {
            let ghost before = samples@;
            assert(views.take(a + 1).drop_last() =~= views.take(a as int));
            assert(views.take(a + 1).last() == annotations@[a as int]@);
            let annotation = &annotations[a];
            let crowd: bool = match annotation.iscrowd {
                Some(crowd) => crowd != 0,
                None => false,
            };
            let counted: bool = match annotation.num_keypoints {
                Some(count) => count != 0,
                None => false,
            };
            let complete: bool = annotation.bbox.len() >= 4 && annotation.keypoints.len() / 3
                >= num_joints;
            assert((annotation.keypoints@.len() / 3 >= num_joints) == (annotation.keypoints@.len()
                >= 3 * num_joints));
            if !crowd && complete && (counted || is_labeled(&annotation.keypoints, num_joints)) {
                let found = by_id.get(&annotation.image_id);
                if let Some(at) = found {
                    let image = &images[*at];
                    if !annotation.bbox[2].at_most(one) && !annotation.bbox[3].at_most(one) {
                        let keypoints = read_joints(&annotation.keypoints, num_joints);
                        let sample = PoseSample {
                            image_path: image.path.clone(),
                            image_width: match image.width {
                                Some(width) => width,
                                None => 0,
                            },
                            image_height: match image.height {
                                Some(height) => height,
                                None => 0,
                            },
                            bbox: AnnotationBox {
                                x: annotation.bbox[0],
                                y: annotation.bbox[1],
                                width: annotation.bbox[2],
                                height: annotation.bbox[3],
                            },
                            keypoints,
                        };
                        proof {
                            lemma_image_unique(images@, annotation.image_id, *at as int);
                            assert(sample@ == sample_of(annotation@, *image, num_joints as nat));
                        }
                        samples.push(sample);
                        assert(sample_views(samples@) =~= sample_views(before).push(sample@));
                    }
                }
            }
        }
        assert(views.take(n as int) =~= views);
        if samples.len() == 0 {
            assert(sample_views(samples@).len() == 0);
            let mut words = "no valid pose samples found in ".to_owned();
            words.append(shown_path);
            return unusable(words.as_str());
        }
        assert(sample_views(samples@).len() > 0);
        Ok(CocoPoseDataset { samples, config })
    }

    /// Makes the dataset of an annotation file whose people get the keypoints that SpinePose found.
    /// `people` holds those found in each image, and `scores` how well they match each annotation.
    pub fn from_coco_with_spinepose(
        shown_path: &str,
        images: &Vec<CocoImage>,
        annotations: &Vec<CocoAnnotation>,
        people: &HashMap<u64, Vec<Vec<Keypoint>>>,
        scores: &Vec<Vec<Single>>,
        config: PoseDataConfig,
    ) -> (r: Result<CocoPoseDataset, PoseDataError>)
        requires
            scores_fit(annotations@, people@, scores@),
        ensures
            ({
                let matched = matched_annotations(
                    annotation_views(annotations@),
                    people@,
                    scores@,
                    config.num_joints,
                );
                let samples = samples_of(matched, images@, config.num_joints as nat);
                &&& r is Ok == (samples.len() > 0)
                &&& r is Ok ==> r->Ok_0@ == (DatasetView { samples, config })
                &&& r is Err ==> r->Err_0.says(
                    "no valid pose samples found in "@ + shown_path@,
                )
            }),
    {
        let matched = match_annotations(annotations, people, scores, config.num_joints);
        Self::from_coco(shown_path, images, &matched, config)
    }

    pub fn from_samples(samples: Vec<PoseSample>, config: PoseDataConfig) -> (r: Result<
        CocoPoseDataset,
        PoseDataError,
    >)
        ensures
            r is Ok == (samples@.len() > 0),
            r is Ok ==> r->Ok_0@ == (DatasetView { samples: sample_views(samples@), config }),
            r is Err ==> r->Err_0.says("dataset requires at least one sample"@),
    {
        if samples.len() == 0 {
            return unusable("dataset requires at least one sample");
        }
        Ok(CocoPoseDataset { samples, config })
    }

    pub fn len(&self) -> (r: usize)
        ensures
            r == self@.samples.len(),
    {
        self.samples.len()
    }

    pub fn is_empty(&self) -> (r: bool)
        ensures
            r == (self@.samples.len() == 0),
    {
        self.samples.len() == 0
    }

    pub fn config(&self) -> (r: PoseDataConfig)
        ensures
            r == self@.config,
    {
        self.config
    }

    pub fn samples(&self) -> (r: &Vec<PoseSample>)
        ensures
            sample_views(r@) == self@.samples,
    {
        &self.samples
    }

    /// The dataset of the first `max_samples` samples, or of all of them.
    pub fn limited(&self, max_samples: Option<usize>) -> (r: CocoPoseDataset)
        ensures
            r@.config == self@.config,
            r@.samples == match max_samples {
                Some(max_samples) => if max_samples < self@.samples.len() {
                    self@.samples.take(max_samples as int)
                } else {
                    self@.samples
                },
                None => self@.samples,
            },
    {
        let total: usize = self.samples.len();
        let n: usize = match max_samples {
            Some(max_samples) => if max_samples < total {
                max_samples
            } else {
                total
            },
            None => total,
        };
        let mut samples: Vec<PoseSample> = Vec::new();
        for i in 0..n
            invariant
                n <= self.samples@.len(),
                samples@.len() == i,
                forall|j: int| 0 <= j < i ==> (#[trigger] samples@[j])@ == self.samples@[j]@,
        {
            samples.push(self.samples[i].clone());
        }
        assert(sample_views(samples@) =~= self@.samples.take(n as int));
        assert(self@.samples.take(total as int) =~= self@.samples);
        CocoPoseDataset { samples, config: self.config }
    }

    /// A sample by its position.
    pub fn sample(&self, index: usize) -> (r: Result<&PoseSample, PoseDataError>)
        ensures
            r is Ok == (index < self@.samples.len()),
            r is Ok ==> r->Ok_0@ == self@.samples[index as int],
            r is Err ==> r->Err_0.says(
                "sample index "@ + decimal(index as nat) + " out of range"@,
            ),
    {
        if index < self.samples.len() {
            return Ok(&self.samples[index]);
        }
        let mut words = "sample index ".to_owned();
        words.append(decimal_text(index).as_str());
        words.append(" out of range");
        unusable(words.as_str())
    }
}

/// There is one image for an id.
proof fn lemma_image_unique(images: Seq<CocoImage>, id: u64, i: int)
    requires
        image_for(images, id, i),
    ensures
        (choose|j: int| image_for(images, id, j)) == i,
{
    let j = choose|j: int| image_for(images, id, j);
    assert(image_for(images, id, j));
    if j < i {
        assert(images[i].id != id);
    } else if i < j {
        assert(images[j].id != id);
    }
}

/// A sample as values: the image, the heatmaps and the weights of the joints.
#[derive(Debug)]
pub struct PoseTensorSample<T> {
    pub image: Vec<T>,
    pub target: Vec<T>,
    pub target_weight: Vec<T>,
}

/// A batch as values.
#[derive(Debug)]
pub struct PoseTensorBatch<T> {
    pub images: Vec<T>,
    pub targets: Vec<T>,
    pub target_weight: Vec<T>,
    pub batch_size: usize,
    pub input_height: usize,
    pub input_width: usize,
    pub heatmap_height: usize,
    pub heatmap_width: usize,
    pub num_joints: usize,
}

/// The images of samples, one after the other.
pub open spec fn images_joined<T>(samples: Seq<PoseTensorSample<T>>) -> Seq<T>
    decreases samples.len(),
{
    if samples.len() == 0 {
        Seq::empty()
    } else {
        images_joined(samples.drop_last()) + samples.last().image@
    }
}

/// The heatmaps of samples, one after the other.
pub open spec fn targets_joined<T>(samples: Seq<PoseTensorSample<T>>) -> Seq<T>
    decreases samples.len(),
{
    if samples.len() == 0 {
        Seq::empty()
    } else {
        targets_joined(samples.drop_last()) + samples.last().target@
    }
}

/// The weights of samples, one after the other.
pub open spec fn weights_joined<T>(samples: Seq<PoseTensorSample<T>>) -> Seq<T>
    decreases samples.len(),
{
    if samples.len() == 0 {
        Seq::empty()
    } else {
        weights_joined(samples.drop_last()) + samples.last().target_weight@
    }
}

/// Appends values to a list.
fn append_values<T: Copy>(list: &mut Vec<T>, values: &Vec<T>)
    ensures
        final(list)@ == old(list)@ + values@,
{
    let n: usize = values.len();
    for i in 0..n
        invariant
            n == values@.len(),
            list@ =~= old(list)@ + values@.take(i as int),
    {
        list.push(values[i]);
    }
    assert(values@.take(n as int) =~= values@);
}

impl<T: Copy> PoseTensorBatch<T> {
    /// Makes the batch of samples.
    pub fn of_samples(samples: &Vec<PoseTensorSample<T>>, config: PoseDataConfig) -> (r: Result<
        PoseTensorBatch<T>,
        PoseDataError,
    >)
        ensures
            r is Ok == (samples@.len() > 0),
            r is Ok ==> {
                let batch = r->Ok_0;
                &&& batch.images@ == images_joined(samples@)
                &&& batch.targets@ == targets_joined(samples@)
                &&& batch.target_weight@ == weights_joined(samples@)
                &&& batch.batch_size == samples@.len()
                &&& batch.input_height == config.input_height
                &&& batch.input_width == config.input_width
                &&& batch.heatmap_height == config.heatmap_height
                &&& batch.heatmap_width == config.heatmap_width
                &&& batch.num_joints == config.num_joints
            },
            r is Err ==> r->Err_0.says("batch requires at least one sample"@),
    {
        let n: usize = samples.len();
        if n == 0 {
            return unusable("batch requires at least one sample");
        }
        let mut images: Vec<T> = Vec::new();
        let mut targets: Vec<T> = Vec::new();
        let mut target_weight: Vec<T> = Vec::new();
        assert(samples@.take(0) =~= Seq::<PoseTensorSample<T>>::empty());
        for i in 0..n
            invariant
                n == samples@.len(),
                images@ == images_joined(samples@.take(i as int)),
                targets@ == targets_joined(samples@.take(i as int)),
                target_weight@ == weights_joined(samples@.take(i as int)),
        {
            append_values(&mut images, &samples[i].image);
            append_values(&mut targets, &samples[i].target);
            append_values(&mut target_weight, &samples[i].target_weight);
            assert(samples@.take(i + 1).drop_last() =~= samples@.take(i as int));
            assert(samples@.take(i + 1).last() == samples@[i as int]);
        }
        assert(samples@.take(n as int) =~= samples@);
        Ok(
            PoseTensorBatch {
                images,
                targets,
                target_weight,
                batch_size: n,
                input_height: config.input_height,
                input_width: config.input_width,
                heatmap_height: config.heatmap_height,
                heatmap_width: config.heatmap_width,
                num_joints: config.num_joints,
            },
        )
    }

    pub fn len(&self) -> (r: usize)
        ensures
            r == self.batch_size,
    {
        self.batch_size
    }

    pub fn is_empty(&self) -> (r: bool)
        ensures
            r == (self.batch_size == 0),
    {
        self.batch_size == 0
    }
}

/// Crowds, annotations without an image and boxes of a pixel never become samples, whatever else
/// they hold.
pub proof fn law_unusable_annotations_leave_no_trace(
    annotations: Seq<AnnotationView>,
    images: Seq<CocoImage>,
    num_joints: nat,
)
    requires
        forall|i: int|
            0 <= i < annotations.len() ==> !usable(#[trigger] annotations[i], images, num_joints),
    ensures
        samples_of(annotations, images, num_joints).len() == 0,
    decreases annotations.len(),
{
    if annotations.len() > 0 {
        let rest = annotations.drop_last();
        assert forall|i: int| 0 <= i < rest.len() implies !usable(
            #[trigger] rest[i],
            images,
            num_joints,
        ) by {
            assert(rest[i] == annotations[i]);
        }
        law_unusable_annotations_leave_no_trace(rest, images, num_joints);
        assert(!usable(annotations[annotations.len() - 1], images, num_joints));
    }
}

/// The values of keypoints read back as the keypoints.
pub proof fn law_values_read_back(points: Seq<Keypoint>)
    ensures
        joints_in(values_of(points), points.len()) == points,
{
    let values = values_of(points);
    assert forall|k: int| 0 <= k < points.len() implies #[trigger] joint_at(values, k) == points[k] by {
        assert(values[3 * k] == points[k].x);
        assert(values[3 * k + 1] == points[k].y);
        assert(values[3 * k + 2] == points[k].confidence);
    }
    assert(joints_in(values, points.len()) =~= points);
}

/// The values of a person's keypoints, whose confidences lie in the unit interval, read back as
/// the keypoints.
pub proof fn law_person_values_read_back(points: Seq<Keypoint>)
    requires
        points.len() <= 37,
        forall|k: int|
            0 <= k < points.len() ==> (Single { bits: 0 }).le(
                (#[trigger] points[k]).confidence,
            ) && points[k].confidence.le(Single { bits: 0x3f80_0000 }),
    ensures
        keypoints_in(values_of(points)) == points,
{
    let values = values_of(points);
    assert forall|k: int| 0 <= k < points.len() implies keypoints_in(values)[k] == #[trigger] points[k] by {
        assert(values[3 * k] == points[k].x);
        assert(values[3 * k + 1] == points[k].y);
        assert(values[3 * k + 2] == points[k].confidence);
    }
    assert(keypoints_in(values) =~= points);
}

/// Keypoints are written down one after the other, each as its column, its row and its confidence.
pub proof fn law_values_are_triples(points: Seq<Keypoint>, k: int)
    requires
        0 <= k < points.len(),
    ensures
        values_of(points).len() == 3 * points.len(),
        values_of(points)[3 * k] == points[k].x,
        values_of(points)[3 * k + 1] == points[k].y,
        values_of(points)[3 * k + 2] == points[k].confidence,
{
}

/// Every sample has all joints and a box larger than a pixel.
pub proof fn law_samples_are_complete(
    annotations: Seq<AnnotationView>,
    images: Seq<CocoImage>,
    num_joints: nat,
    s: int,
)
    requires
        0 <= s < samples_of(annotations, images, num_joints).len(),
    ensures
        ({
            let sample = samples_of(annotations, images, num_joints)[s];
            &&& sample.keypoints.len() == num_joints
            &&& !sample.bbox.width.le(Single { bits: ONE })
            &&& !sample.bbox.height.le(Single { bits: ONE })
        }),
    decreases annotations.len(),
{
    if annotations.len() > 0 {
        let before = samples_of(annotations.drop_last(), images, num_joints);
        if s < before.len() {
            law_samples_are_complete(annotations.drop_last(), images, num_joints, s);
        }
    }
}

/// Whether an annotation can be trained on: it is no crowd, its box has four values and is wider
/// and higher than one pixel, it has three values for each joint, it says that it has labeled
/// joints or has one whose confidence is above zero, and its image is listed.
pub open spec fn trainable(
    annotation: CocoAnnotation,
    images: Seq<CocoImage>,
    num_joints: nat,
) -> bool {
    let zero = Single { bits: 0 };
    let one = Single { bits: 0x3f80_0000 };
    &&& annotation.iscrowd is None || annotation.iscrowd->0 == 0
    &&& annotation.bbox@.len() >= 4
    &&& !annotation.bbox@[2].le(one)
    &&& !annotation.bbox@[3].le(one)
    &&& annotation.keypoints@.len() >= 3 * num_joints
    &&& (annotation.num_keypoints is Some && annotation.num_keypoints->0 != 0) || exists|k: int|
        0 <= k < num_joints && zero.lt(#[trigger] annotation.keypoints@[3 * k + 2])
    &&& exists|i: int| 0 <= i < images.len() && (#[trigger] images[i]).id == annotation.image_id
}

/// Whether a sample shows the person of an annotation: with the values of its box, the joints that
/// its values give three by three, and the path and size of the last image with its id.
pub open spec fn shows(
    sample: PoseSample,
    annotation: CocoAnnotation,
    images: Seq<CocoImage>,
    num_joints: nat,
) -> bool {
    &&& sample.bbox.x == annotation.bbox@[0]
    &&& sample.bbox.y == annotation.bbox@[1]
    &&& sample.bbox.width == annotation.bbox@[2]
    &&& sample.bbox.height == annotation.bbox@[3]
    &&& sample.keypoints@.len() == num_joints
    &&& forall|k: int|
        0 <= k < num_joints ==> {
            &&& (#[trigger] sample.keypoints@[k]).x == annotation.keypoints@[3 * k]
            &&& sample.keypoints@[k].y == annotation.keypoints@[3 * k + 1]
            &&& sample.keypoints@[k].confidence == annotation.keypoints@[3 * k + 2]
        }
    &&& exists|i: int|
        0 <= i < images.len() && (#[trigger] images[i]).id == annotation.image_id && (forall|j: int|
            i < j < images.len() ==> (#[trigger] images[j]).id != annotation.image_id)
            && sample.image_path@ == images[i].path@ && sample.image_width == (match images[i].width {
            Some(width) => width,
            None => 0,
        }) && sample.image_height == (match images[i].height {
            Some(height) => height,
            None => 0,
        })
}

/// Whether the samples are those of the annotations at the places `from`: one for each annotation
/// that can be trained on and no others, in the order of the annotations.
pub open spec fn samples_at(
    annotations: Seq<CocoAnnotation>,
    images: Seq<CocoImage>,
    num_joints: nat,
    samples: Seq<PoseSample>,
    from: Seq<int>,
) -> bool {
    &&& from.len() == samples.len()
    &&& forall|s: int, u: int| 0 <= s < u < from.len() ==> #[trigger] from[s] < #[trigger] from[u]
    &&& forall|s: int|
        0 <= s < from.len() ==> 0 <= #[trigger] from[s] < annotations.len() && shows(
            samples[s],
            annotations[from[s]],
            images,
            num_joints,
        )
    &&& forall|a: int|
        0 <= a < annotations.len() ==> trainable(#[trigger] annotations[a], images, num_joints)
            == from.contains(a)
}

/// Every annotation that can be trained on becomes one sample, which shows its person, and the
/// samples are in the order of the annotations. There are no others.
pub proof fn law_each_trainable_annotation_becomes_a_sample(
    annotations: Seq<CocoAnnotation>,
    images: Seq<CocoImage>,
    num_joints: nat,
    samples: Seq<PoseSample>,
) -> (from: Seq<int>)
    requires
        sample_views(samples) == samples_of(annotation_views(annotations), images, num_joints),
    ensures
        samples_at(annotations, images, num_joints, samples, from),
    decreases annotations.len(),
{
    let views = annotation_views(annotations);
    assert(sample_views(samples).len() == samples.len());
    if annotations.len() == 0 {
        Seq::empty()
    } else {
        let rest = annotations.drop_last();
        let last = annotations.len() - 1;
        let annotation = annotations[last];
        assert(views.drop_last() =~= annotation_views(rest));
        assert(views.last() == annotation@);
        let before = samples_of(annotation_views(rest), images, num_joints);
        assert(trainable(annotation, images, num_joints) == usable(
            annotation@,
            images,
            num_joints,
        )) by {
            let values = annotation.keypoints@;
            if any_labeled(values, num_joints) {
                let k = choose|k: int|
                    0 <= k < num_joints && (Single { bits: ZERO }).lt(
                        #[trigger] joint_at(values, k).confidence,
                    );
                assert((Single { bits: 0 }).lt(values[3 * k + 2]));
            }
            if exists|k: int| 0 <= k < num_joints && (Single { bits: 0 }).lt(
                #[trigger] values[3 * k + 2],
            ) {
                let k = choose|k: int|
                    0 <= k < num_joints && (Single { bits: 0 }).lt(#[trigger] values[3 * k + 2]);
                assert((Single { bits: ZERO }).lt(joint_at(values, k).confidence));
            }
        }
        if usable(annotation@, images, num_joints) {
            let n = samples.len() - 1;
            let kept = samples.drop_last();
            assert(sample_views(samples) == before.push(sample_views(samples)[n]));
            assert(sample_views(samples).drop_last() =~= before);
            assert(sample_views(kept) =~= sample_views(samples).drop_last());
            let from = law_each_trainable_annotation_becomes_a_sample(
                rest,
                images,
                num_joints,
                kept,
            );
            let all = from.push(last);
            let i = lemma_last_image(images, annotation.image_id, images.len() as int);
            lemma_image_unique(images, annotation.image_id, i);
            assert(sample_views(samples)[n] == samples[n]@);
            assert(samples[n]@ == sample_of(annotation@, images[i], num_joints));
            assert(shows(samples[n], annotation, images, num_joints)) by {
                assert forall|k: int| 0 <= k < num_joints implies {
                    &&& (#[trigger] samples[n].keypoints@[k]).x == annotation.keypoints@[3 * k]
                    &&& samples[n].keypoints@[k].y == annotation.keypoints@[3 * k + 1]
                    &&& samples[n].keypoints@[k].confidence == annotation.keypoints@[3 * k + 2]
                } by {
                    assert(samples[n].keypoints@[k] == joint_at(annotation.keypoints@, k));
                }
                assert(images[i].id == annotation.image_id);
            }
            assert forall|s: int| 0 <= s < all.len() implies 0 <= #[trigger] all[s]
                < annotations.len() && shows(
                samples[s],
                annotations[all[s]],
                images,
                num_joints,
            ) by {
                if s < n {
                    assert(all[s] == from[s]);
                    assert(kept[s] == samples[s]);
                    assert(rest[from[s]] == annotations[from[s]]);
                }
            }
            assert forall|s: int, u: int| 0 <= s < u < all.len() implies #[trigger] all[s]
                < #[trigger] all[u] by {
                assert(all[s] == from[s]);
                if u < n {
                    assert(all[u] == from[u]);
                }
            }
            assert forall|a: int| 0 <= a < annotations.len() implies trainable(
                #[trigger] annotations[a],
                images,
                num_joints,
            ) == all.contains(a) by {
                if a < last {
                    assert(rest[a] == annotations[a]);
                    assert(trainable(rest[a], images, num_joints) == from.contains(a));
                    if from.contains(a) {
                        let s = choose|s: int| 0 <= s < from.len() && from[s] == a;
                        assert(all[s] == a);
                    }
                    if all.contains(a) {
                        let s = choose|s: int| 0 <= s < all.len() && all[s] == a;
                        assert(from[s] == a);
                    }
                } else {
                    assert(all[n] == a);
                }
            }
            all
        } else {
            let from = law_each_trainable_annotation_becomes_a_sample(
                rest,
                images,
                num_joints,
                samples,
            );
            assert forall|s: int| 0 <= s < from.len() implies 0 <= #[trigger] from[s]
                < annotations.len() && shows(
                samples[s],
                annotations[from[s]],
                images,
                num_joints,
            ) by {
                assert(rest[from[s]] == annotations[from[s]]);
            }
            assert forall|a: int| 0 <= a < annotations.len() implies trainable(
                #[trigger] annotations[a],
                images,
                num_joints,
            ) == from.contains(a) by {
                if a < last {
                    assert(rest[a] == annotations[a]);
                } else if from.contains(a) {
                    let s = choose|s: int| 0 <= s < from.len() && from[s] == a;
                    assert(from[s] < rest.len());
                }
            }
            from
        }
    }
}

/// Finds the last image with an id among the first images.
proof fn lemma_last_image(images: Seq<CocoImage>, id: u64, n: int) -> (i: int)
    requires
        0 <= n <= images.len(),
        exists|i: int| 0 <= i < n && (#[trigger] images[i]).id == id,
        forall|j: int| n <= j < images.len() ==> (#[trigger] images[j]).id != id,
    ensures
        image_for(images, id, i),
    decreases n,
{
    if images[n - 1].id == id {
        n - 1
    } else {
        let i = choose|i: int| 0 <= i < n && (#[trigger] images[i]).id == id;
        assert(i < n - 1);
        lemma_last_image(images, id, n - 1)
    }
}

/// Whether the matched annotations are those at the places `from`: of the annotations with a box
/// of four values whose image shows people of whom one matches, in their order. Each keeps its
/// image, its box and whether it is a crowd; its joints are those of the person, three values
/// each, and the number of labeled joints is open.
pub open spec fn matches_at(
    annotations: Seq<CocoAnnotation>,
    people: Map<u64, Vec<Vec<Keypoint>>>,
    scores: Seq<Vec<Single>>,
    num_joints: usize,
    matched: Seq<CocoAnnotation>,
    from: Seq<int>,
) -> bool {
    &&& from.len() == matched.len()
    &&& forall|m: int, n: int| 0 <= m < n < from.len() ==> #[trigger] from[m] < #[trigger] from[n]
    &&& forall|m: int|
        0 <= m < from.len() ==> {
            let a = #[trigger] from[m];
            let own = annotations[a];
            let points = matched_points(people[own.image_id]@, scores[a]@, num_joints);
            &&& 0 <= a < annotations.len()
            &&& own.bbox@.len() >= 4
            &&& people.contains_key(own.image_id)
            &&& points is Some
            &&& matched[m].image_id == own.image_id
            &&& matched[m].bbox@ == own.bbox@
            &&& matched[m].iscrowd == own.iscrowd
            &&& matched[m].num_keypoints is None
            &&& matched[m].keypoints@.len() == 3 * points->0.len()
            &&& forall|k: int|
                0 <= k < points->0.len() ==> {
                    &&& matched[m].keypoints@[3 * k] == (#[trigger] points->0[k]).x
                    &&& matched[m].keypoints@[3 * k + 1] == points->0[k].y
                    &&& matched[m].keypoints@[3 * k + 2] == points->0[k].confidence
                }
        }
    &&& forall|a: int|
        0 <= a < annotations.len() && (#[trigger] annotations[a]).bbox@.len() >= 4
            && people.contains_key(annotations[a].image_id) && matched_points(
            people[annotations[a].image_id]@,
            scores[a]@,
            num_joints,
        ) is Some ==> from.contains(a)
}

/// Every annotation that somebody matches stays, with the keypoints of that person, and the others
/// are left out.
pub proof fn law_matched_annotations_show_their_people(
    annotations: Seq<CocoAnnotation>,
    people: Map<u64, Vec<Vec<Keypoint>>>,
    scores: Seq<Vec<Single>>,
    num_joints: usize,
    matched: Seq<CocoAnnotation>,
) -> (from: Seq<int>)
    requires
        annotation_views(matched) == matched_annotations(
            annotation_views(annotations),
            people,
            scores,
            num_joints,
        ),
    ensures
        matches_at(annotations, people, scores, num_joints, matched, from),
    decreases annotations.len(),
{
    let views = annotation_views(annotations);
    assert(annotation_views(matched).len() == matched.len());
    if annotations.len() == 0 {
        Seq::empty()
    } else {
        let rest = annotations.drop_last();
        let last = annotations.len() - 1;
        let own = annotations[last];
        assert(views.drop_last() =~= annotation_views(rest));
        assert(views[last] == own@);
        let before = matched_annotations(annotation_views(rest), people, scores, num_joints);
        match matched_annotation(own@, people, scores[last]@, num_joints) {
            Some(kept) => {
                let n = matched.len() - 1;
                assert(annotation_views(matched) == before.push(kept));
                assert(annotation_views(matched).drop_last() =~= before);
                assert(annotation_views(matched.drop_last()) =~= annotation_views(
                    matched,
                ).drop_last());
                let from = law_matched_annotations_show_their_people(
                    rest,
                    people,
                    scores,
                    num_joints,
                    matched.drop_last(),
                );
                let all = from.push(last);
                assert(annotation_views(matched)[n] == matched[n]@);
                assert(matched[n]@ == kept);
                let points = matched_points(people[own.image_id]@, scores[last]@, num_joints)->0;
                assert forall|k: int| 0 <= k < points.len() implies {
                    &&& matched[n].keypoints@[3 * k] == (#[trigger] points[k]).x
                    &&& matched[n].keypoints@[3 * k + 1] == points[k].y
                    &&& matched[n].keypoints@[3 * k + 2] == points[k].confidence
                } by {
                    law_values_are_triples(points, k);
                }
                assert forall|m: int| 0 <= m < all.len() implies {
                    let a = #[trigger] all[m];
                    let own = annotations[a];
                    let points = matched_points(people[own.image_id]@, scores[a]@, num_joints);
                    &&& 0 <= a < annotations.len()
                    &&& own.bbox@.len() >= 4
                    &&& people.contains_key(own.image_id)
                    &&& points is Some
                    &&& matched[m].image_id == own.image_id
                    &&& matched[m].bbox@ == own.bbox@
                    &&& matched[m].iscrowd == own.iscrowd
                    &&& matched[m].num_keypoints is None
                    &&& matched[m].keypoints@.len() == 3 * points->0.len()
                    &&& forall|k: int|
                        0 <= k < points->0.len() ==> {
                            &&& matched[m].keypoints@[3 * k] == (#[trigger] points->0[k]).x
                            &&& matched[m].keypoints@[3 * k + 1] == points->0[k].y
                            &&& matched[m].keypoints@[3 * k + 2] == points->0[k].confidence
                        }
                } by {
                    if m < n {
                        assert(all[m] == from[m]);
                        assert(rest[from[m]] == annotations[from[m]]);
                        assert(matched.drop_last()[m] == matched[m]);
                    }
                }
                assert forall|s: int, u: int| 0 <= s < u < all.len() implies #[trigger] all[s]
                    < #[trigger] all[u] by {
                    assert(all[s] == from[s]);
                    if u < n {
                        assert(all[u] == from[u]);
                    }
                }
                assert forall|a: int|
                    0 <= a < annotations.len() && (#[trigger] annotations[a]).bbox@.len() >= 4
                        && people.contains_key(annotations[a].image_id) && matched_points(
                        people[annotations[a].image_id]@,
                        scores[a]@,
                        num_joints,
                    ) is Some implies all.contains(a) by {
                    if a < last {
                        assert(rest[a] == annotations[a]);
                        assert(from.contains(a));
                        let s = choose|s: int| 0 <= s < from.len() && from[s] == a;
                        assert(all[s] == a);
                    } else {
                        assert(all[n] == a);
                    }
                }
                all
            },
            None => {
                let from = law_matched_annotations_show_their_people(
                    rest,
                    people,
                    scores,
                    num_joints,
                    matched,
                );
                assert forall|m: int| 0 <= m < from.len() implies 0 <= #[trigger] from[m] < last
                    && annotations[from[m]] == rest[from[m]] by {}
                assert forall|a: int|
                    0 <= a < annotations.len() && (#[trigger] annotations[a]).bbox@.len() >= 4
                        && people.contains_key(annotations[a].image_id) && matched_points(
                        people[annotations[a].image_id]@,
                        scores[a]@,
                        num_joints,
                    ) is Some implies from.contains(a) by {
                    assert(a < last);
                    assert(rest[a] == annotations[a]);
                }
                from
            },
        }
    }
}

/// Value `k` of the image of sample `i` lies behind the images of the samples before it.
pub proof fn law_batch_images_lie_one_after_the_other<T>(
    samples: Seq<PoseTensorSample<T>>,
    size: nat,
    i: int,
    k: int,
)
    requires
        forall|s: int| 0 <= s < samples.len() ==> (#[trigger] samples[s]).image@.len() == size,
        0 <= i < samples.len(),
        0 <= k < size,
    ensures
        images_joined(samples).len() == samples.len() * size,
        0 <= i * size + k < images_joined(samples).len(),
        images_joined(samples)[i * size + k] == samples[i].image@[k],
    decreases samples.len(),
{
    let rest = samples.drop_last();
    let n = rest.len() as int;
    let before = images_joined(rest);
    assert(images_joined(samples) == before + samples[n].image@);
    assert(n == 0 ==> before.len() == 0);
    assert forall|s: int| 0 <= s < rest.len() implies (#[trigger] rest[s]).image@.len() == size by {
        assert(rest[s] == samples[s]);
    }
    assert(samples[n].image@.len() == size);
    assert((n + 1) * size == n * size + size && 0 * size == 0) by (nonlinear_arith);
    if n > 0 {
        let j = if i < n {
            i
        } else {
            0
        };
        law_batch_images_lie_one_after_the_other(rest, size, j, k);
    }
    if i < n {
        assert(rest[i] == samples[i]);
        assert(i * size + k < n * size && 0 <= i * size + k) by (nonlinear_arith)
            requires
                0 <= i < n,
                0 <= k < size,
        ;
    } else {
        assert(i == n);
    }
    assert(i * size + k < samples.len() * size && 0 <= i * size) by (nonlinear_arith)
        requires
            0 <= i < samples.len(),
            0 <= k < size,
    ;
}

/// Value `k` of the heatmaps of sample `i` lies behind the heatmaps of the samples before it.
pub proof fn law_batch_targets_lie_one_after_the_other<T>(
    samples: Seq<PoseTensorSample<T>>,
    size: nat,
    i: int,
    k: int,
)
    requires
        forall|s: int| 0 <= s < samples.len() ==> (#[trigger] samples[s]).target@.len() == size,
        0 <= i < samples.len(),
        0 <= k < size,
    ensures
        targets_joined(samples).len() == samples.len() * size,
        0 <= i * size + k < targets_joined(samples).len(),
        targets_joined(samples)[i * size + k] == samples[i].target@[k],
    decreases samples.len(),
{
    let rest = samples.drop_last();
    let n = rest.len() as int;
    let before = targets_joined(rest);
    assert(targets_joined(samples) == before + samples[n].target@);
    assert(n == 0 ==> before.len() == 0);
    assert forall|s: int| 0 <= s < rest.len() implies (#[trigger] rest[s]).target@.len() == size by {
        assert(rest[s] == samples[s]);
    }
    assert(samples[n].target@.len() == size);
    assert((n + 1) * size == n * size + size && 0 * size == 0) by (nonlinear_arith);
    if n > 0 {
        let j = if i < n {
            i
        } else {
            0
        };
        law_batch_targets_lie_one_after_the_other(rest, size, j, k);
    }
    if i < n {
        assert(rest[i] == samples[i]);
        assert(i * size + k < n * size && 0 <= i * size + k) by (nonlinear_arith)
            requires
                0 <= i < n,
                0 <= k < size,
        ;
    } else {
        assert(i == n);
    }
    assert(i * size + k < samples.len() * size && 0 <= i * size) by (nonlinear_arith)
        requires
            0 <= i < samples.len(),
            0 <= k < size,
    ;
}

/// Weight `k` of sample `i` lies behind the weights of the samples before it.
pub proof fn law_batch_weights_lie_one_after_the_other<T>(
    samples: Seq<PoseTensorSample<T>>,
    size: nat,
    i: int,
    k: int,
)
    requires
        forall|s: int| 0 <= s < samples.len() ==> (#[trigger] samples[s]).target_weight@.len() == size,
        0 <= i < samples.len(),
        0 <= k < size,
    ensures
        weights_joined(samples).len() == samples.len() * size,
        0 <= i * size + k < weights_joined(samples).len(),
        weights_joined(samples)[i * size + k] == samples[i].target_weight@[k],
    decreases samples.len(),
{
    let rest = samples.drop_last();
    let n = rest.len() as int;
    let before = weights_joined(rest);
    assert(weights_joined(samples) == before + samples[n].target_weight@);
    assert(n == 0 ==> before.len() == 0);
    assert forall|s: int| 0 <= s < rest.len() implies (#[trigger] rest[s]).target_weight@.len() == size by {
        assert(rest[s] == samples[s]);
    }
    assert(samples[n].target_weight@.len() == size);
    assert((n + 1) * size == n * size + size && 0 * size == 0) by (nonlinear_arith);
    if n > 0 {
        let j = if i < n {
            i
        } else {
            0
        };
        law_batch_weights_lie_one_after_the_other(rest, size, j, k);
    }
    if i < n {
        assert(rest[i] == samples[i]);
        assert(i * size + k < n * size && 0 <= i * size + k) by (nonlinear_arith)
            requires
                0 <= i < n,
                0 <= k < size,
        ;
    } else {
        assert(i == n);
    }
    assert(i * size + k < samples.len() * size && 0 <= i * size) by (nonlinear_arith)
        requires
            0 <= i < samples.len(),
            0 <= k < size,
    ;
}

/// An error says the words that it holds, and no others.
pub proof fn law_a_data_error_says_its_words(error: PoseDataError, words: Seq<char>)
    ensures
        error.says(words) <==> error->0@ == words,
{
}

} // verus!
