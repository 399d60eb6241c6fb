//! SpinePose results: where they are found, which person counts, and how keypoints become
//! features.

use vstd::prelude::*;

use crate::error::{invalid, RetrievalError};
use crate::floats::{Single, INFINITY, NEG_INFINITY, ZERO};
use crate::names::{json_name, pose_dir_name, with_extension};
use crate::text::{decimal, decimal_text};

verus! {

pub const SPINEPOSE_KEYPOINTS: usize = 37;

pub const SPINEPOSE_VALUES_PER_KEYPOINT: usize = 3;

pub const SPINEPOSE_FEATURE_DIM: usize = 111;

/// The bits of the confidence from which on a keypoint counts, 0.05.
pub const MIN_KEYPOINT_CONFIDENCE: u32 = 0x3d4c_cccd;

/// A keypoint in an image.
#[derive(Clone, Copy, Debug, PartialEq, Eq, Structural)]
pub struct Keypoint {
    pub x: Single,
    pub y: Single,
    pub confidence: Single,
}

/// Where an image lies: the directories above it and the stem of its name. A path may end above
/// any of them.
#[derive(Debug)]
pub struct ImageLocation {
    pub has_parent: bool,
    pub has_grandparent: bool,
    /// The name of the directory that holds the image.
    pub split: Option<String>,
    pub stem: Option<String>,
}

/// The directory that a path starts from.
#[derive(Clone, Copy, Debug, PartialEq, Eq, Structural)]
pub enum PoseBase {
    Parent,
    Grandparent,
}

/// A path to a pose file: a directory above the image, and the names below it.
#[derive(Debug)]
pub struct PosePath {
    pub base: PoseBase,
    pub names: Vec<String>,
}

/// What a path to a pose file holds.
pub struct PosePathView {
    pub base: PoseBase,
    pub names: Seq<Seq<char>>,
}

impl View for PosePath {
    type V = PosePathView;

    open spec fn view(&self) -> PosePathView {
        PosePathView { base: self.base, names: self.names@.map_values(|name: String| name@) }
    }
}

/// The paths where a pose file for an image may lie, in the order in which they are tried.
pub open spec fn pose_paths(location: ImageLocation) -> Seq<PosePathView> {
    if !location.has_parent || location.stem is None {
        Seq::empty()
    } else {
        let file = with_extension(location.stem->0@, "json"@);
        let beside = seq![PosePathView { base: PoseBase::Parent, names: seq!["poses"@, file] }];
        if !location.has_grandparent {
            beside
        } else {
            let above = seq![
                PosePathView { base: PoseBase::Grandparent, names: seq!["poses"@, file] },
            ];
            match location.split {
                Some(split) => above + seq![
                    PosePathView {
                        base: PoseBase::Grandparent,
                        names: seq!["poses"@, split@, file],
                    },
                ] + beside,
                None => above + beside,
            }
        }
    }
}

/// The views of a list of paths.
pub open spec fn path_views(paths: Seq<PosePath>) -> Seq<PosePathView> {
    paths.map_values(|path: PosePath| path@)
}

fn pose_path(base: PoseBase, split: Option<&String>, file: &String) -> (r: PosePath)
    ensures
        r@.base == base,
        r@.names == match split {
            Some(split) => seq!["poses"@, split@, file@],
            None => seq!["poses"@, file@],
        },
{
    let mut names: Vec<String> = Vec::new();
    names.push(pose_dir_name().to_owned());
    if let Some(split) = split {
        names.push(split.clone());
    }
    names.push(file.clone());
    let r = PosePath { base, names };
    assert(r@.names =~= match split {
        Some(split) => seq!["poses"@, split@, file@],
        None => seq!["poses"@, file@],
    });
    r
}

/// The paths where a pose file for an image may lie, in the order in which they are tried.
pub fn spinepose_json_candidates(location: &ImageLocation) -> (r: Vec<PosePath>)
    ensures
        path_views(r@) == pose_paths(*location),
{
    let mut r: Vec<PosePath> = Vec::new();
    if !location.has_parent {
        assert(path_views(r@) =~= Seq::<PosePathView>::empty());
        return r;
    }
    let stem = match &location.stem {
        Some(stem) => stem,
        None => {
            assert(path_views(r@) =~= Seq::<PosePathView>::empty());
            return r;
        },
    };
    let file = json_name(stem.as_str());
    if location.has_grandparent {
        r.push(pose_path(PoseBase::Grandparent, None, &file));
        if let Some(split) = &location.split {
            r.push(pose_path(PoseBase::Grandparent, Some(split), &file));
        }
    }
    r.push(pose_path(PoseBase::Parent, None, &file));
    assert(path_views(r@) =~= pose_paths(*location));
    r
}

/// The first pose file that exists. `is_file` says of each candidate path whether it is a file.
pub fn find_spinepose_json_for_image(location: &ImageLocation, is_file: &Vec<bool>) -> (r: Option<
    PosePath,
>)
    requires
        pose_paths(*location).len() <= is_file@.len(),
    ensures
        match r {
            Some(path) => exists|i: int|
                0 <= i < pose_paths(*location).len() && #[trigger] is_file@[i] && path@
                    == pose_paths(*location)[i] && forall|j: int|
                    0 <= j < i ==> !#[trigger] is_file@[j],
            None => forall|j: int|
                0 <= j < pose_paths(*location).len() ==> !#[trigger] is_file@[j],
        },
{
    let mut candidates = spinepose_json_candidates(location);
    let n: usize = candidates.len();
    assert(path_views(candidates@).len() == n);
    for i in 0..n
        invariant
            n == candidates@.len(),
            path_views(candidates@) == pose_paths(*location),
            n <= is_file@.len(),
            forall|j: int| 0 <= j < i ==> !#[trigger] is_file@[j],
    {
        if is_file[i] {
            assert(path_views(candidates@)[i as int] == candidates@[i as int]@);
            return Some(candidates.remove(i));
        }
    }
    None
}

/// Where the keypoints of an image come from.
#[derive(Debug)]
pub enum PoseSource {
    /// A file that was found.
    Json(PosePath),
    /// The SpinePose runtime.
    Runtime,
}

/// Estimates poses with SpinePose.
#[derive(Clone, Copy, Debug)]
pub struct SpinePoseEstimator;

impl SpinePoseEstimator {
    /// Decides where the keypoints of an image come from: a pose file that lies with it, or the
    /// runtime.
    pub fn pose_source(&self, location: &ImageLocation, is_file: &Vec<bool>) -> (r: PoseSource)
        requires
            pose_paths(*location).len() <= is_file@.len(),
        ensures
            match r {
                PoseSource::Json(path) => exists|i: int|
                    0 <= i < pose_paths(*location).len() && #[trigger] is_file@[i] && path@
                        == pose_paths(*location)[i] && forall|j: int|
                        0 <= j < i ==> !#[trigger] is_file@[j],
                PoseSource::Runtime => forall|j: int|
                    0 <= j < pose_paths(*location).len() ==> !#[trigger] is_file@[j],
            },
    {
        match find_spinepose_json_for_image(location, is_file) {
            Some(path) => PoseSource::Json(path),
            None => PoseSource::Runtime,
        }
    }
}

/// Which Python interpreter runs SpinePose.
#[derive(Clone, Copy, Debug, PartialEq, Eq, Structural)]
pub enum PythonSource {
    /// The one that the environment names.
    Named,
    /// The one that lies with the SpinePose program.
    WithSpinePose,
    /// The first `python3` on the search path.
    Python3,
    /// The first `python` on the search path.
    Python,
}

/// Decides which Python interpreter runs SpinePose: the first that exists, in the order of
/// `PythonSource`. Each argument says whether there is one.
pub fn resolve_spinepose_python(named: bool, with_spinepose: bool, python3: bool, python: bool) -> (r:
    Result<PythonSource, RetrievalError>)
    ensures
        named ==> r == Ok::<PythonSource, RetrievalError>(PythonSource::Named),
        !named && with_spinepose ==> r == Ok::<PythonSource, RetrievalError>(
            PythonSource::WithSpinePose,
        ),
        !named && !with_spinepose && python3 ==> r == Ok::<PythonSource, RetrievalError>(
            PythonSource::Python3,
        ),
        !named && !with_spinepose && !python3 && python ==> r == Ok::<PythonSource, RetrievalError>(
            PythonSource::Python,
        ),
        !named && !with_spinepose && !python3 && !python ==> r is Err && r->Err_0.says(
            "SpinePose runtime not found; run through `mise run ...` or set SPINEPOSE_PYTHON"@,
        ),
{
    if named {
        Ok(PythonSource::Named)
    } else if with_spinepose {
        Ok(PythonSource::WithSpinePose)
    } else if python3 {
        Ok(PythonSource::Python3)
    } else if python {
        Ok(PythonSource::Python)
    } else {
        invalid("SpinePose runtime not found; run through `mise run ...` or set SPINEPOSE_PYTHON")
    }
}

/// Keypoint `k` of a list of values: three values, the last moved into the unit interval.
pub open spec fn keypoint_at(values: Seq<Single>, k: int) -> Keypoint {
    Keypoint {
        x: values[3 * k],
        y: values[3 * k + 1],
        confidence: values[3 * k + 2].unit_clamped(),
    }
}

/// The keypoints in a list of values: whole triples, and no more than SpinePose has.
pub open spec fn keypoints_in(values: Seq<Single>) -> Seq<Keypoint> {
    let n = values.len() / 3;
    Seq::new(
        if n < SPINEPOSE_KEYPOINTS as nat {
            n
        } else {
            SPINEPOSE_KEYPOINTS as nat
        },
        |k: int| keypoint_at(values, k),
    )
}

/// Reads the keypoints out of a list of values.
pub fn person_keypoints(values: &Vec<Single>) -> (r: Vec<Keypoint>)
    ensures
        r@ == keypoints_in(values@),
        values@.len() < 111 ==> r@.len() == values@.len() / 3,
        values@.len() >= 111 ==> r@.len() == 37,
        forall|k: int|
            0 <= k < r@.len() ==> {
                &&& (#[trigger] r@[k]).x == values@[3 * k]
                &&& r@[k].y == values@[3 * k + 1]
                &&& r@[k].confidence == values@[3 * k + 2].unit_clamped()
            },
{
    let whole: usize = values.len() / 3;
    let n: usize = if whole < SPINEPOSE_KEYPOINTS { whole } else { SPINEPOSE_KEYPOINTS };
    let mut r: Vec<Keypoint> = Vec::new();
    for k in 0..n
        invariant
            n <= SPINEPOSE_KEYPOINTS,
            n <= values@.len() / 3,
            r@ =~= keypoints_in(values@).take(k as int),
            keypoints_in(values@).len() == n,
    {
        r.push(
            Keypoint {
                x: values[3 * k],
                y: values[3 * k + 1],
                confidence: values[3 * k + 2].clamp_unit(),
            },
        );
    }
    assert(r@ =~= keypoints_in(values@));
    r
}

/// Whether every person has enough values.
pub open spec fn people_complete(people: Seq<Vec<Single>>) -> bool {
    forall|i: int| 0 <= i < people.len() ==> (#[trigger] people[i])@.len() >= SPINEPOSE_FEATURE_DIM
}

/// The words for a person with too few values.
pub open spec fn too_few_values(shown_path: Seq<char>, count: nat) -> Seq<char> {
    "SpinePose JSON "@ + shown_path + " has "@ + decimal(count)
        + " values for a person, expected at least 111"@
}

/// Reads the people of a pose file, given the values of each.
pub fn read_spinepose_people(shown_path: &str, people: &Vec<Vec<Single>>) -> (r: Result<
    Vec<Vec<Keypoint>>,
    RetrievalError,
>)
    ensures
        r is Ok == people_complete(people@),
        r is Ok ==> r->Ok_0@.len() == people@.len() && forall|i: int|
            0 <= i < people@.len() ==> (#[trigger] r->Ok_0@[i])@ == keypoints_in(people@[i]@),
        r is Ok == forall|i: int| 0 <= i < people@.len() ==> (#[trigger] people@[i])@.len() >= 111,
        r is Ok ==> forall|i: int, k: int|
            0 <= i < people@.len() && 0 <= k < 37 ==> {
                let point = #[trigger] r->Ok_0@[i]@[k];
                &&& point.x == people@[i]@[3 * k]
                &&& point.y == people@[i]@[3 * k + 1]
                &&& point.confidence == people@[i]@[3 * k + 2].unit_clamped()
            },
        r is Ok ==> forall|i: int| 0 <= i < people@.len() ==> (#[trigger] r->Ok_0@[i])@.len() == 37,
        r is Err ==> exists|i: int|
            0 <= i < people@.len() && (#[trigger] people@[i])@.len() < SPINEPOSE_FEATURE_DIM
                && people_complete(people@.take(i)) && r->Err_0.says(
                too_few_values(shown_path@, people@[i]@.len()),
            ),
        r is Err ==> exists|i: int|
            0 <= i < people@.len() && (#[trigger] people@[i])@.len() < 111 && (forall|j: int|
                0 <= j < i ==> (#[trigger] people@[j])@.len() >= 111) && r->Err_0->0@
                == "SpinePose JSON "@ + shown_path@ + " has "@ + decimal(people@[i]@.len())
                + " values for a person, expected at least 111"@,
{
    let n: usize = people.len();
    let mut r: Vec<Vec<Keypoint>> = Vec::new();
    for i in 0..n
        invariant
            n == people@.len(),
            r@.len() == i,
            forall|j: int| 0 <= j < i ==> (#[trigger] people@[j])@.len() >= SPINEPOSE_FEATURE_DIM,
            forall|j: int| 0 <= j < i ==> (#[trigger] r@[j])@ == keypoints_in(people@[j]@),
    {
        let count: usize = people[i].len();
        if count < SPINEPOSE_FEATURE_DIM {
            let mut words = "SpinePose JSON ".to_owned();
            words.append(shown_path);
            words.append(" has ");
            words.append(decimal_text(count).as_str());
            words.append(" values for a person, expected at least 111");
            assert(people@[i as int]@.len() < SPINEPOSE_FEATURE_DIM);
            assert(!people_complete(people@));
            assert(people_complete(people@.take(i as int))) by {
                assert forall|j: int| 0 <= j < i implies (#[trigger] people@.take(i as int)[j])@.len()
                    >= SPINEPOSE_FEATURE_DIM by {
                    assert(people@[j]@.len() >= SPINEPOSE_FEATURE_DIM);
                }
            }
            return invalid(words.as_str());
        }
        r.push(person_keypoints(&people[i]));
    }
    Ok(r)
}

/// Whether person `i` is complete.
pub open spec fn person_counts(people: Seq<Vec<Keypoint>>, i: int) -> bool {
    0 <= i < people.len() && people[i]@.len() >= SPINEPOSE_KEYPOINTS
}

/// Whether person `i` is at least as good as person `j`: by confidence, then by the number of
/// keypoints, then the later one.
pub open spec fn as_good(
    people: Seq<Vec<Keypoint>>,
    confidences: Seq<Single>,
    i: int,
    j: int,
) -> bool {
    let a = confidences[i].total_rank();
    let b = confidences[j].total_rank();
    a > b || (a == b && (people[i]@.len() > people[j]@.len() || (people[i]@.len() == people[j]@.len()
        && i >= j)))
}

/// The complete person with the highest confidence. `confidences` holds the summed confidence of
/// each.
pub fn best_spinepose_person(people: &Vec<Vec<Keypoint>>, confidences: &Vec<Single>) -> (r: Option<
    usize,
>)
    requires
        people@.len() <= confidences@.len(),
    ensures
        match r {
            Some(i) => person_counts(people@, i as int) && forall|j: int| #[trigger]
                person_counts(people@, j) ==> as_good(people@, confidences@, i as int, j),
            None => forall|j: int| !#[trigger] person_counts(people@, j),
        },
        r is None == forall|j: int| 0 <= j < people@.len() ==> (#[trigger] people@[j])@.len() < 37,
        r is Some ==> r->0 < people@.len() && people@[r->0 as int]@.len() >= 37 && forall|j: int|
            0 <= j < people@.len() && (#[trigger] people@[j])@.len() >= 37 ==> {
                let best = confidences@[r->0 as int].total_rank();
                let other = confidences@[j].total_rank();
                &&& other <= best
                &&& other == best ==> people@[j]@.len() <= people@[r->0 as int]@.len()
                &&& other == best && people@[j]@.len() == people@[r->0 as int]@.len() ==> j <= r->0
            },
{
    let n: usize = people.len();
    let mut best: Option<usize> = None;
    for i in 0..n
        invariant
            n == people@.len(),
            n <= confidences@.len(),
            match best {
                Some(b) => person_counts(people@, b as int) && b < i && forall|j: int|
                    j < i && #[trigger] person_counts(people@, j) ==> as_good(
                        people@,
                        confidences@,
                        b as int,
                        j,
                    ),
                None => forall|j: int| j < i ==> !#[trigger] person_counts(people@, j),
            },
    {
        if people[i].len() >= SPINEPOSE_KEYPOINTS {
            let better: bool = match best {
                Some(b) => {
                    let worse: bool = confidences[i].total_less(confidences[b]);
                    let above: bool = confidences[b].total_less(confidences[i]);
                    above || (!worse && people[b].len() <= people[i].len())
                },
                None => true,
            };
            if better {
                best = Some(i);
            }
        }
    }
    proof {
        assert forall|j: int| 0 <= j < people@.len() && (#[trigger] people@[j])@.len() >= 37 implies
            person_counts(people@, j) by {}
        if best is None {
            assert forall|j: int| 0 <= j < people@.len() implies (#[trigger] people@[j])@.len() < 37 by {
                assert(!person_counts(people@, j));
            }
        }
    }
    best
}

/// The bits of the smallest confidence that counts.
pub open spec fn min_confidence() -> Single {
    Single { bits: MIN_KEYPOINT_CONFIDENCE }
}

/// Whether a keypoint shows a landmark: it has enough confidence and a place in the image.
pub open spec fn shows_landmark(k: Keypoint) -> bool {
    min_confidence().le(k.confidence) && k.x.finite() && k.y.finite()
}

/// Which keypoints span the bounds of a person.
#[derive(Clone, Copy, Debug, PartialEq, Eq, Structural)]
pub enum BoundsRule {
    /// Those whose confidence is not below the smallest that counts.
    NotBelow,
    /// Those whose confidence is not that or below.
    NotAtMost,
}

/// Whether a keypoint takes part in the bounds of its person.
pub open spec fn spans(rule: BoundsRule, k: Keypoint) -> bool {
    &&& match rule {
        BoundsRule::NotBelow => !k.confidence.lt(min_confidence()),
        BoundsRule::NotAtMost => !k.confidence.le(min_confidence()),
    }
    &&& k.x.finite()
    &&& k.y.finite()
}

/// The box around keypoints.
#[derive(Clone, Copy, Debug, PartialEq, Eq, Structural)]
pub struct KeypointBounds {
    pub min_x: Single,
    pub min_y: Single,
    pub max_x: Single,
    pub max_y: Single,
}

/// Whether some of the first `n` keypoints spans the bounds.
pub open spec fn any_spans(rule: BoundsRule, points: Seq<Keypoint>, n: int) -> bool {
    exists|i: int| 0 <= i < n && spans(rule, #[trigger] points[i])
}

/// Whether a box is tight around the first `n` keypoints that span it: each side is met by one of
/// them and passed by none. Without such keypoints the box is inside out.
pub open spec fn tight(rule: BoundsRule, points: Seq<Keypoint>, n: int, b: KeypointBounds) -> bool {
    if any_spans(rule, points, n) {
        &&& exists|i: int| 0 <= i < n && spans(rule, #[trigger] points[i]) && points[i].x == b.min_x
        &&& exists|i: int| 0 <= i < n && spans(rule, #[trigger] points[i]) && points[i].y == b.min_y
        &&& exists|i: int| 0 <= i < n && spans(rule, #[trigger] points[i]) && points[i].x == b.max_x
        &&& exists|i: int| 0 <= i < n && spans(rule, #[trigger] points[i]) && points[i].y == b.max_y
        &&& forall|i: int|
            0 <= i < n && spans(rule, #[trigger] points[i]) ==> {
                &&& b.min_x.rank() <= points[i].x.rank() <= b.max_x.rank()
                &&& b.min_y.rank() <= points[i].y.rank() <= b.max_y.rank()
            }
    } else {
        b == KeypointBounds {
            min_x: Single { bits: INFINITY },
            min_y: Single { bits: INFINITY },
            max_x: Single { bits: NEG_INFINITY },
            max_y: Single { bits: NEG_INFINITY },
        }
    }
}

/// Whether a keypoint takes part in the bounds of its person.
fn takes_part(rule: BoundsRule, k: Keypoint) -> (r: bool)
    ensures
        r == spans(rule, k),
{
    let floor = Single { bits: MIN_KEYPOINT_CONFIDENCE };
    let left_out: bool = match rule {
        BoundsRule::NotBelow => k.confidence.less(floor),
        BoundsRule::NotAtMost => k.confidence.at_most(floor),
    };
    !left_out && k.x.is_finite() && k.y.is_finite()
}

fn smaller(a: Single, b: Single) -> (r: Single)
    requires
        !a.nan(),
        !b.nan(),
    ensures
        r == if b.rank() < a.rank() {
            b
        } else {
            a
        },
{
    if b.less(a) {
        b
    } else {
        a
    }
}

fn larger(a: Single, b: Single) -> (r: Single)
    requires
        !a.nan(),
        !b.nan(),
    ensures
        r == if a.rank() < b.rank() {
            b
        } else {
            a
        },
{
    if a.less(b) {
        b
    } else {
        a
    }
}

/// The box around the keypoints of a person, or none where no keypoint spans it. At most the
/// first `limit` keypoints are looked at.
pub fn keypoint_bounds(rule: BoundsRule, points: &Vec<Keypoint>, limit: usize) -> (r: Option<
    KeypointBounds,
>)
    ensures
        ({
            let n = if limit < points@.len() {
                limit as int
            } else {
                points@.len() as int
            };
            &&& r is Some == any_spans(rule, points@, n)
            &&& r is Some ==> tight(rule, points@, n, r->0)
        }),
        r is Some ==> forall|i: int|
            0 <= i < points@.len() && i < limit && (#[trigger] points@[i]).x.finite()
                && points@[i].y.finite() && (Single { bits: 0x3d4c_cccd }).lt(points@[i].confidence)
                ==> {
                &&& r->0.min_x.le(points@[i].x) && points@[i].x.le(r->0.max_x)
                &&& r->0.min_y.le(points@[i].y) && points@[i].y.le(r->0.max_y)
            },
{
    let total: usize = points.len();
    let n: usize = if limit < total { limit } else { total };
    let mut b = KeypointBounds {
        min_x: Single { bits: INFINITY },
        min_y: Single { bits: INFINITY },
        max_x: Single { bits: NEG_INFINITY },
        max_y: Single { bits: NEG_INFINITY },
    };
    let mut found: bool = false;
    for i in 0..n
        invariant
            n <= points@.len(),
            found == any_spans(rule, points@, i as int),
            tight(rule, points@, i as int, b),
            !b.min_x.nan(),
            !b.min_y.nan(),
            !b.max_x.nan(),
            !b.max_y.nan(),
    {
        let k = points[i];
        let ghost before = b;
        if takes_part(rule, k) {
            proof {
                assert(spans(rule, points@[i as int]));
            }
            b = KeypointBounds {
                min_x: smaller(b.min_x, k.x),
                min_y: smaller(b.min_y, k.y),
                max_x: larger(b.max_x, k.x),
                max_y: larger(b.max_y, k.y),
            };
            found = true;
            proof {
                assert(points@[i as int] == k);
                lemma_bounds_step(rule, points@, i as int, before, b);
            }
        } else {
            proof {
                assert(!spans(rule, points@[i as int]));
                lemma_bounds_skip(rule, points@, i as int, b);
            }
        }
    }
    proof {
        if found {
            assert forall|i: int|
                0 <= i < points@.len() && i < limit && (#[trigger] points@[i]).x.finite()
                    && points@[i].y.finite() && (Single { bits: 0x3d4c_cccd }).lt(
                    points@[i].confidence,
                ) implies {
                &&& b.min_x.le(points@[i].x) && points@[i].x.le(b.max_x)
                &&& b.min_y.le(points@[i].y) && points@[i].y.le(b.max_y)
            } by {
                assert(spans(rule, points@[i]));
            }
        }
    }
    if found {
        Some(b)
    } else {
        None
    }
}

/// A box that is tight around keypoints is spanned by those that have a place in the image and
/// whose confidence is not below 0.05, or not at most that: it holds every one of them by both
/// coordinates, and each of its sides is the coordinate of one of them.
pub proof fn law_bounds_are_met_and_not_passed(
    rule: BoundsRule,
    points: Seq<Keypoint>,
    n: int,
    b: KeypointBounds,
)
    requires
        0 <= n <= points.len(),
        any_spans(rule, points, n),
        tight(rule, points, n, b),
    ensures
        ({
            let floor = Single { bits: 0x3d4c_cccd };
            let counts = |k: Keypoint|
                k.x.finite() && k.y.finite() && match rule {
                    BoundsRule::NotBelow => !k.confidence.lt(floor),
                    BoundsRule::NotAtMost => !k.confidence.le(floor),
                };
            &&& forall|i: int|
                0 <= i < n && counts(#[trigger] points[i]) ==> {
                    &&& b.min_x.rank() <= points[i].x.rank() <= b.max_x.rank()
                    &&& b.min_y.rank() <= points[i].y.rank() <= b.max_y.rank()
                }
            &&& exists|i: int| 0 <= i < n && counts(#[trigger] points[i]) && points[i].x == b.min_x
            &&& exists|i: int| 0 <= i < n && counts(#[trigger] points[i]) && points[i].y == b.min_y
            &&& exists|i: int| 0 <= i < n && counts(#[trigger] points[i]) && points[i].x == b.max_x
            &&& exists|i: int| 0 <= i < n && counts(#[trigger] points[i]) && points[i].y == b.max_y
        }),
{
    let floor = Single { bits: 0x3d4c_cccd };
    let counts = |k: Keypoint|
        k.x.finite() && k.y.finite() && match rule {
            BoundsRule::NotBelow => !k.confidence.lt(floor),
            BoundsRule::NotAtMost => !k.confidence.le(floor),
        };
    assert forall|k: Keypoint| #[trigger] counts(k) == spans(rule, k) by {}
    let i1 = choose|i: int| 0 <= i < n && spans(rule, #[trigger] points[i]) && points[i].x == b.min_x;
    let i2 = choose|i: int| 0 <= i < n && spans(rule, #[trigger] points[i]) && points[i].y == b.min_y;
    let i3 = choose|i: int| 0 <= i < n && spans(rule, #[trigger] points[i]) && points[i].x == b.max_x;
    let i4 = choose|i: int| 0 <= i < n && spans(rule, #[trigger] points[i]) && points[i].y == b.max_y;
    assert(counts(points[i1]) && counts(points[i2]) && counts(points[i3]) && counts(points[i4]));
}

/// A keypoint that takes no part leaves the bounds as they are.
proof fn lemma_bounds_skip(rule: BoundsRule, points: Seq<Keypoint>, i: int, b: KeypointBounds)
    requires
        0 <= i < points.len(),
        !spans(rule, points[i]),
        tight(rule, points, i, b),
    ensures
        tight(rule, points, i + 1, b),
        any_spans(rule, points, i + 1) == any_spans(rule, points, i),
{
    if any_spans(rule, points, i) {
        let w = choose|w: int| 0 <= w < i && spans(rule, #[trigger] points[w]);
        assert(0 <= w < i + 1 && spans(rule, points[w]));
        let a = choose|a: int| 0 <= a < i && spans(rule, #[trigger] points[a]) && points[a].x == b.min_x;
        let c = choose|c: int| 0 <= c < i && spans(rule, #[trigger] points[c]) && points[c].y == b.min_y;
        let d = choose|d: int| 0 <= d < i && spans(rule, #[trigger] points[d]) && points[d].x == b.max_x;
        let e = choose|e: int| 0 <= e < i && spans(rule, #[trigger] points[e]) && points[e].y == b.max_y;
        assert(spans(rule, points[a]) && spans(rule, points[c]) && spans(rule, points[d]) && spans(
            rule,
            points[e],
        ));
    } else {
        assert(!any_spans(rule, points, i + 1)) by {
            if any_spans(rule, points, i + 1) {
                let w = choose|w: int| 0 <= w < i + 1 && spans(rule, #[trigger] points[w]);
                assert(w < i);
                assert(any_spans(rule, points, i));
            }
        }
    }
}

/// A keypoint that takes part widens the bounds to itself.
proof fn lemma_bounds_step(
    rule: BoundsRule,
    points: Seq<Keypoint>,
    i: int,
    before: KeypointBounds,
    b: KeypointBounds,
)
    requires
        0 <= i < points.len(),
        spans(rule, points[i]),
        tight(rule, points, i, before),
        b.min_x == if points[i].x.rank() < before.min_x.rank() {
            points[i].x
        } else {
            before.min_x
        },
        b.min_y == if points[i].y.rank() < before.min_y.rank() {
            points[i].y
        } else {
            before.min_y
        },
        b.max_x == if before.max_x.rank() < points[i].x.rank() {
            points[i].x
        } else {
            before.max_x
        },
        b.max_y == if before.max_y.rank() < points[i].y.rank() {
            points[i].y
        } else {
            before.max_y
        },
    ensures
        any_spans(rule, points, i + 1),
        tight(rule, points, i + 1, b),
{
    assert(spans(rule, points[i]));
    assert(any_spans(rule, points, i + 1));
    if any_spans(rule, points, i) {
        let a = choose|a: int|
            0 <= a < i && spans(rule, #[trigger] points[a]) && points[a].x == before.min_x;
        let c = choose|c: int|
            0 <= c < i && spans(rule, #[trigger] points[c]) && points[c].y == before.min_y;
        let d = choose|d: int|
            0 <= d < i && spans(rule, #[trigger] points[d]) && points[d].x == before.max_x;
        let e = choose|e: int|
            0 <= e < i && spans(rule, #[trigger] points[e]) && points[e].y == before.max_y;
        assert(spans(rule, points[a]) && spans(rule, points[c]) && spans(rule, points[d]) && spans(
            rule,
            points[e],
        ));
    } else {
        assert forall|j: int| 0 <= j < i + 1 && spans(rule, #[trigger] points[j]) implies j == i by {
            if j < i {
                assert(any_spans(rule, points, i));
            }
        }
    }
}

/// How the keypoints of a person become features.
#[derive(Clone, Copy, Debug, PartialEq, Eq, Structural)]
pub enum FeaturePlan {
    /// No landmark is shown: all features are zero.
    Zeros,
    /// The keypoints are moved to the middle of their bounds and scaled by them.
    Normalized(KeypointBounds),
}

/// Whether one of the first keypoints shows a landmark.
pub open spec fn any_landmark(points: Seq<Keypoint>) -> bool {
    exists|i: int| 0 <= i < SPINEPOSE_KEYPOINTS && shows_landmark(#[trigger] points[i])
}

/// Decides how the keypoints of a person become features.
pub fn spinepose_feature_plan(points: &Vec<Keypoint>) -> (r: Result<FeaturePlan, RetrievalError>)
    ensures
        points@.len() < SPINEPOSE_KEYPOINTS ==> r is Err && r->Err_0.says(
            "SpinePose returned "@ + decimal(points@.len()) + " keypoints, expected 37"@,
        ),
        points@.len() >= SPINEPOSE_KEYPOINTS && !any_landmark(points@) ==> r == Ok::<
            FeaturePlan,
            RetrievalError,
        >(FeaturePlan::Zeros),
        points@.len() >= SPINEPOSE_KEYPOINTS && any_landmark(points@) ==> r is Ok
            && r->Ok_0 is Normalized && tight(
            BoundsRule::NotBelow,
            points@,
            SPINEPOSE_KEYPOINTS as int,
            r->Ok_0->Normalized_0,
        ),
        r is Err == (points@.len() < 37),
        r is Ok ==> r->Ok_0 is Normalized == exists|i: int|
            0 <= i < 37 && (#[trigger] points@[i]).x.finite() && points@[i].y.finite() && (Single {
                bits: 0x3d4c_cccd,
            }).le(points@[i].confidence),
{
    let count: usize = points.len();
    if count < SPINEPOSE_KEYPOINTS {
        let mut words = "SpinePose returned ".to_owned();
        words.append(decimal_text(count).as_str());
        words.append(" keypoints, expected 37");
        return invalid(words.as_str());
    }
    let mut shown: bool = false;
    for i in 0..SPINEPOSE_KEYPOINTS
        invariant
            points@.len() >= SPINEPOSE_KEYPOINTS,
            shown == exists|j: int| 0 <= j < i && shows_landmark(#[trigger] points@[j]),
    {
        let k = points[i];
        let floor = Single { bits: MIN_KEYPOINT_CONFIDENCE };
        if floor.at_most(k.confidence) && k.x.is_finite() && k.y.is_finite() {
            assert(shows_landmark(points@[i as int]));
            shown = true;
        }
    }
    if !shown {
        proof {
            assert forall|i: int| 0 <= i < 37 implies !((#[trigger] points@[i]).x.finite()
                && points@[i].y.finite() && (Single { bits: 0x3d4c_cccd }).le(
                points@[i].confidence,
            )) by {
                assert(!shows_landmark(points@[i]));
            }
        }
        return Ok(FeaturePlan::Zeros);
    }
    proof {
        let w = choose|w: int| 0 <= w < SPINEPOSE_KEYPOINTS && shows_landmark(#[trigger] points@[w]);
        assert(spans(BoundsRule::NotBelow, points@[w]));
        assert(points@[w].x.finite() && points@[w].y.finite() && (Single { bits: 0x3d4c_cccd }).le(
            points@[w].confidence,
        ));
    }
    match keypoint_bounds(BoundsRule::NotBelow, points, SPINEPOSE_KEYPOINTS) {
        Some(bounds) => Ok(FeaturePlan::Normalized(bounds)),
        None => Ok(FeaturePlan::Zeros),
    }
}

/// Picks the person of a pose file that counts, and decides how its keypoints become features.
pub fn read_spinepose_features(people: &Vec<Vec<Keypoint>>, confidences: &Vec<Single>) -> (r: Result<
    (usize, FeaturePlan),
    RetrievalError,
>)
    requires
        people@.len() <= confidences@.len(),
    ensures
        r is Err == (forall|j: int| !#[trigger] person_counts(people@, j)),
        r is Err ==> r->Err_0.says("SpinePose JSON did not contain any people"@),
        r is Ok ==> {
            let i = r->Ok_0.0 as int;
            let plan = r->Ok_0.1;
            &&& person_counts(people@, i)
            &&& forall|j: int| #[trigger]
                person_counts(people@, j) ==> as_good(people@, confidences@, i, j)
            &&& plan is Zeros == !any_landmark(people@[i]@)
            &&& plan is Normalized ==> tight(
                BoundsRule::NotBelow,
                people@[i]@,
                SPINEPOSE_KEYPOINTS as int,
                plan->Normalized_0,
            )
        },
{
    match best_spinepose_person(people, confidences) {
        Some(i) => match spinepose_feature_plan(&people[i]) {
            Ok(plan) => Ok((i, plan)),
            Err(error) => Err(error),
        },
        None => invalid("SpinePose JSON did not contain any people"),
    }
}

/// Picks the person that counts among those that the runtime detected.
pub fn detected_person(people: &Vec<Vec<Keypoint>>, confidences: &Vec<Single>) -> (r: Result<
    usize,
    RetrievalError,
>)
    requires
        people@.len() <= confidences@.len(),
    ensures
        r is Err == (forall|j: int| !#[trigger] person_counts(people@, j)),
        r is Err ==> r->Err_0.says("SpinePose did not detect a person"@),
        r is Ok ==> person_counts(people@, r->Ok_0 as int) && forall|j: int| #[trigger]
            person_counts(people@, j) ==> as_good(people@, confidences@, r->Ok_0 as int, j),
{
    match best_spinepose_person(people, confidences) {
        Some(i) => Ok(i),
        None => invalid("SpinePose did not detect a person"),
    }
}

/// Feature `f` of keypoints whose moved and scaled places are `xs` and `ys`: for each keypoint its
/// place and its confidence.
pub open spec fn feature_at(points: Seq<Keypoint>, xs: Seq<Single>, ys: Seq<Single>, f: int) -> Single {
    let k = f / 3;
    if f % 3 == 0 {
        xs[k]
    } else if f % 3 == 1 {
        ys[k]
    } else {
        points[k].confidence.unit_clamped()
    }
}

/// Lays out the features of a person, given the moved and scaled places of its keypoints.
pub fn lay_out_features(points: &Vec<Keypoint>, xs: &Vec<Single>, ys: &Vec<Single>) -> (r: Vec<
    Single,
>)
    requires
        points@.len() >= SPINEPOSE_KEYPOINTS,
        xs@.len() >= SPINEPOSE_KEYPOINTS,
        ys@.len() >= SPINEPOSE_KEYPOINTS,
    ensures
        r@.len() == SPINEPOSE_FEATURE_DIM,
        forall|f: int|
            0 <= f < SPINEPOSE_FEATURE_DIM ==> #[trigger] r@[f] == feature_at(points@, xs@, ys@, f),
        r@.len() == 111,
        forall|k: int|
            0 <= k < 37 ==> {
                &&& r@[3 * k] == xs@[k]
                &&& r@[3 * k + 1] == ys@[k]
                &&& r@[3 * k + 2] == (#[trigger] points@[k]).confidence.unit_clamped()
            },
{
    let mut r: Vec<Single> = Vec::new();
    for k in 0..SPINEPOSE_KEYPOINTS
        invariant
            points@.len() >= SPINEPOSE_KEYPOINTS,
            xs@.len() >= SPINEPOSE_KEYPOINTS,
            ys@.len() >= SPINEPOSE_KEYPOINTS,
            r@.len() == 3 * k,
            forall|f: int| 0 <= f < 3 * k ==> #[trigger] r@[f] == feature_at(points@, xs@, ys@, f),
    {
        r.push(xs[k]);
        r.push(ys[k]);
        r.push(points[k].confidence.clamp_unit());
    }
    r
}

/// The features of a person that shows no landmark.
pub fn zero_features() -> (r: Vec<Single>)
    ensures
        r@ == Seq::new(SPINEPOSE_FEATURE_DIM as nat, |i: int| Single { bits: ZERO }),
        r@.len() == 111,
        forall|i: int| 0 <= i < 111 ==> (#[trigger] r@[i]).bits == 0,
{
    let mut r: Vec<Single> = Vec::new();
    for i in 0..SPINEPOSE_FEATURE_DIM
        invariant
            r@ =~= Seq::new(i as nat, |j: int| Single { bits: ZERO }),
    {
        r.push(Single { bits: ZERO });
    }
    r
}

/// Whether person `i` can stand for an annotation with `num_joints` joints.
pub open spec fn can_match(people: Seq<Vec<Keypoint>>, num_joints: usize, i: int) -> bool {
    &&& 0 <= i < people.len()
    &&& people[i]@.len() >= num_joints
    &&& any_spans(BoundsRule::NotAtMost, people[i]@, people[i]@.len() as int)
}

/// Whether person `i` is the first with the highest score, among those that can match.
pub open spec fn best_match(
    people: Seq<Vec<Keypoint>>,
    scores: Seq<Single>,
    num_joints: usize,
    i: int,
) -> bool {
    &&& can_match(people, num_joints, i)
    &&& (Single { bits: NEG_INFINITY }).lt(scores[i])
    &&& forall|j: int| #[trigger]
        can_match(people, num_joints, j) && j != i && (Single { bits: NEG_INFINITY }).lt(scores[j])
            ==> scores[j].lt(scores[i]) || (scores[j].rank() == scores[i].rank() && i < j)
}

/// The first keypoints of the person that matches an annotation best, where one does.
pub open spec fn matched_points(
    people: Seq<Vec<Keypoint>>,
    scores: Seq<Single>,
    num_joints: usize,
) -> Option<Seq<Keypoint>> {
    if num_joints <= SPINEPOSE_KEYPOINTS && exists|i: int| #[trigger]
        best_match(people, scores, num_joints, i) {
        let i = choose|i: int| #[trigger] best_match(people, scores, num_joints, i);
        Some(people[i]@.take(num_joints as int))
    } else {
        None
    }
}

/// One person matches an annotation best.
proof fn lemma_best_match_unique(
    people: Seq<Vec<Keypoint>>,
    scores: Seq<Single>,
    num_joints: usize,
    i: int,
    j: int,
)
    requires
        best_match(people, scores, num_joints, i),
        best_match(people, scores, num_joints, j),
    ensures
        i == j,
{
    assert(can_match(people, num_joints, i) && can_match(people, num_joints, j));
}

/// The keypoints of the person that matches an annotation best. `scores` says how well each
/// matches.
pub fn match_spinepose_person(
    people: &Vec<Vec<Keypoint>>,
    scores: &Vec<Single>,
    num_joints: usize,
) -> (r: Option<Vec<Keypoint>>)
    requires
        people@.len() <= scores@.len(),
    ensures
        match r {
            Some(points) => matched_points(people@, scores@, num_joints) == Some(points@),
            None => matched_points(people@, scores@, num_joints) is None,
        },
        r is None == (num_joints > SPINEPOSE_KEYPOINTS || forall|i: int| #[trigger]
            can_match(people@, num_joints, i) ==> !(Single { bits: NEG_INFINITY }).lt(scores@[i])),
{
    if num_joints > SPINEPOSE_KEYPOINTS {
        return None;
    }
    let n: usize = people.len();
    let lowest = Single { bits: NEG_INFINITY };
    let mut best: Option<usize> = None;
    for i in 0..n
        invariant
            n == people@.len(),
            n <= scores@.len(),
            lowest == (Single { bits: NEG_INFINITY }),
            match best {
                Some(b) => b < i && can_match(people@, num_joints, b as int) && lowest.lt(
                    scores@[b as int],
                ) && forall|j: int|
                    j < i && #[trigger] can_match(people@, num_joints, j) && j != b && lowest.lt(
                        scores@[j],
                    ) ==> scores@[j].lt(scores@[b as int]) || (scores@[j].rank()
                        == scores@[b as int].rank() && b < j),
                None => forall|j: int|
                    j < i && #[trigger] can_match(people@, num_joints, j) ==> !lowest.lt(scores@[j]),
            },
    {
        if people[i].len() >= num_joints && keypoint_bounds(
            BoundsRule::NotAtMost,
            &people[i],
            people[i].len(),
        ).is_some() {
            assert(can_match(people@, num_joints, i as int));
            let better: bool = match best {
                Some(b) => scores[b].less(scores[i]),
                None => lowest.less(scores[i]),
            };
            if better {
                best = Some(i);
            }
        }
    }
    match best {
        Some(b) => {
            assert(best_match(people@, scores@, num_joints, b as int));
            let mut points: Vec<Keypoint> = Vec::new();
            for k in 0..num_joints
                invariant
                    b < people@.len(),
                    num_joints <= people@[b as int]@.len(),
                    points@ =~= people@[b as int]@.take(k as int),
            {
                points.push(people[b][k]);
            }
            proof {
                let i = choose|i: int| #[trigger] best_match(people@, scores@, num_joints, i);
                lemma_best_match_unique(people@, scores@, num_joints, i, b as int);
            }
            Some(points)
        },
        None => None,
    }
}

/// The keypoints of a person are the triples of its values, in their order: column, row, and the
/// confidence moved into the unit interval. There are no more than 37 of them.
pub proof fn law_keypoints_are_triples(values: Seq<Single>, k: int)
    requires
        0 <= k < 37,
        3 * k + 2 < values.len(),
    ensures
        k < keypoints_in(values).len() <= 37,
        keypoints_in(values)[k].x == values[3 * k],
        keypoints_in(values)[k].y == values[3 * k + 1],
        keypoints_in(values)[k].confidence == values[3 * k + 2].unit_clamped(),
{
}

/// The person who matches an annotation is one of the people: one with enough keypoints, some of
/// which have a place in the image and more confidence than 0.05. Nobody else of that kind has a
/// higher score, and nobody before them the same. Their first keypoints are taken.
pub proof fn law_match_has_the_highest_score(
    people: Seq<Vec<Keypoint>>,
    scores: Seq<Single>,
    num_joints: usize,
)
    ensures
        ({
            let floor = Single { bits: 0x3d4c_cccd };
            let lowest = Single { bits: 0xff80_0000 };
            let seen = |k: Keypoint| k.x.finite() && k.y.finite() && !k.confidence.le(floor);
            let eligible = |j: int|
                0 <= j < people.len() && people[j]@.len() >= num_joints && lowest.lt(scores[j])
                    && exists|k: int| 0 <= k < people[j]@.len() && seen(#[trigger] people[j]@[k]);
            match matched_points(people, scores, num_joints) {
                Some(points) => num_joints <= 37 && exists|i: int| #[trigger]
                    eligible(i) && points == people[i]@.take(num_joints as int) && forall|j: int|
                        #[trigger] eligible(j) ==> scores[j].rank() <= scores[i].rank() && (
                        scores[j].rank() == scores[i].rank() ==> i <= j),
                None => num_joints > 37 || forall|j: int| !#[trigger] eligible(j),
            }
        }),
{
    let floor = Single { bits: 0x3d4c_cccd };
    let lowest = Single { bits: 0xff80_0000 };
    let seen = |k: Keypoint| k.x.finite() && k.y.finite() && !k.confidence.le(floor);
    let eligible = |j: int|
        0 <= j < people.len() && people[j]@.len() >= num_joints && lowest.lt(scores[j])
            && exists|k: int| 0 <= k < people[j]@.len() && seen(#[trigger] people[j]@[k]);
    assert forall|j: int| #[trigger] eligible(j) == (can_match(people, num_joints, j) && lowest.lt(
        scores[j],
    )) by {
        if 0 <= j < people.len() {
            let own = people[j]@;
            assert forall|k: Keypoint| #[trigger] seen(k) == spans(BoundsRule::NotAtMost, k) by {}
            if exists|k: int| 0 <= k < own.len() && seen(#[trigger] own[k]) {
                let k = choose|k: int| 0 <= k < own.len() && seen(#[trigger] own[k]);
                assert(spans(BoundsRule::NotAtMost, own[k]));
            }
            if any_spans(BoundsRule::NotAtMost, own, own.len() as int) {
                let k = choose|k: int|
                    0 <= k < own.len() && spans(BoundsRule::NotAtMost, #[trigger] own[k]);
                assert(seen(own[k]));
            }
        }
    }
    match matched_points(people, scores, num_joints) {
        Some(points) => {
            let i = choose|i: int| #[trigger] best_match(people, scores, num_joints, i);
            assert(best_match(people, scores, num_joints, i));
            assert(eligible(i));
            assert forall|j: int| #[trigger] eligible(j) implies scores[j].rank()
                <= scores[i].rank() && (scores[j].rank() == scores[i].rank() ==> i <= j) by {
                assert(can_match(people, num_joints, j));
            }
        },
        None => {
            if num_joints <= 37 {
                assert forall|j: int| !#[trigger] eligible(j) by {
                    if eligible(j) {
                        lemma_some_best_match(people, scores, num_joints, people.len() as int, j);
                    }
                }
            }
        },
    }
}

/// Among people of whom one can match, there is one who matches best.
proof fn lemma_some_best_match(
    people: Seq<Vec<Keypoint>>,
    scores: Seq<Single>,
    num_joints: usize,
    n: int,
    j: int,
)
    requires
        n == people.len(),
        can_match(people, num_joints, j),
        (Single { bits: NEG_INFINITY }).lt(scores[j]),
    ensures
        exists|i: int| #[trigger] best_match(people, scores, num_joints, i),
{
    let i = lemma_best_among(people, scores, num_joints, n, j);
    assert(best_match(people, scores, num_joints, i));
}

/// Finds the one who matches best among the first people.
proof fn lemma_best_among(
    people: Seq<Vec<Keypoint>>,
    scores: Seq<Single>,
    num_joints: usize,
    n: int,
    j: int,
) -> (i: int)
    requires
        0 <= j < n <= people.len(),
        can_match(people, num_joints, j),
        (Single { bits: NEG_INFINITY }).lt(scores[j]),
    ensures
        0 <= i < n,
        can_match(people, num_joints, i),
        (Single { bits: NEG_INFINITY }).lt(scores[i]),
        forall|k: int|
            k < n && #[trigger] can_match(people, num_joints, k) && k != i && (Single {
                bits: NEG_INFINITY,
            }).lt(scores[k]) ==> scores[k].lt(scores[i]) || (scores[k].rank() == scores[i].rank()
                && i < k),
    decreases n,
{
    let lowest = Single { bits: NEG_INFINITY };
    let last = n - 1;
    let counts = can_match(people, num_joints, last) && lowest.lt(scores[last]);
    if exists|k: int| 0 <= k < last && #[trigger] can_match(people, num_joints, k) && lowest.lt(
        scores[k],
    ) {
        let k = choose|k: int|
            0 <= k < last && #[trigger] can_match(people, num_joints, k) && lowest.lt(scores[k]);
        let before = lemma_best_among(people, scores, num_joints, last, k);
        if counts && scores[before].lt(scores[last]) {
            last
        } else {
            before
        }
    } else {
        assert(j == last);
        last
    }
}

/// Pose files are looked for in a directory `poses`: beside the directory of the image, there also
/// in a directory of the same name, and beside the image. Their name is that of the image with
/// the extension `json`.
pub proof fn law_pose_files_lie_around_the_image(location: ImageLocation)
    ensures
        ({
            let paths = pose_paths(location);
            let file = with_extension(location.stem->0@, "json"@);
            let known = location.has_parent && location.stem is Some;
            let above = known && location.has_grandparent;
            &&& !known ==> paths.len() == 0
            &&& known ==> paths.len() > 0 && paths.last().base is Parent && paths.last().names
                == seq!["poses"@, file]
            &&& known && !location.has_grandparent ==> paths.len() == 1
            &&& above ==> paths[0].base is Grandparent && paths[0].names == seq!["poses"@, file]
            &&& above && location.split is None ==> paths.len() == 2
            &&& above && location.split is Some ==> paths.len() == 3 && paths[1].base is Grandparent
                && paths[1].names == seq!["poses"@, location.split->0@, file]
        }),
{
}

/// A keypoint spans the bounds of its person where it has a place and a confidence that is not
/// below 0.05, or by the other rule not 0.05 or below; it shows a landmark where it has a place and
/// a confidence of at least 0.05.
pub proof fn law_which_keypoints_count(k: Keypoint)
    ensures
        spans(BoundsRule::NotBelow, k) <==> k.x.finite() && k.y.finite() && !k.confidence.lt(
            Single { bits: 0x3d4c_cccd },
        ),
        spans(BoundsRule::NotAtMost, k) <==> k.x.finite() && k.y.finite() && !k.confidence.le(
            Single { bits: 0x3d4c_cccd },
        ),
        shows_landmark(k) <==> k.x.finite() && k.y.finite() && (Single { bits: 0x3d4c_cccd }).le(
            k.confidence,
        ),
{
}

} // verus!
