use std::collections::HashMap;

use pose_obc_retrieval::floats::Single;
use pose_obc_retrieval::pose::data::{
    match_annotations, AnnotationBox, CocoAnnotation, CocoImage, CocoPoseDataset, PoseDataConfig,
    PoseTensorBatch, PoseTensorSample,
};
use pose_obc_retrieval::pose::heatmap::{
    bilinear_corners, heatmap_cells, pixel_offset, HeatmapWindow, PixelCorners,
};
use pose_obc_retrieval::pose::train::{
    ensure_evaluable, ensure_samples, PoseTrainError, PoseTrainingConfig, PrefetchedTensorBatches,
};
use pose_obc_retrieval::spinepose::{
    best_spinepose_person, detected_person, find_spinepose_json_for_image, keypoint_bounds,
    lay_out_features, match_spinepose_person, person_keypoints, read_spinepose_features,
    read_spinepose_people, resolve_spinepose_python, spinepose_feature_plan,
    spinepose_json_candidates, zero_features, BoundsRule, FeaturePlan, ImageLocation, Keypoint,
    KeypointBounds, PoseBase, PoseSource, PythonSource, SpinePoseEstimator, SPINEPOSE_FEATURE_DIM,
    SPINEPOSE_KEYPOINTS,
};

fn single(value: f32) -> Single {
    Single::from_bits(value.to_bits())
}

fn singles(values: &[f32]) -> Vec<Single> {
    values.iter().map(|value| single(*value)).collect()
}

fn keypoint(x: f32, y: f32, confidence: f32) -> Keypoint {
    Keypoint {
        x: single(x),
        y: single(y),
        confidence: single(confidence),
    }
}

fn person(confidence: f32) -> Vec<Keypoint> {
    (0..SPINEPOSE_KEYPOINTS)
        .map(|k| keypoint(k as f32, 2.0 * k as f32, confidence))
        .collect()
}

fn image(id: u64, path: &str) -> CocoImage {
    CocoImage {
        id,
        path: path.to_string(),
        width: Some(640),
        height: None,
    }
}

fn annotation(image_id: u64) -> CocoAnnotation {
    CocoAnnotation {
        image_id,
        bbox: singles(&[1.0, 2.0, 30.0, 40.0]),
        keypoints: singles(&[5.0, 6.0, 2.0, 0.0, 0.0, 0.0]),
        num_keypoints: Some(1),
        iscrowd: Some(0),
    }
}

fn location() -> ImageLocation {
    ImageLocation {
        has_parent: true,
        has_grandparent: true,
        split: Some("train2017".to_string()),
        stem: Some("0001.v2".to_string()),
    }
}

#[test]
fn heatmaps_have_a_quarter_of_the_input_size() {
    let config = PoseDataConfig::from_input(128, 96, 17);
    assert_eq!((config.heatmap_height, config.heatmap_width), (32, 24));
    assert_eq!(config.num_joints, 17);
    assert_eq!(f32::from_bits(config.sigma.to_bits()), 2.0);
    assert_eq!(f32::from_bits(config.bbox_padding.to_bits()), 1.25);
    assert_eq!(f32::from_bits(config.mean_red.to_bits()), 0.485);
    assert_eq!(f32::from_bits(config.std_blue.to_bits()), 0.225);

    let coco = PoseDataConfig::coco_256x192(17);
    assert_eq!((coco.input_height, coco.input_width), (256, 192));
    assert_eq!((coco.heatmap_height, coco.heatmap_width), (64, 48));
}

#[test]
fn annotations_become_samples() {
    let config = PoseDataConfig::from_input(64, 48, 2);
    let mut crowd = annotation(1);
    crowd.iscrowd = Some(1);
    let mut unlabeled = annotation(1);
    unlabeled.num_keypoints = None;
    unlabeled.keypoints = singles(&[5.0, 6.0, 0.0, 0.0, 0.0, 0.0]);
    let mut flat = annotation(1);
    flat.bbox = singles(&[1.0, 2.0, 1.0, 40.0]);
    let images = vec![image(1, "old.jpg"), image(1, "new.jpg")];
    let annotations = vec![crowd, annotation(9), unlabeled, flat, annotation(1)];

    let dataset =
        CocoPoseDataset::from_coco("ann.json", &images, &annotations, config).expect("dataset");

    assert_eq!(dataset.len(), 1);
    assert!(!dataset.is_empty());
    assert_eq!(dataset.config(), config);
    let sample = dataset.sample(0).expect("sample");
    assert_eq!(sample.image_path, "new.jpg");
    assert_eq!((sample.image_width, sample.image_height), (640, 0));
    assert_eq!(
        sample.bbox,
        AnnotationBox {
            x: single(1.0),
            y: single(2.0),
            width: single(30.0),
            height: single(40.0)
        }
    );
    assert_eq!(
        sample.keypoints,
        vec![keypoint(5.0, 6.0, 2.0), keypoint(0.0, 0.0, 0.0)]
    );
    assert_eq!(
        dataset.sample(1).expect_err("outside").message(),
        "invalid dataset: sample index 1 out of range"
    );
}

#[test]
fn annotation_files_without_samples_are_refused() {
    let config = PoseDataConfig::from_input(64, 48, 2);
    assert_eq!(
        CocoPoseDataset::from_coco("ann.json", &vec![], &vec![annotation(1)], config)
            .expect_err("no images")
            .message(),
        "invalid dataset: no valid pose samples found in ann.json"
    );
    assert_eq!(
        CocoPoseDataset::from_samples(vec![], config)
            .expect_err("no samples")
            .message(),
        "invalid dataset: dataset requires at least one sample"
    );
}

#[test]
fn datasets_can_be_limited() {
    let config = PoseDataConfig::from_input(64, 48, 2);
    let dataset = CocoPoseDataset::from_coco(
        "ann.json",
        &vec![image(1, "a.jpg"), image(2, "b.jpg")],
        &vec![annotation(1), annotation(2)],
        config,
    )
    .expect("dataset");

    assert_eq!(dataset.limited(Some(1)).samples()[0].image_path, "a.jpg");
    assert_eq!(dataset.limited(Some(1)).len(), 1);
    assert_eq!(dataset.limited(Some(9)).len(), 2);
    assert_eq!(dataset.limited(None).len(), 2);
}

#[test]
fn batches_join_their_samples() {
    let config = PoseDataConfig::from_input(64, 48, 2);
    let samples: Vec<PoseTensorSample<u8>> = (0..2)
        .map(|i| PoseTensorSample {
            image: vec![i, 10 + i],
            target: vec![20 + i],
            target_weight: vec![30 + i],
        })
        .collect();

    let batch = PoseTensorBatch::of_samples(&samples, config).expect("batch");

    assert_eq!(batch.images, vec![0, 10, 1, 11]);
    assert_eq!(batch.targets, vec![20, 21]);
    assert_eq!(batch.target_weight, vec![30, 31]);
    assert_eq!(batch.len(), 2);
    assert!(!batch.is_empty());
    assert_eq!((batch.heatmap_height, batch.heatmap_width), (16, 12));
    let empty: Vec<PoseTensorSample<u8>> = vec![];
    assert_eq!(
        PoseTensorBatch::of_samples(&empty, config)
            .expect_err("empty")
            .message(),
        "invalid dataset: batch requires at least one sample"
    );
}

#[test]
fn heatmap_windows_stay_in_the_heatmap() {
    assert_eq!(
        HeatmapWindow::around(1, 10, 6, 48, 12),
        HeatmapWindow {
            left: 0,
            right: 7,
            top: 4,
            bottom: 11
        }
    );
    let outside = HeatmapWindow::around(100, 5, 6, 48, 64);
    let config = PoseDataConfig::coco_256x192(17);
    assert!(heatmap_cells(config, 0, outside).is_empty());
}

#[test]
fn heatmap_cells_know_their_offsets() {
    let config = PoseDataConfig::from_input(16, 12, 3);
    let window = HeatmapWindow::around(0, 3, 1, 3, 4);

    let cells = heatmap_cells(config, 2, window);

    let found: Vec<(usize, usize, usize)> =
        cells.iter().map(|cell| (cell.x, cell.y, cell.offset)).collect();
    assert_eq!(
        found,
        vec![(0, 2, 30), (1, 2, 31), (0, 3, 33), (1, 3, 34)]
    );
}

#[test]
fn pixels_have_their_place() {
    assert_eq!(pixel_offset(2, 1, 3, 4, 5), 48);
    assert_eq!(
        bilinear_corners(3, 2, 4, 4),
        PixelCorners {
            x0: 3,
            y0: 2,
            x1: 3,
            y1: 3
        }
    );
}

#[test]
fn pose_training_settings_are_checked() {
    let mut config = PoseTrainingConfig::coco_default("runs");
    assert!(config.validate().is_ok());
    assert_eq!(f64::from_bits(config.learning_rate.to_bits()), 2e-3);
    assert_eq!(config.checkpoint_dir, "runs");

    config.epochs = 0;
    assert_eq!(
        config.validate().expect_err("epochs").message(),
        "invalid config: epochs must be greater than zero"
    );
    config.batch_size = 0;
    assert_eq!(
        config.validate().expect_err("batch size").message(),
        "invalid config: batch_size must be greater than zero"
    );
    assert!(ensure_samples(1, None).is_ok());
    assert_eq!(
        ensure_samples(0, Some(0)).expect_err("training").message(),
        "invalid config: training dataset is empty after applying max_train_samples"
    );
    assert_eq!(
        ensure_samples(1, Some(0)).expect_err("validation").message(),
        "invalid config: validation dataset is empty after applying max_val_samples"
    );
    assert!(ensure_evaluable(1, 1).is_ok());
    assert_eq!(
        ensure_evaluable(1, 0).expect_err("samples").message(),
        "invalid config: validation dataset is empty"
    );
}

#[test]
fn prefetched_batches_are_counted_down() {
    let mut batches = PrefetchedTensorBatches::new(2);
    assert!(batches.expects_batch());
    assert!(batches.expects_batch());
    assert!(!batches.expects_batch());
    assert!(matches!(
        PrefetchedTensorBatches::worker_stopped(),
        PoseTrainError::Prefetch(_)
    ));
    assert_eq!(
        PrefetchedTensorBatches::worker_stopped().message(),
        "prefetch error: batch prefetch worker stopped"
    );
}

#[test]
fn pose_files_are_looked_for_around_the_image() {
    let paths = spinepose_json_candidates(&location());

    let found: Vec<(PoseBase, String)> = paths
        .iter()
        .map(|path| (path.base, path.names.join("/")))
        .collect();
    assert_eq!(
        found,
        vec![
            (PoseBase::Grandparent, "poses/0001.json".to_string()),
            (
                PoseBase::Grandparent,
                "poses/train2017/0001.json".to_string()
            ),
            (PoseBase::Parent, "poses/0001.json".to_string()),
        ]
    );

    let second = find_spinepose_json_for_image(&location(), &vec![false, true, true])
        .expect("second path");
    assert_eq!(second.names, vec!["poses", "train2017", "0001.json"]);
    assert!(find_spinepose_json_for_image(&location(), &vec![false; 3]).is_none());
    let mut bare = location();
    bare.has_parent = false;
    assert!(spinepose_json_candidates(&bare).is_empty());
    assert!(matches!(
        SpinePoseEstimator.pose_source(&bare, &vec![]),
        PoseSource::Runtime
    ));
    assert!(matches!(
        SpinePoseEstimator.pose_source(&location(), &vec![true, false, false]),
        PoseSource::Json(_)
    ));
}

#[test]
fn people_are_read_as_triples() {
    let mut values = vec![0.5_f32; SPINEPOSE_FEATURE_DIM];
    values[2] = 7.0;
    let people = read_spinepose_people("a.json", &vec![singles(&values)]).expect("people");
    assert_eq!(people[0].len(), SPINEPOSE_KEYPOINTS);
    assert_eq!(people[0][0], keypoint(0.5, 0.5, 1.0));

    assert_eq!(person_keypoints(&singles(&[1.0, 2.0, 0.5, 9.0])).len(), 1);
    assert_eq!(
        read_spinepose_people("a.json", &vec![singles(&[0.0; 5])])
            .expect_err("short")
            .message(),
        "SpinePose JSON a.json has 5 values for a person, expected at least 111"
    );
}

#[test]
fn best_person_has_the_highest_confidence() {
    let people = vec![person(0.5), vec![], person(0.9), person(0.9)];
    let confidences = singles(&[18.5, 99.0, 33.3, 33.3]);

    assert_eq!(best_spinepose_person(&people, &confidences), Some(3));
    assert_eq!(detected_person(&people, &confidences).ok(), Some(3));
    assert_eq!(best_spinepose_person(&vec![], &vec![]), None);
    assert_eq!(
        detected_person(&vec![], &vec![]).expect_err("nobody").message(),
        "SpinePose did not detect a person"
    );
    assert_eq!(
        read_spinepose_features(&vec![], &vec![])
            .expect_err("nobody")
            .message(),
        "SpinePose JSON did not contain any people"
    );
}

#[test]
fn features_are_planned_from_the_bounds() {
    let bounds = KeypointBounds {
        min_x: single(0.0),
        min_y: single(0.0),
        max_x: single(36.0),
        max_y: single(72.0),
    };
    assert_eq!(
        spinepose_feature_plan(&person(0.5)).ok(),
        Some(FeaturePlan::Normalized(bounds))
    );
    assert_eq!(
        spinepose_feature_plan(&person(0.01)).ok(),
        Some(FeaturePlan::Zeros)
    );
    assert_eq!(
        spinepose_feature_plan(&vec![]).expect_err("none").message(),
        "SpinePose returned 0 keypoints, expected 37"
    );
    assert_eq!(
        read_spinepose_features(&vec![person(0.5)], &singles(&[1.0])).ok(),
        Some((0, FeaturePlan::Normalized(bounds)))
    );
}

#[test]
fn bounds_differ_at_the_smallest_confidence() {
    let points = vec![keypoint(1.0, 2.0, 0.05)];
    assert!(keypoint_bounds(BoundsRule::NotBelow, &points, 1).is_some());
    assert!(keypoint_bounds(BoundsRule::NotAtMost, &points, 1).is_none());
}

#[test]
fn features_are_laid_out_by_keypoint() {
    let points = person(0.5);
    let xs = singles(&[0.25; SPINEPOSE_KEYPOINTS]);
    let ys = singles(&[0.75; SPINEPOSE_KEYPOINTS]);

    let features = lay_out_features(&points, &xs, &ys);

    assert_eq!(features.len(), SPINEPOSE_FEATURE_DIM);
    assert_eq!(features[3], single(0.25));
    assert_eq!(features[4], single(0.75));
    assert_eq!(features[5], single(0.5));
    assert_eq!(zero_features(), singles(&[0.0; SPINEPOSE_FEATURE_DIM]));
}

#[test]
fn annotations_are_matched_with_the_best_person() {
    let people = vec![person(0.5), person(0.0), person(0.7)];

    let points =
        match_spinepose_person(&people, &singles(&[0.25, 0.9, 0.5]), 17).expect("a match");
    assert_eq!(points.len(), 17);
    assert_eq!(points[3], keypoint(3.0, 6.0, 0.7));

    let first = match_spinepose_person(&people, &singles(&[0.5, 0.0, 0.5]), 17).expect("a match");
    assert_eq!(first[0].confidence, single(0.5));
    assert!(match_spinepose_person(&people, &singles(&[1.0, 1.0, 1.0]), 38).is_none());
}

#[test]
fn matched_annotations_get_the_keypoints_of_people() {
    let mut people = HashMap::new();
    people.insert(1, vec![person(0.5), person(0.7)]);
    people.insert(2, vec![person(0.0)]);
    let mut open = annotation(1);
    open.bbox.pop();
    let mut crowd = annotation(1);
    crowd.iscrowd = Some(1);
    let annotations = vec![annotation(1), annotation(2), annotation(3), open, crowd];
    let scores = vec![
        singles(&[0.1, 0.2]),
        singles(&[0.9]),
        vec![],
        singles(&[0.2, 0.1]),
        singles(&[0.2, 0.1]),
    ];

    let matched = match_annotations(&annotations, &people, &scores, 2);

    assert_eq!(matched.len(), 2);
    assert_eq!(matched[0].image_id, 1);
    assert_eq!(matched[0].bbox, annotation(1).bbox);
    assert_eq!(
        matched[0].keypoints,
        singles(&[0.0, 0.0, 0.7, 1.0, 2.0, 0.7])
    );
    assert_eq!((matched[0].num_keypoints, matched[0].iscrowd), (None, Some(0)));
    assert_eq!(
        matched[1].keypoints,
        singles(&[0.0, 0.0, 0.5, 1.0, 2.0, 0.5])
    );
    assert_eq!(matched[1].iscrowd, Some(1));
}

#[test]
fn matched_annotations_become_samples() {
    let config = PoseDataConfig::from_input(64, 48, 2);
    let images = vec![image(1, "one.jpg"), image(2, "two.jpg")];
    let annotations = vec![annotation(2), annotation(1)];
    let scores = vec![vec![], singles(&[0.1, 0.2])];
    let mut people = HashMap::new();
    people.insert(1, vec![person(0.5), person(0.7)]);

    let dataset = CocoPoseDataset::from_coco_with_spinepose(
        "ann.json",
        &images,
        &annotations,
        &people,
        &scores,
        config,
    )
    .expect("dataset");

    assert_eq!(dataset.len(), 1);
    assert_eq!(dataset.config(), config);
    let sample = dataset.sample(0).expect("sample");
    assert_eq!(sample.image_path, "one.jpg");
    assert_eq!(
        sample.keypoints,
        vec![keypoint(0.0, 0.0, 0.7), keypoint(1.0, 2.0, 0.7)]
    );

    let nobody = CocoPoseDataset::from_coco_with_spinepose(
        "ann.json",
        &images,
        &annotations,
        &HashMap::new(),
        &scores,
        config,
    );
    assert_eq!(
        nobody.expect_err("no people").message(),
        "invalid dataset: no valid pose samples found in ann.json"
    );
}

#[test]
fn first_python_that_exists_runs_spinepose() {
    assert_eq!(
        resolve_spinepose_python(true, true, true, true).ok(),
        Some(PythonSource::Named)
    );
    assert_eq!(
        resolve_spinepose_python(false, true, true, true).ok(),
        Some(PythonSource::WithSpinePose)
    );
    assert_eq!(
        resolve_spinepose_python(false, false, true, true).ok(),
        Some(PythonSource::Python3)
    );
    assert_eq!(
        resolve_spinepose_python(false, false, false, true).ok(),
        Some(PythonSource::Python)
    );
    assert_eq!(
        resolve_spinepose_python(false, false, false, false)
            .expect_err("none")
            .message(),
        "SpinePose runtime not found; run through `mise run ...` or set SPINEPOSE_PYTHON"
    );
}
