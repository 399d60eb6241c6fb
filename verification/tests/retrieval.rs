use pose_obc_retrieval::floats::Single;
use pose_obc_retrieval::retrieval::cache::{
    feature_cache_key, CacheSourceFingerprint, FeatureCacheEntry, FeatureKind,
};
use pose_obc_retrieval::retrieval::data_root::{resolve_existing_data_root, DataRoot};
use pose_obc_retrieval::retrieval::dataset::{
    is_persona, GlyphCandidate, ImageFile, PersonaListing, RetrievalPairDataset,
};
use pose_obc_retrieval::retrieval::glyph_id::{character_of_code, parse_glyph_id};
use pose_obc_retrieval::retrieval::index::{
    build_candidate_index, candidates_to_index, first_occurrences, search_index,
    validate_candidate_index, validate_embedding, CandidateIndex,
};
use pose_obc_retrieval::retrieval::model::{
    check_features, ensure_feature_dim, ensure_finite_values, find_not_finite,
    retrieval_config_source, validate_model_config, ConfigSource, RetrievalModelConfig,
    RETRIEVAL_FEATURE_DIM, RETRIEVAL_KEYPOINTS,
};
use pose_obc_retrieval::retrieval::shape::{
    band_pixels, band_shape, border_pixels, foreground_bbox, glyph_box, is_drawn, lay_out_shape,
    leftmost, middle_of_column, rightmost, BandShape, PixelBox, ShapePoint, FEATURE_BANDS, FEATURE_POINTS_PER_BAND,
};
use pose_obc_retrieval::retrieval::train::{
    batch_labels, ensure_contrast, retrieval_batch, FeaturePair, RetrievalTrainingConfig,
};

fn single(value: f32) -> Single {
    Single::from_bits(value.to_bits())
}

fn singles(values: &[f32]) -> Vec<Single> {
    values.iter().map(|value| single(*value)).collect()
}

fn file(name: &str, has_glyph: bool) -> ImageFile {
    ImageFile {
        file_name: name.to_string(),
        image_path: format!("images/{name}"),
        glyph_path: format!("glyphs/{name}"),
        has_glyph,
    }
}

fn persona(name: &str, files: Vec<ImageFile>) -> PersonaListing {
    PersonaListing {
        name: name.to_string(),
        has_images: true,
        has_glyphs: true,
        files,
    }
}

fn candidate(id: &str, glyph_path: &str) -> GlyphCandidate {
    GlyphCandidate {
        id: id.to_string(),
        codepoint: None,
        character: None,
        persona: "persona_a".to_string(),
        glyph_path: glyph_path.to_string(),
    }
}

fn small_model() -> RetrievalModelConfig {
    RetrievalModelConfig {
        input_dim: RETRIEVAL_FEATURE_DIM,
        hidden_dim: 8,
        embedding_dim: 2,
    }
}

fn small_index(embeddings: &[[f32; 2]]) -> CandidateIndex {
    let candidates = (0..embeddings.len())
        .map(|i| candidate(&format!("g{i}"), &format!("g{i}.png")))
        .collect();
    let embeddings = embeddings.iter().map(|values| singles(values)).collect();
    build_candidate_index(small_model(), candidates, embeddings).expect("index")
}

fn fingerprint(path: &str, len: u64) -> CacheSourceFingerprint {
    CacheSourceFingerprint {
        path: path.to_string(),
        len,
        modified_secs: 5,
        modified_nanos: 6,
    }
}

#[test]
fn glyph_ids_name_characters() {
    let jia = parse_glyph_id("jia_u7532_01");
    assert_eq!(jia.codepoint, Some("U+7532".to_string()));
    assert_eq!(jia.character, Some("甲".to_string()));

    let lower = parse_glyph_id("x_u4e8c");
    assert_eq!(lower.codepoint, Some("U+4E8C".to_string()));
    assert_eq!(lower.character, Some("二".to_string()));

    let plain = parse_glyph_id("U+4E00");
    assert_eq!(plain.codepoint, None);
    assert_eq!(plain.character, None);
}

#[test]
fn codes_without_a_character_keep_their_name() {
    let surrogate = parse_glyph_id("a_ud800");
    assert_eq!(surrogate.codepoint, Some("U+D800".to_string()));
    assert_eq!(surrogate.character, None);

    let word = parse_glyph_id("left_upper");
    assert_eq!(word.codepoint, Some("U+PPER".to_string()));
    assert_eq!(word.character, None);

    assert_eq!(parse_glyph_id("a_uß").codepoint, Some("U+SS".to_string()));
    assert_eq!(character_of_code("10ffff"), Some("\u{10ffff}".to_string()));
    assert_eq!(character_of_code("110000"), None);
    assert_eq!(character_of_code(""), None);
}

#[test]
fn pairs_come_in_the_order_of_names() {
    let personas = vec![
        persona(
            "persona_b",
            vec![file("b_u4e8c.png", true), file("a_u4e00.PNG", true)],
        ),
        persona("other", vec![file("z.png", true)]),
        persona(
            "persona_a",
            vec![
                file("c.png", false),
                file("c.jpg", true),
                file("b_u4e8c.png", true),
            ],
        ),
    ];

    let dataset = RetrievalPairDataset::from_data_root("data", &personas).expect("dataset");

    let found: Vec<(String, String)> = dataset
        .pairs()
        .iter()
        .map(|pair| (pair.persona.clone(), pair.id.clone()))
        .collect();
    assert_eq!(
        found,
        vec![
            ("persona_a".to_string(), "b_u4e8c".to_string()),
            ("persona_b".to_string(), "a_u4e00".to_string()),
            ("persona_b".to_string(), "b_u4e8c".to_string()),
        ]
    );
    assert_eq!(dataset.len(), 3);
    assert!(!dataset.is_empty());
    assert_eq!(dataset.pairs()[1].character, Some("一".to_string()));
    assert_eq!(dataset.pairs()[1].image_path, "images/a_u4e00.PNG");
    assert_eq!(dataset.limited_pairs(Some(1)).len(), 1);
    assert_eq!(dataset.limited_pairs(None).len(), 3);
    assert_eq!(dataset.glyph_candidates(false).len(), 3);

    let unique = dataset.glyph_candidates(true);
    let ids: Vec<&str> = unique.iter().map(|glyph| glyph.id.as_str()).collect();
    assert_eq!(ids, vec!["a_u4e00", "b_u4e8c"]);
    assert_eq!(unique[1].persona, "persona_a");
}

#[test]
fn roots_without_pairs_are_refused() {
    let mut listing = persona("persona_a", vec![file("a.png", true)]);
    listing.has_glyphs = false;

    let error =
        RetrievalPairDataset::from_data_root("data/x", &vec![listing]).expect_err("no pairs");

    assert_eq!(
        error.message(),
        "no image/glyph pairs found under data/x"
    );
}

#[test]
fn default_data_root_is_found_in_the_parent() {
    assert_eq!(
        resolve_existing_data_root("data", false, true).ok(),
        Some(DataRoot::InParent)
    );
    assert_eq!(
        resolve_existing_data_root("data/./", false, true).ok(),
        Some(DataRoot::InParent)
    );
    assert_eq!(
        resolve_existing_data_root("elsewhere", true, true).ok(),
        Some(DataRoot::Given)
    );
    for (path, in_parent) in [("data", false), ("database", true), ("data/x", true)] {
        assert_eq!(
            resolve_existing_data_root(path, false, in_parent)
                .expect_err("missing")
                .message(),
            format!("data root does not exist: {path}")
        );
    }
}

#[test]
fn default_root_is_compared_like_a_path() {
    for path in ["data", "data/", "data/.", "data//./", "./data", "data/..", "data.", "dat"] {
        let same = std::path::Path::new(path) == std::path::Path::new("data");
        assert_eq!(resolve_existing_data_root(path, false, true).is_ok(), same);
    }
}

#[test]
fn cache_keys_are_hashes_of_kind_and_path() {
    assert_eq!(
        feature_cache_key(FeatureKind::Pose, "data/a.png"),
        "1c70c9bdc18e1185"
    );
    assert_eq!(
        feature_cache_key(FeatureKind::Glyph, "data/a.png"),
        "36f0fe0c4102725a"
    );
    assert_eq!(
        feature_cache_key(FeatureKind::Glyph, "甲.png"),
        "88983dfb68e85333"
    );
}

#[test]
fn cached_features_are_found_until_a_file_changes() {
    let features = singles(&[0.0; RETRIEVAL_FEATURE_DIM]);
    let entry = FeatureCacheEntry::new(
        FeatureKind::Pose,
        fingerprint("a.png", 10),
        Some(fingerprint("a.json", 3)),
        features,
    )
    .expect("entry");
    assert_eq!(entry.kind, FeatureKind::Pose.as_str());

    let primary = fingerprint("a.png", 10);
    let auxiliary = Some(fingerprint("a.json", 3));
    assert!(entry.matches(FeatureKind::Pose, &primary, &auxiliary));
    assert!(!entry.matches(FeatureKind::Glyph, &primary, &auxiliary));
    assert!(!entry.matches(FeatureKind::Pose, &fingerprint("a.png", 11), &auxiliary));
    assert!(!entry.matches(FeatureKind::Pose, &primary, &None));
    assert!(primary.is_same(&fingerprint("a.png", 10)));
    assert!(!primary.is_same(&fingerprint("b.png", 10)));
}

#[test]
fn unsound_features_are_not_cached() {
    let refused = |features: Vec<Single>| {
        FeatureCacheEntry::new(FeatureKind::Glyph, fingerprint("a.png", 1), None, features)
            .expect_err("refused")
            .message()
            .to_string()
    };
    assert_eq!(
        refused(singles(&[0.0; 3])),
        "feature dimension mismatch: expected 111, got 3"
    );
    let mut values = [0.0; RETRIEVAL_FEATURE_DIM];
    values[5] = f32::NAN;
    assert_eq!(
        refused(singles(&values)),
        "glyph feature at index 5 is not finite"
    );
    assert_eq!(FeatureKind::Pose.cache_dir_name(), "pose");
    assert_eq!(FeatureKind::Pose.feature_label(), "pose feature");
}

#[test]
fn model_dimensions_are_positive() {
    assert!(validate_model_config(&RetrievalModelConfig::default()).is_ok());
    let refused = |input_dim: usize, hidden_dim: usize, embedding_dim: usize| {
        validate_model_config(&RetrievalModelConfig {
            input_dim,
            hidden_dim,
            embedding_dim,
        })
        .expect_err("refused")
        .message()
        .to_string()
    };
    assert_eq!(
        refused(0, 0, 0),
        "retrieval model input_dim must be greater than zero"
    );
    assert_eq!(
        refused(1, 0, 0),
        "retrieval model hidden_dim must be greater than zero"
    );
    assert_eq!(
        refused(1, 1, 0),
        "retrieval model embedding_dim must be greater than zero"
    );
}

#[test]
fn features_are_checked_for_length_and_values() {
    assert!(ensure_feature_dim(3, 3).is_ok());
    assert_eq!(
        check_features("pose feature", &singles(&[1.0]), 2)
            .expect_err("short")
            .message(),
        "feature dimension mismatch: expected 2, got 1"
    );
    assert_eq!(
        check_features("pose feature", &singles(&[1.0, f32::INFINITY]), 2)
            .expect_err("infinite")
            .message(),
        "pose feature at index 1 is not finite"
    );
    assert!(check_features("pose feature", &singles(&[1.0, 2.0]), 2).is_ok());
    assert_eq!(find_not_finite(&singles(&[1.0, f32::NAN, f32::NAN])), Some(1));
    assert!(ensure_finite_values("x", &singles(&[0.0])).is_ok());
}

#[test]
fn model_dimensions_come_from_the_nearest_source() {
    let model = small_model();
    assert_eq!(
        retrieval_config_source(true, Some(model), true).ok(),
        Some(ConfigSource::Named)
    );
    assert_eq!(
        retrieval_config_source(false, Some(model), true).ok(),
        Some(ConfigSource::Index(model))
    );
    assert_eq!(
        retrieval_config_source(false, None, true).ok(),
        Some(ConfigSource::BesideModel)
    );
    assert_eq!(
        retrieval_config_source(false, None, false)
            .expect_err("none")
            .message(),
        "retrieval config not found; pass --config or use a model directory with retrieval_config.json"
    );
}

#[test]
fn hits_come_from_the_highest_score_on() {
    let index = small_index(&[[1.0, 0.0], [0.0, 1.0], [0.6, 0.8], [0.0, -1.0]]);
    let query = singles(&[0.0, 1.0]);
    let scores = singles(&[0.5, 0.5, 0.9, -1.0]);

    let hits = search_index(&index, &query, &scores, 3).expect("hits");

    let found: Vec<(usize, f32)> = hits
        .iter()
        .map(|hit| (hit.index, f32::from_bits(hit.score.to_bits())))
        .collect();
    assert_eq!(found, vec![(2, 0.9), (0, 0.5), (1, 0.5)]);
    assert_eq!(hits[0].entry.id, "g2");

    assert_eq!(
        search_index(&index, &query, &scores, 9)
            .expect("all hits")
            .len(),
        4
    );
    assert_eq!(
        search_index(&index, &query, &scores, 0)
            .expect("no hits")
            .len(),
        0
    );
}

#[test]
fn queries_must_fit_the_index() {
    let index = small_index(&[[1.0, 0.0]]);
    let refused = |query: Vec<Single>| {
        search_index(&index, &query, &singles(&[0.0]), 1)
            .expect_err("refused")
            .message()
            .to_string()
    };
    assert_eq!(
        refused(singles(&[1.0])),
        "query embedding dimension mismatch: expected 2, got 1"
    );
    assert_eq!(
        refused(singles(&[1.0, f32::NAN])),
        "query embedding value 1 is not finite"
    );
}

#[test]
fn unsound_indexes_say_why() {
    let refused = |index: &CandidateIndex| {
        validate_candidate_index(index)
            .expect_err("refused")
            .message()
            .to_string()
    };
    let mut index = small_index(&[[1.0, 0.0], [0.0, f32::NAN]]);
    assert_eq!(
        refused(&index),
        "candidate embedding at entry 1 value 1 is not finite"
    );
    index.entries[1].embedding = singles(&[1.0]);
    assert_eq!(
        refused(&index),
        "candidate embedding at entry 1 dimension mismatch: expected 2, got 1"
    );
    index.entries.clear();
    assert_eq!(refused(&index), "candidate index has no entries");
    index.model.hidden_dim = 0;
    assert_eq!(
        refused(&index),
        "retrieval model hidden_dim must be greater than zero"
    );
    index.version = 2;
    assert_eq!(
        refused(&index),
        "unsupported candidate index version: expected 1, got 2"
    );
    assert!(validate_candidate_index(&small_index(&[[1.0, 0.0]])).is_ok());
    assert!(validate_embedding("query embedding", &singles(&[1.0]), 1, None).is_ok());
}

#[test]
fn glyph_files_are_indexed_once() {
    let candidates = vec![
        candidate("a", "x.png"),
        candidate("b", "y.png"),
        candidate("c", "x.png"),
    ];

    let kept = candidates_to_index(&candidates);

    let ids: Vec<&str> = kept.iter().map(|glyph| glyph.id.as_str()).collect();
    assert_eq!(ids, vec!["a", "b"]);
    let texts: Vec<String> = ["a", "b", "a"].iter().map(|text| text.to_string()).collect();
    assert_eq!(first_occurrences(&texts), vec![true, true, false]);
    assert_eq!(
        build_candidate_index(small_model(), vec![], vec![])
            .expect_err("empty")
            .message(),
        "candidate index would be empty"
    );
}

#[test]
fn border_runs_around_the_image() {
    assert_eq!(
        border_pixels(3, 3),
        vec![
            (0, 0),
            (0, 2),
            (1, 0),
            (1, 2),
            (2, 0),
            (2, 2),
            (0, 1),
            (2, 1)
        ]
    );
    assert_eq!(border_pixels(1, 1), vec![(0, 0), (0, 0)]);
}

#[test]
fn boxes_are_tight_around_heavy_pixels() {
    let mut masses = singles(&[0.0; 12]);
    masses[5] = single(0.5);
    masses[10] = single(0.9);

    assert_eq!(
        foreground_bbox(&masses, 4, 3, single(0.5)),
        Some(PixelBox {
            min_x: 1,
            min_y: 1,
            max_x: 2,
            max_y: 2
        })
    );
    assert_eq!(foreground_bbox(&masses, 4, 3, single(1.0)), None);
    assert_eq!(
        glyph_box(&masses, 4, 3, single(1.0)),
        PixelBox {
            min_x: 0,
            min_y: 0,
            max_x: 3,
            max_y: 2
        }
    );
}

#[test]
fn bands_hold_their_heavy_pixels_row_by_row() {
    let masses = singles(&[0.9, 0.0, 0.9, 0.9, 0.9, 0.0]);
    let bounds = PixelBox {
        min_x: 0,
        min_y: 0,
        max_x: 2,
        max_y: 1,
    };

    let pixels = band_pixels(&masses, 3, 2, bounds, &vec![0, 1], single(0.5));

    assert_eq!(pixels, vec![(0, 0), (2, 0), (0, 1), (1, 1)]);
    assert_eq!(leftmost(&pixels), Some((0, 0)));
    assert_eq!(rightmost(&pixels), Some((2, 0)));
    assert_eq!(leftmost(&vec![]), None);
    assert_eq!(rightmost(&vec![(1, 5), (1, 6)]), Some((1, 5)));
}

#[test]
fn middles_of_columns_are_single_precision() {
    for power in 0..32u32 {
        let base = 1u64 << power;
        for step in 0..600u64 {
            for x in [base.saturating_sub(step), base + step, base + base / 2 + 7 * step] {
                let Ok(x) = u32::try_from(x) else {
                    continue;
                };
                let middle = x as f32 + 0.5;
                assert_eq!(middle_of_column(x) as f64 / 2.0, f64::from(middle), "{x}");
            }
        }
    }
    let last = u32::MAX as f32 + 0.5;
    assert_eq!(middle_of_column(u32::MAX) as f64 / 2.0, f64::from(last));
}

#[test]
fn columns_far_to_the_right_fall_together() {
    let near = 8_388_609;
    assert_eq!(middle_of_column(near), middle_of_column(near + 1));
    assert_eq!(
        rightmost(&vec![(near, 0), (near + 1, 1)]),
        Some((near, 0))
    );
    assert_eq!(
        leftmost(&vec![(near + 1, 0), (near, 1)]),
        Some((near + 1, 0))
    );
    assert_eq!(
        rightmost(&vec![(near, 0), (near + 2, 1)]),
        Some((near + 2, 1))
    );
}

fn shape_point(value: f32) -> ShapePoint {
    ShapePoint {
        x: single(value),
        y: single(value + 0.25),
        confidence: single(0.5),
    }
}

#[test]
fn glyphs_are_described_by_the_points_of_their_bands() {
    let bands: Vec<BandShape> = (0..FEATURE_BANDS)
        .map(|band| BandShape {
            left: shape_point(band as f32),
            center: shape_point(100.0 + band as f32),
            right: shape_point(200.0 + band as f32),
        })
        .collect();

    let features = lay_out_shape(&bands);

    assert_eq!(features.len(), RETRIEVAL_FEATURE_DIM);
    assert_eq!(FEATURE_BANDS, RETRIEVAL_KEYPOINTS.div_ceil(FEATURE_POINTS_PER_BAND));
    assert_eq!(features[0..3], singles(&[0.0, 0.25, 0.5]));
    assert_eq!(features[3..6], singles(&[100.0, 100.25, 0.5]));
    assert_eq!(features[15..18], singles(&[201.0, 201.25, 0.5]));
    assert_eq!(features[108..111], singles(&[12.0, 12.25, 0.5]));
}

#[test]
fn empty_bands_fall_back_on_one_point() {
    let measured = BandShape {
        left: shape_point(1.0),
        center: shape_point(2.0),
        right: shape_point(3.0),
    };
    let fallback = shape_point(9.0);

    assert_eq!(band_shape(single(0.5), measured, fallback), measured);
    let empty = band_shape(single(1e-6), measured, fallback);
    assert_eq!(empty.left, fallback);
    assert_eq!(empty.center, fallback);
    assert_eq!(empty.right, fallback);
    assert!(is_drawn(single(0.5), single(0.5)));
    assert!(!is_drawn(single(1e-6), single(0.5)));
    assert!(!is_drawn(single(0.5), single(0.0)));
}

#[test]
fn training_settings_are_checked() {
    let mut config = RetrievalTrainingConfig::default_with_checkpoint_dir("runs");
    assert!(config.validate().is_ok());
    assert_eq!(config.checkpoint_dir, "runs");
    assert_eq!(f64::from_bits(config.learning_rate.to_bits()), 1e-3);
    assert_eq!(f64::from_bits(config.temperature.to_bits()), 0.07);

    config.temperature.bits = f64::INFINITY.to_bits();
    assert_eq!(
        config.validate().expect_err("temperature").message(),
        "temperature must be a finite positive number"
    );
    config.batch_size = 0;
    assert_eq!(
        config.validate().expect_err("batch size").message(),
        "batch_size must be greater than zero"
    );
    config.epochs = 0;
    assert_eq!(
        config.validate().expect_err("epochs").message(),
        "epochs must be greater than zero"
    );
    assert_eq!(
        ensure_contrast(1).expect_err("one pair").message(),
        "contrastive retrieval training requires at least two pairs"
    );
    assert!(ensure_contrast(2).is_ok());
}

#[test]
fn batches_hold_the_features_of_their_pairs() {
    let pairs: Vec<FeaturePair<f32>> = (0..3)
        .map(|i| FeaturePair {
            pose: vec![i as f32, 10.0 + i as f32],
            glyph: vec![-(i as f32), 20.0],
        })
        .collect();

    let batch = retrieval_batch(&pairs, &vec![2, 0], 2).expect("batch");

    assert_eq!(batch.rows, 2);
    assert_eq!(batch.pose, vec![2.0, 12.0, 0.0, 10.0]);
    assert_eq!(batch.glyph, vec![-2.0, 20.0, 0.0, 20.0]);
    assert_eq!(batch.labels, vec![true, false, false, true]);
    assert_eq!(batch_labels(1), vec![true]);
    assert_eq!(
        retrieval_batch(&pairs, &vec![0, 3], 2)
            .expect_err("missing")
            .message(),
        "feature pair index 3 out of range"
    );
    assert_eq!(
        retrieval_batch(&pairs, &vec![], 2)
            .expect_err("empty")
            .message(),
        "retrieval batch requires at least one pair"
    );
    assert_eq!(
        retrieval_batch(&pairs, &vec![0], 3)
            .expect_err("short")
            .message(),
        "feature dimension mismatch: expected 3, got 2"
    );
}

#[test]
fn persona_directories_have_a_prefix() {
    assert!(is_persona("persona_oracle"));
    assert!(is_persona("persona_"));
    assert!(!is_persona("Persona_oracle"));
    assert!(!is_persona("my_persona_"));
}
