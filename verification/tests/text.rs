use pose_obc_retrieval::cli::{
    ensure_positive_double, ensure_positive_single, ensure_sample, format_epoch,
    format_head_upsample, limited_len, parse_input_size, parse_positive_count,
    parse_positive_usize, query_source, resolve_head_upsample, resolve_prefetch_batches,
    validation_images, BackendArg, HeadUpsampleArg, InputSize, ModelArg, QuerySource,
};
use pose_obc_retrieval::floats::{Double, Single, INFINITY, NEG_INFINITY, ONE, ZERO};
use pose_obc_retrieval::names::{
    extension_is, extension_of, is_png, json_name, pose_dir_name, recorder_name, stem_of, RunFile,
};
use pose_obc_retrieval::pose::model::HeadUpsampleMode;
use pose_obc_retrieval::sorting::{order, TextRanking};
use pose_obc_retrieval::text::{
    chars_of, decimal_text, find_next, is_blank_text, is_text_le, is_whitespace, padded_text,
    parse_number, parse_usize, push_decimal, push_hex, same_text, string_of, strip_prefix,
    to_ascii_lower, NumberError,
};

fn single(value: f32) -> Single {
    Single::from_bits(value.to_bits())
}

fn double(value: f64) -> Double {
    Double::from_bits(value.to_bits())
}

#[test]
fn rejects_invalid_input_size() {
    let error = parse_input_size("64").expect_err("invalid input size should fail");

    assert!(error.contains("HEIGHTxWIDTH"));
}

#[test]
fn input_sizes_read_back() {
    assert_eq!(
        parse_input_size("128x96"),
        Ok(InputSize {
            height: 128,
            width: 96
        })
    );
    assert_eq!(
        parse_input_size("256X192"),
        Ok(InputSize {
            height: 256,
            width: 192
        })
    );
}

#[test]
fn input_size_faults_name_the_side() {
    assert_eq!(
        parse_input_size("64"),
        Err("expected HEIGHTxWIDTH, for example 256x192".to_string())
    );
    assert_eq!(
        parse_input_size("0x96"),
        Err("height must be greater than 0".to_string())
    );
    assert_eq!(
        parse_input_size("64x"),
        Err("invalid width ``: cannot parse integer from empty string".to_string())
    );
    assert_eq!(
        parse_input_size("tallx9"),
        Err("invalid height `tall`: invalid digit found in string".to_string())
    );
}

#[test]
fn positive_numbers_are_told_from_others() {
    assert_eq!(parse_positive_usize("+12", "epochs"), Ok(12));
    assert_eq!(
        parse_positive_usize("0", "epochs"),
        Err("epochs must be greater than 0".to_string())
    );
    assert_eq!(
        parse_positive_count("99999999999999999999"),
        Err("invalid value `99999999999999999999`: number too large to fit in target type".to_string())
    );
    assert_eq!(ensure_positive_double(double(2e-3)), Ok(double(2e-3)));
    for value in [0.0, -1.0, f64::INFINITY, f64::NAN] {
        assert_eq!(
            ensure_positive_double(double(value)),
            Err("value must be a finite number greater than 0".to_string())
        );
    }
    assert_eq!(ensure_positive_single(single(0.5)), Ok(single(0.5)));
    for value in [0.0, -0.5, f32::INFINITY, f32::NAN] {
        assert!(ensure_positive_single(single(value)).is_err());
    }
}

#[test]
fn backends_have_their_own_defaults() {
    assert_eq!(BackendArg::Flex.as_str(), "flex");
    assert_eq!(BackendArg::Metal.as_str(), "metal");
    assert_eq!(
        resolve_head_upsample(BackendArg::Flex, None),
        HeadUpsampleMode::BilinearAligned
    );
    assert_eq!(
        resolve_head_upsample(BackendArg::Metal, None),
        HeadUpsampleMode::Nearest
    );
    assert_eq!(
        resolve_head_upsample(BackendArg::Metal, Some(HeadUpsampleArg::Bilinear)),
        HeadUpsampleMode::BilinearAligned
    );
    assert_eq!(resolve_prefetch_batches(BackendArg::Flex, None), 0);
    assert_eq!(resolve_prefetch_batches(BackendArg::Metal, None), 2);
    assert_eq!(resolve_prefetch_batches(BackendArg::Metal, Some(0)), 0);
    assert_eq!(format_head_upsample(HeadUpsampleMode::Nearest), "nearest");
    assert_eq!(
        format_head_upsample(HeadUpsampleMode::BilinearAligned),
        "bilinear"
    );
}

#[test]
fn models_are_known_by_name() {
    assert_eq!(ModelArg::LiteHrNet18.as_str(), "litehrnet18");
    assert_eq!(ModelArg::LiteHrNet30.as_str(), "litehrnet30");
    assert_eq!(
        ModelArg::LiteHrNet18.config().backbone.num_modules,
        vec![2, 4, 2]
    );
    assert_eq!(
        ModelArg::LiteHrNet30.config().backbone.num_modules,
        vec![3, 8, 3]
    );
}

#[test]
fn epochs_are_shown_in_even_width() {
    assert_eq!(format_epoch(7, 20), "007/20");
    assert_eq!(format_epoch(7, 1000), "0007/1000");
    assert_eq!(limited_len(10, Some(4)), 4);
    assert_eq!(limited_len(3, Some(4)), 3);
    assert_eq!(limited_len(3, None), 3);
}

#[test]
fn searches_take_one_query() {
    assert_eq!(query_source(true, None), Ok(QuerySource::Image));
    assert_eq!(query_source(false, Some(3)), Ok(QuerySource::Sample(3)));
    for (image, sample) in [(true, Some(3)), (false, None)] {
        assert_eq!(
            query_source(image, sample),
            Err("provide exactly one of --image or --sample".to_string())
        );
    }
}

#[test]
fn samples_must_be_pairs() {
    assert!(ensure_sample(3, 4).is_ok());
    assert_eq!(
        ensure_sample(4, 4).expect_err("outside").message(),
        "sample index 4 out of range for 4 pairs"
    );
}

#[test]
fn comparison_of_bits_is_comparison_of_numbers() {
    let values = [
        f32::NEG_INFINITY,
        f32::MIN,
        -1.5,
        -f32::MIN_POSITIVE,
        -0.0,
        0.0,
        1.0e-45,
        0.05,
        1.0,
        f32::MAX,
        f32::INFINITY,
        f32::NAN,
        -f32::NAN,
    ];
    for a in values {
        assert_eq!(single(a).is_finite(), a.is_finite());
        assert_eq!(single(a).is_nan(), a.is_nan());
        assert_eq!(single(a).to_bits(), a.to_bits());
        for b in values {
            assert_eq!(single(a).less(single(b)), a < b);
            assert_eq!(single(a).at_most(single(b)), a <= b);
            assert_eq!(single(a).total_less(single(b)), a.total_cmp(&b).is_lt());
            assert_eq!(
                double(a as f64).less(double(b as f64)),
                (a as f64) < (b as f64)
            );
        }
    }
    assert_eq!(f32::from_bits(ZERO), 0.0);
    assert_eq!(f32::from_bits(ONE), 1.0);
    assert_eq!(f32::from_bits(INFINITY), f32::INFINITY);
    assert_eq!(f32::from_bits(NEG_INFINITY), f32::NEG_INFINITY);
}

#[test]
fn clamping_keeps_the_unit_interval() {
    for value in [-2.0_f32, -0.0, 0.0, 0.25, 1.0, 1.5, f32::INFINITY] {
        assert_eq!(
            single(value).clamp_unit().to_bits(),
            value.clamp(0.0, 1.0).to_bits()
        );
    }
    assert!(single(f32::NAN).clamp_unit().is_nan());
}

#[test]
fn positive_doubles_are_finite() {
    for value in [f64::MIN_POSITIVE, 5e-324, 1.0, f64::MAX] {
        assert!(double(value).is_positive_finite());
    }
    for value in [0.0, -0.0, -1.0, f64::INFINITY, f64::NAN] {
        assert!(!double(value).is_positive_finite());
    }
    assert!(double(f64::NAN).is_nan());
    assert_eq!(double(0.07).to_bits(), 0.07_f64.to_bits());
}

#[test]
fn numbers_are_read_like_rust_reads_them() {
    for text in [
        "", "0", "007", "+5", "+", "-1", "12a", "٣", "18446744073709551615", "18446744073709551616",
        "99999999999999999999x",
    ] {
        let found = parse_number(text, 10, u64::MAX).map_err(|error| error.as_str().to_string());
        let expected = text.parse::<u64>().map_err(|error| error.to_string());
        assert_eq!(found, expected);
    }
    assert_eq!(parse_number("7532", 16, u32::MAX as u64), Ok(0x7532));
    assert_eq!(
        parse_number("100000000", 16, u32::MAX as u64),
        Err(NumberError::Overflow)
    );
    assert_eq!(parse_usize("42"), Ok(42));
}

#[test]
fn numbers_read_back() {
    for number in [0, 9, 10, 101, 65_535] {
        assert_eq!(parse_usize(&decimal_text(number)), Ok(number));
    }
    assert_eq!(padded_text(7, 3), "007");
    assert_eq!(padded_text(1234, 3), "1234");
    let mut text = String::from("n");
    push_decimal(&mut text, 20);
    push_hex(&mut text, 0xabc, 4);
    assert_eq!(text, "n200abc");
}

#[test]
fn texts_are_cut_and_compared_by_character() {
    let chars = chars_of("甲骨文");
    assert_eq!(string_of(&chars, 1, 3), "骨文");
    assert_eq!(find_next(&chars, '文', 0), 2);
    assert_eq!(find_next(&chars, 'x', 0), 3);
    assert_eq!(strip_prefix("/sample/3", "/sample/"), Some("3".to_string()));
    assert_eq!(strip_prefix("/sampl", "/sample/"), None);
    assert!(same_text("甲", "甲"));
    assert!(!same_text("a", "ab"));
    assert_eq!(to_ascii_lower("PNG Ä"), "png Ä");
    assert!(is_text_le("a", "ab"));
    assert!(is_text_le("Z", "a"));
    assert!(!is_text_le("乙", "a"));
}

#[test]
fn white_space_is_that_of_rust() {
    for code in 0..0x3100_u32 {
        if let Some(c) = char::from_u32(code) {
            assert_eq!(is_whitespace(c), c.is_whitespace());
        }
    }
    assert!(is_blank_text(" \u{a0}\n"));
    assert!(!is_blank_text(" x "));
}

#[test]
fn sorting_keeps_the_order_of_equal_texts() {
    let texts: Vec<String> = ["b", "a", "c", "a", ""]
        .iter()
        .map(|text| text.to_string())
        .collect();

    let positions = order(&TextRanking { texts: &texts }, texts.len());

    assert_eq!(positions, vec![4, 1, 3, 0, 2]);
}

#[test]
fn file_names_are_taken_apart_like_paths() {
    for name in ["a.png", "a.b.JPG", ".hidden", "plain", "a.", "..", "...", ".a.b"] {
        let path = std::path::Path::new(name);
        assert_eq!(
            extension_of(name),
            path.extension().map(|part| part.to_string_lossy().to_string())
        );
        if let Some(stem) = path.file_stem() {
            assert_eq!(stem_of(name), stem.to_string_lossy());
        }
    }
    assert!(is_png("a.PnG"));
    assert!(!is_png("png"));
    assert!(extension_is("a.JSON", "json"));
}

#[test]
fn recorded_models_lead_back_to_their_name() {
    assert_eq!(recorder_name("last.mpk"), "last");
    assert_eq!(recorder_name("last"), "last");
    assert_eq!(recorder_name("v1.2"), "v1.2");
    assert_eq!(json_name("U+4E00"), "U+4E00.json");
    assert_eq!(json_name("a.png"), "a.json");
}

#[test]
fn validation_images_default_to_the_training_images() {
    assert_eq!(validation_images(Some("val2017"), "train2017"), "val2017");
    assert_eq!(validation_images(None, "train2017"), "train2017");
}

#[test]
fn training_runs_name_their_files() {
    assert_eq!(RunFile::ModelConfig.name(), "retrieval_config.json");
    assert_eq!(RunFile::FeatureCache.name(), "feature_cache");
    assert_eq!(RunFile::PoseReport.name(), "training_report.json");
    assert_eq!(
        RunFile::RetrievalReport.name(),
        "retrieval_training_report.json"
    );
    assert_eq!(RunFile::LastModel.name(), "last.mpk");
    assert_eq!(pose_dir_name(), "poses");
}
