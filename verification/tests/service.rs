use pose_obc_retrieval::floats::Single;
use pose_obc_retrieval::retrieval::index::{CandidateEntry, SearchHit};
use pose_obc_retrieval::service::form::{parse_multipart, parse_top_k, parse_urlencoded};
use pose_obc_retrieval::service::http::{json_response, static_response};
use pose_obc_retrieval::service::live::{live_search_response, LiveSearchHit, LiveSearchResponse};
use simd_json::OwnedValue;
use std::collections::HashMap;

fn optional(text: &Option<String>) -> OwnedValue {
    match text {
        Some(text) => OwnedValue::from(text.as_str()),
        None => OwnedValue::from(()),
    }
}

fn hit_json(hit: &LiveSearchHit) -> OwnedValue {
    let mut object: HashMap<String, OwnedValue> = HashMap::new();
    object.insert("rank".to_string(), OwnedValue::from(hit.rank));
    object.insert("index".to_string(), OwnedValue::from(hit.index));
    object.insert("id".to_string(), OwnedValue::from(hit.id.as_str()));
    object.insert("character".to_string(), optional(&hit.character));
    object.insert("codepoint".to_string(), optional(&hit.codepoint));
    object.insert("persona".to_string(), OwnedValue::from(hit.persona.as_str()));
    object.insert(
        "score".to_string(),
        OwnedValue::from(f32::from_bits(hit.score.to_bits())),
    );
    object.insert(
        "image_url".to_string(),
        OwnedValue::from(hit.image_url.as_str()),
    );
    OwnedValue::from(object)
}

fn live_json(response: &LiveSearchResponse) -> String {
    let hits: Vec<OwnedValue> = response.hits.iter().map(hit_json).collect();
    let mut object: HashMap<String, OwnedValue> = HashMap::new();
    object.insert("top_k".to_string(), OwnedValue::from(response.top_k));
    object.insert("hits".to_string(), OwnedValue::from(hits));
    simd_json::to_string(&OwnedValue::from(object)).expect("json text")
}

#[test]
fn urlencoded_parser_decodes_common_form_values() {
    let parsed = parse_urlencoded("sample=12&name=oracle+pose&encoded=%E7%94%B2");

    assert_eq!(parsed.get("sample").map(String::as_str), Some("12"));
    assert_eq!(parsed.get("name").map(String::as_str), Some("oracle pose"));
    assert_eq!(parsed.get("encoded").map(String::as_str), Some("甲"));
}

#[test]
fn multipart_parser_extracts_fields_and_files() {
    let body = [
        "--boundary\r\n",
        "Content-Disposition: form-data; name=\"k\"\r\n\r\n",
        "3\r\n",
        "--boundary\r\n",
        "Content-Disposition: form-data; name=\"image\"; filename=\"pose.png\"\r\n",
        "Content-Type: image/png\r\n\r\n",
        "png-bytes\r\n",
        "--boundary--\r\n",
    ]
    .concat();

    let form = parse_multipart(body.as_bytes(), "boundary").expect("multipart form");

    assert_eq!(form.fields.get("k").map(String::as_str), Some("3"));
    assert_eq!(
        form.files.get("image").map(Vec::as_slice),
        Some(&b"png-bytes"[..])
    );
}

#[test]
fn top_k_is_positive_and_capped() {
    assert_eq!(parse_top_k(Some(&"0".to_string()), 8), 8);
    assert_eq!(parse_top_k(Some(&"100".to_string()), 8), 50);
    assert_eq!(parse_top_k(Some(&"7".to_string()), 8), 7);
}

#[test]
fn live_search_response_serializes_candidate_hits() {
    let hit = SearchHit {
        index: 7,
        entry: CandidateEntry {
            id: "jia".to_string(),
            codepoint: Some("U+7532".to_string()),
            character: Some("甲".to_string()),
            persona: "persona_a".to_string(),
            glyph_path: "glyph.png".to_string(),
            embedding: vec![
                Single::from_bits(0.1_f32.to_bits()),
                Single::from_bits(0.2_f32.to_bits()),
            ],
        },
        score: Single::from_bits(0.875_f32.to_bits()),
    };

    let response = live_search_response(&vec![hit], 3);
    let http = json_response(&live_json(&response));
    let body = String::from_utf8(http.body).expect("json utf8");

    assert_eq!(http.status, 200);
    assert_eq!(http.content_type, "application/json; charset=utf-8");
    assert!(body.contains("\"top_k\":3"));
    assert!(body.contains("\"rank\":1"));
    assert!(body.contains("\"image_url\":\"/candidate/7\""));
    assert!(body.contains("\"score\":0.875"));
}

#[test]
fn static_asset_response_uses_embedded_body() {
    let response = static_response("text/css", b"@font-face { font-family: 'Material Symbols'; }");

    assert_eq!(response.status, 200);
    assert_eq!(response.content_type, "text/css");
    assert!(response.body.starts_with(b"@font-face"));
}
