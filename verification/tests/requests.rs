use pose_obc_retrieval::service::assets::{
    example_image_index, example_image_names, is_example_gallery_image_name, is_example_image_name,
};
use pose_obc_retrieval::service::fields::Fields;
use pose_obc_retrieval::service::form::{
    header_value_of, multipart_boundary, parameter_of, parse_multipart, parse_top_k,
    parse_urlencoded, text_from_bytes, trim_text, url_decode,
};
use pose_obc_retrieval::service::http::{
    error_response, html_response, image_content_type, parse_request_head, HttpRequest,
    HttpResponse,
};
use pose_obc_retrieval::service::route::{
    asset_content_type, candidate_image, example_asset, fixed_response, health_response,
    missing_file, route_request, sample_image, Route,
};
use pose_obc_retrieval::service::search::{
    live_search, sample_search_from_query, sample_source, upload_search, SampleQuery, UploadQuery,
};
use pose_obc_retrieval::service::views::escape_html;

fn text(response: &HttpResponse) -> String {
    String::from_utf8(response.body.clone()).expect("text body")
}

fn request(content_type: &str, body: &[u8]) -> HttpRequest {
    HttpRequest {
        method: "POST".to_string(),
        path: "/search".to_string(),
        query: Fields::new(),
        content_type: content_type.to_string(),
        body: body.to_vec(),
    }
}

fn form_body(parts: &[(&str, Option<&str>, &str)]) -> Vec<u8> {
    let mut body = String::new();
    for (name, file_name, content) in parts {
        body.push_str("--cut\r\n");
        body.push_str(&format!(
            "Content-Disposition: form-data; name=\"{name}\""
        ));
        if let Some(file_name) = file_name {
            body.push_str(&format!("; filename=\"{file_name}\""));
        }
        body.push_str("\r\n\r\n");
        body.push_str(content);
        body.push_str("\r\n");
    }
    body.push_str("--cut--\r\n");
    body.into_bytes()
}

const FORM_TYPE: &str = "multipart/form-data; boundary=cut";

#[test]
fn escapes_decode_to_the_bytes_they_name() {
    assert_eq!(url_decode(b"%00%7f%FF"), vec![0x00, 0x7f, 0xff]);
    assert_eq!(url_decode(b"a+b"), b"a b".to_vec());
}

#[test]
fn broken_escapes_stand_for_themselves() {
    assert_eq!(url_decode(b"100%"), b"100%".to_vec());
    assert_eq!(url_decode(b"%4"), b"%4".to_vec());
    assert_eq!(url_decode(b"%zz%41"), b"%zzA".to_vec());
}

#[test]
fn invalid_utf8_is_replaced_and_not_kept() {
    let values = parse_urlencoded("name=%FFx");

    assert_eq!(values.get("name").map(String::as_str), Some("\u{fffd}x"));
}

#[test]
fn last_value_of_a_name_counts() {
    let values = parse_urlencoded("k=1&&flag&k=2&=empty");

    assert_eq!(values.get("k").map(String::as_str), Some("2"));
    assert_eq!(values.get("flag").map(String::as_str), Some(""));
    assert_eq!(values.get("").map(String::as_str), Some("empty"));
    assert_eq!(values.get("missing"), None);
}

#[test]
fn fields_keep_one_value_for_each_name() {
    let mut fields: Fields<usize> = Fields::new();
    fields.insert("a".to_string(), 1);
    fields.insert("b".to_string(), 2);
    fields.insert("a".to_string(), 3);

    assert_eq!(fields.get("a"), Some(&3));
    assert_eq!(fields.get("b"), Some(&2));
    assert_eq!(fields.get("c"), None);
}

#[test]
fn top_k_falls_back_on_the_default() {
    assert_eq!(parse_top_k(None, 8), 8);
    assert_eq!(parse_top_k(Some(&"many".to_string()), 8), 8);
    assert_eq!(parse_top_k(Some(&"-1".to_string()), 8), 8);
    assert_eq!(parse_top_k(Some(&"50".to_string()), 8), 50);
    assert_eq!(parse_top_k(Some(&"51".to_string()), 8), 50);
}

#[test]
fn header_parameters_lose_their_quotes() {
    let value = "form-data; name=\"image\"; filename=\"a b.png\"";

    assert_eq!(parameter_of(value, "name"), Some("image".to_string()));
    assert_eq!(parameter_of(value, "filename"), Some("a b.png".to_string()));
    assert_eq!(parameter_of(value, "size"), None);
}

#[test]
fn header_names_are_found_in_any_case() {
    let head = "Host: here\r\nCONTENT-type: text/plain\r\n";

    assert_eq!(
        header_value_of(head, "content-type").map(|value| trim_text(&value)),
        Some("text/plain".to_string())
    );
    assert_eq!(header_value_of(head, "accept"), None);
}

#[test]
fn text_loses_the_space_around_it() {
    assert_eq!(trim_text("  a b\t\r\n"), "a b");
    assert_eq!(trim_text(" \u{3000} "), "");
}

#[test]
fn boundary_comes_from_multipart_types_alone() {
    assert_eq!(multipart_boundary(FORM_TYPE), Some("cut".to_string()));
    assert_eq!(
        multipart_boundary("multipart/form-data; boundary=\"a-b\""),
        Some("a-b".to_string())
    );
    assert_eq!(multipart_boundary("text/plain; boundary=cut"), None);
    assert_eq!(multipart_boundary("multipart/form-data"), None);
}

#[test]
fn multipart_body_without_an_end_is_refused() {
    let mut body = form_body(&[("k", None, "3")]);
    body.truncate(body.len() - 12);

    let error = parse_multipart(&body, "cut").expect_err("form without an end");

    assert_eq!(error.message(), "invalid multipart form data");
}

#[test]
fn multipart_files_keep_line_breaks_and_other_boundaries() {
    let body = form_body(&[("image", Some("x.bin"), "one\r\n--cat\r\ntwo")]);

    let form = parse_multipart(&body, "cut").expect("form");

    assert_eq!(
        form.files.get("image").map(Vec::as_slice),
        Some(&b"one\r\n--cat\r\ntwo"[..])
    );
    assert!(form.fields.get("image").is_none());
}

#[test]
fn request_head_gives_its_parts() {
    let head = parse_request_head(
        "POST /live/search?k=3&name=a+b HTTP/1.1\r\nHost: here\r\nContent-Type:  image/png \r\nContent-Length: 12\r\n",
    )
    .expect("head");

    assert_eq!(head.method, "POST");
    assert_eq!(head.path, "/live/search");
    assert_eq!(head.query.get("k").map(String::as_str), Some("3"));
    assert_eq!(head.query.get("name").map(String::as_str), Some("a b"));
    assert_eq!(head.content_type, "image/png");
    assert_eq!(head.content_length, 12);

    let request = HttpRequest::new(head, vec![1, 2]);
    assert_eq!(request.method, "POST");
    assert_eq!(request.body, vec![1, 2]);
}

#[test]
fn request_head_without_a_target_is_refused() {
    assert!(parse_request_head("GET").is_none());
    assert!(parse_request_head("").is_none());
}

#[test]
fn missing_headers_count_as_nothing() {
    let head = parse_request_head("GET / HTTP/1.1\r\nContent-Length: soon\r\n").expect("head");

    assert_eq!(head.content_type, "");
    assert_eq!(head.content_length, 0);
}

#[test]
fn responses_carry_their_content_type() {
    let page = html_response("<p>甲</p>");
    assert_eq!(page.status, 200);
    assert_eq!(page.content_type, "text/html; charset=utf-8");
    assert_eq!(text(&page), "<p>甲</p>");

    let error = error_response(400, "no");
    assert_eq!(error.status, 400);
    assert_eq!(error.content_type, "text/plain; charset=utf-8");
    assert_eq!(text(&error), "no");

    let health = health_response(12, 7);
    assert_eq!(health.status, 200);
    assert_eq!(text(&health), "{\"pairs\":12,\"candidates\":7}");
}

#[test]
fn image_types_go_by_extension() {
    assert_eq!(image_content_type("a.PNG"), "image/png");
    assert_eq!(image_content_type("a.jpeg"), "image/jpeg");
    assert_eq!(image_content_type("a.jpg"), "image/jpeg");
    assert_eq!(image_content_type("a.webp"), "image/webp");
    assert_eq!(image_content_type("a.avif"), "image/avif");
    assert_eq!(image_content_type("a.heic"), "image/heic");
    assert_eq!(image_content_type("a.heif"), "image/heif");
    assert_eq!(image_content_type("a.gif"), "application/octet-stream");
    assert_eq!(image_content_type("png"), "application/octet-stream");
}

#[test]
fn requests_are_routed_by_method_and_path() {
    assert_eq!(route_request("GET", "/", false), Route::Home);
    assert_eq!(
        route_request("GET", "/assets/beer.min.css", false),
        Route::BeerCss
    );
    assert_eq!(
        route_request("GET", "/assets/beer.min.js", false),
        Route::BeerJs
    );
    assert_eq!(
        route_request("GET", "/assets/material-symbols.css", false),
        Route::MaterialSymbolsCss
    );
    assert_eq!(
        route_request("GET", "/assets/material-symbols-outlined.ttf", false),
        Route::MaterialSymbolsFont
    );
    assert_eq!(
        route_request("GET", "/assets/examples/1.png", false),
        Route::ExampleAsset
    );
    assert_eq!(route_request("GET", "/health", false), Route::Health);
    assert_eq!(route_request("GET", "/search", false), Route::SampleSearch);
    assert_eq!(
        route_request("GET", "/candidate/7", false),
        Route::CandidateImage
    );
    assert_eq!(route_request("GET", "/sample/7", false), Route::SampleImage);
    assert_eq!(route_request("POST", "/search", false), Route::UploadSearch);
    assert_eq!(
        route_request("POST", "/live/search", true),
        Route::LiveSearch
    );
    assert_eq!(
        route_request("POST", "/live/search", false),
        Route::LiveDisabled
    );
    assert_eq!(route_request("DELETE", "/search", true), Route::NotFound);
    assert_eq!(route_request("GET", "/live/search", true), Route::NotFound);
}

#[test]
fn assets_have_their_content_types() {
    assert_eq!(
        asset_content_type(Route::BeerCss),
        Some("text/css; charset=utf-8")
    );
    assert_eq!(
        asset_content_type(Route::BeerJs),
        Some("application/javascript; charset=utf-8")
    );
    assert_eq!(
        asset_content_type(Route::MaterialSymbolsCss),
        Some("text/css; charset=utf-8")
    );
    assert_eq!(
        asset_content_type(Route::MaterialSymbolsFont),
        Some("font/ttf")
    );
    assert_eq!(asset_content_type(Route::Home), None);
}

#[test]
fn refused_routes_say_why() {
    let disabled = fixed_response(Route::LiveDisabled).expect("response");
    assert_eq!(disabled.status, 404);
    assert_eq!(text(&disabled), "live mode is disabled");

    let unknown = fixed_response(Route::NotFound).expect("response");
    assert_eq!(unknown.status, 404);
    assert_eq!(text(&unknown), "not found");

    assert!(fixed_response(Route::Home).is_none());
    assert_eq!(text(&missing_file()), "image not found");
}

#[test]
fn image_paths_name_candidates_and_samples() {
    assert_eq!(candidate_image("/candidate/3", 4).ok(), Some(3));
    let outside = candidate_image("/candidate/4", 4).expect_err("outside");
    assert_eq!(
        (outside.status, text(&outside)),
        (404, "candidate image not found".to_string())
    );
    let unread = candidate_image("/candidate/x", 4).expect_err("no number");
    assert_eq!(
        (unread.status, text(&unread)),
        (400, "invalid image index".to_string())
    );

    assert_eq!(sample_image("/sample/0", 1).ok(), Some(0));
    let outside = sample_image("/sample/1", 1).expect_err("outside");
    assert_eq!(
        (outside.status, text(&outside)),
        (404, "sample image not found".to_string())
    );
    let unread = sample_image("/sample/", 1).expect_err("no number");
    assert_eq!(
        (unread.status, text(&unread)),
        (400, "invalid sample index".to_string())
    );
}

#[test]
fn example_assets_stay_in_their_directory() {
    assert_eq!(
        example_asset("/assets/examples/2.WEBP").ok(),
        Some("2.WEBP".to_string())
    );
    for path in [
        "/assets/examples/../secret.png",
        "/assets/examples/a\\b.png",
        "/assets/examples/",
        "/assets/examples/..",
        "/assets/examples/notes.txt",
    ] {
        let refused = example_asset(path).expect_err("refused");
        assert_eq!(
            (refused.status, text(&refused)),
            (400, "invalid example asset".to_string())
        );
    }
}

#[test]
fn example_names_are_known_by_extension() {
    assert!(is_example_image_name("1.heic"));
    assert!(!is_example_gallery_image_name("1.heic"));
    assert!(is_example_gallery_image_name("1.avif"));
    assert!(!is_example_image_name("1.gif"));
    assert!(!is_example_image_name(".png"));
    assert_eq!(example_image_index("12.png"), 12);
    assert_eq!(example_image_index("cover.png"), usize::MAX);
}

#[test]
fn gallery_is_sorted_by_number_and_name() {
    let files: Vec<String> = ["10.png", "b.jpg", "2.png", "2.jpg", "a.jpg", "x.txt", "3.heif"]
        .iter()
        .map(|name| name.to_string())
        .collect();

    let names = example_image_names(&files);

    assert_eq!(names, vec!["2.jpg", "2.png", "10.png", "a.jpg", "b.jpg"]);
}

#[test]
fn gallery_shows_each_file_as_often_as_it_is_listed() {
    let files: Vec<String> = ["b.png", "a.png", "b.png", "a.txt"]
        .iter()
        .map(|name| name.to_string())
        .collect();

    assert_eq!(example_image_names(&files), vec!["a.png", "b.png", "b.png"]);
}

#[test]
fn bytes_become_text() {
    assert_eq!(text_from_bytes("甲骨".as_bytes()), "甲骨");
    assert_eq!(text_from_bytes(b""), "");
    assert_eq!(text_from_bytes(&[b'a', 0xff, b'b']), "a\u{fffd}b");
}

#[test]
fn sample_queries_name_a_pair() {
    let query = |text: &str| sample_search_from_query(&parse_urlencoded(text), 5, 8);

    assert_eq!(
        query("sample=4&k=3").ok(),
        Some(SampleQuery {
            sample: 4,
            top_k: 3
        })
    );
    assert_eq!(
        query("k=3").expect_err("missing").message(),
        "missing sample query parameter"
    );
    assert_eq!(
        query("sample=-1").expect_err("negative").message(),
        "sample must be a non-negative integer"
    );
    assert_eq!(
        query("sample=5").expect_err("outside").message(),
        "sample index 5 out of range"
    );
    assert_eq!(sample_source(4, "U+7532"), "sample #4 U+7532");
}

#[test]
fn uploads_ask_by_sample_or_by_image() {
    let by_sample = form_body(&[("sample", None, "2"), ("k", None, "70")]);
    match upload_search(&request(FORM_TYPE, &by_sample), 5, 8) {
        Ok(UploadQuery::Sample(query)) => assert_eq!(
            query,
            SampleQuery {
                sample: 2,
                top_k: 50
            }
        ),
        other => panic!("expected a sample query: {other:?}"),
    }

    let by_image = form_body(&[("sample", None, "  "), ("image", Some("x.png"), "bytes")]);
    match upload_search(&request(FORM_TYPE, &by_image), 5, 8) {
        Ok(UploadQuery::Image { image, top_k }) => {
            assert_eq!(image, b"bytes".to_vec());
            assert_eq!(top_k, 8);
        }
        other => panic!("expected an image query: {other:?}"),
    }

    match upload_search(
        &request("application/x-www-form-urlencoded", b"sample=1&k=2"),
        5,
        8,
    ) {
        Ok(UploadQuery::Sample(query)) => assert_eq!(
            query,
            SampleQuery {
                sample: 1,
                top_k: 2
            }
        ),
        other => panic!("expected a sample query: {other:?}"),
    }
}

#[test]
fn uploads_without_content_say_why() {
    let refused = |parts: &[(&str, Option<&str>, &str)]| {
        upload_search(&request(FORM_TYPE, &form_body(parts)), 5, 8)
            .expect_err("refused")
            .message()
            .to_string()
    };

    assert_eq!(
        refused(&[("k", None, "3")]),
        "upload an image or provide a sample id"
    );
    assert_eq!(
        refused(&[("image", Some("x.png"), "")]),
        "uploaded image is empty"
    );
    assert_eq!(
        refused(&[("sample", None, "9")]),
        "sample index 9 out of range"
    );
    assert_eq!(
        upload_search(&request(FORM_TYPE, b"no form"), 5, 8)
            .expect_err("refused")
            .message(),
        "invalid multipart form data"
    );
}

#[test]
fn live_frames_come_in_a_form_or_as_the_body() {
    let mut plain = request("image/jpeg", b"frame");
    plain.query.insert("k".to_string(), "4".to_string());
    let query = live_search(&plain, 8).expect("plain frame");
    assert_eq!(query.frame, b"frame".to_vec());
    assert_eq!(query.top_k, 4);

    let both = form_body(&[
        ("image", Some("i.png"), "image"),
        ("frame", Some("f.png"), "frame"),
    ]);
    let query = live_search(&request(FORM_TYPE, &both), 8).expect("form frame");
    assert_eq!(query.frame, b"frame".to_vec());
    assert_eq!(query.top_k, 8);

    let image = form_body(&[("image", Some("i.png"), "image")]);
    let query = live_search(&request(FORM_TYPE, &image), 8).expect("form image");
    assert_eq!(query.frame, b"image".to_vec());
}

#[test]
fn live_requests_without_a_frame_say_why() {
    assert_eq!(
        live_search(&request("image/jpeg", b""), 8)
            .expect_err("empty")
            .message(),
        "live frame request body is empty"
    );
    assert_eq!(
        live_search(
            &request(FORM_TYPE, &form_body(&[("k", None, "3")])),
            8
        )
        .expect_err("no file")
        .message(),
        "live frame request must include a frame or image file"
    );
}

#[test]
fn page_text_holds_no_markup() {
    assert_eq!(
        escape_html("<a href=\"x\">'&'</a>"),
        "&lt;a href=&quot;x&quot;&gt;&#39;&amp;&#39;&lt;/a&gt;"
    );
    assert_eq!(escape_html("甲"), "甲");
}
