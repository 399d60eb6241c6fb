//! Which request is answered in which way.

use vstd::prelude::*;
use vstd::utf8::encode_utf8;

use crate::service::assets::{is_example_image_name, names_example};
use crate::service::http::{error_response, text_bytes, HttpResponse};
use crate::service::live::candidate_url;
use crate::text::{
    decimal, decimal_text, has_prefix, law_decimal_reads_back, number_of, parse_usize, same_text,
    strip_prefix, NumberError,
};

verus! {

/// How a request is answered.
#[derive(Clone, Copy, Debug, PartialEq, Eq, Structural)]
pub enum Route {
    Home,
    BeerCss,
    BeerJs,
    MaterialSymbolsCss,
    MaterialSymbolsFont,
    ExampleAsset,
    Health,
    SampleSearch,
    UploadSearch,
    LiveSearch,
    LiveDisabled,
    CandidateImage,
    SampleImage,
    NotFound,
}

/// How a request is answered, by its method and path.
pub open spec fn route_of(method: Seq<char>, path: Seq<char>, live: bool) -> Route {
    if method == "GET"@ {
        if path == "/"@ {
            Route::Home
        } else if path == "/assets/beer.min.css"@ {
            Route::BeerCss
        } else if path == "/assets/beer.min.js"@ {
            Route::BeerJs
        } else if path == "/assets/material-symbols.css"@ {
            Route::MaterialSymbolsCss
        } else if path == "/assets/material-symbols-outlined.ttf"@ {
            Route::MaterialSymbolsFont
        } else if has_prefix(path, "/assets/examples/"@) {
            Route::ExampleAsset
        } else if path == "/health"@ {
            Route::Health
        } else if path == "/search"@ {
            Route::SampleSearch
        } else if has_prefix(path, "/candidate/"@) {
            Route::CandidateImage
        } else if has_prefix(path, "/sample/"@) {
            Route::SampleImage
        } else {
            Route::NotFound
        }
    } else if method == "POST"@ {
        if path == "/search"@ {
            Route::UploadSearch
        } else if path == "/live/search"@ {
            if live {
                Route::LiveSearch
            } else {
                Route::LiveDisabled
            }
        } else {
            Route::NotFound
        }
    } else {
        Route::NotFound
    }
}

/// Decides how a request is answered. `live` says whether live search is on.
pub fn route_request(method: &str, path: &str, live: bool) -> (r: Route)
    ensures
        r == route_of(method@, path@, live),
{
    if same_text(method, "GET") {
        if same_text(path, "/") {
            Route::Home
        } else if same_text(path, "/assets/beer.min.css") {
            Route::BeerCss
        } else if same_text(path, "/assets/beer.min.js") {
            Route::BeerJs
        } else if same_text(path, "/assets/material-symbols.css") {
            Route::MaterialSymbolsCss
        } else if same_text(path, "/assets/material-symbols-outlined.ttf") {
            Route::MaterialSymbolsFont
        } else if strip_prefix(path, "/assets/examples/").is_some() {
            Route::ExampleAsset
        } else if same_text(path, "/health") {
            Route::Health
        } else if same_text(path, "/search") {
            Route::SampleSearch
        } else if strip_prefix(path, "/candidate/").is_some() {
            Route::CandidateImage
        } else if strip_prefix(path, "/sample/").is_some() {
            Route::SampleImage
        } else {
            Route::NotFound
        }
    } else if same_text(method, "POST") {
        if same_text(path, "/search") {
            Route::UploadSearch
        } else if same_text(path, "/live/search") {
            if live {
                Route::LiveSearch
            } else {
                Route::LiveDisabled
            }
        } else {
            Route::NotFound
        }
    } else {
        Route::NotFound
    }
}

/// The answer of a route that needs nothing but its name.
pub fn fixed_response(route: Route) -> (r: Option<HttpResponse>)
    ensures
        match route {
            Route::LiveDisabled => r is Some && r->0.is(
                404,
                "text/plain; charset=utf-8"@,
                encode_utf8("live mode is disabled"@),
            ),
            Route::NotFound => r is Some && r->0.is(
                404,
                "text/plain; charset=utf-8"@,
                encode_utf8("not found"@),
            ),
            _ => r is None,
        },
{
    match route {
        Route::LiveDisabled => Some(error_response(404, "live mode is disabled")),
        Route::NotFound => Some(error_response(404, "not found")),
        _ => None,
    }
}

/// The content type of a file that is part of the program, by the route that leads to it.
pub fn asset_content_type(route: Route) -> (r: Option<&'static str>)
    ensures
        match route {
            Route::BeerCss | Route::MaterialSymbolsCss => r is Some && r->0@
                == "text/css; charset=utf-8"@,
            Route::BeerJs => r is Some && r->0@ == "application/javascript; charset=utf-8"@,
            Route::MaterialSymbolsFont => r is Some && r->0@ == "font/ttf"@,
            _ => r is None,
        },
{
    match route {
        Route::BeerCss | Route::MaterialSymbolsCss => Some("text/css; charset=utf-8"),
        Route::BeerJs => Some("application/javascript; charset=utf-8"),
        Route::MaterialSymbolsFont => Some("font/ttf"),
        _ => None,
    }
}

/// The numbers of pairs and candidates, as JSON.
pub open spec fn health_json(pairs: nat, candidates: nat) -> Seq<char> {
    "{\"pairs\":"@ + decimal(pairs) + ",\"candidates\":"@ + decimal(candidates) + "}"@
}

/// The answer that the service is alive.
pub fn health_response(pairs: usize, candidates: usize) -> (r: HttpResponse)
    ensures
        r.is(
            200,
            "application/json; charset=utf-8"@,
            encode_utf8(health_json(pairs as nat, candidates as nat)),
        ),
{
    let mut json = "{\"pairs\":".to_owned();
    json.append(decimal_text(pairs).as_str());
    json.append(",\"candidates\":");
    json.append(decimal_text(candidates).as_str());
    json.append("}");
    HttpResponse::ok("application/json; charset=utf-8", text_bytes(json.as_str()))
}

/// The number behind the prefix of a path.
pub open spec fn path_number(path: Seq<char>, prefix: Seq<char>) -> Option<nat> {
    if has_prefix(path, prefix) {
        match number_of(path.skip(prefix.len() as int), 10, usize::MAX as nat) {
            Ok(n) => Some(n),
            Err(_) => None,
        }
    } else {
        None
    }
}

fn number_behind(path: &str, prefix: &str) -> (r: Option<usize>)
    ensures
        r is Some == path_number(path@, prefix@) is Some,
        r is Some ==> r->0 == path_number(path@, prefix@)->0,
        r is Some ==> prefix@.is_prefix_of(path@) && number_of(
            path@.skip(prefix@.len() as int),
            10,
            usize::MAX as nat,
        ) == Ok::<nat, NumberError>(r->0 as nat),
{
    match strip_prefix(path, prefix) {
        Some(rest) => match parse_usize(rest.as_str()) {
            Ok(n) => Some(n),
            Err(_) => None,
        },
        None => None,
    }
}

/// The candidate whose image is asked for, out of `candidates`, or the answer that there is none.
pub fn candidate_image(path: &str, candidates: usize) -> (r: Result<usize, HttpResponse>)
    ensures
        match path_number(path@, "/candidate/"@) {
            None => r is Err && r->Err_0.is(
                400,
                "text/plain; charset=utf-8"@,
                encode_utf8("invalid image index"@),
            ),
            Some(n) => if n < candidates {
                r is Ok && r->Ok_0 == n
            } else {
                r is Err && r->Err_0.is(
                    404,
                    "text/plain; charset=utf-8"@,
                    encode_utf8("candidate image not found"@),
                )
            },
        },
{
    match number_behind(path, "/candidate/") {
        None => Err(error_response(400, "invalid image index")),
        Some(n) => if n < candidates {
            Ok(n)
        } else {
            Err(error_response(404, "candidate image not found"))
        },
    }
}

/// The pair whose image is asked for, out of `pairs`, or the answer that there is none.
pub fn sample_image(path: &str, pairs: usize) -> (r: Result<usize, HttpResponse>)
    ensures
        match path_number(path@, "/sample/"@) {
            None => r is Err && r->Err_0.is(
                400,
                "text/plain; charset=utf-8"@,
                encode_utf8("invalid sample index"@),
            ),
            Some(n) => if n < pairs {
                r is Ok && r->Ok_0 == n
            } else {
                r is Err && r->Err_0.is(
                    404,
                    "text/plain; charset=utf-8"@,
                    encode_utf8("sample image not found"@),
                )
            },
        },
{
    match number_behind(path, "/sample/") {
        None => Err(error_response(400, "invalid sample index")),
        Some(n) => if n < pairs {
            Ok(n)
        } else {
            Err(error_response(404, "sample image not found"))
        },
    }
}

/// The name of the example image that is asked for, or the answer that it is none.
pub fn example_asset(path: &str) -> (r: Result<String, HttpResponse>)
    ensures
        ({
            let prefix = "/assets/examples/"@;
            let name = path@.skip(prefix.len() as int);
            if has_prefix(path@, prefix) && names_example(name) {
                r is Ok && r->Ok_0@ == name
            } else {
                r is Err && r->Err_0.is(
                    400,
                    "text/plain; charset=utf-8"@,
                    encode_utf8("invalid example asset"@),
                )
            }
        }),
{
    match strip_prefix(path, "/assets/examples/") {
        None => Err(error_response(400, "invalid example asset")),
        Some(name) => if is_example_image_name(name.as_str()) {
            Ok(name)
        } else {
            Err(error_response(400, "invalid example asset"))
        },
    }
}

/// The answer for an image file that cannot be read.
pub fn missing_file() -> (r: HttpResponse)
    ensures
        r.is(404, "text/plain; charset=utf-8"@, encode_utf8("image not found"@)),
{
    error_response(404, "image not found")
}

/// The address that a live hit gives for its image leads to that candidate.
pub proof fn law_candidate_urls_resolve(index: nat, live: bool)
    requires
        index <= usize::MAX,
    ensures
        route_of("GET"@, candidate_url(index), live) == Route::CandidateImage,
        path_number(candidate_url(index), "/candidate/"@) == Some(index),
{
    let prefix = "/candidate/"@;
    let url = candidate_url(index);
    assert(has_prefix(url, prefix)) by {
        assert(prefix =~= url.subrange(0, prefix.len() as int));
    }
    assert(url.skip(prefix.len() as int) =~= decimal(index));
    law_decimal_reads_back(index, usize::MAX as nat);
    reveal_strlit("/candidate/");
    reveal_strlit("/");
    reveal_strlit("/assets/beer.min.css");
    reveal_strlit("/assets/beer.min.js");
    reveal_strlit("/assets/material-symbols.css");
    reveal_strlit("/assets/material-symbols-outlined.ttf");
    reveal_strlit("/assets/examples/");
    reveal_strlit("/health");
    reveal_strlit("/search");
    assert(url[1] == prefix[1] == 'c');
    assert(url.len() > 1);
    assert("/assets/beer.min.css"@[1] == 'a');
    assert("/assets/beer.min.js"@[1] == 'a');
    assert("/assets/material-symbols.css"@[1] == 'a');
    assert("/assets/material-symbols-outlined.ttf"@[1] == 'a');
    assert("/assets/examples/"@[1] == 'a');
    assert("/health"@[1] == 'h');
    assert("/search"@[1] == 's');
    assert("/"@.len() == 1);
}

/// Only GET and POST requests are answered.
pub proof fn law_other_methods_are_not_found(method: Seq<char>, path: Seq<char>, live: bool)
    requires
        method != "GET"@,
        method != "POST"@,
    ensures
        route_of(method, path, live) == Route::NotFound,
{
}

/// Where live search is off, no request reaches it.
pub proof fn law_live_search_needs_live_mode(method: Seq<char>, path: Seq<char>)
    ensures
        route_of(method, path, false) != Route::LiveSearch,
{
}

/// Each page has its own method and path: a request is answered by a route exactly where it asks
/// for what the route gives, and nothing is found where no route gives it.
pub proof fn law_each_route_has_its_requests(method: Seq<char>, path: Seq<char>, live: bool)
    ensures
        route_of(method, path, live) == Route::Home <==> method == "GET"@ && path == "/"@,
        route_of(method, path, live) == Route::BeerCss <==> method == "GET"@ && path
            == "/assets/beer.min.css"@,
        route_of(method, path, live) == Route::BeerJs <==> method == "GET"@ && path
            == "/assets/beer.min.js"@,
        route_of(method, path, live) == Route::MaterialSymbolsCss <==> method == "GET"@ && path
            == "/assets/material-symbols.css"@,
        route_of(method, path, live) == Route::MaterialSymbolsFont <==> method == "GET"@ && path
            == "/assets/material-symbols-outlined.ttf"@,
        route_of(method, path, live) == Route::ExampleAsset <==> method == "GET"@
            && "/assets/examples/"@.is_prefix_of(path),
        route_of(method, path, live) == Route::Health <==> method == "GET"@ && path == "/health"@,
        route_of(method, path, live) == Route::SampleSearch <==> method == "GET"@ && path
            == "/search"@,
        route_of(method, path, live) == Route::CandidateImage <==> method == "GET"@
            && "/candidate/"@.is_prefix_of(path),
        route_of(method, path, live) == Route::SampleImage <==> method == "GET"@
            && "/sample/"@.is_prefix_of(path),
        route_of(method, path, live) == Route::UploadSearch <==> method == "POST"@ && path
            == "/search"@,
        route_of(method, path, live) == Route::LiveSearch <==> method == "POST"@ && path
            == "/live/search"@ && live,
        route_of(method, path, live) == Route::LiveDisabled <==> method == "POST"@ && path
            == "/live/search"@ && !live,
{
    reveal_strlit("/");
    reveal_strlit("/assets/beer.min.css");
    reveal_strlit("/assets/beer.min.js");
    reveal_strlit("/assets/material-symbols.css");
    reveal_strlit("/assets/material-symbols-outlined.ttf");
    reveal_strlit("/health");
    reveal_strlit("/search");
    reveal_strlit("/live/search");
    reveal_strlit("GET");
    reveal_strlit("POST");
    reveal_strlit("/assets/examples/");
    reveal_strlit("/candidate/");
    reveal_strlit("/sample/");
    let examples = "/assets/examples/"@;
    let candidate = "/candidate/"@;
    let sample = "/sample/"@;
    assert("GET"@[0] == 'G' && "POST"@[0] == 'P');
    assert("/assets/beer.min.css"@[8] == 'b' && "/assets/beer.min.css"@.len() == 20);
    assert("/assets/beer.min.js"@[8] == 'b' && "/assets/beer.min.js"@.len() == 19);
    assert("/assets/material-symbols.css"@[8] == 'm' && "/assets/material-symbols.css"@.len()
        == 28);
    assert("/assets/material-symbols-outlined.ttf"@[8] == 'm'
        && "/assets/material-symbols-outlined.ttf"@.len() == 37);
    assert("/health"@[1] == 'h' && "/search"@[1] == 's' && "/search"@[2] == 'e');
    assert("/"@.len() == 1);
    assert("/assets/beer.min.css"@[1] == 'a' && "/assets/beer.min.js"@[1] == 'a');
    assert("/assets/material-symbols.css"@[1] == 'a');
    assert("/assets/material-symbols-outlined.ttf"@[1] == 'a');
    assert("/live/search"@[1] == 'l');
    if examples.is_prefix_of(path) {
        assert(path[8] == examples[8] && path[1] == examples[1]);
        assert(path[8] == 'e' && path[1] == 'a');
    }
    if candidate.is_prefix_of(path) {
        assert(path[1] == candidate[1]);
        assert(path[1] == 'c');
    }
    if sample.is_prefix_of(path) {
        assert(path[1] == sample[1] && path[2] == sample[2]);
        assert(path[1] == 's' && path[2] == 'a');
    }
}

/// The number behind a prefix is the one that its digits stand for.
pub proof fn law_path_numbers_read_back(prefix: Seq<char>, n: nat)
    requires
        n <= usize::MAX,
    ensures
        path_number(prefix + decimal(n), prefix) == Some(n),
{
    let path = prefix + decimal(n);
    assert(has_prefix(path, prefix)) by {
        assert(prefix =~= path.subrange(0, prefix.len() as int));
    }
    assert(path.skip(prefix.len() as int) =~= decimal(n));
    law_decimal_reads_back(n, usize::MAX as nat);
}

/// The answer that the service is alive says the number of pairs first, then that of candidates.
pub proof fn law_health_says_both_numbers(pairs: nat, candidates: nat)
    ensures
        health_json(pairs, candidates) == "{\"pairs\":"@ + decimal(pairs) + ",\"candidates\":"@
            + decimal(candidates) + "}"@,
{
}

} // verus!
