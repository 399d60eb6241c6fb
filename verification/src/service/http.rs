//! Requests and responses.

use vstd::prelude::*;
use vstd::string::*;
use vstd::utf8::encode_utf8;

use crate::names::{extension, extension_of, law_names_split_at_the_last_dot};
use crate::service::fields::Fields;
use crate::service::form::{
    bytes_between, find_line_end, header_value, header_value_of, lemma_first_line, line_end,
    parse_urlencoded, texts, trim_text, trimmed, url_values,
};
use crate::text::{
    ascii_lowered, chars_of, find_next, lemma_next_of, next_of, number_of, parse_usize, same_text, string_of,
    to_ascii_lower,
};

verus! {

/// A request.
#[derive(Debug)]
pub struct HttpRequest {
    pub method: String,
    pub path: String,
    pub query: Fields<String>,
    pub content_type: String,
    pub body: Vec<u8>,
}

/// A response.
#[derive(Debug)]
pub struct HttpResponse {
    pub status: u16,
    pub content_type: String,
    pub body: Vec<u8>,
}

impl HttpResponse {
    /// Whether the response has these parts.
    pub open spec fn is(self, status: u16, content_type: Seq<char>, body: Seq<u8>) -> bool {
        &&& self.status == status
        &&& self.content_type@ == content_type
        &&& self.body@ == body
    }

    pub fn ok(content_type: &str, body: Vec<u8>) -> (r: HttpResponse)
        ensures
            r.is(200, content_type@, body@),
            r.status == 200,
            r.content_type@ == content_type@,
            r.body@ == body@,
    {
        HttpResponse { status: 200, content_type: content_type.to_owned(), body }
    }
}

/// The bytes of a text.
pub fn text_bytes(text: &str) -> (r: Vec<u8>)
    ensures
        r@ == encode_utf8(text@),
{
    let bytes = text.as_bytes();
    let r = bytes_between(bytes, 0, bytes.len());
    assert(r@ =~= bytes@);
    r
}

/// A page.
pub fn html_response(page: &str) -> (r: HttpResponse)
    ensures
        r.is(200, "text/html; charset=utf-8"@, encode_utf8(page@)),
        r.status == 200,
        r.content_type@ == "text/html; charset=utf-8"@,
        r.body@ == encode_utf8(page@),
{
    HttpResponse::ok("text/html; charset=utf-8", text_bytes(page))
}

/// A JSON document.
pub fn json_response(json: &str) -> (r: HttpResponse)
    ensures
        r.is(200, "application/json; charset=utf-8"@, encode_utf8(json@)),
        r.status == 200,
        r.content_type@ == "application/json; charset=utf-8"@,
        r.body@ == encode_utf8(json@),
{
    HttpResponse::ok("application/json; charset=utf-8", text_bytes(json))
}

/// A file that is part of the program.
pub fn static_response(content_type: &str, body: &[u8]) -> (r: HttpResponse)
    ensures
        r.is(200, content_type@, body@),
        r.status == 200,
        r.content_type@ == content_type@,
        r.body@ == body@,
{
    let copy = bytes_between(body, 0, body.len());
    assert(copy@ =~= body@);
    HttpResponse::ok(content_type, copy)
}

/// What went wrong.
pub fn error_response(status: u16, message: &str) -> (r: HttpResponse)
    ensures
        r.is(status, "text/plain; charset=utf-8"@, encode_utf8(message@)),
        r.status == status,
        r.content_type@ == "text/plain; charset=utf-8"@,
        r.body@ == encode_utf8(message@),
{
    HttpResponse {
        status,
        content_type: "text/plain; charset=utf-8".to_owned(),
        body: text_bytes(message),
    }
}

/// The content type of an image, by the extension of its file name.
pub open spec fn image_type(file_name: Seq<char>) -> Seq<char> {
    match extension(file_name) {
        None => "application/octet-stream"@,
        Some(found) => {
            let found = ascii_lowered(found);
            if found == "png"@ {
                "image/png"@
            } else if found == "jpg"@ || found == "jpeg"@ {
                "image/jpeg"@
            } else if found == "webp"@ {
                "image/webp"@
            } else if found == "avif"@ {
                "image/avif"@
            } else if found == "heic"@ {
                "image/heic"@
            } else if found == "heif"@ {
                "image/heif"@
            } else {
                "application/octet-stream"@
            }
        },
    }
}

/// The content type of an image, by the extension of its file name.
pub fn image_content_type(file_name: &str) -> (r: &'static str)
    ensures
        r@ == image_type(file_name@),
{
    match extension_of(file_name) {
        None => "application/octet-stream",
        Some(found) => {
            let lowered = to_ascii_lower(found.as_str());
            let found = lowered.as_str();
            if same_text(found, "png") {
                "image/png"
            } else if same_text(found, "jpg") || same_text(found, "jpeg") {
                "image/jpeg"
            } else if same_text(found, "webp") {
                "image/webp"
            } else if same_text(found, "avif") {
                "image/avif"
            } else if same_text(found, "heic") {
                "image/heic"
            } else if same_text(found, "heif") {
                "image/heif"
            } else {
                "application/octet-stream"
            }
        },
    }
}

/// The head of a request: everything but its body.
#[derive(Debug)]
pub struct RequestHead {
    pub method: String,
    pub path: String,
    pub query: Fields<String>,
    pub content_type: String,
    pub content_length: usize,
}

/// The end of the request line.
pub open spec fn request_line(head: Seq<char>) -> Seq<char> {
    head.take(line_end(head, 0))
}

/// Where the method ends.
pub open spec fn method_end(line: Seq<char>) -> int {
    next_of(line, ' ', 0)
}

/// Where the target ends.
pub open spec fn target_end(line: Seq<char>) -> int {
    next_of(line, ' ', method_end(line) + 1)
}

/// The target of a request line.
pub open spec fn target(line: Seq<char>) -> Seq<char> {
    line.subrange(method_end(line) + 1, target_end(line))
}

/// A header of a request without white space around it, or nothing where it is missing.
pub open spec fn header_text(head: Seq<char>, name: Seq<char>) -> Seq<char> {
    match header_value(head, name, 0) {
        Some(value) => trimmed(value, 0, value.len() as int),
        None => Seq::empty(),
    }
}

impl RequestHead {
    /// Whether this is the head with the given text. The target's part behind a question mark is
    /// the query; a content length that is missing or no number counts as zero.
    pub open spec fn is(self, head: Seq<char>) -> bool {
        let line = request_line(head);
        let whole = target(line);
        let mark = next_of(whole, '?', 0);
        &&& self.method@ == line.take(method_end(line))
        &&& self.path@ == whole.take(mark)
        &&& texts(self.query@) == if mark < whole.len() {
            url_values(encode_utf8(whole.skip(mark + 1)), 0, Map::empty())
        } else {
            Map::empty()
        }
        &&& self.content_type@ == header_text(head, "content-type"@)
        &&& self.content_length == match number_of(
            header_text(head, "content-length"@),
            10,
            usize::MAX as nat,
        ) {
            Ok(n) => n,
            Err(_) => 0,
        }
    }
}

/// A header of a request without white space around it.
fn read_header(head: &str, name: &str) -> (r: String)
    ensures
        r@ == header_text(head@, name@),
{
    match header_value_of(head, name) {
        Some(value) => trim_text(value.as_str()),
        None => {
            let r = String::new();
            assert(r@ =~= Seq::<char>::empty());
            r
        },
    }
}

/// Whether a request line has a method and a target.
pub open spec fn has_target(head: Seq<char>) -> bool {
    let line = request_line(head);
    method_end(line) < line.len()
}

/// Reads the head of a request, which ends before the first empty line.
pub fn parse_request_head(head: &str) -> (r: Option<RequestHead>)
    ensures
        match r {
            Some(parsed) => has_target(head@) && parsed.is(head@),
            None => !has_target(head@),
        },
        r is Some ==> r->0.content_type@ == (match header_value(head@, "content-type"@, 0) {
            Some(value) => trimmed(value, 0, value.len() as int),
            None => Seq::empty(),
        }),
        r is Some ==> r->0.content_length == (match header_value(head@, "content-length"@, 0) {
            Some(value) => match number_of(
                trimmed(value, 0, value.len() as int),
                10,
                usize::MAX as nat,
            ) {
                Ok(n) => n,
                Err(_) => 0,
            },
            None => 0,
        }),
{
    let chars = chars_of(head);
    let end = find_line_end(&chars, 0);
    let line_text = string_of(&chars, 0, end);
    let line = chars_of(line_text.as_str());
    let ghost line_view = request_line(head@);
    assert(line@ =~= line_view);
    let n: usize = line.len();
    let method_stop = find_next(&line, ' ', 0);
    if method_stop >= n {
        return None;
    }
    let target_stop = find_next(&line, ' ', method_stop + 1);
    let method = string_of(&line, 0, method_stop);
    let whole_text = string_of(&line, method_stop + 1, target_stop);
    let whole = chars_of(whole_text.as_str());
    let total: usize = whole.len();
    let mark = find_next(&whole, '?', 0);
    let path = string_of(&whole, 0, mark);
    let query = if mark < total {
        let query_text = string_of(&whole, mark + 1, total);
        assert(query_text@ =~= whole@.skip(mark + 1));
        parse_urlencoded(query_text.as_str())
    } else {
        let none: Fields<String> = Fields::new();
        assert(texts(none@) =~= Map::<Seq<char>, Seq<char>>::empty());
        none
    };
    let content_type = read_header(head, "content-type");
    let length_text = read_header(head, "content-length");
    let content_length: usize = match parse_usize(length_text.as_str()) {
        Ok(n) => n,
        Err(_) => 0,
    };
    assert(method@ =~= line_view.take(method_end(line_view)));
    assert(path@ =~= target(line_view).take(mark as int));
    Some(RequestHead { method, path, query, content_type, content_length })
}

impl HttpRequest {
    /// The request with a head and a body.
    pub fn new(head: RequestHead, body: Vec<u8>) -> (r: HttpRequest)
        ensures
            r.method@ == head.method@,
            r.path@ == head.path@,
            r.query@ == head.query@,
            r.content_type@ == head.content_type@,
            r.body@ == body@,
    {
        HttpRequest {
            method: head.method,
            path: head.path,
            query: head.query,
            content_type: head.content_type,
            body,
        }
    }
}

/// A response has its own status, content type and body, and no others.
pub proof fn law_a_response_is_its_parts(
    response: HttpResponse,
    status: u16,
    content_type: Seq<char>,
    body: Seq<u8>,
)
    ensures
        response.is(status, content_type, body) <==> {
            &&& response.status == status
            &&& response.content_type@ == content_type
            &&& response.body@ == body
        },
{
}

/// The content type of an image follows from what stands behind the last dot of its name, in
/// letters of any size.
pub proof fn law_image_type_follows_the_extension(base: Seq<char>, written: Seq<char>)
    requires
        base.len() > 0,
        forall|i: int| 0 <= i < written.len() ==> #[trigger] written[i] != '.',
        written.len() > 0,
    ensures
        ascii_lowered(written) == "png"@ ==> image_type(base + seq!['.'] + written)
            == "image/png"@,
        ascii_lowered(written) == "jpg"@ ==> image_type(base + seq!['.'] + written)
            == "image/jpeg"@,
        ascii_lowered(written) == "jpeg"@ ==> image_type(base + seq!['.'] + written)
            == "image/jpeg"@,
        ascii_lowered(written) == "webp"@ ==> image_type(base + seq!['.'] + written)
            == "image/webp"@,
        ascii_lowered(written) == "avif"@ ==> image_type(base + seq!['.'] + written)
            == "image/avif"@,
        ascii_lowered(written) == "heic"@ ==> image_type(base + seq!['.'] + written)
            == "image/heic"@,
        ascii_lowered(written) == "heif"@ ==> image_type(base + seq!['.'] + written)
            == "image/heif"@,
        ascii_lowered(written) != "png"@ && ascii_lowered(written) != "jpg"@ && ascii_lowered(
            written,
        ) != "jpeg"@ && ascii_lowered(written) != "webp"@ && ascii_lowered(written) != "avif"@
            && ascii_lowered(written) != "heic"@ && ascii_lowered(written) != "heif"@
            ==> image_type(base + seq!['.'] + written) == "application/octet-stream"@,
        image_type(written) == "application/octet-stream"@,
{
    law_names_split_at_the_last_dot(base, written);
    let name = base + seq!['.'] + written;
    assert(name != seq!['.', '.']) by {
        if name == seq!['.', '.'] {
            assert(name[name.len() - 1] == written[written.len() - 1]);
            assert(name[1] == '.');
        }
    }
    reveal_strlit("png");
    reveal_strlit("jpg");
    reveal_strlit("jpeg");
    reveal_strlit("webp");
    reveal_strlit("avif");
    reveal_strlit("heic");
    reveal_strlit("heif");
    assert("png"@[0] == 'p' && "jpg"@[0] == 'j' && "jpeg"@.len() == 4 && "webp"@[0] == 'w'
        && "avif"@[0] == 'a');
    assert("heic"@[3] == 'c' && "heif"@[3] == 'f' && "heic"@[0] == 'h' && "heif"@[0] == 'h');
}

/// A request line is a method, a space and a target, which may be followed by a space and more.
/// The target's part before a question mark is the path and the part behind it the query, read as
/// URL-encoded pairs.
pub proof fn law_request_line_names_method_path_and_query(
    head: RequestHead,
    method: Seq<char>,
    path: Seq<char>,
    query: Seq<char>,
    version: Seq<char>,
    rest: Seq<char>,
)
    requires
        forall|i: int| 0 <= i < method.len() ==> #[trigger] method[i] != ' ' && method[i] != '\r',
        forall|i: int|
            0 <= i < path.len() ==> #[trigger] path[i] != ' ' && path[i] != '\r' && path[i] != '?',
        forall|i: int| 0 <= i < query.len() ==> #[trigger] query[i] != ' ' && query[i] != '\r',
        forall|i: int| 0 <= i < version.len() ==> #[trigger] version[i] != '\r',
        rest.len() == 0 || (rest.len() >= 2 && rest[0] == '\r' && rest[1] == '\n'),
    ensures
        has_target(method + seq![' '] + (path + seq!['?'] + query) + seq![' '] + version + rest),
        head.is(method + seq![' '] + (path + seq!['?'] + query) + seq![' '] + version + rest) ==> {
            &&& head.method@ == method
            &&& head.path@ == path
            &&& texts(head.query@) == url_values(encode_utf8(query), 0, Map::empty())
        },
        has_target(method + seq![' '] + path + seq![' '] + version + rest),
        head.is(method + seq![' '] + path + seq![' '] + version + rest) ==> {
            &&& head.method@ == method
            &&& head.path@ == path
            &&& texts(head.query@) == Map::<Seq<char>, Seq<char>>::empty()
        },
        !has_target(method + rest),
{
    lemma_request_line(method, path + seq!['?'] + query, version, rest);
    lemma_request_line(method, path, version, rest);
    let asked = path + seq!['?'] + query;
    lemma_next_of(asked, '?', 0);
    let mark = next_of(asked, '?', 0);
    assert(asked[path.len() as int] == '?');
    if mark < path.len() {
        assert(asked[mark] == path[mark]);
    }
    assert(asked.take(mark) =~= path);
    assert(asked.skip(mark + 1) =~= query);
    lemma_next_of(path, '?', 0);
    assert(path.take(path.len() as int) =~= path);
    lemma_first_line(method, rest);
    assert((method + rest).take(method.len() as int) =~= method);
    lemma_next_of(method, ' ', 0);
}

/// A line of parts without line breaks has none.
proof fn lemma_line_has_no_break(method: Seq<char>, whole: Seq<char>, version: Seq<char>)
    requires
        forall|i: int| 0 <= i < method.len() ==> #[trigger] method[i] != ' ' && method[i] != '\r',
        forall|i: int| 0 <= i < whole.len() ==> #[trigger] whole[i] != ' ' && whole[i] != '\r',
        forall|i: int| 0 <= i < version.len() ==> #[trigger] version[i] != '\r',
    ensures
        ({
            let line = method + seq![' '] + whole + seq![' '] + version;
            forall|i: int| 0 <= i < line.len() ==> #[trigger] line[i] != '\r'
        }),
{
    let line = method + seq![' '] + whole + seq![' '] + version;
    let m = method.len() as int;
    let w = whole.len() as int;
    assert forall|i: int| 0 <= i < line.len() implies #[trigger] line[i] != '\r' by {
        if i < m {
            assert(line[i] == method[i]);
        } else if i == m || i == m + w + 1 {
            assert(line[i] == ' ');
        } else if i <= m + w {
            assert(line[i] == whole[i - m - 1]);
        } else {
            assert(line[i] == version[i - m - w - 2]);
        }
    }
}

/// A request line splits at its spaces.
#[verifier::spinoff_prover]
proof fn lemma_request_line(
    method: Seq<char>,
    whole: Seq<char>,
    version: Seq<char>,
    rest: Seq<char>,
)
    requires
        forall|i: int| 0 <= i < method.len() ==> #[trigger] method[i] != ' ' && method[i] != '\r',
        forall|i: int| 0 <= i < whole.len() ==> #[trigger] whole[i] != ' ' && whole[i] != '\r',
        forall|i: int| 0 <= i < version.len() ==> #[trigger] version[i] != '\r',
        rest.len() == 0 || (rest.len() >= 2 && rest[0] == '\r' && rest[1] == '\n'),
    ensures
        ({
            let head = method + seq![' '] + whole + seq![' '] + version + rest;
            let line = request_line(head);
            &&& has_target(head)
            &&& line.take(method_end(line)) == method
            &&& target(line) == whole
        }),
{
    let line = method + seq![' '] + whole + seq![' '] + version;
    let head = line + rest;
    let m = method.len() as int;
    let w = whole.len() as int;
    lemma_line_has_no_break(method, whole, version);
    lemma_first_line(line, rest);
    assert(head.take(line.len() as int) =~= line);
    lemma_next_of(line, ' ', 0);
    let first = next_of(line, ' ', 0);
    assert(line[m] == ' ');
    if first < m {
        assert(line[first] == method[first]);
    }
    lemma_next_of(line, ' ', m + 1);
    let second = next_of(line, ' ', m + 1);
    assert(line[m + 1 + w] == ' ');
    if second < m + 1 + w {
        assert(line[second] == whole[second - m - 1]);
    }
    assert(line.take(m) =~= method);
    assert(line.subrange(m + 1, m + 1 + w) =~= whole);
}

} // verus!
