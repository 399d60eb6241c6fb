//! Form data: URL-encoded pairs, multipart bodies and the values taken from them.

use vstd::prelude::*;
use vstd::string::*;
use vstd::utf8::{decode_utf8, encode_utf8, valid_utf8};

use crate::error::{invalid, RetrievalError};
use crate::service::fields::Fields;
use crate::text::{
    ascii_lowered, chars_of, decimal, find_next, has_prefix, is_space, is_whitespace,
    law_decimal_reads_back, lemma_next_of, next_of, number_of, parse_usize, string_of, strip_prefix,
    to_ascii_lower,
};

verus! {

/// Bytes as text, as `String::from_utf8_lossy` gives it.
pub uninterp spec fn lossy_text(bytes: Seq<u8>) -> Seq<char>;

/// Calls `String::from_utf8_lossy`. The result depends on the bytes alone, and of valid UTF-8 it
/// is the text that the bytes encode. What replaces invalid bytes is left unsaid.
#[verifier::external_body]
fn from_utf8_lossy(bytes: &[u8]) -> (r: String)
    ensures
        r@ == lossy_text(bytes@),
        valid_utf8(bytes@) ==> r@ == decode_utf8(bytes@),
{
    String::from_utf8_lossy(bytes).into_owned()
}

/// Bytes as text: what valid UTF-8 encodes, and what `String::from_utf8_lossy` makes of others.
pub open spec fn text_in(bytes: Seq<u8>) -> Seq<char> {
    if valid_utf8(bytes) {
        decode_utf8(bytes)
    } else {
        lossy_text(bytes)
    }
}

/// Bytes as text.
pub fn text_from_bytes(bytes: &[u8]) -> (r: String)
    ensures
        r@ == text_in(bytes@),
        r@ == (if valid_utf8(bytes@) {
            decode_utf8(bytes@)
        } else {
            lossy_text(bytes@)
        }),
{
    from_utf8_lossy(bytes)
}

/// The bytes from `from` up to `to`.
pub fn bytes_between(bytes: &[u8], from: usize, to: usize) -> (r: Vec<u8>)
    requires
        from <= to <= bytes@.len(),
    ensures
        r@ == bytes@.subrange(from as int, to as int),
        r@.len() == to - from,
        forall|i: int| 0 <= i < to - from ==> #[trigger] r@[i] == bytes@[from + i],
{
    let mut r: Vec<u8> = Vec::new();
    for i in from..to
        invariant
            to <= bytes@.len(),
            r@ =~= bytes@.subrange(from as int, i as int),
    {
        r.push(bytes[i]);
    }
    r
}

/// The first position at or behind `from` that holds byte `b`, or the length.
pub open spec fn next_byte(bytes: Seq<u8>, b: u8, from: int) -> int
    decreases bytes.len() - from,
{
    if from >= bytes.len() || bytes[from] == b {
        from
    } else {
        next_byte(bytes, b, from + 1)
    }
}

fn find_byte(bytes: &[u8], b: u8, from: usize) -> (r: usize)
    requires
        from <= bytes@.len(),
    ensures
        r == next_byte(bytes@, b, from as int),
        from <= r <= bytes@.len(),
        r < bytes@.len() ==> bytes@[r as int] == b,
        forall|i: int| from <= i < r ==> #[trigger] bytes@[i] != b,
{
    let mut i: usize = from;
    while i < bytes.len() && bytes[i] != b
        invariant
            from <= i <= bytes@.len(),
            forall|j: int| from <= j < i ==> #[trigger] bytes@[j] != b,
            next_byte(bytes@, b, i as int) == next_byte(bytes@, b, from as int),
        decreases bytes@.len() - i,
    {
        i += 1;
    }
    i
}

/// The value of a hexadecimal digit.
pub open spec fn nibble(b: u8) -> Option<u8> {
    if 0x30 <= b <= 0x39 {
        Some((b - 0x30) as u8)
    } else if 0x41 <= b <= 0x46 {
        Some((b - 0x41 + 10) as u8)
    } else if 0x61 <= b <= 0x66 {
        Some((b - 0x61 + 10) as u8)
    } else {
        None
    }
}

fn nibble_of(b: u8) -> (r: Option<u8>)
    ensures
        r == nibble(b),
{
    if 0x30 <= b && b <= 0x39 {
        Some(b - 0x30)
    } else if 0x41 <= b && b <= 0x46 {
        Some(b - 0x41 + 10)
    } else if 0x61 <= b && b <= 0x66 {
        Some(b - 0x61 + 10)
    } else {
        None
    }
}

/// Whether an escape stands at the start: a percent sign and two hexadecimal digits.
pub open spec fn starts_escape(bytes: Seq<u8>) -> bool {
    bytes.len() >= 3 && bytes[0] == 0x25 && nibble(bytes[1]) is Some && nibble(bytes[2]) is Some
}

/// URL-encoded bytes decoded: a plus sign is a space, an escape is the byte it names, and
/// everything else stands for itself.
pub open spec fn url_bytes(bytes: Seq<u8>) -> Seq<u8>
    decreases bytes.len(),
{
    if bytes.len() == 0 {
        Seq::empty()
    } else if bytes[0] == 0x2b {
        seq![0x20u8] + url_bytes(bytes.skip(1))
    } else if starts_escape(bytes) {
        seq![(nibble(bytes[1])->0 * 16 + nibble(bytes[2])->0) as u8] + url_bytes(bytes.skip(3))
    } else {
        seq![bytes[0]] + url_bytes(bytes.skip(1))
    }
}

/// Decodes URL-encoded bytes.
pub fn url_decode(bytes: &[u8]) -> (r: Vec<u8>)
    ensures
        r@ == url_bytes(bytes@),
{
    let n: usize = bytes.len();
    let mut r: Vec<u8> = Vec::new();
    let mut i: usize = 0;
    assert(bytes@.skip(0) =~= bytes@);
    while i < n
        invariant
            n == bytes@.len(),
            i <= n,
            r@ + url_bytes(bytes@.skip(i as int)) == url_bytes(bytes@),
        decreases n - i,
    {
        let ghost rest = bytes@.skip(i as int);
        let ghost before = r@;
        assert(rest.len() == n - i);
        assert(rest[0] == bytes@[i as int]);
        let b: u8 = bytes[i];
        if b == 0x2b {
            r.push(0x20);
            i += 1;
            assert(rest.skip(1) =~= bytes@.skip(i as int));
            assert(r@ + url_bytes(rest.skip(1)) =~= before + url_bytes(rest));
        } else {
            let mut escaped: Option<u8> = None;
            if b == 0x25 && n - i >= 3 {
                assert(rest[1] == bytes@[i + 1] && rest[2] == bytes@[i + 2]);
                if let Some(high) = nibble_of(bytes[i + 1]) {
                    if let Some(low) = nibble_of(bytes[i + 2]) {
                        escaped = Some(high * 16 + low);
                    }
                }
            }
            assert(escaped is Some == starts_escape(rest));
            match escaped {
                Some(byte) => {
                    r.push(byte);
                    i += 3;
                    assert(rest.skip(3) =~= bytes@.skip(i as int));
                    assert(r@ + url_bytes(rest.skip(3)) =~= before + url_bytes(rest));
                },
                None => {
                    r.push(b);
                    i += 1;
                    assert(rest.skip(1) =~= bytes@.skip(i as int));
                    assert(r@ + url_bytes(rest.skip(1)) =~= before + url_bytes(rest));
                },
            }
        }
    }
    assert(r@ + url_bytes(bytes@.skip(n as int)) =~= r@);
    r
}

/// The hexadecimal digit for a value below sixteen.
pub open spec fn hex_byte(v: int) -> u8 {
    if v < 10 {
        (0x30 + v) as u8
    } else {
        (0x41 + v - 10) as u8
    }
}

/// Bytes with every one of them written as an escape.
pub open spec fn escaped(bytes: Seq<u8>) -> Seq<u8>
    decreases bytes.len(),
{
    if bytes.len() == 0 {
        Seq::empty()
    } else {
        seq![0x25u8, hex_byte(bytes[0] as int / 16), hex_byte(bytes[0] as int % 16)] + escaped(
            bytes.skip(1),
        )
    }
}

/// Escaped bytes decode to what they were.
pub proof fn law_escapes_decode(bytes: Seq<u8>)
    ensures
        url_bytes(escaped(bytes)) == bytes,
    decreases bytes.len(),
{
    if bytes.len() > 0 {
        law_escapes_decode(bytes.skip(1));
        let all = escaped(bytes);
        assert(all.len() >= 3);
        assert(nibble(all[1]) == Some((bytes[0] / 16) as u8));
        assert(nibble(all[2]) == Some((bytes[0] % 16) as u8));
        assert(starts_escape(all));
        assert(all.skip(3) =~= escaped(bytes.skip(1)));
        assert(bytes =~= seq![bytes[0]] + bytes.skip(1));
    }
}

/// Bytes without plus and percent signs decode to themselves.
pub proof fn law_plain_bytes_decode_to_themselves(bytes: Seq<u8>)
    requires
        forall|i: int| 0 <= i < bytes.len() ==> #[trigger] bytes[i] != 0x2b && bytes[i] != 0x25,
    ensures
        url_bytes(bytes) == bytes,
    decreases bytes.len(),
{
    if bytes.len() > 0 {
        law_plain_bytes_decode_to_themselves(bytes.skip(1));
        assert(bytes =~= seq![bytes[0]] + bytes.skip(1));
    }
}

/// The texts behind named values.
pub open spec fn texts(fields: Map<Seq<char>, String>) -> Map<Seq<char>, Seq<char>> {
    fields.map_values(|value: String| value@)
}

/// URL-encoded bytes as text.
pub open spec fn url_text(bytes: Seq<u8>) -> Seq<char> {
    text_in(url_bytes(bytes))
}

/// Form values with one more pair; an empty pair adds nothing, and a pair without an equals sign
/// has no value.
pub open spec fn with_pair(values: Map<Seq<char>, Seq<char>>, pair: Seq<u8>) -> Map<
    Seq<char>,
    Seq<char>,
> {
    let eq = next_byte(pair, 0x3d, 0);
    if pair.len() == 0 {
        values
    } else if eq < pair.len() {
        values.insert(url_text(pair.take(eq)), url_text(pair.skip(eq + 1)))
    } else {
        values.insert(url_text(pair), url_text(Seq::empty()))
    }
}

/// The values of URL-encoded pairs, which ampersands separate. A name that comes again replaces
/// its value.
pub open spec fn url_values(bytes: Seq<u8>, from: int, values: Map<Seq<char>, Seq<char>>) -> Map<
    Seq<char>,
    Seq<char>,
>
    decreases bytes.len() - from,
{
    if from >= bytes.len() {
        values
    } else {
        let end = next_byte(bytes, 0x26, from);
        let more = with_pair(values, bytes.subrange(from, end));
        if from <= end < bytes.len() {
            url_values(bytes, end + 1, more)
        } else {
            more
        }
    }
}

/// URL-encoded bytes as text.
fn url_decoded_text(bytes: &[u8]) -> (r: String)
    ensures
        r@ == url_text(bytes@),
{
    let decoded = url_decode(bytes);
    text_from_bytes(decoded.as_slice())
}

/// Inserting a text shows in the texts.
pub proof fn lemma_texts_insert(fields: Map<Seq<char>, String>, name: Seq<char>, value: String)
    ensures
        texts(fields.insert(name, value)) == texts(fields).insert(name, value@),
{
    assert(texts(fields.insert(name, value)) =~= texts(fields).insert(name, value@));
}

fn insert_pair(values: &mut Fields<String>, pair: &[u8])
    ensures
        texts(final(values)@) == with_pair(texts(old(values)@), pair@),
{
    let n: usize = pair.len();
    if n == 0 {
        return;
    }
    let eq = find_byte(pair, 0x3d, 0);
    let name_bytes = bytes_between(pair, 0, eq);
    let value_bytes = if eq < n {
        bytes_between(pair, eq + 1, n)
    } else {
        Vec::new()
    };
    let name = url_decoded_text(name_bytes.as_slice());
    let value = url_decoded_text(value_bytes.as_slice());
    proof {
        lemma_texts_insert(values@, name@, value);
        assert(name_bytes@ =~= pair@.take(eq as int));
        if eq < n {
            assert(value_bytes@ =~= pair@.skip(eq + 1));
        } else {
            assert(name_bytes@ =~= pair@);
            assert(value_bytes@ =~= Seq::<u8>::empty());
        }
    }
    values.insert(name, value);
}

/// Reads URL-encoded pairs.
pub fn parse_urlencoded(text: &str) -> (r: Fields<String>)
    ensures
        texts(r@) == url_values(encode_utf8(text@), 0, Map::empty()),
{
    let bytes = text.as_bytes();
    let n: usize = bytes.len();
    let mut values: Fields<String> = Fields::new();
    assert(texts(values@) =~= Map::<Seq<char>, Seq<char>>::empty());
    let mut from: usize = 0;
    while from < n
        invariant
            n == bytes@.len(),
            from <= n,
            url_values(bytes@, from as int, texts(values@)) == url_values(
                bytes@,
                0,
                Map::<Seq<char>, Seq<char>>::empty(),
            ),
        decreases n - from,
    {
        let end = find_byte(bytes, 0x26, from);
        let pair = bytes_between(bytes, from, end);
        insert_pair(&mut values, pair.as_slice());
        if end < n {
            from = end + 1;
        } else {
            from = n;
        }
    }
    values
}

/// Whether `bytes` has `part` at position `at`.
pub open spec fn bytes_at(bytes: Seq<u8>, part: Seq<u8>, at: int) -> bool {
    0 <= at && at + part.len() <= bytes.len() && bytes.subrange(at, at + part.len()) == part
}

fn are_bytes_at(bytes: &[u8], part: &[u8], at: usize) -> (r: bool)
    requires
        at <= bytes@.len(),
    ensures
        r == bytes_at(bytes@, part@, at as int),
        r ==> at + part@.len() <= bytes@.len(),
        r ==> forall|j: int| 0 <= j < part@.len() ==> bytes@[at + j] == #[trigger] part@[j],
        !r ==> at + part@.len() > bytes@.len() || exists|j: int|
            0 <= j < part@.len() && bytes@[at + j] != #[trigger] part@[j],
{
    let n: usize = part.len();
    let total: usize = bytes.len();
    if total - at < n {
        return false;
    }
    for i in 0..n
        invariant
            n == part@.len(),
            total == bytes@.len(),
            at + n <= total,
            forall|j: int| 0 <= j < i ==> bytes@[at + j] == part@[j],
    {
        if bytes[at + i] != part[i] {
            assert(bytes@.subrange(at as int, at + n)[i as int] != part@[i as int]);
            return false;
        }
    }
    assert(bytes@.subrange(at as int, at + n) =~= part@);
    true
}

/// The first position at or behind `from` that has `part`, if there is one.
pub open spec fn find_bytes(bytes: Seq<u8>, part: Seq<u8>, from: int) -> Option<int>
    decreases bytes.len() + 1 - from,
{
    if from > bytes.len() {
        None
    } else if bytes_at(bytes, part, from) {
        Some(from)
    } else {
        find_bytes(bytes, part, from + 1)
    }
}

fn find_part_in(bytes: &[u8], part: &[u8], from: usize) -> (r: Option<usize>)
    requires
        from <= bytes@.len(),
    ensures
        r is Some == find_bytes(bytes@, part@, from as int) is Some,
        r is Some ==> r->0 == find_bytes(bytes@, part@, from as int)->0 && from <= r->0 && bytes_at(
            bytes@,
            part@,
            r->0 as int,
        ),
        r is Some ==> r->0 + part@.len() <= bytes@.len() && bytes@.subrange(
            r->0 as int,
            r->0 + part@.len(),
        ) == part@,
        forall|at: int|
            from <= at && at + part@.len() <= bytes@.len() && (r is Some ==> at < r->0)
                ==> #[trigger] bytes@.subrange(at, at + part@.len()) != part@,
{
    let n: usize = bytes.len();
    let mut at: usize = from;
    loop
        invariant
            n == bytes@.len(),
            from <= at <= n,
            find_bytes(bytes@, part@, at as int) == find_bytes(bytes@, part@, from as int),
            forall|i: int|
                from <= i < at && i + part@.len() <= n ==> #[trigger] bytes@.subrange(
                    i,
                    i + part@.len(),
                ) != part@,
        decreases n - at,
    {
        if are_bytes_at(bytes, part, at) {
            return Some(at);
        }
        if at == n {
            assert(find_bytes(bytes@, part@, at + 1) is None);
            return None;
        }
        at += 1;
    }
}

/// The first position at or behind `from` that is no white space, up to `to`.
pub open spec fn skip_space(chars: Seq<char>, from: int, to: int) -> int
    decreases to - from,
{
    if from >= to || !is_space(chars[from]) {
        from
    } else {
        skip_space(chars, from + 1, to)
    }
}

/// The end of what is left when white space before `to` is cut off.
pub open spec fn cut_space(chars: Seq<char>, from: int, to: int) -> int
    decreases to - from,
{
    if from >= to || !is_space(chars[to - 1]) {
        to
    } else {
        cut_space(chars, from, to - 1)
    }
}

/// The characters from `from` up to `to`, without white space around them.
pub open spec fn trimmed(chars: Seq<char>, from: int, to: int) -> Seq<char> {
    let start = skip_space(chars, from, to);
    chars.subrange(start, cut_space(chars, start, to))
}

fn trim_between(chars: &Vec<char>, from: usize, to: usize) -> (r: String)
    requires
        from <= to <= chars@.len(),
    ensures
        r@ == trimmed(chars@, from as int, to as int),
{
    let mut start: usize = from;
    while start < to && is_whitespace(chars[start])
        invariant
            from <= start <= to <= chars@.len(),
            skip_space(chars@, start as int, to as int) == skip_space(
                chars@,
                from as int,
                to as int,
            ),
        decreases to - start,
    {
        start += 1;
    }
    let mut end: usize = to;
    while start < end && is_whitespace(chars[end - 1])
        invariant
            start <= end <= to <= chars@.len(),
            cut_space(chars@, start as int, end as int) == cut_space(
                chars@,
                start as int,
                to as int,
            ),
        decreases end - start,
    {
        end -= 1;
    }
    string_of(chars, start, end)
}

/// A text without white space around it.
pub fn trim_text(text: &str) -> (r: String)
    ensures
        r@ == trimmed(text@, 0, text@.len() as int),
{
    let chars = chars_of(text);
    let n: usize = chars.len();
    trim_between(&chars, 0, n)
}

/// A text without the quotes around it.
pub open spec fn unquoted(text: Seq<char>) -> Seq<char> {
    if text.len() >= 2 && text[0] == '"' && text.last() == '"' {
        text.subrange(1, text.len() - 1)
    } else {
        text
    }
}

fn unquote(text: &str) -> (r: String)
    ensures
        r@ == unquoted(text@),
{
    let chars = chars_of(text);
    let n: usize = chars.len();
    if n >= 2 && chars[0] == '"' && chars[n - 1] == '"' {
        string_of(&chars, 1, n - 1)
    } else {
        let r = string_of(&chars, 0, n);
        assert(r@ =~= text@);
        r
    }
}

/// The parameter `name` of a header value: what follows its equals sign, without quotes.
/// Semicolons separate parameters, and the first of a name counts.
pub open spec fn parameter(value: Seq<char>, name: Seq<char>, from: int) -> Option<Seq<char>>
    decreases value.len() - from,
{
    if from > value.len() {
        None
    } else {
        let end = next_of(value, ';', from);
        let piece = trimmed(value, from, end);
        let start = name.push('=');
        if has_prefix(piece, start) {
            Some(unquoted(piece.skip(start.len() as int)))
        } else if from <= end < value.len() {
            parameter(value, name, end + 1)
        } else {
            None
        }
    }
}

/// The parameter `name` of a header value.
pub fn parameter_of(value: &str, name: &str) -> (r: Option<String>)
    ensures
        match r {
            Some(text) => parameter(value@, name@, 0) == Some(text@),
            None => parameter(value@, name@, 0) is None,
        },
{
    let chars = chars_of(value);
    let n: usize = chars.len();
    let mut start = name.to_owned();
    start.push('=');
    let mut from: usize = 0;
    loop
        invariant
            n == chars@.len(),
            chars@ == value@,
            start@ == name@.push('='),
            from <= n,
            parameter(value@, name@, from as int) == parameter(value@, name@, 0),
        decreases n - from,
    {
        let end = find_next(&chars, ';', from);
        let piece = trim_between(&chars, from, end);
        if let Some(rest) = strip_prefix(piece.as_str(), start.as_str()) {
            return Some(unquote(rest.as_str()));
        }
        if end >= n {
            return None;
        }
        from = end + 1;
    }
}

/// The boundary in the content type of a multipart form.
pub open spec fn boundary_in(content_type: Seq<char>) -> Option<Seq<char>> {
    if has_prefix(ascii_lowered(content_type), "multipart/form-data"@) {
        match parameter(content_type, "boundary"@, 0) {
            Some(boundary) => if boundary.len() > 0 {
                Some(boundary)
            } else {
                None
            },
            None => None,
        }
    } else {
        None
    }
}

/// The boundary in the content type of a multipart form.
pub fn multipart_boundary(content_type: &str) -> (r: Option<String>)
    ensures
        match r {
            Some(boundary) => boundary_in(content_type@) == Some(boundary@),
            None => boundary_in(content_type@) is None,
        },
{
    let lowered = to_ascii_lower(content_type);
    if strip_prefix(lowered.as_str(), "multipart/form-data").is_none() {
        return None;
    }
    match parameter_of(content_type, "boundary") {
        Some(boundary) => if boundary.as_str().unicode_len() > 0 {
            Some(boundary)
        } else {
            None
        },
        None => None,
    }
}

/// A multipart form.
#[derive(Debug)]
pub struct MultipartForm {
    pub fields: Fields<String>,
    pub files: Fields<Vec<u8>>,
}

/// What a multipart form holds.
pub struct FormView {
    pub fields: Map<Seq<char>, Seq<char>>,
    pub files: Map<Seq<char>, Seq<u8>>,
}

/// The bytes behind named files.
pub open spec fn contents(files: Map<Seq<char>, Vec<u8>>) -> Map<Seq<char>, Seq<u8>> {
    files.map_values(|file: Vec<u8>| file@)
}

impl View for MultipartForm {
    type V = FormView;

    open spec fn view(&self) -> FormView {
        FormView { fields: texts(self.fields@), files: contents(self.files@) }
    }
}

/// The first position at or behind `from` where a line ends, or the length.
pub open spec fn line_end(head: Seq<char>, from: int) -> int
    decreases head.len() - from,
{
    if from >= head.len() || (from + 1 < head.len() && head[from] == '\r' && head[from + 1] == '\n') {
        from
    } else {
        line_end(head, from + 1)
    }
}

/// The value of header `name`, which is in small letters: what follows the colon on the first
/// line that starts with it.
pub open spec fn header_value(head: Seq<char>, name: Seq<char>, from: int) -> Option<Seq<char>>
    decreases head.len() + 2 - from,
{
    if from >= head.len() {
        None
    } else {
        let end = line_end(head, from);
        let line = head.subrange(from, end);
        let start = name.push(':');
        if has_prefix(ascii_lowered(line), start) {
            Some(line.skip(start.len() as int))
        } else if from <= end < head.len() {
            header_value(head, name, end + 2)
        } else {
            None
        }
    }
}

/// The first position at or behind `from` where a line ends, or the length.
pub fn find_line_end(head: &Vec<char>, from: usize) -> (r: usize)
    requires
        from <= head@.len(),
    ensures
        r == line_end(head@, from as int),
        from <= r <= head@.len(),
        r == head@.len() || (r + 2 <= head@.len() && head@[r as int] == '\r' && head@[r + 1]
            == '\n'),
        forall|i: int|
            from <= i < r && i + 1 < head@.len() ==> !(#[trigger] head@[i] == '\r' && head@[i + 1]
                == '\n'),
{
    let n: usize = head.len();
    let mut i: usize = from;
    while i < n && !(i < n - 1 && head[i] == '\r' && head[i + 1] == '\n')
        invariant
            n == head@.len(),
            from <= i <= n,
            line_end(head@, i as int) == line_end(head@, from as int),
            forall|j: int|
                from <= j < i && j + 1 < n ==> !(#[trigger] head@[j] == '\r' && head@[j + 1] == '\n'),
        decreases n - i,
    {
        i += 1;
    }
    i
}

/// The value of header `name`, which is in small letters.
pub fn header_value_of(head: &str, name: &str) -> (r: Option<String>)
    ensures
        match r {
            Some(value) => header_value(head@, name@, 0) == Some(value@),
            None => header_value(head@, name@, 0) is None,
        },
{
    let chars = chars_of(head);
    let n: usize = chars.len();
    let mut start = name.to_owned();
    start.push(':');
    let mut from: usize = 0;
    while from < n
        invariant
            n == chars@.len(),
            chars@ == head@,
            start@ == name@.push(':'),
            from <= n,
            header_value(head@, name@, from as int) == header_value(head@, name@, 0),
        decreases n - from,
    {
        let end = find_line_end(&chars, from);
        let line = string_of(&chars, from, end);
        let lowered = to_ascii_lower(line.as_str());
        if strip_prefix(lowered.as_str(), start.as_str()).is_some() {
            let line_chars = chars_of(line.as_str());
            let skip: usize = start.as_str().unicode_len();
            assert(lowered@.len() == line@.len());
            let value = string_of(&line_chars, skip, line_chars.len());
            assert(value@ =~= line@.skip(start@.len() as int));
            return Some(value);
        }
        if end >= n {
            return None;
        }
        from = end + 2;
    }
    None
}

/// A form with one more part. The part's headers name it; a part with a file name is a file, and
/// the content of any other part is text. A part without a name gives no form.
pub open spec fn with_part(form: FormView, head: Seq<u8>, content: Seq<u8>) -> Option<FormView> {
    match header_value(text_in(head), "content-disposition"@, 0) {
        None => None,
        Some(disposition) => match parameter(disposition, "name"@, 0) {
            None => None,
            Some(name) => Some(
                if parameter(disposition, "filename"@, 0) is Some {
                    FormView { files: form.files.insert(name, content), ..form }
                } else {
                    FormView { fields: form.fields.insert(name, text_in(content)), ..form }
                },
            ),
        },
    }
}

/// The parts of a multipart body behind position `at`, where a delimiter has just ended. Two
/// hyphens close the form; otherwise a line break, the headers, an empty line and the content
/// follow, up to the next delimiter on a line of its own.
pub open spec fn form_parts(body: Seq<u8>, delimiter: Seq<u8>, at: int, form: FormView) -> Option<
    FormView,
>
    decreases body.len() - at,
{
    let closing = seq![0x2du8, 0x2d];
    let line_break = seq![0x0du8, 0x0a];
    if bytes_at(body, closing, at) {
        Some(form)
    } else if !bytes_at(body, line_break, at) {
        None
    } else {
        match find_bytes(body, line_break + line_break, at + 2) {
            None => None,
            Some(head_end) => match find_bytes(body, line_break + delimiter, head_end + 4) {
                None => None,
                Some(next) => match with_part(
                    form,
                    body.subrange(at + 2, head_end),
                    body.subrange(head_end + 4, next),
                ) {
                    None => None,
                    Some(more) => if at < next && next + 2 + delimiter.len() <= body.len() {
                        form_parts(body, delimiter, next + 2 + delimiter.len(), more)
                    } else {
                        None
                    },
                },
            },
        }
    }
}

/// The form in a multipart body.
pub open spec fn form_in(body: Seq<u8>, boundary: Seq<char>) -> Option<FormView> {
    let delimiter = encode_utf8("--"@ + boundary);
    match find_bytes(body, delimiter, 0) {
        None => None,
        Some(at) => form_parts(
            body,
            delimiter,
            at + delimiter.len(),
            FormView { fields: Map::empty(), files: Map::empty() },
        ),
    }
}

/// Adds a part to a form.
fn insert_part(form: &mut MultipartForm, head: &[u8], content: &[u8]) -> (r: bool)
    ensures
        r == with_part(old(form)@, head@, content@) is Some,
        r ==> with_part(old(form)@, head@, content@) == Some(final(form)@),
        !r ==> final(form)@ == old(form)@,
{
    let head_text = text_from_bytes(head);
    let disposition = match header_value_of(head_text.as_str(), "content-disposition") {
        Some(disposition) => disposition,
        None => return false,
    };
    let name = match parameter_of(disposition.as_str(), "name") {
        Some(name) => name,
        None => return false,
    };
    if parameter_of(disposition.as_str(), "filename").is_some() {
        let file = bytes_between(content, 0, content.len());
        assert(file@ =~= content@);
        proof {
            assert(contents(form.files@.insert(name@, file)) =~= contents(form.files@).insert(
                name@,
                file@,
            ));
        }
        form.files.insert(name, file);
    } else {
        let value = text_from_bytes(content);
        proof {
            lemma_texts_insert(form.fields@, name@, value);
        }
        form.fields.insert(name, value);
    }
    true
}

/// The words for a multipart body that holds no form.
pub open spec fn no_form() -> Seq<char> {
    "invalid multipart form data"@
}

/// Reads a multipart body.
pub fn parse_multipart(body: &[u8], boundary: &str) -> (r: Result<MultipartForm, RetrievalError>)
    ensures
        match form_in(body@, boundary@) {
            Some(form) => r is Ok && r->Ok_0@ == form,
            None => r is Err && r->Err_0.says(no_form()),
        },
{
    let mut delimiter_text = "--".to_owned();
    delimiter_text.append(boundary);
    let delimiter = delimiter_text.as_str().as_bytes();
    let n: usize = body.len();
    let closing: Vec<u8> = vec![0x2d, 0x2d];
    let line_break: Vec<u8> = vec![0x0d, 0x0a];
    let empty_line: Vec<u8> = vec![0x0d, 0x0a, 0x0d, 0x0a];
    let mut next_delimiter: Vec<u8> = vec![0x0d, 0x0a];
    next_delimiter.extend_from_slice(delimiter);
    let ghost lb = seq![0x0du8, 0x0a];
    proof {
        assert(closing@ =~= seq![0x2du8, 0x2d]);
        assert(line_break@ =~= lb);
        assert(empty_line@ =~= lb + lb);
        assert(next_delimiter@ =~= lb + delimiter@);
    }
    let mut form = MultipartForm { fields: Fields::new(), files: Fields::new() };
    assert(form@.fields =~= Map::<Seq<char>, Seq<char>>::empty());
    assert(form@.files =~= Map::<Seq<char>, Seq<u8>>::empty());
    let mut at: usize = match find_part_in(body, delimiter, 0) {
        Some(at) => at + delimiter.len(),
        None => return invalid("invalid multipart form data"),
    };
    loop
        invariant
            n == body@.len(),
            at <= n,
            lb == seq![0x0du8, 0x0a],
            closing@ == seq![0x2du8, 0x2d],
            line_break@ == lb,
            empty_line@ == lb + lb,
            next_delimiter@ == lb + delimiter@,
            delimiter@ == encode_utf8("--"@ + boundary@),
            form_in(body@, boundary@) == form_parts(body@, delimiter@, at as int, form@),
        decreases n - at,
    {
        if are_bytes_at(body, closing.as_slice(), at) {
            return Ok(form);
        }
        if !are_bytes_at(body, line_break.as_slice(), at) {
            return invalid("invalid multipart form data");
        }
        let head_end = match find_part_in(body, empty_line.as_slice(), at + 2) {
            Some(head_end) => head_end,
            None => return invalid("invalid multipart form data"),
        };
        assert(head_end + 4 <= n);
        let next = match find_part_in(body, next_delimiter.as_slice(), head_end + 4) {
            Some(next) => next,
            None => return invalid("invalid multipart form data"),
        };
        assert(next + 2 + delimiter@.len() <= n);
        let head = bytes_between(body, at + 2, head_end);
        let content = bytes_between(body, head_end + 4, next);
        if !insert_part(&mut form, head.as_slice(), content.as_slice()) {
            return invalid("invalid multipart form data");
        }
        at = next + 2 + delimiter.len();
    }
}

/// The largest number of hits that a request can ask for.
pub const MAX_TOP_K: usize = 50;

/// A number of hits within what is allowed.
pub open spec fn capped_top_k(k: nat) -> nat {
    if k < 1 {
        1
    } else if k > MAX_TOP_K as nat {
        MAX_TOP_K as nat
    } else {
        k
    }
}

/// The number of hits that a request asks for: a positive number that it gives, and otherwise the
/// default.
pub open spec fn top_k_of(value: Option<Seq<char>>, default_top_k: nat) -> nat {
    let asked = match value {
        Some(text) => match number_of(text, 10, usize::MAX as nat) {
            Ok(n) => if n > 0 {
                n
            } else {
                default_top_k
            },
            Err(_) => default_top_k,
        },
        None => default_top_k,
    };
    capped_top_k(asked)
}

/// The view of a text that may be missing.
pub open spec fn optional_text(value: Option<&String>) -> Option<Seq<char>> {
    match value {
        Some(text) => Some(text@),
        None => None,
    }
}

/// The number of hits that a request asks for.
pub fn parse_top_k(value: Option<&String>, default_top_k: usize) -> (r: usize)
    ensures
        r == top_k_of(optional_text(value), default_top_k as nat),
        1 <= r <= 50,
        value is None && 1 <= default_top_k <= 50 ==> r == default_top_k,
        value is Some ==> match number_of(value->0@, 10, usize::MAX as nat) {
            Ok(n) => (1 <= n <= 50 ==> r == n) && (n > 50 ==> r == 50) && (n == 0 && 1
                <= default_top_k <= 50 ==> r == default_top_k),
            Err(_) => 1 <= default_top_k <= 50 ==> r == default_top_k,
        },
        (value is None || number_of(value->0@, 10, usize::MAX as nat) is Err || number_of(
            value->0@,
            10,
            usize::MAX as nat,
        ) == Ok::<nat, crate::text::NumberError>(0)) ==> (default_top_k == 0 ==> r == 1) && (
        default_top_k > 50 ==> r == 50),
{
    let mut asked: usize = default_top_k;
    if let Some(text) = value {
        if let Ok(n) = parse_usize(text.as_str()) {
            if n > 0 {
                asked = n;
            }
        }
    }
    if asked < 1 {
        1
    } else if asked > MAX_TOP_K {
        MAX_TOP_K
    } else {
        asked
    }
}

/// The number of hits is positive and capped, whatever a request says.
pub proof fn law_top_k_is_positive_and_capped(value: Option<Seq<char>>, default_top_k: nat)
    ensures
        1 <= top_k_of(value, default_top_k) <= MAX_TOP_K,
{
}

/// A number of hits that was read keeps its value when it is written down and read again.
pub proof fn law_top_k_reads_back(value: Option<Seq<char>>, default_top_k: nat, other_default: nat)
    ensures
        top_k_of(Some(decimal(top_k_of(value, default_top_k))), other_default) == top_k_of(
            value,
            default_top_k,
        ),
{
    law_decimal_reads_back(top_k_of(value, default_top_k), usize::MAX as nat);
}

/// A plus sign decodes to a space, and a byte that is neither a plus sign nor a percent sign to
/// itself, whatever follows.
pub proof fn law_a_byte_decodes_by_itself(b: u8, rest: Seq<u8>)
    requires
        b != 0x25,
    ensures
        url_bytes(seq![b] + rest) == seq![if b == 0x2b {
            0x20u8
        } else {
            b
        }] + url_bytes(rest),
        url_bytes(Seq::<u8>::empty()) == Seq::<u8>::empty(),
{
    let all = seq![b] + rest;
    assert(all.skip(1) =~= rest);
    assert(all[0] == b);
}

/// A percent sign and two hexadecimal digits, small or capital, decode to the byte whose high and
/// low halves the digits are.
pub proof fn law_two_digits_decode_to_their_byte(high: u8, low: u8, h: u8, l: u8, rest: Seq<u8>)
    requires
        (high < 10 && h == 0x30 + high) || (10 <= high < 16 && (h == 0x41 + high - 10 || h == 0x61
            + high - 10)),
        (low < 10 && l == 0x30 + low) || (10 <= low < 16 && (l == 0x41 + low - 10 || l == 0x61 + low
            - 10)),
    ensures
        url_bytes(seq![0x25u8, h, l] + rest) == seq![(16 * high + low) as u8] + url_bytes(rest),
{
    let all = seq![0x25u8, h, l] + rest;
    assert(all[0] == 0x25 && all[1] == h && all[2] == l);
    assert(all.skip(3) =~= rest);
    assert(nibble(h) == Some(high));
    assert(nibble(l) == Some(low));
}

/// A percent sign that two hexadecimal digits do not follow decodes to itself.
pub proof fn law_a_percent_sign_alone_stays(rest: Seq<u8>)
    requires
        rest.len() < 2 || !(0x30 <= rest[0] <= 0x39 || 0x41 <= rest[0] <= 0x46 || 0x61 <= rest[0]
            <= 0x66) || !(0x30 <= rest[1] <= 0x39 || 0x41 <= rest[1] <= 0x46 || 0x61 <= rest[1]
            <= 0x66),
    ensures
        url_bytes(seq![0x25u8] + rest) == seq![0x25u8] + url_bytes(rest),
{
    let all = seq![0x25u8] + rest;
    assert(all.skip(1) =~= rest);
    assert(all[0] == 0x25);
    if rest.len() >= 2 {
        assert(all[1] == rest[0] && all[2] == rest[1]);
    }
}

/// What the next position of a byte is.
proof fn lemma_next_byte(bytes: Seq<u8>, b: u8, from: int)
    requires
        0 <= from <= bytes.len(),
    ensures
        from <= next_byte(bytes, b, from) <= bytes.len(),
        next_byte(bytes, b, from) < bytes.len() ==> bytes[next_byte(bytes, b, from)] == b,
        forall|j: int| from <= j < next_byte(bytes, b, from) ==> #[trigger] bytes[j] != b,
    decreases bytes.len() - from,
{
    if from < bytes.len() && bytes[from] != b {
        lemma_next_byte(bytes, b, from + 1);
    }
}

/// The pairs before an ampersand are read as they are without what follows.
proof fn lemma_pairs_before(
    front: Seq<u8>,
    back: Seq<u8>,
    from: int,
    values: Map<Seq<char>, Seq<char>>,
)
    requires
        0 <= from <= front.len(),
        forall|i: int| 0 <= i < back.len() ==> #[trigger] back[i] != 0x26,
    ensures
        url_values(front + seq![0x26u8] + back, from, values) == with_pair(
            url_values(front, from, values),
            back,
        ),
    decreases front.len() - from,
{
    let all = front + seq![0x26u8] + back;
    let n = front.len() as int;
    lemma_next_byte(all, 0x26, from);
    let end = next_byte(all, 0x26, from);
    assert(all[n] == 0x26);
    assert(end <= n);
    if from < n {
        lemma_next_byte(front, 0x26, from);
        let first = next_byte(front, 0x26, from);
        assert(first == end) by {
            if first < end {
                assert(all[first] == front[first]);
            }
            if end < first {
                assert(all[end] == front[end]);
            }
        }
        assert(all.subrange(from, end) =~= front.subrange(from, first));
        let more = with_pair(values, front.subrange(from, first));
        if end < n {
            lemma_pairs_before(front, back, end + 1, more);
        } else {
            lemma_last_pair(front, back, more);
        }
    } else {
        assert(end == n);
        assert(all.subrange(n, n) =~= Seq::<u8>::empty());
        lemma_last_pair(front, back, values);
    }
}

/// The last pair is read behind the last ampersand.
proof fn lemma_last_pair(front: Seq<u8>, back: Seq<u8>, values: Map<Seq<char>, Seq<char>>)
    requires
        forall|i: int| 0 <= i < back.len() ==> #[trigger] back[i] != 0x26,
    ensures
        url_values(front + seq![0x26u8] + back, front.len() as int + 1, values) == with_pair(
            values,
            back,
        ),
{
    let all = front + seq![0x26u8] + back;
    let from = front.len() as int + 1;
    if back.len() > 0 {
        lemma_next_byte(all, 0x26, from);
        let end = next_byte(all, 0x26, from);
        if end < all.len() {
            assert(all[end] == back[end - from]);
        }
        assert(all.subrange(from, end) =~= back);
    }
}

/// Ampersands separate pairs, and the first equals sign of a pair its name from its value. One
/// more pair gives its name its value and leaves the other values.
pub proof fn law_one_more_pair_gives_one_more_value(front: Seq<u8>, name: Seq<u8>, value: Seq<u8>)
    requires
        forall|i: int| 0 <= i < name.len() ==> #[trigger] name[i] != 0x26 && name[i] != 0x3d,
        forall|i: int| 0 <= i < value.len() ==> #[trigger] value[i] != 0x26,
    ensures
        url_values(front + seq![0x26u8] + (name + seq![0x3du8] + value), 0, Map::empty())
            == url_values(front, 0, Map::empty()).insert(
            text_in(url_bytes(name)),
            text_in(url_bytes(value)),
        ),
        url_values(name + seq![0x3du8] + value, 0, Map::empty()) == Map::<
            Seq<char>,
            Seq<char>,
        >::empty().insert(text_in(url_bytes(name)), text_in(url_bytes(value))),
{
    let pair = name + seq![0x3du8] + value;
    assert forall|i: int| 0 <= i < pair.len() implies #[trigger] pair[i] != 0x26 by {
        if i < name.len() {
            assert(pair[i] == name[i]);
        } else if i > name.len() {
            assert(pair[i] == value[i - name.len() - 1]);
        }
    }
    lemma_pairs_before(front, pair, 0, Map::empty());
    lemma_next_byte(pair, 0x3d, 0);
    let eq = next_byte(pair, 0x3d, 0);
    assert(pair[name.len() as int] == 0x3d);
    assert(eq == name.len()) by {
        if eq < name.len() {
            assert(pair[eq] == name[eq]);
        }
    }
    assert(pair.take(eq) =~= name);
    assert(pair.skip(eq + 1) =~= value);
    lemma_next_byte(pair, 0x26, 0);
    assert(pair.subrange(0, pair.len() as int) =~= pair);
}

/// A pair without an equals sign has an empty value, and an empty pair none.
pub proof fn law_pairs_without_value(front: Seq<u8>, name: Seq<u8>)
    requires
        forall|i: int| 0 <= i < name.len() ==> #[trigger] name[i] != 0x26 && name[i] != 0x3d,
    ensures
        name.len() > 0 ==> url_values(front + seq![0x26u8] + name, 0, Map::empty()) == url_values(
            front,
            0,
            Map::empty(),
        ).insert(text_in(url_bytes(name)), Seq::empty()),
        name.len() == 0 ==> url_values(front + seq![0x26u8] + name, 0, Map::empty()) == url_values(
            front,
            0,
            Map::empty(),
        ),
        url_values(Seq::<u8>::empty(), 0, Map::empty()) == Map::<Seq<char>, Seq<char>>::empty(),
{
    lemma_pairs_before(front, name, 0, Map::empty());
    lemma_next_byte(name, 0x3d, 0);
    let none = Seq::<u8>::empty();
    assert(url_bytes(none) =~= none);
    assert(text_in(none) =~= Seq::<char>::empty());
}

/// White space is skipped up to the first character that is none.
proof fn lemma_skip_space(chars: Seq<char>, from: int, to: int)
    requires
        0 <= from <= to <= chars.len(),
    ensures
        from <= skip_space(chars, from, to) <= to,
        forall|i: int| from <= i < skip_space(chars, from, to) ==> is_space(#[trigger] chars[i]),
        skip_space(chars, from, to) < to ==> !is_space(chars[skip_space(chars, from, to)]),
    decreases to - from,
{
    if from < to && is_space(chars[from]) {
        lemma_skip_space(chars, from + 1, to);
    }
}

/// White space is cut off down to the last character that is none.
proof fn lemma_cut_space(chars: Seq<char>, from: int, to: int)
    requires
        0 <= from <= to <= chars.len(),
    ensures
        from <= cut_space(chars, from, to) <= to,
        forall|i: int| cut_space(chars, from, to) <= i < to ==> is_space(#[trigger] chars[i]),
        cut_space(chars, from, to) > from ==> !is_space(chars[cut_space(chars, from, to) - 1]),
    decreases to - from,
{
    if from < to && is_space(chars[to - 1]) {
        lemma_cut_space(chars, from, to - 1);
    }
}

/// A part of a text is trimmed to what is left between the white space at its start and its end:
/// it neither starts nor ends with white space, and nothing but white space is left out.
pub proof fn law_trimming_leaves_out_outer_space(
    before: Seq<char>,
    left: Seq<char>,
    core: Seq<char>,
    right: Seq<char>,
    behind: Seq<char>,
)
    requires
        forall|i: int| 0 <= i < left.len() ==> is_space(#[trigger] left[i]),
        forall|i: int| 0 <= i < right.len() ==> is_space(#[trigger] right[i]),
        core.len() > 0 ==> !is_space(core[0]) && !is_space(core.last()),
    ensures
        trimmed(
            before + left + core + right + behind,
            before.len() as int,
            (before.len() + left.len() + core.len() + right.len()) as int,
        ) == core,
{
    let all = before + left + core + right + behind;
    let from = before.len() as int;
    let to = (before.len() + left.len() + core.len() + right.len()) as int;
    let first = from + left.len();
    assert forall|i: int| from <= i < first implies is_space(#[trigger] all[i]) by {
        assert(all[i] == left[i - from]);
    }
    assert forall|i: int| first + core.len() <= i < to implies is_space(#[trigger] all[i]) by {
        assert(all[i] == right[i - first - core.len()]);
    }
    lemma_skip_space(all, from, to);
    let start = skip_space(all, from, to);
    lemma_cut_space(all, start, to);
    let end = cut_space(all, start, to);
    if core.len() > 0 {
        assert(all[first] == core[0]);
        assert(all[first + core.len() - 1] == core.last());
        assert(start == first);
        assert(end == first + core.len());
    } else {
        assert(start == to);
    }
    assert(all.subrange(start, end) =~= core);
}

/// Quotes on both sides of a text are left out, and a text without a quote at its start or its end
/// stays.
pub proof fn law_quotes_are_left_out(text: Seq<char>)
    ensures
        unquoted(seq!['"'] + text + seq!['"']) == text,
        text.len() < 2 || text[0] != '"' || text.last() != '"' ==> unquoted(text) == text,
{
    let all = seq!['"'] + text + seq!['"'];
    assert(all.subrange(1, all.len() - 1) =~= text);
}

/// Parameters are read alike in a text and in its rest.
proof fn lemma_parameter_behind(front: Seq<char>, rest: Seq<char>, name: Seq<char>, from: int)
    requires
        0 <= from <= rest.len(),
    ensures
        parameter(front + rest, name, front.len() + from) == parameter(rest, name, from),
    decreases rest.len() - from,
{
    let all = front + rest;
    let n = front.len() as int;
    lemma_next_of(all, ';', n + from);
    lemma_next_of(rest, ';', from);
    let end = next_of(rest, ';', from);
    let far = next_of(all, ';', n + from);
    assert(far == n + end) by {
        if far < n + end {
            assert(all[far] == rest[far - n]);
        }
        if n + end < far {
            assert(all[n + end] == rest[end]);
        }
    }
    lemma_trimmed_behind(front, rest, from, end);
    if end < rest.len() {
        lemma_parameter_behind(front, rest, name, end + 1);
    }
}

/// Parts are trimmed alike in a text and in its rest.
proof fn lemma_trimmed_behind(front: Seq<char>, rest: Seq<char>, from: int, to: int)
    requires
        0 <= from <= to <= rest.len(),
    ensures
        trimmed(front + rest, front.len() + from, front.len() + to) == trimmed(rest, from, to),
{
    let all = front + rest;
    let n = front.len() as int;
    lemma_skip_space(rest, from, to);
    lemma_skip_space(all, n + from, n + to);
    let start = skip_space(rest, from, to);
    let far_start = skip_space(all, n + from, n + to);
    if far_start < n + start {
        assert(all[far_start] == rest[far_start - n]);
    }
    if n + start < far_start {
        assert(all[n + start] == rest[start]);
    }
    lemma_cut_space(rest, start, to);
    lemma_cut_space(all, n + start, n + to);
    let end = cut_space(rest, start, to);
    let far_end = cut_space(all, n + start, n + to);
    if far_end < n + end {
        assert(all[n + end - 1] == rest[end - 1]);
    }
    if n + end < far_end {
        assert(all[far_end - 1] == rest[far_end - 1 - n]);
    }
    assert(all.subrange(n + start, n + end) =~= rest.subrange(start, end));
}

/// A parameter gives what stands behind its name and an equals sign, without white space and
/// quotes around it, whatever parameters follow behind a semicolon.
pub proof fn law_parameter_gives_its_value(
    left: Seq<char>,
    name: Seq<char>,
    value: Seq<char>,
    right: Seq<char>,
    rest: Seq<char>,
)
    requires
        forall|i: int| 0 <= i < left.len() ==> is_space(#[trigger] left[i]),
        forall|i: int| 0 <= i < right.len() ==> is_space(#[trigger] right[i]),
        name.len() > 0,
        !is_space(name[0]),
        value.len() > 0 ==> !is_space(value.last()),
        forall|i: int| 0 <= i < name.len() ==> #[trigger] name[i] != ';',
        forall|i: int| 0 <= i < value.len() ==> #[trigger] value[i] != ';',
        rest.len() == 0 || rest[0] == ';',
    ensures
        parameter(left + (name + seq!['='] + value) + right + rest, name, 0) == Some(
            if value.len() >= 2 && value[0] == '"' && value.last() == '"' {
                value.subrange(1, value.len() - 1)
            } else {
                value
            },
        ),
{
    let core = name + seq!['='] + value;
    let none = Seq::<char>::empty();
    let all = left + core + right + rest;
    assert(none + left + core + right + rest =~= all);
    assert(core[0] == name[0]);
    assert(!is_space('='));
    if value.len() > 0 {
        assert(core.last() == value.last());
    } else {
        assert(core.last() == '=');
    }
    law_trimming_leaves_out_outer_space(none, left, core, right, rest);
    let to = (left.len() + core.len() + right.len()) as int;
    lemma_next_of(all, ';', 0);
    let end = next_of(all, ';', 0);
    assert(!is_space(';'));
    assert(end == to) by {
        if end < to {
            if end < left.len() {
                assert(all[end] == left[end]);
            } else if end < left.len() + name.len() {
                assert(all[end] == name[end - left.len()]);
            } else if end == left.len() + name.len() {
                assert(all[end] == '=');
            } else if end < left.len() + core.len() {
                assert(all[end] == value[end - left.len() - name.len() - 1]);
            } else {
                assert(all[end] == right[end - left.len() - core.len()]);
            }
        } else if end > to {
            assert(all[to] == rest[0]);
        }
    }
    let start = name.push('=');
    assert(has_prefix(core, start)) by {
        assert(start =~= core.subrange(0, start.len() as int));
    }
    assert(core.skip(start.len() as int) =~= value);
}

/// A parameter of another name does not count: the value is that of the rest behind the semicolon,
/// or there is none.
pub proof fn law_other_parameters_do_not_count(first: Seq<char>, name: Seq<char>, rest: Seq<char>)
    requires
        forall|i: int| 0 <= i < first.len() ==> #[trigger] first[i] != ';',
        !name.push('=').is_prefix_of(trimmed(first, 0, first.len() as int)),
    ensures
        parameter(first + seq![';'] + rest, name, 0) == parameter(rest, name, 0),
        parameter(first, name, 0) is None,
{
    let front = first + seq![';'];
    let all = front + rest;
    let n = first.len() as int;
    lemma_next_of(all, ';', 0);
    lemma_next_of(first, ';', 0);
    let end = next_of(all, ';', 0);
    assert(all[n] == ';');
    if end < n {
        assert(all[end] == first[end]);
    }
    assert(next_of(first, ';', 0) == n);
    lemma_trimmed_before(first, seq![';'] + rest, n);
    assert(first + (seq![';'] + rest) =~= all);
    lemma_parameter_behind(front, rest, name, 0);
}

/// Parts are trimmed alike in a text and in what continues it.
proof fn lemma_trimmed_before(first: Seq<char>, rest: Seq<char>, to: int)
    requires
        0 <= to <= first.len(),
    ensures
        trimmed(first + rest, 0, to) == trimmed(first, 0, to),
{
    let all = first + rest;
    lemma_skip_space(first, 0, to);
    lemma_skip_space(all, 0, to);
    let start = skip_space(first, 0, to);
    let other = skip_space(all, 0, to);
    if other < start {
        assert(all[other] == first[other]);
    }
    if start < other {
        assert(all[start] == first[start]);
    }
    lemma_cut_space(first, start, to);
    lemma_cut_space(all, start, to);
    let end = cut_space(first, start, to);
    let far = cut_space(all, start, to);
    if far < end {
        assert(all[end - 1] == first[end - 1]);
    }
    if end < far {
        assert(all[far - 1] == first[far - 1]);
    }
    assert(all.subrange(start, end) =~= first.subrange(start, end));
}

/// What the next end of a line is.
pub proof fn lemma_line_end(head: Seq<char>, from: int)
    requires
        0 <= from <= head.len(),
    ensures
        from <= line_end(head, from) <= head.len(),
        line_end(head, from) < head.len() ==> line_end(head, from) + 1 < head.len() && head[line_end(
            head,
            from,
        )] == '\r' && head[line_end(head, from) + 1] == '\n',
        forall|i: int|
            from <= i < line_end(head, from) && i + 1 < head.len() ==> !(#[trigger] head[i] == '\r'
                && head[i + 1] == '\n'),
    decreases head.len() - from,
{
    if from < head.len() && !(from + 1 < head.len() && head[from] == '\r' && head[from + 1]
        == '\n') {
        lemma_line_end(head, from + 1);
    }
}

/// Headers are read alike in a text and in its rest.
proof fn lemma_header_behind(front: Seq<char>, rest: Seq<char>, name: Seq<char>, from: int)
    requires
        0 <= from <= rest.len(),
    ensures
        header_value(front + rest, name, front.len() + from) == header_value(rest, name, from),
    decreases rest.len() + 2 - from,
{
    let all = front + rest;
    let n = front.len() as int;
    lemma_line_end(all, n + from);
    lemma_line_end(rest, from);
    let end = line_end(rest, from);
    let far = line_end(all, n + from);
    assert(far == n + end) by {
        if far < n + end {
            assert(all[far] == rest[far - n]);
            assert(all[far + 1] == rest[far + 1 - n]);
        }
        if n + end < far {
            assert(all[n + end] == rest[end]);
            assert(all[n + end + 1] == rest[end + 1]);
        }
    }
    assert(all.subrange(n + from, far) =~= rest.subrange(from, end));
    if end < rest.len() {
        lemma_header_behind(front, rest, name, end + 2);
    }
}

/// The first line of a text ends at its first line break.
pub proof fn lemma_first_line(line: Seq<char>, rest: Seq<char>)
    requires
        forall|i: int| 0 <= i < line.len() ==> #[trigger] line[i] != '\r',
        rest.len() == 0 || (rest.len() >= 2 && rest[0] == '\r' && rest[1] == '\n'),
    ensures
        line_end(line + rest, 0) == line.len(),
{
    let all = line + rest;
    lemma_line_end(all, 0);
    let end = line_end(all, 0);
    if end < line.len() {
        assert(all[end] == line[end]);
    } else if end > line.len() {
        assert(all[line.len() as int] == rest[0]);
        assert(all[line.len() as int + 1] == rest[1]);
    }
}

/// A line that starts with the name of a header, in letters of any size, and a colon gives what
/// follows as the header's value, whatever lines follow.
pub proof fn law_header_line_gives_its_value(
    written: Seq<char>,
    name: Seq<char>,
    value: Seq<char>,
    rest: Seq<char>,
)
    requires
        ascii_lowered(written) == name,
        forall|i: int| 0 <= i < written.len() ==> #[trigger] written[i] != '\r',
        forall|i: int| 0 <= i < value.len() ==> #[trigger] value[i] != '\r',
        rest.len() == 0 || (rest.len() >= 2 && rest[0] == '\r' && rest[1] == '\n'),
    ensures
        header_value(written + seq![':'] + value + rest, name, 0) == Some(value),
{
    let line = written + seq![':'] + value;
    let all = line + rest;
    assert forall|i: int| 0 <= i < line.len() implies #[trigger] line[i] != '\r' by {
        if i < written.len() {
            assert(line[i] == written[i]);
        } else if i > written.len() {
            assert(line[i] == value[i - written.len() - 1]);
        }
    }
    lemma_first_line(line, rest);
    assert(all.subrange(0, line.len() as int) =~= line);
    let start = name.push(':');
    assert(written.len() == name.len());
    assert(has_prefix(ascii_lowered(line), start)) by {
        let low = ascii_lowered(line);
        assert forall|i: int| 0 <= i < start.len() implies #[trigger] start[i] == low[i] by {
            if i < written.len() {
                assert(line[i] == written[i]);
                assert(name[i] == ascii_lowered(written)[i]);
            } else {
                assert(line[i] == ':');
            }
        }
        assert(start =~= low.subrange(0, start.len() as int));
    }
    assert(line.skip(start.len() as int) =~= value);
}

/// A line that does not start with the name of a header and a colon does not count: the value is
/// that of the lines behind it, or there is none.
pub proof fn law_other_lines_do_not_count(line: Seq<char>, name: Seq<char>, rest: Seq<char>)
    requires
        forall|i: int| 0 <= i < line.len() ==> #[trigger] line[i] != '\r',
        !name.push(':').is_prefix_of(ascii_lowered(line)),
    ensures
        header_value(line + seq!['\r', '\n'] + rest, name, 0) == header_value(rest, name, 0),
        header_value(line, name, 0) is None,
{
    let front = line + seq!['\r', '\n'];
    let all = front + rest;
    lemma_first_line(line, seq!['\r', '\n'] + rest);
    lemma_first_line(line, Seq::empty());
    assert(line + Seq::<char>::empty() =~= line);
    assert(line + (seq!['\r', '\n'] + rest) =~= all);
    assert(all.subrange(0, line.len() as int) =~= line);
    assert(line.subrange(0, line.len() as int) =~= line);
    lemma_header_behind(front, rest, name, 0);
}

/// Where a part is first found.
proof fn lemma_find_bytes(bytes: Seq<u8>, part: Seq<u8>, from: int, at: int)
    requires
        0 <= from <= at,
        at + part.len() <= bytes.len(),
        bytes.subrange(at, at + part.len()) == part,
        forall|i: int| from <= i < at ==> #[trigger] bytes.subrange(i, i + part.len()) != part,
    ensures
        find_bytes(bytes, part, from) == Some(at),
    decreases at - from,
{
    if from < at {
        assert(bytes.subrange(from, from + part.len()) != part);
        lemma_find_bytes(bytes, part, from + 1, at);
    }
}

/// Behind a delimiter a multipart body goes on with a line break, the headers of a part, an empty
/// line and its content, up to the next line that starts with the delimiter. A part whose headers
/// give a file name is a file with that content; of any other part the content is text. The rest
/// of the form follows behind the next delimiter.
pub proof fn law_each_part_is_a_field_or_a_file(
    body: Seq<u8>,
    delimiter: Seq<u8>,
    at: int,
    head_end: int,
    next: int,
    form: FormView,
    disposition: Seq<char>,
    name: Seq<char>,
)
    requires
        0 <= at,
        at + 2 <= head_end,
        head_end + 4 <= next,
        next + 2 + delimiter.len() <= body.len(),
        body[at] == 0x0d && body[at + 1] == 0x0a,
        body.subrange(head_end, head_end + 4) == seq![0x0du8, 0x0a, 0x0d, 0x0a],
        forall|i: int|
            at + 2 <= i < head_end ==> #[trigger] body.subrange(i, i + 4) != seq![
                0x0du8,
                0x0a,
                0x0d,
                0x0a,
            ],
        body.subrange(next, next + 2 + delimiter.len()) == seq![0x0du8, 0x0a] + delimiter,
        forall|i: int|
            head_end + 4 <= i < next ==> #[trigger] body.subrange(i, i + (2 + delimiter.len())) != seq![
                0x0du8,
                0x0a,
            ] + delimiter,
        header_value(text_in(body.subrange(at + 2, head_end)), "content-disposition"@, 0) == Some(
            disposition,
        ),
        parameter(disposition, "name"@, 0) == Some(name),
    ensures
        parameter(disposition, "filename"@, 0) is Some ==> form_parts(body, delimiter, at, form)
            == form_parts(
            body,
            delimiter,
            next + 2 + delimiter.len(),
            (FormView {
                fields: form.fields,
                files: form.files.insert(name, body.subrange(head_end + 4, next)),
            }),
        ),
        parameter(disposition, "filename"@, 0) is None ==> form_parts(body, delimiter, at, form)
            == form_parts(
            body,
            delimiter,
            next + 2 + delimiter.len(),
            (FormView {
                fields: form.fields.insert(name, text_in(body.subrange(head_end + 4, next))),
                files: form.files,
            }),
        ),
{
    let line_break = seq![0x0du8, 0x0a];
    let empty_line = seq![0x0du8, 0x0a, 0x0d, 0x0a];
    assert(line_break + line_break =~= empty_line);
    assert(body.subrange(at, at + 2) =~= line_break);
    assert(!bytes_at(body, seq![0x2du8, 0x2d], at)) by {
        assert(body.subrange(at, at + 2)[0] == 0x0d);
        assert(seq![0x2du8, 0x2d][0] == 0x2d);
    }
    lemma_find_bytes(body, empty_line, at + 2, head_end);
    lemma_find_bytes(body, line_break + delimiter, head_end + 4, next);
}

/// Two hyphens behind a delimiter close a form.
pub proof fn law_two_hyphens_close_a_form(
    body: Seq<u8>,
    delimiter: Seq<u8>,
    at: int,
    form: FormView,
)
    requires
        0 <= at,
        at + 2 <= body.len(),
    ensures
        body[at] == 0x2d && body[at + 1] == 0x2d ==> form_parts(body, delimiter, at, form) == Some(
            form,
        ),
        body[at] != 0x2d && body[at] != 0x0d ==> form_parts(body, delimiter, at, form) is None,
{
    let two = body.subrange(at, at + 2);
    if body[at] == 0x2d && body[at + 1] == 0x2d {
        assert(two =~= seq![0x2du8, 0x2d]);
    }
    if body[at] != 0x2d && body[at] != 0x0d {
        assert(two[0] == body[at]);
        assert(seq![0x2du8, 0x2d][0] == 0x2d);
        assert(seq![0x0du8, 0x0a][0] == 0x0d);
    }
}

/// A form starts empty behind the first delimiter, which is the boundary behind two hyphens; a
/// body without one holds no form.
pub proof fn law_form_starts_behind_the_first_delimiter(
    body: Seq<u8>,
    boundary: Seq<char>,
    delimiter: Seq<u8>,
    at: int,
)
    requires
        delimiter == encode_utf8(seq!['-', '-'] + boundary),
    ensures
        0 <= at && at + delimiter.len() <= body.len() && body.subrange(at, at + delimiter.len())
            == delimiter && (forall|i: int|
            0 <= i < at ==> #[trigger] body.subrange(i, i + delimiter.len()) != delimiter)
            ==> form_in(body, boundary) == form_parts(
            body,
            delimiter,
            at + delimiter.len(),
            (FormView { fields: Map::empty(), files: Map::empty() }),
        ),
        (forall|i: int|
            0 <= i && i + delimiter.len() <= body.len() ==> #[trigger] body.subrange(
                i,
                i + delimiter.len(),
            ) != delimiter) ==> form_in(body, boundary) is None,
{
    reveal_strlit("--");
    assert("--"@ =~= seq!['-', '-']);
    if 0 <= at && at + delimiter.len() <= body.len() && body.subrange(at, at + delimiter.len())
        == delimiter && (forall|i: int|
        0 <= i < at ==> #[trigger] body.subrange(i, i + delimiter.len()) != delimiter) {
        lemma_find_bytes(body, delimiter, 0, at);
    }
    if forall|i: int|
        0 <= i && i + delimiter.len() <= body.len() ==> #[trigger] body.subrange(
            i,
            i + delimiter.len(),
        ) != delimiter {
        lemma_not_found(body, delimiter, 0);
    }
}

/// What is nowhere is not found.
proof fn lemma_not_found(bytes: Seq<u8>, part: Seq<u8>, from: int)
    requires
        0 <= from,
        forall|i: int|
            from <= i && i + part.len() <= bytes.len() ==> #[trigger] bytes.subrange(
                i,
                i + part.len(),
            ) != part,
    ensures
        find_bytes(bytes, part, from) is None,
    decreases bytes.len() + 1 - from,
{
    if from <= bytes.len() {
        if from + part.len() <= bytes.len() {
            assert(bytes.subrange(from, from + part.len()) != part);
        }
        lemma_not_found(bytes, part, from + 1);
    }
}

/// The boundary of a multipart form is the parameter of that name; other content types have none.
pub proof fn law_boundary_is_a_parameter(content_type: Seq<char>, boundary: Seq<char>)
    ensures
        boundary_in(content_type) == Some(boundary) <==> {
            &&& boundary.len() > 0
            &&& "multipart/form-data"@.is_prefix_of(ascii_lowered(content_type))
            &&& parameter(content_type, "boundary"@, 0) == Some(boundary)
        },
{
}

/// A form has a text for a name where its fields have one, and a file where its files have one.
pub proof fn law_a_form_holds_its_fields_and_files(form: MultipartForm, name: Seq<char>)
    ensures
        form@.fields.dom().contains(name) == form.fields@.dom().contains(name),
        form.fields@.dom().contains(name) ==> form@.fields[name] == form.fields@[name]@,
        form@.files.dom().contains(name) == form.files@.dom().contains(name),
        form.files@.dom().contains(name) ==> form@.files[name] == form.files@[name]@,
{
}

} // verus!
