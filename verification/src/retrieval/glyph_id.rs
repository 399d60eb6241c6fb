//! What the id of a glyph says about its character.

use vstd::prelude::*;

use crate::text::{
    chars_of, find_next, has_at, is_at, lemma_next_of, next_of, number_of, parse_number, string_of,
};

verus! {

/// The first position at or behind `from` that has `part`, or the length.
pub open spec fn find_part(chars: Seq<char>, part: Seq<char>, from: int) -> int
    decreases chars.len() - from,
{
    if from >= chars.len() || has_at(chars, part, from) {
        from
    } else {
        find_part(chars, part, from + 1)
    }
}

/// What follows the first `_u` of an id, up to the next underscore.
pub open spec fn code_of(id: Seq<char>) -> Option<Seq<char>> {
    let at = find_part(id, "_u"@, 0);
    if at < id.len() {
        Some(id.subrange(at + 2, next_of(id, '_', at + 2)))
    } else {
        None
    }
}

/// Whether a number is a Unicode scalar value.
pub open spec fn is_scalar(n: nat) -> bool {
    n < 0xd800 || 0xe000 <= n <= 0x10ffff
}

/// The character that hexadecimal digits name.
pub open spec fn character_of(code: Seq<char>) -> Option<Seq<char>> {
    match number_of(code, 16, u32::MAX as nat) {
        Ok(n) => if is_scalar(n) {
            Some(seq![n as char])
        } else {
            None
        },
        Err(_) => None,
    }
}

/// A text in capital letters, as `str::to_uppercase` gives it.
pub uninterp spec fn uppercase_of(text: Seq<char>) -> Seq<char>;

/// An ASCII character as a capital letter.
pub open spec fn ascii_upper(c: char) -> char {
    if 'a' <= c <= 'z' {
        (c as int - 32) as char
    } else {
        c
    }
}

/// Whether a text has ASCII characters alone.
pub open spec fn is_ascii_text(text: Seq<char>) -> bool {
    forall|i: int| 0 <= i < text.len() ==> #[trigger] text[i] < '\u{80}'
}

/// Calls `str::to_uppercase`. The result depends on the text alone; on a text of ASCII characters
/// each small letter becomes its capital and nothing else changes.
#[verifier::external_body]
fn to_uppercase(text: &str) -> (r: String)
    ensures
        r@ == uppercase_of(text@),
        is_ascii_text(text@) ==> r@ == text@.map_values(|c: char| ascii_upper(c)),
{
    text.to_uppercase()
}

/// A text in capital letters: of ASCII characters, each small letter as its capital.
pub open spec fn capitals(text: Seq<char>) -> Seq<char> {
    if is_ascii_text(text) {
        text.map_values(|c: char| ascii_upper(c))
    } else {
        uppercase_of(text)
    }
}

/// The name that a codepoint is shown under.
pub open spec fn shown_codepoint(code: Seq<char>) -> Seq<char> {
    "U+"@ + capitals(code)
}

/// `char::from_u32` gives the character with a number, and nothing for numbers that are no
/// Unicode scalar values.
pub assume_specification[ char::from_u32 ](i: u32) -> (r: Option<char>)
    ensures
        r is Some == is_scalar(i as nat),
        r is Some ==> r->0 == i as char,
;

/// What the id of a glyph says about its character.
#[derive(Debug)]
pub struct GlyphIdMetadata {
    pub codepoint: Option<String>,
    pub character: Option<String>,
}

/// The view of an optional text.
pub open spec fn text_view(text: Option<String>) -> Option<Seq<char>> {
    match text {
        Some(text) => Some(text@),
        None => None,
    }
}

/// The codepoint that an id names.
pub open spec fn codepoint_in(id: Seq<char>) -> Option<Seq<char>> {
    match code_of(id) {
        Some(code) => Some(shown_codepoint(code)),
        None => None,
    }
}

/// The character that an id names.
pub open spec fn character_in(id: Seq<char>) -> Option<Seq<char>> {
    match code_of(id) {
        Some(code) => character_of(code),
        None => None,
    }
}

/// The characters behind the first `_u` of an id, up to the next underscore.
fn code_text(id: &str) -> (r: Option<String>)
    ensures
        text_view(r) == code_of(id@),
{
    let chars = chars_of(id);
    let part = chars_of("_u");
    let n: usize = chars.len();
    let mut at: usize = 0;
    while at < n && !is_at(&chars, &part, at)
        invariant
            n == chars@.len(),
            part@ == "_u"@,
            at <= n,
            find_part(chars@, "_u"@, at as int) == find_part(chars@, "_u"@, 0),
        decreases n - at,
    {
        at += 1;
    }
    if at == n {
        return None;
    }
    proof {
        reveal_strlit("_u");
    }
    let end = find_next(&chars, '_', at + 2);
    Some(string_of(&chars, at + 2, end))
}

/// The character that hexadecimal digits name.
pub fn character_of_code(code: &str) -> (r: Option<String>)
    ensures
        text_view(r) == character_of(code@),
{
    match parse_number(code, 16, u32::MAX as u64) {
        Ok(n) => match char::from_u32(n as u32) {
            Some(c) => {
                let mut text = String::new();
                text.push(c);
                assert(text@ =~= seq![c]);
                Some(text)
            },
            None => None,
        },
        Err(_) => None,
    }
}

/// Reads the id of a glyph.
pub fn parse_glyph_id(id: &str) -> (r: GlyphIdMetadata)
    ensures
        text_view(r.codepoint) == codepoint_in(id@),
        text_view(r.character) == character_in(id@),
{
    match code_text(id) {
        Some(code) => {
            let character = character_of_code(code.as_str());
            let mut codepoint = "U+".to_owned();
            codepoint.append(to_uppercase(code.as_str()).as_str());
            GlyphIdMetadata { codepoint: Some(codepoint), character }
        },
        None => GlyphIdMetadata { codepoint: None, character: None },
    }
}

/// The code in an id stands behind the first `_u` and ends before the next underscore or with the
/// id.
pub proof fn law_code_stands_behind_the_first_mark(
    start: Seq<char>,
    code: Seq<char>,
    rest: Seq<char>,
)
    requires
        forall|i: int|
            0 <= i < start.len() && i + 1 < (start + "_u"@ + code + rest).len() ==> !(#[trigger] (start
                + "_u"@ + code + rest)[i] == '_' && (start + "_u"@ + code + rest)[i + 1] == 'u'),
        forall|i: int| 0 <= i < code.len() ==> #[trigger] code[i] != '_',
        rest.len() == 0 || rest[0] == '_',
    ensures
        code_of(start + "_u"@ + code + rest) == Some(code),
{
    reveal_strlit("_u");
    let id = start + "_u"@ + code + rest;
    let n = start.len() as int;
    assert(id.subrange(n, n + 2) =~= "_u"@);
    assert(has_at(id, "_u"@, n));
    lemma_find_part(id, "_u"@, 0, n);
    let from = n + 2;
    lemma_next_of(id, '_', from);
    let end = next_of(id, '_', from);
    assert(end == from + code.len()) by {
        if end < from + code.len() {
            assert(id[end] == code[end - from]);
        } else if end > from + code.len() {
            assert(id[from + code.len()] == rest[0]);
        }
    }
    assert(id.subrange(from, end) =~= code);
}

/// The first place of a part is the place before which there is none.
proof fn lemma_find_part(chars: Seq<char>, part: Seq<char>, from: int, at: int)
    requires
        0 <= from <= at < chars.len(),
        has_at(chars, part, at),
        part == "_u"@,
        forall|i: int|
            0 <= i < at && i + 1 < chars.len() ==> !(#[trigger] chars[i] == '_' && chars[i + 1]
                == 'u'),
    ensures
        find_part(chars, part, from) == at,
    decreases at - from,
{
    reveal_strlit("_u");
    if from < at {
        assert(!has_at(chars, part, from)) by {
            if has_at(chars, part, from) {
                assert(chars.subrange(from, from + 2)[0] == '_');
                assert(chars.subrange(from, from + 2)[1] == 'u');
                assert(chars[from] == '_' && chars[from + 1] == 'u');
            }
        }
        lemma_find_part(chars, part, from + 1, at);
    }
}

/// An id without `_u` has no code, and so names neither a codepoint nor a character.
pub proof fn law_no_code_without_a_mark(id: Seq<char>)
    requires
        forall|i: int|
            0 <= i < id.len() - 1 ==> !(#[trigger] id[i] == '_' && id[i + 1] == 'u'),
    ensures
        code_of(id) is None,
        codepoint_in(id) is None,
        character_in(id) is None,
{
    lemma_no_part(id, 0);
}

proof fn lemma_no_part(id: Seq<char>, from: int)
    requires
        0 <= from <= id.len(),
        forall|i: int|
            0 <= i < id.len() - 1 ==> !(#[trigger] id[i] == '_' && id[i + 1] == 'u'),
    ensures
        find_part(id, "_u"@, from) == id.len(),
    decreases id.len() - from,
{
    reveal_strlit("_u");
    if from < id.len() {
        assert(!has_at(id, "_u"@, from)) by {
            if has_at(id, "_u"@, from) {
                assert(id.subrange(from, from + 2)[0] == '_');
                assert(id.subrange(from, from + 2)[1] == 'u');
                assert(id[from] == '_' && id[from + 1] == 'u');
            }
        }
        lemma_no_part(id, from + 1);
    }
}

/// The codepoint of an id is its code in capitals behind `U+`, and its character the one whose
/// number the code gives in hexadecimal digits, where there is one.
pub proof fn law_id_names_the_character_of_its_code(id: Seq<char>, code: Seq<char>)
    requires
        code_of(id) == Some(code),
    ensures
        codepoint_in(id) is Some,
        codepoint_in(id)->0.take(2) == "U+"@,
        is_ascii_text(code) ==> codepoint_in(id)->0.len() == code.len() + 2 && forall|i: int|
            0 <= i < code.len() ==> (#[trigger] codepoint_in(id)->0[i + 2]) as int == if 0x61
                <= code[i] as int <= 0x7a {
                code[i] as int - 32
            } else {
                code[i] as int
            },
        character_in(id) is Some == (number_of(code, 16, u32::MAX as nat) is Ok && {
            let n = number_of(code, 16, u32::MAX as nat)->Ok_0;
            n < 0xd800 || 0xe000 <= n <= 0x10ffff
        }),
        character_in(id) is Some ==> character_in(id)->0 == seq![
            number_of(code, 16, u32::MAX as nat)->Ok_0 as char,
        ],
{
    reveal_strlit("U+");
    assert(codepoint_in(id)->0.take(2) =~= "U+"@);
}

/// A text that may be missing is seen where it is there, and as it is.
pub proof fn law_optional_texts_are_seen(text: Option<String>)
    ensures
        text_view(text) is Some == text is Some,
        text is Some ==> text_view(text)->0 == text->0@,
{
}

} // verus!
