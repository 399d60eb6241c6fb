//! Text in pages.

use vstd::prelude::*;

use crate::text::chars_of;

verus! {

/// A character as it is written in a page.
pub open spec fn page_char(c: char) -> Seq<char> {
    if c == '&' {
        "&amp;"@
    } else if c == '<' {
        "&lt;"@
    } else if c == '>' {
        "&gt;"@
    } else if c == '"' {
        "&quot;"@
    } else if c == '\'' {
        "&#39;"@
    } else {
        seq![c]
    }
}

/// A text as it is written in a page.
pub open spec fn page_text(text: Seq<char>) -> Seq<char>
    decreases text.len(),
{
    if text.len() == 0 {
        Seq::empty()
    } else {
        page_text(text.drop_last()) + page_char(text.last())
    }
}

/// Writes a text for a page: characters that mean something in HTML are written as entities.
pub fn escape_html(text: &str) -> (r: String)
    ensures
        r@ == page_text(text@),
{
    let chars = chars_of(text);
    let n: usize = chars.len();
    let mut r = String::new();
    assert(text@.take(0) =~= Seq::<char>::empty());
    assert(r@ =~= Seq::<char>::empty());
    for i in 0..n
        invariant
            n == chars@.len(),
            chars@ == text@,
            r@ == page_text(text@.take(i as int)),
    {
        let ghost before = r@;
        assert(text@.take(i + 1).drop_last() =~= text@.take(i as int));
        assert(text@.take(i + 1).last() == chars@[i as int]);
        let c: char = chars[i];
        if c == '&' {
            r.append("&amp;");
        } else if c == '<' {
            r.append("&lt;");
        } else if c == '>' {
            r.append("&gt;");
        } else if c == '"' {
            r.append("&quot;");
        } else if c == '\'' {
            r.append("&#39;");
        } else {
            r.push(c);
        }
        assert(r@ =~= before + page_char(c));
    }
    assert(text@.take(n as int) =~= text@);
    r
}

/// A text in a page opens no tag and ends no attribute.
pub proof fn law_page_text_holds_no_markup(text: Seq<char>)
    ensures
        forall|i: int|
            0 <= i < page_text(text).len() ==> #[trigger] page_text(text)[i] != '<' && page_text(
                text,
            )[i] != '>' && page_text(text)[i] != '"' && page_text(text)[i] != '\'',
    decreases text.len(),
{
    if text.len() > 0 {
        let rest = page_text(text.drop_last());
        let last = page_char(text.last());
        law_page_text_holds_no_markup(text.drop_last());
        reveal_strlit("&amp;");
        reveal_strlit("&lt;");
        reveal_strlit("&gt;");
        reveal_strlit("&quot;");
        reveal_strlit("&#39;");
        assert forall|i: int| 0 <= i < page_text(text).len() implies #[trigger] page_text(text)[i]
            != '<' && page_text(text)[i] != '>' && page_text(text)[i] != '"' && page_text(text)[i]
            != '\'' by {
            if i < rest.len() {
                assert(page_text(text)[i] == rest[i]);
            } else {
                assert(page_text(text)[i] == last[i - rest.len()]);
            }
        }
    }
}

/// Texts are written one after the other as they are written each by itself.
pub proof fn law_page_texts_join(a: Seq<char>, b: Seq<char>)
    ensures
        page_text(a + b) == page_text(a) + page_text(b),
    decreases b.len(),
{
    if b.len() == 0 {
        assert(a + b =~= a);
        assert(page_text(a) + page_text(b) =~= page_text(a));
    } else {
        assert((a + b).drop_last() =~= a + b.drop_last());
        assert((a + b).last() == b.last());
        law_page_texts_join(a, b.drop_last());
        assert(page_text(a + b) =~= page_text(a) + page_text(b));
    }
}

/// The characters that mean something in HTML are written as their entities, and every other
/// character as itself.
pub proof fn law_page_characters(c: char)
    ensures
        page_text(seq![c]) == if c == '&' {
            seq!['&', 'a', 'm', 'p', ';']
        } else if c == '<' {
            seq!['&', 'l', 't', ';']
        } else if c == '>' {
            seq!['&', 'g', 't', ';']
        } else if c == '"' {
            seq!['&', 'q', 'u', 'o', 't', ';']
        } else if c == '\'' {
            seq!['&', '#', '3', '9', ';']
        } else {
            seq![c]
        },
        page_text(Seq::<char>::empty()) == Seq::<char>::empty(),
{
    reveal_strlit("&amp;");
    reveal_strlit("&lt;");
    reveal_strlit("&gt;");
    reveal_strlit("&quot;");
    reveal_strlit("&#39;");
    assert(seq![c].drop_last() =~= Seq::<char>::empty());
    assert(page_text(Seq::<char>::empty()) =~= Seq::<char>::empty());
    assert(seq![c].last() == c);
    assert(page_text(seq![c]) =~= page_char(c));
    assert("&amp;"@ =~= seq!['&', 'a', 'm', 'p', ';']);
    assert("&lt;"@ =~= seq!['&', 'l', 't', ';']);
    assert("&gt;"@ =~= seq!['&', 'g', 't', ';']);
    assert("&quot;"@ =~= seq!['&', 'q', 'u', 'o', 't', ';']);
    assert("&#39;"@ =~= seq!['&', '#', '3', '9', ';']);
}

} // verus!
