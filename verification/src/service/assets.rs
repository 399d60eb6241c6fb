//! Example images.

use vstd::prelude::*;

use crate::names::{
    extension, extension_of, is_dots, law_names_split_at_the_last_dot, stem, stem_of,
};
use crate::sorting::{lemma_listing_keeps_items, lemma_ordered_once, order, Ranking};
use crate::text::{
    ascii_lowered, chars_of, decimal, is_text_le, law_decimal_reads_back,
    lemma_text_le_antisymmetric, lemma_text_le_reflexive, lemma_text_le_total,
    lemma_text_le_transitive, number_of, parse_usize, same_text, text_le, to_ascii_lower,
};

verus! {

/// Whether a text can be the name of a file in a directory: it is not empty, does not stand for
/// the directory or its parent, and leads to no other directory.
pub open spec fn is_plain_name(name: Seq<char>) -> bool {
    &&& name.len() > 0
    &&& name != seq!['.']
    &&& name != seq!['.', '.']
    &&& !name.contains('/')
    &&& !name.contains('\\')
}

/// Whether an extension in small letters is one that browsers show as an image.
pub open spec fn is_gallery_extension(found: Seq<char>) -> bool {
    found == "avif"@ || found == "png"@ || found == "jpg"@ || found == "jpeg"@ || found == "webp"@
}

/// Whether an extension in small letters is that of an example image.
pub open spec fn is_image_extension(found: Seq<char>) -> bool {
    is_gallery_extension(found) || found == "heic"@ || found == "heif"@
}

/// Whether a name is that of an example image.
pub open spec fn names_example(name: Seq<char>) -> bool {
    is_plain_name(name) && extension(name) is Some && is_image_extension(
        ascii_lowered(extension(name)->0),
    )
}

/// Whether a name is that of an example image that the gallery shows.
pub open spec fn names_gallery_example(name: Seq<char>) -> bool {
    names_example(name) && is_gallery_extension(ascii_lowered(extension(name)->0))
}

fn is_plain(name: &str) -> (r: bool)
    ensures
        r == is_plain_name(name@),
{
    let chars = chars_of(name);
    let n: usize = chars.len();
    if n == 0 || is_dots(name) {
        return false;
    }
    for i in 0..n
        invariant
            n == chars@.len(),
            chars@ == name@,
            forall|j: int| 0 <= j < i ==> name@[j] != '/' && name@[j] != '\\',
    {
        if chars[i] == '/' || chars[i] == '\\' {
            assert(name@[i as int] == '/' || name@[i as int] == '\\');
            return false;
        }
    }
    true
}

fn is_gallery(found: &str) -> (r: bool)
    ensures
        r == is_gallery_extension(found@),
{
    same_text(found, "avif") || same_text(found, "png") || same_text(found, "jpg") || same_text(
        found,
        "jpeg",
    ) || same_text(found, "webp")
}

/// Whether a name is that of an example image.
pub fn is_example_image_name(name: &str) -> (r: bool)
    ensures
        r == names_example(name@),
        r <==> {
            &&& name@.len() > 0
            &&& name@ != seq!['.']
            &&& name@ != seq!['.', '.']
            &&& !name@.contains('/')
            &&& !name@.contains('\\')
            &&& extension(name@) is Some
            &&& {
                let found = ascii_lowered(extension(name@)->0);
                found == "avif"@ || found == "png"@ || found == "jpg"@ || found == "jpeg"@ || found
                    == "webp"@ || found == "heic"@ || found == "heif"@
            }
        },
{
    if !is_plain(name) {
        return false;
    }
    match extension_of(name) {
        Some(found) => {
            let lowered = to_ascii_lower(found.as_str());
            is_gallery(lowered.as_str()) || same_text(lowered.as_str(), "heic") || same_text(
                lowered.as_str(),
                "heif",
            )
        },
        None => false,
    }
}

/// Whether a name is that of an example image that the gallery shows.
pub fn is_example_gallery_image_name(name: &str) -> (r: bool)
    ensures
        r == names_gallery_example(name@),
        r <==> names_example(name@) && ({
            let found = ascii_lowered(extension(name@)->0);
            found == "avif"@ || found == "png"@ || found == "jpg"@ || found == "jpeg"@ || found
                == "webp"@
        }),
{
    if !is_example_image_name(name) {
        return false;
    }
    match extension_of(name) {
        Some(found) => is_gallery(to_ascii_lower(found.as_str()).as_str()),
        None => false,
    }
}

/// The number that a file is named by; names that are no number come last.
pub open spec fn example_number(name: Seq<char>) -> nat {
    match number_of(stem(name), 10, usize::MAX as nat) {
        Ok(n) => n,
        Err(_) => usize::MAX as nat,
    }
}

/// The number that a file is named by.
pub fn example_image_index(name: &str) -> (r: usize)
    ensures
        r == example_number(name@),
        number_of(stem(name@), 10, usize::MAX as nat) is Ok ==> r == number_of(
            stem(name@),
            10,
            usize::MAX as nat,
        )->Ok_0,
        number_of(stem(name@), 10, usize::MAX as nat) is Err ==> r == usize::MAX,
{
    match parse_usize(stem_of(name).as_str()) {
        Ok(n) => n,
        Err(_) => usize::MAX,
    }
}

/// Whether example `a` goes before example `b`: by number, then by name.
pub open spec fn example_le(a: Seq<char>, b: Seq<char>) -> bool {
    example_number(a) < example_number(b) || (example_number(a) == example_number(b) && text_le(a, b))
}

/// The positions of example names, by number, then by name, then by position.
pub struct ExampleRanking<'a> {
    pub names: &'a Vec<String>,
}

impl<'a> Ranking for ExampleRanking<'a> {
    open spec fn size(&self) -> nat {
        self.names@.len()
    }

    open spec fn before(&self, i: int, j: int) -> bool {
        example_le(self.names@[i]@, self.names@[j]@) && (self.names@[i]@ != self.names@[j]@ || i < j)
    }

    proof fn before_total(&self, i: int, j: int) {
        lemma_text_le_total(self.names@[i]@, self.names@[j]@);
        lemma_text_le_reflexive(self.names@[i]@);
    }

    proof fn before_asymmetric(&self, i: int, j: int) {
        if self.before(j, i) {
            lemma_text_le_antisymmetric(self.names@[i]@, self.names@[j]@);
        }
    }

    proof fn before_transitive(&self, i: int, j: int, k: int) {
        let a = self.names@[i]@;
        let b = self.names@[j]@;
        let c = self.names@[k]@;
        if example_number(a) == example_number(b) && example_number(b) == example_number(c) {
            lemma_text_le_transitive(a, b, c);
            if a == c {
                lemma_text_le_antisymmetric(a, b);
            }
        }
    }

    fn is_before(&self, i: usize, j: usize) -> (r: bool) {
        let a = self.names[i].as_str();
        let b = self.names[j].as_str();
        let x = example_image_index(a);
        let y = example_image_index(b);
        if x != y {
            return x < y;
        }
        is_text_le(a, b) && (i < j || !same_text(a, b))
    }
}

/// The gallery names among `files`, in the order of the files.
pub open spec fn gallery_among(files: Seq<String>) -> Seq<Seq<char>>
    decreases files.len(),
{
    if files.len() == 0 {
        Seq::empty()
    } else {
        let before = gallery_among(files.drop_last());
        if names_gallery_example(files.last()@) {
            before.push(files.last()@)
        } else {
            before
        }
    }
}

/// Whether `names` are the gallery names among `files`, each as often as it is there, by number
/// and then by name.
pub open spec fn gallery_of(files: Seq<String>, names: Seq<String>) -> bool {
    &&& names.map_values(|name: String| name@).to_multiset() == gallery_among(files).to_multiset()
    &&& forall|a: int| 0 <= a < names.len() ==> names_gallery_example((#[trigger] names[a])@)
    &&& forall|a: int| 0 <= a < names.len() ==> files.contains(#[trigger] names[a])
    &&& forall|f: int|
        0 <= f < files.len() && names_gallery_example((#[trigger] files[f])@) ==> names.contains(
            files[f],
        )
    &&& forall|a: int, b: int|
        0 <= a < b < names.len() ==> example_le((#[trigger] names[a])@, (#[trigger] names[b])@)
}

/// The names of the example images in the gallery, out of the names of all files.
pub fn example_image_names(files: &Vec<String>) -> (r: Vec<String>)
    ensures
        gallery_of(files@, r@),
        forall|a: int|
            0 <= a < r@.len() ==> names_gallery_example((#[trigger] r@[a])@) && files@.contains(
                r@[a],
            ),
        forall|f: int|
            0 <= f < files@.len() && names_gallery_example((#[trigger] files@[f])@) ==> r@.contains(
                files@[f],
            ),
        forall|a: int, b: int|
            0 <= a < b < r@.len() ==> example_number((#[trigger] r@[a])@) < example_number(
                (#[trigger] r@[b])@,
            ) || (example_number(r@[a]@) == example_number(r@[b]@) && text_le(r@[a]@, r@[b]@)),
{
    let n: usize = files.len();
    let mut kept: Vec<String> = Vec::new();
    assert(files@.take(0) =~= Seq::<String>::empty());
    assert(kept@.map_values(|name: String| name@) =~= Seq::<Seq<char>>::empty());
    for i in 0..n
        invariant
            n == files@.len(),
            kept@.map_values(|name: String| name@) == gallery_among(files@.take(i as int)),
            forall|a: int| 0 <= a < kept@.len() ==> names_gallery_example((#[trigger] kept@[a])@),
            forall|a: int| 0 <= a < kept@.len() ==> files@.contains(#[trigger] kept@[a]),
            forall|f: int|
                0 <= f < i && names_gallery_example((#[trigger] files@[f])@) ==> kept@.contains(
                    files@[f],
                ),
    {
        let ghost before = kept@;
        assert(files@.take(i + 1).drop_last() =~= files@.take(i as int));
        if is_example_gallery_image_name(files[i].as_str()) {
            kept.push(files[i].clone());
            proof {
                assert(kept@[before.len() as int] == files@[i as int]);
                assert(kept@.map_values(|name: String| name@) =~= before.map_values(
                    |name: String| name@,
                ).push(files@[i as int]@));
                assert forall|f: int|
                    0 <= f < i + 1 && names_gallery_example(
                        (#[trigger] files@[f])@,
                    ) implies kept@.contains(files@[f]) by {
                    if f < i {
                        let a = choose|a: int| 0 <= a < before.len() && before[a] == files@[f];
                        assert(kept@[a] == files@[f]);
                    }
                }
            }
        }
    }
    let m: usize = kept.len();
    let ranking = ExampleRanking { names: &kept };
    let ranked = order(&ranking, m);
    let mut r: Vec<String> = Vec::new();
    for a in 0..m
        invariant
            m == kept@.len() == ranked@.len(),
            forall|b: int| 0 <= b < m ==> #[trigger] ranked@[b] < m,
            r@.len() == a,
            forall|b: int| 0 <= b < a ==> #[trigger] r@[b] == kept@[ranked@[b] as int],
    {
        r.push(kept[ranked[a]].clone());
    }
    proof {
        let items = kept@.map_values(|name: String| name@);
        lemma_ordered_once(ranking, ranked@, 0, m as int);
        lemma_listing_keeps_items(items, ranked@);
        assert(r@.map_values(|name: String| name@) =~= Seq::new(
            items.len(),
            |a: int| items[ranked@[a] as int],
        ));
        assert(files@.take(n as int) =~= files@);
        assert forall|f: int| 0 <= f < files@.len() && names_gallery_example(
            (#[trigger] files@[f])@,
        ) implies r@.contains(files@[f]) by {
            let k = choose|k: int| 0 <= k < kept@.len() && kept@[k] == files@[f];
            assert(ranked@.contains(k as usize));
            let b = choose|b: int| 0 <= b < ranked@.len() && ranked@[b] == k as usize;
            assert(r@[b] == kept@[k]);
        }
        assert forall|a: int, b: int| 0 <= a < b < r@.len() implies example_le(
            (#[trigger] r@[a])@,
            (#[trigger] r@[b])@,
        ) by {
            assert(ranking.before(ranked@[a] as int, ranked@[b] as int));
        }
    }
    r
}

/// An example image that a request can ask for lies in the directory of the examples itself.
pub proof fn law_examples_stay_in_their_directory(name: Seq<char>)
    requires
        names_example(name),
    ensures
        !name.contains('/'),
        !name.contains('\\'),
        name != seq!['.', '.'],
{
}

/// Each file whose name the gallery takes is there once: one more such file adds its name, and any
/// other file adds nothing.
pub proof fn law_each_gallery_file_counts_once(files: Seq<String>, more: String)
    ensures
        gallery_among(files.push(more)) == if names_gallery_example(more@) {
            gallery_among(files).push(more@)
        } else {
            gallery_among(files)
        },
        gallery_among(Seq::<String>::empty()) == Seq::<Seq<char>>::empty(),
{
    assert(files.push(more).drop_last() =~= files);
    assert(files.push(more).last() == more);
}

/// Files that numbers name come in the order of their numbers, before those whose names are none.
pub proof fn law_examples_go_by_their_numbers(
    a: Seq<char>,
    b: Seq<char>,
    m: nat,
    n: nat,
    written: Seq<char>,
)
    requires
        m < n <= usize::MAX,
        forall|i: int| 0 <= i < written.len() ==> #[trigger] written[i] != '.',
        written.len() > 0,
        a == decimal(m) + seq!['.'] + written,
        b == decimal(n) + seq!['.'] + written,
    ensures
        example_number(a) == m,
        example_number(b) == n,
        example_le(a, b),
        !example_le(b, a),
{
    lemma_numbered(m, written);
    lemma_numbered(n, written);
}

/// A number and an extension name a file by that number.
proof fn lemma_numbered(n: nat, written: Seq<char>)
    requires
        n <= usize::MAX,
        forall|i: int| 0 <= i < written.len() ==> #[trigger] written[i] != '.',
        written.len() > 0,
    ensures
        example_number(decimal(n) + seq!['.'] + written) == n,
{
    let digits = decimal(n);
    let name = digits + seq!['.'] + written;
    law_decimal_reads_back(n, usize::MAX as nat);
    assert(digits.len() > 0);
    assert(name != seq!['.', '.']) by {
        if name == seq!['.', '.'] {
            assert(name[name.len() - 1] == written[written.len() - 1]);
            assert(name[1] == '.');
        }
    }
    law_names_split_at_the_last_dot(digits, written);
}

} // verus!
