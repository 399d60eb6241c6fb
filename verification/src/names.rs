//! File names: stems, extensions and what is decided by them.

use vstd::prelude::*;

use crate::text::{ascii_lowered, chars_of, same_text, string_of, to_ascii_lower};

verus! {

/// The position of the last dot below `n`, or -1.
pub open spec fn last_dot(name: Seq<char>, n: int) -> int
    decreases n,
{
    if n <= 0 || name[n - 1] == '.' {
        n - 1
    } else {
        last_dot(name, n - 1)
    }
}

/// Where the last dot is.
pub proof fn lemma_last_dot(name: Seq<char>, n: int)
    requires
        0 <= n <= name.len(),
    ensures
        -1 <= last_dot(name, n) < n || (n == 0 && last_dot(name, n) == -1),
        last_dot(name, n) >= 0 ==> name[last_dot(name, n)] == '.',
        forall|i: int| last_dot(name, n) < i < n ==> name[i] != '.',
    decreases n,
{
    if n > 0 && name[n - 1] != '.' {
        lemma_last_dot(name, n - 1);
    }
}

/// Whether a file name has an extension: a dot that is not its first character. Two dots alone
/// are no file name with an extension.
pub open spec fn has_extension(name: Seq<char>) -> bool {
    last_dot(name, name.len() as int) > 0 && name != seq!['.', '.']
}

/// The extension of a file name, behind its last dot.
pub open spec fn extension(name: Seq<char>) -> Option<Seq<char>> {
    if has_extension(name) {
        Some(name.skip(last_dot(name, name.len() as int) + 1))
    } else {
        None
    }
}

/// A file name without its extension.
pub open spec fn stem(name: Seq<char>) -> Seq<char> {
    if has_extension(name) {
        name.take(last_dot(name, name.len() as int))
    } else {
        name
    }
}

/// The position of the last dot that separates an extension.
fn extension_dot(chars: &Vec<char>) -> (r: Option<usize>)
    ensures
        r is Some == has_extension(chars@),
        r is Some ==> r->0 == last_dot(chars@, chars@.len() as int) && r->0 < chars@.len(),
{
    let total: usize = chars.len();
    if total == 2 && chars[0] == '.' && chars[1] == '.' {
        assert(chars@ =~= seq!['.', '.']);
        return None;
    }
    assert(chars@ != seq!['.', '.']) by {
        if chars@ == seq!['.', '.'] {
            assert(chars@[0] == '.' && chars@[1] == '.' && chars@.len() == 2);
        }
    }
    let mut n: usize = total;
    while n > 0 && chars[n - 1] != '.'
        invariant
            n <= chars@.len(),
            total == chars@.len(),
            last_dot(chars@, n as int) == last_dot(chars@, total as int),
        decreases n,
    {
        n -= 1;
    }
    if n > 1 {
        Some(n - 1)
    } else {
        None
    }
}

/// The extension of a file name.
pub fn extension_of(name: &str) -> (r: Option<String>)
    ensures
        r is Some == extension(name@) is Some,
        r is Some ==> r->0@ == extension(name@)->0,
{
    let chars = chars_of(name);
    match extension_dot(&chars) {
        Some(dot) => {
            let total: usize = chars.len();
            let r = string_of(&chars, dot + 1, total);
            assert(r@ =~= name@.skip(dot + 1));
            Some(r)
        },
        None => None,
    }
}

/// A file name without its extension.
pub fn stem_of(name: &str) -> (r: String)
    ensures
        r@ == stem(name@),
{
    let chars = chars_of(name);
    let end: usize = match extension_dot(&chars) {
        Some(dot) => dot,
        None => chars.len(),
    };
    let r = string_of(&chars, 0, end);
    assert(r@ =~= stem(name@));
    r
}

/// Whether a file name has the extension `wanted`, in small or capital letters.
pub open spec fn has_extension_like(name: Seq<char>, wanted: Seq<char>) -> bool {
    extension(name) is Some && ascii_lowered(extension(name)->0) == wanted
}

/// Whether a file name has the extension `wanted`, in small or capital letters.
pub fn extension_is(name: &str, wanted: &str) -> (r: bool)
    ensures
        r == has_extension_like(name@, wanted@),
{
    match extension_of(name) {
        Some(found) => same_text(to_ascii_lower(found.as_str()).as_str(), wanted),
        None => false,
    }
}

/// Whether a file name is that of a PNG image.
pub fn is_png(name: &str) -> (r: bool)
    ensures
        r == has_extension_like(name@, "png"@),
{
    extension_is(name, "png")
}

/// A file name whose extension was replaced. Names that are dots alone have no extension to
/// replace.
pub open spec fn with_extension(name: Seq<char>, wanted: Seq<char>) -> Seq<char> {
    if name == seq!['.'] || name == seq!['.', '.'] {
        name
    } else {
        stem(name) + seq!['.'] + wanted
    }
}

/// Whether a name is one dot or two.
pub fn is_dots(name: &str) -> (r: bool)
    ensures
        r == (name@ == seq!['.'] || name@ == seq!['.', '.']),
{
    let chars = chars_of(name);
    if chars.len() == 1 && chars[0] == '.' {
        assert(name@ =~= seq!['.']);
        return true;
    }
    if chars.len() == 2 && chars[0] == '.' && chars[1] == '.' {
        assert(name@ =~= seq!['.', '.']);
        return true;
    }
    proof {
        if name@ == seq!['.'] {
            assert(chars@.len() == 1 && chars@[0] == '.');
        }
        if name@ == seq!['.', '.'] {
            assert(chars@.len() == 2 && chars@[0] == '.' && chars@[1] == '.');
        }
    }
    false
}

/// The name of a JSON file with the stem of another file name.
pub fn json_name(name: &str) -> (r: String)
    ensures
        r@ == with_extension(name@, "json"@),
{
    if is_dots(name) {
        return name.to_owned();
    }
    let mut r = stem_of(name);
    r.push('.');
    r.append("json");
    assert(r@ =~= with_extension(name@, "json"@));
    r
}

/// What lies in the directory of a training run under a name of its own.
#[derive(Clone, Copy, Debug, PartialEq, Eq, Structural)]
pub enum RunFile {
    /// The dimensions of a retrieval model.
    ModelConfig,
    /// The directory of remembered features.
    FeatureCache,
    /// The report on the training of a pose network.
    PoseReport,
    /// The report on the training of a retrieval model.
    RetrievalReport,
    /// The model after the last epoch.
    LastModel,
}

impl RunFile {
    /// The name of the file.
    pub open spec fn file_name(self) -> Seq<char> {
        match self {
            RunFile::ModelConfig => "retrieval_config.json"@,
            RunFile::FeatureCache => "feature_cache"@,
            RunFile::PoseReport => "training_report.json"@,
            RunFile::RetrievalReport => "retrieval_training_report.json"@,
            RunFile::LastModel => "last.mpk"@,
        }
    }

    /// The name of the file.
    pub fn name(self) -> (r: &'static str)
        ensures
            r@ == self.file_name(),
    {
        match self {
            RunFile::ModelConfig => "retrieval_config.json",
            RunFile::FeatureCache => "feature_cache",
            RunFile::PoseReport => "training_report.json",
            RunFile::RetrievalReport => "retrieval_training_report.json",
            RunFile::LastModel => "last.mpk",
        }
    }
}

/// The name of a directory of pose files. It lies beside images, or beside a directory of images.
pub fn pose_dir_name() -> (r: &'static str)
    ensures
        r@ == "poses"@,
{
    "poses"
}

/// Whether a file name is that of a recorded model.
pub open spec fn names_record(name: Seq<char>) -> bool {
    has_extension_like(name, "mpk"@)
}

/// The name under which a recorder looks for a model: without the recorder's own extension.
pub fn recorder_name(name: &str) -> (r: String)
    ensures
        r@ == if names_record(name@) {
            stem(name@)
        } else {
            name@
        },
{
    if extension_is(name, "mpk") {
        stem_of(name)
    } else {
        name.to_owned()
    }
}

/// The file that a recorder writes under a name leads back to that name.
pub proof fn law_record_name_reads_back(name: Seq<char>)
    requires
        name.len() > 0,
    ensures
        names_record(name + ".mpk"@),
        stem(name + ".mpk"@) == name,
{
    reveal_strlit(".mpk");
    reveal_strlit("mpk");
    let full = name + ".mpk"@;
    let n = name.len() as int;
    assert(full[n] == '.' && full[n + 1] == 'm' && full[n + 2] == 'p' && full[n + 3] == 'k');
    reveal_with_fuel(last_dot, 5);
    assert(last_dot(full, full.len() as int) == n);
    assert(full != seq!['.', '.']) by {
        assert(full.len() >= 5);
    }
    assert(full.skip(n + 1) =~= "mpk"@);
    assert(ascii_lowered("mpk"@) =~= "mpk"@);
    assert(full.take(n) =~= name);
}

/// A name that ends in a dot and an extension splits there, unless it is two dots; a name without
/// a dot has no extension, and neither has one whose only dot comes first.
pub proof fn law_names_split_at_the_last_dot(base: Seq<char>, wanted: Seq<char>)
    requires
        forall|i: int| 0 <= i < wanted.len() ==> #[trigger] wanted[i] != '.',
    ensures
        base.len() > 0 && base + seq!['.'] + wanted != seq!['.', '.'] ==> {
            &&& extension(base + seq!['.'] + wanted) == Some(wanted)
            &&& stem(base + seq!['.'] + wanted) == base
        },
        extension(wanted) is None,
        stem(wanted) == wanted,
        extension(seq!['.'] + wanted) is None,
        stem(seq!['.'] + wanted) == seq!['.'] + wanted,
{
    let name = base + seq!['.'] + wanted;
    let n = base.len() as int;
    lemma_last_dot(name, name.len() as int);
    assert(name[n] == '.');
    assert(forall|i: int| n < i < name.len() ==> name[i] != '.') by {
        assert forall|i: int| n < i < name.len() implies name[i] != '.' by {
            assert(name[i] == wanted[i - n - 1]);
        }
    }
    assert(last_dot(name, name.len() as int) == n);
    assert(name.skip(n + 1) =~= wanted);
    assert(name.take(n) =~= base);
    lemma_last_dot(wanted, wanted.len() as int);
    let hidden = seq!['.'] + wanted;
    lemma_last_dot(hidden, hidden.len() as int);
    assert forall|i: int| 0 < i < hidden.len() implies hidden[i] != '.' by {
        assert(hidden[i] == wanted[i - 1]);
    }
    assert(last_dot(hidden, hidden.len() as int) <= 0);
    assert(last_dot(wanted, wanted.len() as int) <= 0);
}

/// A name whose extension was replaced has the new extension, and what was before it stays.
pub proof fn law_replaced_extension_reads_back(name: Seq<char>, wanted: Seq<char>)
    requires
        name.len() > 0,
        name != seq!['.'],
        name != seq!['.', '.'],
        wanted.len() > 0,
        forall|i: int| 0 <= i < wanted.len() ==> #[trigger] wanted[i] != '.',
    ensures
        extension(with_extension(name, wanted)) == Some(wanted),
        stem(with_extension(name, wanted)) == stem(name),
        with_extension(name, wanted) == stem(name) + seq!['.'] + wanted,
{
    lemma_last_dot(name, name.len() as int);
    let base = stem(name);
    assert(base.len() > 0);
    law_names_split_at_the_last_dot(base, wanted);
    let whole = base + seq!['.'] + wanted;
    assert(whole != seq!['.', '.']) by {
        if whole == seq!['.', '.'] {
            assert(whole[whole.len() - 1] == wanted[wanted.len() - 1]);
            assert(whole[1] == '.');
        }
    }
}

/// An extension is told apart from others without regard to the size of its ASCII letters.
pub proof fn law_extensions_are_compared_in_small_letters(name: Seq<char>, wanted: Seq<char>)
    ensures
        has_extension_like(name, wanted) ==> extension(name) is Some && extension(name)->0.len()
            == wanted.len() && forall|i: int|
            0 <= i < wanted.len() ==> #[trigger] wanted[i] == (if 0x41 <= extension(name)->0[i] as int
                <= 0x5a {
                (extension(name)->0[i] as int + 32) as char
            } else {
                extension(name)->0[i]
            }),
        extension(name) is Some && ascii_lowered(extension(name)->0) == wanted
            ==> has_extension_like(name, wanted),
{
}

} // verus!
