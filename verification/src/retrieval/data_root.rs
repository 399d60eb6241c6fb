//! Where the data lies.

use vstd::prelude::*;

use crate::error::{invalid, RetrievalError};
use crate::text::{chars_of, is_at};

verus! {

/// Which directory holds the data: the one that was given, or the one of that name in the parent
/// directory.
#[derive(Clone, Copy, Debug, PartialEq, Eq, Structural)]
pub enum DataRoot {
    Given,
    InParent,
}

/// Whether what follows a path component leads nowhere else: separators, and dots that stand
/// between them.
pub open spec fn leads_nowhere(rest: Seq<char>) -> bool {
    forall|i: int|
        0 <= i < rest.len() ==> #[trigger] rest[i] == '/' || (rest[i] == '.' && i > 0 && rest[i - 1]
            == '/' && (i + 1 == rest.len() || rest[i + 1] == '/'))
}

/// Whether a path is `data`, up to separators and dots behind it.
pub open spec fn is_default_root(path: Seq<char>) -> bool {
    &&& path.len() >= 4
    &&& path.take(4) == "data"@
    &&& leads_nowhere(path.skip(4))
}

/// Whether a path is `data`, up to separators and dots behind it.
fn names_default_root(path: &str) -> (r: bool)
    ensures
        r == is_default_root(path@),
{
    let chars = chars_of(path);
    let wanted = chars_of("data");
    proof {
        reveal_strlit("data");
    }
    let n: usize = chars.len();
    if n < 4 || !is_at(&chars, &wanted, 0) {
        assert(n >= 4 ==> path@.take(4) =~= path@.subrange(0, 4));
        return false;
    }
    assert(path@.take(4) =~= path@.subrange(0, 4));
    let ghost rest = path@.skip(4);
    for i in 4..n
        invariant
            n == chars@.len(),
            n >= 4,
            chars@ == path@,
            rest == path@.skip(4),
            forall|j: int|
                0 <= j < i - 4 ==> #[trigger] rest[j] == '/' || (rest[j] == '.' && j > 0 && rest[j
                    - 1] == '/' && (j + 1 == rest.len() || rest[j + 1] == '/')),
    {
        let separator: bool = chars[i] == '/';
        let dot: bool = chars[i] == '.' && i > 4 && chars[i - 1] == '/' && (i == n - 1 || chars[i
            + 1] == '/');
        assert(rest[i - 4] == chars@[i as int]);
        if i > 4 {
            assert(rest[i - 5] == chars@[i - 1]);
        }
        if i < n - 1 {
            assert(rest[i - 3] == chars@[i + 1]);
        }
        if !separator && !dot {
            return false;
        }
    }
    true
}

/// Decides where the data lies. `is_dir` says whether the given path is a directory, and
/// `parent_is_dir` whether the parent directory has a directory `data`.
pub fn resolve_existing_data_root(data_root: &str, is_dir: bool, parent_is_dir: bool) -> (r: Result<
    DataRoot,
    RetrievalError,
>)
    ensures
        is_dir ==> r == Ok::<DataRoot, RetrievalError>(DataRoot::Given),
        !is_dir && is_default_root(data_root@) && parent_is_dir ==> r == Ok::<
            DataRoot,
            RetrievalError,
        >(DataRoot::InParent),
        !is_dir && !(is_default_root(data_root@) && parent_is_dir) ==> r is Err && r->Err_0.says(
            "data root does not exist: "@ + data_root@,
        ),
{
    if is_dir {
        return Ok(DataRoot::Given);
    }
    if names_default_root(data_root) && parent_is_dir {
        return Ok(DataRoot::InParent);
    }
    let mut words = "data root does not exist: ".to_owned();
    words.append(data_root);
    invalid(words.as_str())
}

/// The path `data` is the default, also with separators and dots between separators behind it.
/// Every default path starts with `data`, and nothing but separators and dots follows.
pub proof fn law_default_root_is_data(path: Seq<char>)
    ensures
        is_default_root("data"@),
        is_default_root(path) ==> path.take(4) == "data"@ && forall|i: int|
            4 <= i < path.len() ==> #[trigger] path[i] == '/' || path[i] == '.',
        is_default_root(path) && path.len() > 4 ==> path[4] == '/',
        is_default_root(path) ==> is_default_root(path + seq!['/']),
        is_default_root(path) ==> is_default_root(path + seq!['/', '.']),
        is_default_root(path) ==> forall|i: int|
            4 <= i && i + 1 < path.len() ==> !(#[trigger] path[i] == '.' && path[i + 1] == '.'),
{
    reveal_strlit("data");
    assert("data"@.take(4) =~= "data"@);
    assert(leads_nowhere("data"@.skip(4)));
    if is_default_root(path) {
        let rest = path.skip(4);
        assert forall|i: int| 4 <= i < path.len() implies #[trigger] path[i] == '/' || path[i]
            == '.' by {
            assert(path[i] == rest[i - 4]);
        }
        assert(path.len() > 4 ==> path[4] == rest[0]);
        let one = path + seq!['/'];
        assert(one.take(4) =~= path.take(4));
        assert forall|i: int| 0 <= i < one.skip(4).len() implies #[trigger] one.skip(4)[i] == '/' || (
        one.skip(4)[i] == '.' && i > 0 && one.skip(4)[i - 1] == '/' && (i + 1 == one.skip(4).len()
            || one.skip(4)[i + 1] == '/')) by {
            if i < rest.len() {
                assert(one.skip(4)[i] == rest[i]);
                if i > 0 {
                    assert(one.skip(4)[i - 1] == rest[i - 1]);
                }
                if i + 1 < rest.len() {
                    assert(one.skip(4)[i + 1] == rest[i + 1]);
                }
            }
        }
        let two = path + seq!['/', '.'];
        assert(two.take(4) =~= path.take(4));
        assert forall|i: int| 0 <= i < two.skip(4).len() implies #[trigger] two.skip(4)[i] == '/' || (
        two.skip(4)[i] == '.' && i > 0 && two.skip(4)[i - 1] == '/' && (i + 1 == two.skip(4).len()
            || two.skip(4)[i + 1] == '/')) by {
            if i < rest.len() {
                assert(two.skip(4)[i] == rest[i]);
                if i > 0 {
                    assert(two.skip(4)[i - 1] == rest[i - 1]);
                }
                if i + 1 < rest.len() {
                    assert(two.skip(4)[i + 1] == rest[i + 1]);
                }
            }
        }
        assert forall|i: int| 4 <= i && i + 1 < path.len() implies !(#[trigger] path[i] == '.'
            && path[i + 1] == '.') by {
            assert(path[i] == rest[i - 4]);
            assert(path[i + 1] == rest[i - 3]);
        }
    }
}

} // verus!
