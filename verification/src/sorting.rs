//! Sorting by rank.
//!
//! Items are sorted by their positions: a [`Ranking`] says which of two positions goes first, and
//! [`order`] lists all positions in that order. A ranking that falls back on the positions
//! themselves gives a stable sort.

use vstd::prelude::*;

use crate::text::{
    is_text_le, lemma_text_le_antisymmetric, lemma_text_le_reflexive, lemma_text_le_total,
    lemma_text_le_transitive, same_text, text_le,
};

verus! {

/// A strict total order on the positions of a list.
pub trait Ranking {
    /// Number of positions.
    spec fn size(&self) -> nat;

    /// Whether position `i` goes before position `j`.
    spec fn before(&self, i: int, j: int) -> bool;

    /// Of two positions one goes before the other.
    proof fn before_total(&self, i: int, j: int)
        requires
            0 <= i < self.size(),
            0 <= j < self.size(),
            i != j,
        ensures
            self.before(i, j) || self.before(j, i),
    ;

    /// No two positions go before each other.
    proof fn before_asymmetric(&self, i: int, j: int)
        requires
            0 <= i < self.size(),
            0 <= j < self.size(),
            self.before(i, j),
        ensures
            !self.before(j, i),
    ;

    /// The order is transitive.
    proof fn before_transitive(&self, i: int, j: int, k: int)
        requires
            0 <= i < self.size(),
            0 <= j < self.size(),
            0 <= k < self.size(),
            self.before(i, j),
            self.before(j, k),
        ensures
            self.before(i, k),
    ;

    /// Whether position `i` goes before position `j`.
    fn is_before(&self, i: usize, j: usize) -> (r: bool)
        requires
            i < self.size(),
            j < self.size(),
        ensures
            r == self.before(i as int, j as int),
    ;
}

/// Whether `positions` holds the positions from `lo` up to `hi` once each, in order.
pub open spec fn ordered<R: Ranking>(ranking: R, positions: Seq<usize>, lo: int, hi: int) -> bool {
    &&& positions.len() == hi - lo
    &&& forall|a: int| 0 <= a < positions.len() ==> lo <= #[trigger] positions[a] < hi
    &&& forall|k: usize| lo <= k < hi ==> #[trigger] positions.contains(k)
    &&& forall|a: int, b: int|
        0 <= a < b < positions.len() ==> ranking.before(
            #[trigger] positions[a] as int,
            #[trigger] positions[b] as int,
        )
}

/// A longer list holds what a list held.
proof fn lemma_push_contains(s: Seq<usize>, x: usize)
    ensures
        s.push(x).contains(x),
        forall|y: usize| #[trigger] s.contains(y) ==> s.push(x).contains(y),
{
    assert(s.push(x)[s.len() as int] == x);
    assert forall|y: usize| #[trigger] s.contains(y) implies s.push(x).contains(y) by {
        let i = choose|i: int| 0 <= i < s.len() && s[i] == y;
        assert(s.push(x)[i] == y);
    }
}

/// Merges two ordered runs.
fn merge<R: Ranking>(
    ranking: &R,
    left: &Vec<usize>,
    right: &Vec<usize>,
    lo: Ghost<int>,
    mid: Ghost<int>,
    hi: Ghost<int>,
) -> (r: Vec<usize>)
    requires
        0 <= lo@ <= mid@ <= hi@ <= ranking.size(),
        ordered(*ranking, left@, lo@, mid@),
        ordered(*ranking, right@, mid@, hi@),
    ensures
        ordered(*ranking, r@, lo@, hi@),
{
    let mut out: Vec<usize> = Vec::new();
    let mut i: usize = 0;
    let mut j: usize = 0;
    while i < left.len() || j < right.len()
        invariant
            0 <= lo@ <= mid@ <= hi@ <= ranking.size(),
            ordered(*ranking, left@, lo@, mid@),
            ordered(*ranking, right@, mid@, hi@),
            i <= left@.len(),
            j <= right@.len(),
            out@.len() == i + j,
            forall|a: int| 0 <= a < out@.len() ==> lo@ <= #[trigger] out@[a] < hi@,
            forall|p: int| 0 <= p < i ==> out@.contains(#[trigger] left@[p]),
            forall|q: int| 0 <= q < j ==> out@.contains(#[trigger] right@[q]),
            forall|a: int, b: int|
                0 <= a < b < out@.len() ==> ranking.before(
                    #[trigger] out@[a] as int,
                    #[trigger] out@[b] as int,
                ),
            forall|a: int, p: int|
                0 <= a < out@.len() && i <= p < left@.len() ==> ranking.before(
                    #[trigger] out@[a] as int,
                    #[trigger] left@[p] as int,
                ),
            forall|a: int, q: int|
                0 <= a < out@.len() && j <= q < right@.len() ==> ranking.before(
                    #[trigger] out@[a] as int,
                    #[trigger] right@[q] as int,
                ),
        decreases left@.len() - i + right@.len() - j,
    {
        let take_left: bool = if i == left.len() {
            false
        } else if j == right.len() {
            true
        } else {
            ranking.is_before(left[i], right[j])
        };
        let ghost before = out@;
        if take_left {
            let x: usize = left[i];
            proof {
                lemma_push_contains(out@, x);
                assert forall|q: int| j <= q < right@.len() implies ranking.before(
                    x as int,
                    #[trigger] right@[q] as int,
                ) by {
                    if q > j {
                        assert(ranking.before(right@[j as int] as int, right@[q] as int));
                        ranking.before_transitive(
                            x as int,
                            right@[j as int] as int,
                            right@[q] as int,
                        );
                    }
                }
            }
            out.push(x);
            i += 1;
        } else {
            let x: usize = right[j];
            proof {
                lemma_push_contains(out@, x);
                if i < left@.len() {
                    ranking.before_total(left@[i as int] as int, x as int);
                }
                assert forall|p: int| i <= p < left@.len() implies ranking.before(
                    x as int,
                    #[trigger] left@[p] as int,
                ) by {
                    if p > i {
                        assert(ranking.before(left@[i as int] as int, left@[p] as int));
                        ranking.before_transitive(x as int, left@[i as int] as int, left@[p] as int);
                    }
                }
            }
            out.push(x);
            j += 1;
        }
    }
    proof {
        assert forall|k: usize| lo@ <= k < hi@ implies #[trigger] out@.contains(k) by {
            if k < mid@ {
                assert(left@.contains(k));
                let p = choose|p: int| 0 <= p < left@.len() && left@[p] == k;
                assert(out@.contains(left@[p]));
            } else {
                assert(right@.contains(k));
                let q = choose|q: int| 0 <= q < right@.len() && right@[q] == k;
                assert(out@.contains(right@[q]));
            }
        }
    }
    out
}

/// Orders the positions from `lo` up to `hi`.
fn order_range<R: Ranking>(ranking: &R, lo: usize, hi: usize) -> (r: Vec<usize>)
    requires
        lo <= hi <= ranking.size(),
    ensures
        ordered(*ranking, r@, lo as int, hi as int),
    decreases hi - lo,
{
    let mut r: Vec<usize> = Vec::new();
    if lo == hi {
        return r;
    }
    if hi - lo == 1 {
        r.push(lo);
        assert(r@[0] == lo);
        return r;
    }
    let mid: usize = lo + (hi - lo) / 2;
    let left = order_range(ranking, lo, mid);
    let right = order_range(ranking, mid, hi);
    merge(ranking, &left, &right, Ghost(lo as int), Ghost(mid as int), Ghost(hi as int))
}

/// Lists all positions in order.
pub fn order<R: Ranking>(ranking: &R, n: usize) -> (r: Vec<usize>)
    requires
        n == ranking.size(),
    ensures
        ordered(*ranking, r@, 0, n as int),
{
    order_range(ranking, 0, n)
}

/// There is one order only.
pub proof fn law_order_is_unique<R: Ranking>(ranking: R, a: Seq<usize>, b: Seq<usize>)
    requires
        ordered(ranking, a, 0, ranking.size() as int),
        ordered(ranking, b, 0, ranking.size() as int),
    ensures
        a == b,
{
    assert forall|i: int| 0 <= i < a.len() implies a[i] == b[i] by {
        lemma_orders_agree(ranking, a, b, i);
    }
    assert(a =~= b);
}

/// Two orders of the same positions agree at every place.
proof fn lemma_orders_agree<R: Ranking>(ranking: R, a: Seq<usize>, b: Seq<usize>, i: int)
    requires
        ordered(ranking, a, 0, ranking.size() as int),
        ordered(ranking, b, 0, ranking.size() as int),
        0 <= i < a.len(),
    ensures
        a[i] == b[i],
    decreases i,
{
    assert forall|j: int| 0 <= j < i implies a[j] == b[j] by {
        lemma_orders_agree(ranking, a, b, j);
    }
    if a[i] != b[i] {
        assert(b.contains(a[i]));
        let p = choose|p: int| 0 <= p < b.len() && b[p] == a[i];
        assert(a.contains(b[i]));
        let q = choose|q: int| 0 <= q < a.len() && a[q] == b[i];
        if p < i {
            assert(a[p] == b[p]);
            assert(ranking.before(a[p] as int, a[i] as int));
            ranking.before_asymmetric(a[p] as int, a[i] as int);
        } else if q < i {
            assert(a[q] == b[q]);
            assert(ranking.before(b[q] as int, b[i] as int));
            ranking.before_asymmetric(b[q] as int, b[i] as int);
        } else {
            assert(ranking.before(b[i] as int, b[p] as int));
            assert(ranking.before(a[i] as int, a[q] as int));
            ranking.before_asymmetric(a[i] as int, b[i] as int);
        }
    }
}

/// The positions of a list of texts, by text and then by position.
pub struct TextRanking<'a> {
    pub texts: &'a Vec<String>,
}

impl<'a> Ranking for TextRanking<'a> {
    open spec fn size(&self) -> nat {
        self.texts@.len()
    }

    open spec fn before(&self, i: int, j: int) -> bool {
        text_le(self.texts@[i]@, self.texts@[j]@) && (self.texts@[i]@ != self.texts@[j]@ || i < j)
    }

    proof fn before_total(&self, i: int, j: int) {
        lemma_text_le_total(self.texts@[i]@, self.texts@[j]@);
        lemma_text_le_reflexive(self.texts@[i]@);
    }

    proof fn before_asymmetric(&self, i: int, j: int) {
        if self.before(j, i) {
            lemma_text_le_antisymmetric(self.texts@[i]@, self.texts@[j]@);
        }
    }

    proof fn before_transitive(&self, i: int, j: int, k: int) {
        let a = self.texts@[i]@;
        let b = self.texts@[j]@;
        let c = self.texts@[k]@;
        lemma_text_le_transitive(a, b, c);
        if a == c {
            lemma_text_le_antisymmetric(a, b);
        }
    }

    fn is_before(&self, i: usize, j: usize) -> (r: bool) {
        let a = self.texts[i].as_str();
        let b = self.texts[j].as_str();
        if !is_text_le(a, b) {
            return false;
        }
        i < j || !same_text(a, b)
    }
}

/// Listing a list by all of its positions, each once, keeps its items.
pub proof fn lemma_listing_keeps_items<T>(items: Seq<T>, positions: Seq<usize>)
    requires
        items.len() <= usize::MAX,
        positions.len() == items.len(),
        positions.no_duplicates(),
        forall|a: int| 0 <= a < positions.len() ==> #[trigger] positions[a] < items.len(),
        forall|k: usize| k < items.len() ==> #[trigger] positions.contains(k),
    ensures
        Seq::new(items.len(), |a: int| items[positions[a] as int]).to_multiset()
            == items.to_multiset(),
    decreases items.len(),
{
    let n = items.len();
    let listed = Seq::new(n, |a: int| items[positions[a] as int]);
    if n == 0 {
        assert(listed =~= items);
    } else {
        let last = (n - 1) as usize;
        assert(positions.contains(last));
        let b = choose|b: int| 0 <= b < positions.len() && positions[b] == last;
        let rest = items.drop_last();
        let others = positions.remove(b);
        assert forall|a: int| 0 <= a < others.len() implies #[trigger] others[a] < rest.len() by {
            let c = if a < b {
                a
            } else {
                a + 1
            };
            assert(others[a] == positions[c]);
            assert(positions[c] != positions[b]);
        }
        assert forall|k: usize| k < rest.len() implies #[trigger] others.contains(k) by {
            assert(positions.contains(k));
            let c = choose|c: int| 0 <= c < positions.len() && positions[c] == k;
            assert(others[if c < b {
                c
            } else {
                c - 1
            }] == k);
        }
        assert(others.no_duplicates()) by {
            assert forall|c: int, d: int|
                0 <= c < others.len() && 0 <= d < others.len() && c != d implies others[c]
                != others[d] by {
                let x = if c < b {
                    c
                } else {
                    c + 1
                };
                let y = if d < b {
                    d
                } else {
                    d + 1
                };
                assert(positions[x] != positions[y]);
            }
        }
        lemma_listing_keeps_items(rest, others);
        let listed_rest = Seq::new(rest.len(), |a: int| rest[others[a] as int]);
        assert(listed.remove(b) =~= listed_rest);
        assert(listed[b] == items[n - 1]);
        listed.to_multiset_ensures();
        rest.to_multiset_ensures();
        assert(rest.push(items.last()) =~= items);
        assert(listed.contains(listed[b]));
        assert(listed.to_multiset() =~= listed.remove(b).to_multiset().insert(listed[b]));
    }
}

/// An order lists no position twice.
pub proof fn lemma_ordered_once<R: Ranking>(ranking: R, positions: Seq<usize>, lo: int, hi: int)
    requires
        0 <= lo,
        hi <= ranking.size(),
        ordered(ranking, positions, lo, hi),
    ensures
        positions.no_duplicates(),
{
    assert forall|a: int, b: int| 0 <= a < b < positions.len() implies positions[a]
        != positions[b] by {
        assert(ranking.before(positions[a] as int, positions[b] as int));
        if positions[a] == positions[b] {
            ranking.before_asymmetric(positions[a] as int, positions[b] as int);
        }
    }
}

} // verus!
