//! The index of candidate glyphs and the search in it.

use vstd::prelude::*;

use crate::error::{invalid, RetrievalError};
use crate::floats::Single;
use crate::retrieval::dataset::{copy_text, CandidateView, GlyphCandidate};
use crate::retrieval::glyph_id::text_view;
use crate::retrieval::model::{
    all_finite, find_not_finite, first_not_finite, validate_model_config, RetrievalModelConfig,
};
use crate::sorting::{order, ordered, Ranking, TextRanking};
use crate::text::{decimal, decimal_text, lemma_text_le_antisymmetric, same_text};

verus! {

pub const CANDIDATE_INDEX_VERSION: u32 = 1;

/// A glyph with its embedding.
#[derive(Debug)]
pub struct CandidateEntry {
    pub id: String,
    pub codepoint: Option<String>,
    pub character: Option<String>,
    pub persona: String,
    pub glyph_path: String,
    pub embedding: Vec<Single>,
}

/// What an entry holds.
pub struct EntryView {
    pub glyph: CandidateView,
    pub embedding: Seq<Single>,
}

impl View for CandidateEntry {
    type V = EntryView;

    open spec fn view(&self) -> EntryView {
        EntryView {
            glyph: CandidateView {
                id: self.id@,
                codepoint: text_view(self.codepoint),
                character: text_view(self.character),
                persona: self.persona@,
                glyph_path: self.glyph_path@,
            },
            embedding: self.embedding@,
        }
    }
}

impl Clone for CandidateEntry {
    fn clone(&self) -> (r: CandidateEntry)
        ensures
            r@ == self@,
            r.id@ == self.id@,
            r.persona@ == self.persona@,
            r.glyph_path@ == self.glyph_path@,
            r.codepoint is Some == self.codepoint is Some,
            r.codepoint is Some ==> r.codepoint->0@ == self.codepoint->0@,
            r.character is Some == self.character is Some,
            r.character is Some ==> r.character->0@ == self.character->0@,
            r.embedding@ == self.embedding@,
    {
        let embedding = self.embedding.clone();
        assert(embedding@ =~= self.embedding@);
        CandidateEntry {
            id: self.id.clone(),
            codepoint: copy_text(&self.codepoint),
            character: copy_text(&self.character),
            persona: self.persona.clone(),
            glyph_path: self.glyph_path.clone(),
            embedding,
        }
    }
}

/// The candidate glyphs with their embeddings, and the model that these come from.
#[derive(Debug)]
pub struct CandidateIndex {
    pub version: u32,
    pub model: RetrievalModelConfig,
    pub entries: Vec<CandidateEntry>,
}

/// A glyph that was found.
#[derive(Debug)]
pub struct SearchHit {
    pub index: usize,
    pub entry: CandidateEntry,
    pub score: Single,
}

/// Where an embedding stands, in words.
pub open spec fn place_words(entry_index: Option<usize>) -> Seq<char> {
    match entry_index {
        Some(i) => " at entry "@ + decimal(i as nat),
        None => Seq::empty(),
    }
}

/// The words for an embedding of the wrong length.
pub open spec fn wrong_embedding_dim(
    label: Seq<char>,
    entry_index: Option<usize>,
    expected: nat,
    actual: nat,
) -> Seq<char> {
    label + place_words(entry_index) + " dimension mismatch: expected "@ + decimal(expected)
        + ", got "@ + decimal(actual)
}

/// The words for an embedding with a value that is not finite.
pub open spec fn not_finite_value(label: Seq<char>, entry_index: Option<usize>, i: nat) -> Seq<char> {
    label + place_words(entry_index) + " value "@ + decimal(i) + " is not finite"@
}

/// Whether an embedding has the right length and finite values.
pub open spec fn embedding_fits(embedding: Seq<Single>, expected: nat) -> bool {
    embedding.len() == expected && all_finite(embedding)
}

/// Whether `words` say what is wrong with an embedding: first its length, then its values.
pub open spec fn embedding_fault(
    label: Seq<char>,
    embedding: Seq<Single>,
    expected: nat,
    entry_index: Option<usize>,
    words: Seq<char>,
) -> bool {
    if embedding.len() != expected {
        words == wrong_embedding_dim(label, entry_index, expected, embedding.len())
    } else {
        exists|i: int| #[trigger]
            first_not_finite(embedding, i) && words == not_finite_value(
                label,
                entry_index,
                i as nat,
            )
    }
}

/// Where an embedding stands, in words.
fn place_text(entry_index: Option<usize>) -> (r: String)
    ensures
        r@ == place_words(entry_index),
{
    match entry_index {
        Some(i) => {
            let mut words = " at entry ".to_owned();
            words.append(decimal_text(i).as_str());
            words
        },
        None => {
            let r = String::new();
            assert(r@ =~= Seq::<char>::empty());
            r
        },
    }
}

/// Checks the length and the values of an embedding.
pub fn validate_embedding(
    label: &str,
    embedding: &Vec<Single>,
    expected_dim: usize,
    entry_index: Option<usize>,
) -> (r: Result<(), RetrievalError>)
    ensures
        r is Ok == embedding_fits(embedding@, expected_dim as nat),
        r is Ok == (embedding@.len() == expected_dim && forall|i: int|
            0 <= i < embedding@.len() ==> (#[trigger] embedding@[i]).finite()),
        r is Err ==> embedding_fault(
            label@,
            embedding@,
            expected_dim as nat,
            entry_index,
            r->Err_0->0@,
        ),
        embedding@.len() != expected_dim ==> r is Err && r->Err_0->0@ == label@ + (
        match entry_index {
            Some(i) => " at entry "@ + decimal(i as nat),
            None => Seq::empty(),
        }) + " dimension mismatch: expected "@ + decimal(expected_dim as nat) + ", got "@ + decimal(
            embedding@.len(),
        ),
        embedding@.len() == expected_dim && r is Err ==> exists|i: int|
            0 <= i < embedding@.len() && !(#[trigger] embedding@[i]).finite() && (forall|j: int|
                0 <= j < i ==> (#[trigger] embedding@[j]).finite()) && r->Err_0->0@ == label@ + (
            match entry_index {
                Some(e) => " at entry "@ + decimal(e as nat),
                None => Seq::empty(),
            }) + " value "@ + decimal(i as nat) + " is not finite"@,
{
    let actual: usize = embedding.len();
    if actual != expected_dim {
        let mut words = label.to_owned();
        words.append(place_text(entry_index).as_str());
        words.append(" dimension mismatch: expected ");
        words.append(decimal_text(expected_dim).as_str());
        words.append(", got ");
        words.append(decimal_text(actual).as_str());
        return invalid(words.as_str());
    }
    match find_not_finite(embedding) {
        Some(i) => {
            let mut words = label.to_owned();
            words.append(place_text(entry_index).as_str());
            words.append(" value ");
            words.append(decimal_text(i).as_str());
            words.append(" is not finite");
            assert(first_not_finite(embedding@, i as int));
            assert(!embedding@[i as int].finite());
            invalid(words.as_str())
        },
        None => Ok(()),
    }
}

impl CandidateIndex {
    /// Whether the embedding of entry `i` fits the model.
    pub open spec fn entry_fits(self, i: int) -> bool {
        embedding_fits(self.entries@[i].embedding@, self.model.embedding_dim as nat)
    }

    /// Whether the index can be searched.
    pub open spec fn valid(self) -> bool {
        &&& self.version == CANDIDATE_INDEX_VERSION
        &&& self.model.fault() is None
        &&& self.entries@.len() > 0
        &&& forall|i: int| 0 <= i < self.entries@.len() ==> #[trigger] self.entry_fits(i)
    }

    /// Whether `words` say what is wrong with the index: its version, its model, that it is
    /// empty, or its first entry whose embedding does not fit.
    pub open spec fn fault(self, words: Seq<char>) -> bool {
        if self.version != CANDIDATE_INDEX_VERSION {
            words == "unsupported candidate index version: expected "@ + decimal(1) + ", got "@
                + decimal(self.version as nat)
        } else if self.model.fault() is Some {
            words == self.model.fault()->0
        } else if self.entries@.len() == 0 {
            words == "candidate index has no entries"@
        } else {
            exists|i: int|
                0 <= i < self.entries@.len() && !#[trigger] self.entry_fits(i) && (forall|j: int|
                    0 <= j < i ==> #[trigger] self.entry_fits(j)) && embedding_fault(
                    "candidate embedding"@,
                    self.entries@[i].embedding@,
                    self.model.embedding_dim as nat,
                    Some(i as usize),
                    words,
                )
        }
    }
}

/// Checks that an index can be searched.
pub fn validate_candidate_index(index: &CandidateIndex) -> (r: Result<(), RetrievalError>)
    ensures
        r is Ok == index.valid(),
        r is Err ==> index.fault(r->Err_0->0@),
        index.version != 1 ==> r is Err && r->Err_0->0@
            == "unsupported candidate index version: expected "@ + decimal(1) + ", got "@ + decimal(
            index.version as nat,
        ),
        index.version == 1 && index.model.input_dim == 0 ==> r is Err && r->Err_0->0@
            == "retrieval model input_dim must be greater than zero"@,
        index.version == 1 && index.model.input_dim > 0 && index.model.hidden_dim > 0
            && index.model.embedding_dim > 0 && index.entries@.len() == 0 ==> r is Err
            && r->Err_0->0@ == "candidate index has no entries"@,
{
    if index.version != CANDIDATE_INDEX_VERSION {
        let mut words = "unsupported candidate index version: expected ".to_owned();
        words.append(decimal_text(CANDIDATE_INDEX_VERSION as usize).as_str());
        words.append(", got ");
        words.append(decimal_text(index.version as usize).as_str());
        return invalid(words.as_str());
    }
    match validate_model_config(&index.model) {
        Err(error) => return Err(error),
        Ok(()) => {},
    }
    let n: usize = index.entries.len();
    if n == 0 {
        return invalid("candidate index has no entries");
    }
    for i in 0..n
        invariant
            n == index.entries@.len(),
            n > 0,
            index.version == CANDIDATE_INDEX_VERSION,
            index.model.fault() is None,
            forall|j: int| 0 <= j < i ==> #[trigger] index.entry_fits(j),
    {
        match validate_embedding(
            "candidate embedding",
            &index.entries[i].embedding,
            index.model.embedding_dim,
            Some(i),
        ) {
            Err(error) => {
                assert(!index.entry_fits(i as int));
                return Err(error);
            },
            Ok(()) => {
                assert(index.entry_fits(i as int));
            },
        }
    }
    Ok(())
}

/// The positions of a list of scores, from the highest on, and by position where scores are equal.
pub struct ScoreRanking<'a> {
    pub scores: &'a Vec<Single>,
}

impl<'a> Ranking for ScoreRanking<'a> {
    open spec fn size(&self) -> nat {
        self.scores@.len()
    }

    open spec fn before(&self, i: int, j: int) -> bool {
        let a = self.scores@[i].total_rank();
        let b = self.scores@[j].total_rank();
        a > b || (a == b && i < j)
    }

    proof fn before_total(&self, i: int, j: int) {
    }

    proof fn before_asymmetric(&self, i: int, j: int) {
    }

    proof fn before_transitive(&self, i: int, j: int, k: int) {
    }

    fn is_before(&self, i: usize, j: usize) -> (r: bool) {
        if self.scores[j].total_less(self.scores[i]) {
            return true;
        }
        !self.scores[i].total_less(self.scores[j]) && i < j
    }
}

/// Whether `order` lists entries by score, the highest first; of equal scores the earlier entry
/// goes first.
pub open spec fn by_score(scores: Seq<Single>, order: Seq<usize>) -> bool {
    &&& order.len() == scores.len()
    &&& forall|a: int| 0 <= a < order.len() ==> #[trigger] order[a] < scores.len()
    &&& forall|k: usize| k < scores.len() ==> #[trigger] order.contains(k)
    &&& forall|a: int, b: int|
        0 <= a < b < order.len() ==> {
            let x = #[trigger] order[a];
            let y = #[trigger] order[b];
            let p = scores[x as int].total_rank();
            let q = scores[y as int].total_rank();
            p > q || (p == q && x < y)
        }
}

/// Whether `hits` are the first entries in an order.
pub open spec fn hits_in_order(
    index: CandidateIndex,
    scores: Seq<Single>,
    order: Seq<usize>,
    hits: Seq<SearchHit>,
) -> bool {
    forall|a: int|
        0 <= a < hits.len() ==> {
            &&& (#[trigger] hits[a]).index == order[a]
            &&& hits[a].entry@ == index.entries@[order[a] as int]@
            &&& hits[a].score == scores[order[a] as int]
        }
}

/// Whether `hits` are the `top_k` entries with the highest scores, in that order.
pub open spec fn top_hits(
    index: CandidateIndex,
    scores: Seq<Single>,
    top_k: nat,
    hits: Seq<SearchHit>,
) -> bool {
    &&& hits.len() == if top_k < index.entries@.len() {
        top_k
    } else {
        index.entries@.len()
    }
    &&& exists|order: Seq<usize>| #[trigger]
        by_score(scores, order) && hits_in_order(index, scores, order, hits)
}

/// Searches an index. `scores` holds the score of each entry against the query.
pub fn search_index(
    index: &CandidateIndex,
    query_embedding: &Vec<Single>,
    scores: &Vec<Single>,
    top_k: usize,
) -> (r: Result<Vec<SearchHit>, RetrievalError>)
    requires
        scores@.len() == index.entries@.len(),
    ensures
        r is Ok == (index.valid() && embedding_fits(
            query_embedding@,
            index.model.embedding_dim as nat,
        )),
        r is Ok ==> top_hits(*index, scores@, top_k as nat, r->Ok_0@),
        r is Err && !index.valid() ==> index.fault(r->Err_0->0@),
        r is Err && index.valid() ==> embedding_fault(
            "query embedding"@,
            query_embedding@,
            index.model.embedding_dim as nat,
            None,
            r->Err_0->0@,
        ),
{
    match validate_candidate_index(index) {
        Err(error) => return Err(error),
        Ok(()) => {},
    }
    match validate_embedding("query embedding", query_embedding, index.model.embedding_dim, None) {
        Err(error) => return Err(error),
        Ok(()) => {},
    }
    let n: usize = index.entries.len();
    let ranking = ScoreRanking { scores };
    let ranked = order(&ranking, n);
    assert(by_score(scores@, ranked@)) by {
        assert forall|a: int, b: int| 0 <= a < b < ranked@.len() implies {
            let x = #[trigger] ranked@[a];
            let y = #[trigger] ranked@[b];
            let p = scores@[x as int].total_rank();
            let q = scores@[y as int].total_rank();
            p > q || (p == q && x < y)
        } by {
            assert(ranking.before(ranked@[a] as int, ranked@[b] as int));
        }
    }
    let count: usize = if top_k < n { top_k } else { n };
    let mut hits: Vec<SearchHit> = Vec::new();
    for a in 0..count
        invariant
            count <= n,
            n == index.entries@.len() == scores@.len() == ranked@.len(),
            by_score(scores@, ranked@),
            hits@.len() == a,
            hits_in_order(*index, scores@, ranked@, hits@),
    {
        let at: usize = ranked[a];
        let entry = index.entries[at].clone();
        let ghost before = hits@;
        hits.push(SearchHit { index: at, entry, score: scores[at] });
        assert forall|b: int| 0 <= b < hits@.len() implies {
            &&& (#[trigger] hits@[b]).index == ranked@[b]
            &&& hits@[b].entry@ == index.entries@[ranked@[b] as int]@
            &&& hits@[b].score == scores@[ranked@[b] as int]
        } by {
            if b < a {
                assert(hits@[b] == before[b]);
            }
        }
    }
    Ok(hits)
}

/// Hits come from the highest score on; of equal scores the earlier entry comes first.
pub proof fn law_hits_are_ranked(
    index: CandidateIndex,
    scores: Seq<Single>,
    top_k: nat,
    hits: Seq<SearchHit>,
    a: int,
    b: int,
)
    requires
        scores.len() == index.entries@.len(),
        top_hits(index, scores, top_k, hits),
        0 <= a < b < hits.len(),
    ensures
        hits[a].score.total_rank() >= hits[b].score.total_rank(),
        hits[a].score.total_rank() == hits[b].score.total_rank() ==> hits[a].index < hits[b].index,
        hits[a].index != hits[b].index,
{
    let order = choose|order: Seq<usize>| #[trigger]
        by_score(scores, order) && hits_in_order(index, scores, order, hits);
    assert(hits[a].index == order[a] && hits[b].index == order[b]);
}

/// No entry that was left out has a higher score than one that was found.
pub proof fn law_no_better_entry_is_left_out(
    index: CandidateIndex,
    scores: Seq<Single>,
    top_k: nat,
    hits: Seq<SearchHit>,
    a: int,
    entry: usize,
)
    requires
        scores.len() == index.entries@.len(),
        top_hits(index, scores, top_k, hits),
        0 <= a < hits.len(),
        entry < scores.len(),
        forall|b: int| 0 <= b < hits.len() ==> (#[trigger] hits[b]).index != entry,
    ensures
        scores[entry as int].total_rank() <= hits[a].score.total_rank(),
{
    let order = choose|order: Seq<usize>| #[trigger]
        by_score(scores, order) && hits_in_order(index, scores, order, hits);
    assert(order.contains(entry));
    let p = choose|p: int| 0 <= p < order.len() && order[p] == entry;
    assert(hits[a].index == order[a]);
    if p < hits.len() {
        assert(hits[p].index == order[p]);
    } else {
        assert(a < p);
        assert(order[a] != order[p]);
    }
}

/// A search that asks for all entries finds all of them.
pub proof fn law_full_search_finds_every_entry(
    index: CandidateIndex,
    scores: Seq<Single>,
    top_k: nat,
    hits: Seq<SearchHit>,
    entry: usize,
)
    requires
        scores.len() == index.entries@.len(),
        top_hits(index, scores, top_k, hits),
        top_k >= index.entries@.len(),
        entry < scores.len(),
    ensures
        exists|a: int| 0 <= a < hits.len() && (#[trigger] hits[a]).index == entry,
{
    let order = choose|order: Seq<usize>| #[trigger]
        by_score(scores, order) && hits_in_order(index, scores, order, hits);
    assert(order.contains(entry));
    let p = choose|p: int| 0 <= p < order.len() && order[p] == entry;
    assert(hits[p].index == order[p]);
}

/// Whether position `i` is the first with its text.
pub open spec fn first_with_text(texts: Seq<Seq<char>>, i: int) -> bool {
    forall|j: int| 0 <= j < i ==> #[trigger] texts[j] != texts[i]
}

/// The views of texts.
pub open spec fn text_views(texts: Seq<String>) -> Seq<Seq<char>> {
    texts.map_values(|text: String| text@)
}

/// Says of each text whether it is the first of its kind.
pub fn first_occurrences(texts: &Vec<String>) -> (r: Vec<bool>)
    ensures
        r@.len() == texts@.len(),
        forall|i: int|
            0 <= i < texts@.len() ==> #[trigger] r@[i] == first_with_text(text_views(texts@), i),
{
    let n: usize = texts.len();
    let ranking = TextRanking { texts };
    let ranked = order(&ranking, n);
    let ghost views = text_views(texts@);
    let mut r: Vec<bool> = Vec::new();
    for i in 0..n
        invariant
            n == texts@.len(),
            r@.len() == i,
    {
        r.push(true);
    }
    for a in 0..n
        invariant
            n == texts@.len() == ranked@.len() == r@.len(),
            views == text_views(texts@),
            ranking.texts == texts,
            ordered(ranking, ranked@, 0, n as int),
            forall|b: int|
                0 <= b < a ==> r@[#[trigger] ranked@[b] as int] == first_with_text(
                    views,
                    ranked@[b] as int,
                ),
    {
        let at: usize = ranked[a];
        let first: bool = a == 0 || !same_text(texts[ranked[a - 1]].as_str(), texts[at].as_str());
        proof {
            lemma_first_in_run(ranking, ranked@, a as int);
            assert forall|b: int| 0 <= b < a implies ranked@[b] != at by {
                assert(ranking.before(ranked@[b] as int, at as int));
                if ranked@[b] == at {
                    ranking.before_asymmetric(at as int, at as int);
                }
            }
        }
        r.set(at, first);
    }
    assert forall|i: int| 0 <= i < texts@.len() implies #[trigger] r@[i] == first_with_text(
        views,
        i,
    ) by {
        assert(ranked@.contains(i as usize));
        let b = choose|b: int| 0 <= b < ranked@.len() && ranked@[b] == i as usize;
        assert(r@[ranked@[b] as int] == first_with_text(views, ranked@[b] as int));
    }
    r
}

/// In the order of texts, a position is the first with its text where the one before it has
/// another text.
proof fn lemma_first_in_run(ranking: TextRanking, ranked: Seq<usize>, a: int)
    requires
        ordered(ranking, ranked, 0, ranking.size() as int),
        0 <= a < ranked.len(),
    ensures
        first_with_text(text_views(ranking.texts@), ranked[a] as int) == (a == 0
            || ranking.texts@[ranked[a - 1] as int]@ != ranking.texts@[ranked[a] as int]@),
{
    let views = text_views(ranking.texts@);
    let at = ranked[a] as int;
    if a > 0 && views[ranked[a - 1] as int] == views[at] {
        assert(ranking.before(ranked[a - 1] as int, at));
        assert(ranked[a - 1] < at);
        assert(views[ranked[a - 1] as int] == views[at]);
    } else {
        assert forall|j: int| 0 <= j < at implies #[trigger] views[j] != views[at] by {
            if views[j] == views[at] {
                assert(ranked.contains(j as usize));
                let b = choose|b: int| 0 <= b < ranked.len() && ranked[b] == j as usize;
                if b > a {
                    assert(ranking.before(at, j));
                } else if b < a - 1 {
                    let previous = ranked[a - 1] as int;
                    assert(ranking.before(j, previous));
                    assert(ranking.before(previous, at));
                    lemma_text_le_antisymmetric(views[previous], views[at]);
                }
            }
        }
    }
}

/// The first `n` candidates without those whose glyph file came before.
pub open spec fn kept_candidates(candidates: Seq<CandidateView>, n: int) -> Seq<CandidateView>
    decreases n,
{
    if n <= 0 {
        Seq::empty()
    } else {
        let before = kept_candidates(candidates, n - 1);
        if forall|j: int| 0 <= j < n - 1 ==> (#[trigger] candidates[j]).glyph_path != candidates[n - 1].glyph_path {
            before.push(candidates[n - 1])
        } else {
            before
        }
    }
}

/// The views of candidates.
pub open spec fn candidate_views(candidates: Seq<GlyphCandidate>) -> Seq<CandidateView> {
    candidates.map_values(|candidate: GlyphCandidate| candidate@)
}

/// The candidates that go into an index: of those with the same glyph file, the first.
pub fn candidates_to_index(candidates: &Vec<GlyphCandidate>) -> (r: Vec<GlyphCandidate>)
    ensures
        candidate_views(r@) == kept_candidates(
            candidate_views(candidates@),
            candidates@.len() as int,
        ),
{
    let n: usize = candidates.len();
    let ghost views = candidate_views(candidates@);
    let mut paths: Vec<String> = Vec::new();
    for i in 0..n
        invariant
            n == candidates@.len(),
            paths@.len() == i,
            forall|j: int| 0 <= j < i ==> paths@[j]@ == candidates@[j].glyph_path@,
    {
        paths.push(candidates[i].glyph_path.clone());
    }
    let firsts = first_occurrences(&paths);
    let mut r: Vec<GlyphCandidate> = Vec::new();
    for i in 0..n
        invariant
            n == candidates@.len() == firsts@.len() == paths@.len(),
            views == candidate_views(candidates@),
            forall|j: int| 0 <= j < n ==> paths@[j]@ == (#[trigger] views[j]).glyph_path,
            forall|j: int|
                0 <= j < n ==> #[trigger] firsts@[j] == first_with_text(text_views(paths@), j),
            candidate_views(r@) == kept_candidates(views, i as int),
    {
        let ghost before = r@;
        proof {
            lemma_first_path(views, text_views(paths@), i as int);
        }
        if firsts[i] {
            r.push(candidates[i].clone());
            assert(candidate_views(r@) =~= candidate_views(before).push(views[i as int]));
        }
    }
    r
}

/// Being the first with its path is being the first with its text.
proof fn lemma_first_path(views: Seq<CandidateView>, paths: Seq<Seq<char>>, i: int)
    requires
        views.len() == paths.len(),
        0 <= i < views.len(),
        forall|j: int| 0 <= j < views.len() ==> paths[j] == (#[trigger] views[j]).glyph_path,
    ensures
        first_with_text(paths, i) == (forall|j: int|
            0 <= j < i ==> (#[trigger] views[j]).glyph_path != views[i].glyph_path),
{
    if first_with_text(paths, i) {
        assert forall|j: int| 0 <= j < i implies (#[trigger] views[j]).glyph_path
            != views[i].glyph_path by {
            assert(paths[j] != paths[i]);
        }
    } else {
        let j = choose|j: int| 0 <= j < i && #[trigger] paths[j] == paths[i];
        assert(views[j].glyph_path == views[i].glyph_path);
    }
}

/// Builds an index out of candidates and their embeddings.
pub fn build_candidate_index(
    model: RetrievalModelConfig,
    candidates: Vec<GlyphCandidate>,
    embeddings: Vec<Vec<Single>>,
) -> (r: Result<CandidateIndex, RetrievalError>)
    requires
        candidates@.len() == embeddings@.len(),
    ensures
        r is Ok == (candidates@.len() > 0),
        r is Ok ==> {
            let index = r->Ok_0;
            &&& index.version == CANDIDATE_INDEX_VERSION
            &&& index.model == model
            &&& index.entries@.len() == candidates@.len()
            &&& forall|i: int|
                0 <= i < candidates@.len() ==> (#[trigger] index.entries@[i])@ == (EntryView {
                    glyph: candidates@[i]@,
                    embedding: embeddings@[i]@,
                })
        },
        r is Err ==> r->Err_0.says("candidate index would be empty"@),
{
    let n: usize = candidates.len();
    if n == 0 {
        return invalid("candidate index would be empty");
    }
    let mut entries: Vec<CandidateEntry> = Vec::new();
    for i in 0..n
        invariant
            n == candidates@.len() == embeddings@.len(),
            entries@.len() == i,
            forall|j: int|
                0 <= j < i ==> (#[trigger] entries@[j])@ == (EntryView {
                    glyph: candidates@[j]@,
                    embedding: embeddings@[j]@,
                }),
    {
        let candidate = &candidates[i];
        let embedding = embeddings[i].clone();
        assert(embedding@ =~= embeddings@[i as int]@);
        entries.push(
            CandidateEntry {
                id: candidate.id.clone(),
                codepoint: copy_text(&candidate.codepoint),
                character: copy_text(&candidate.character),
                persona: candidate.persona.clone(),
                glyph_path: candidate.glyph_path.clone(),
                embedding,
            },
        );
    }
    Ok(CandidateIndex { version: CANDIDATE_INDEX_VERSION, model, entries })
}

/// An index that was built from embeddings that fit a sound model can be searched.
pub proof fn law_built_index_is_valid(
    index: CandidateIndex,
    model: RetrievalModelConfig,
    embeddings: Seq<Vec<Single>>,
)
    requires
        index.version == CANDIDATE_INDEX_VERSION,
        index.model == model,
        model.fault() is None,
        index.entries@.len() == embeddings.len(),
        embeddings.len() > 0,
        forall|i: int|
            0 <= i < embeddings.len() ==> (#[trigger] index.entries@[i])@.embedding
                == embeddings[i]@,
        forall|i: int|
            0 <= i < embeddings.len() ==> embedding_fits(
                (#[trigger] embeddings[i])@,
                model.embedding_dim as nat,
            ),
    ensures
        index.valid(),
{
    assert forall|i: int| 0 <= i < index.entries@.len() implies #[trigger] index.entry_fits(i) by {
        assert(index.entries@[i]@.embedding == embeddings[i]@);
        assert(embedding_fits(embeddings[i]@, model.embedding_dim as nat));
    }
}

/// No glyph file is indexed twice.
pub proof fn law_indexed_glyphs_are_distinct(
    candidates: Seq<CandidateView>,
    n: int,
    a: int,
    b: int,
)
    requires
        0 <= n <= candidates.len(),
        0 <= a < b < kept_candidates(candidates, n).len(),
    ensures
        kept_candidates(candidates, n)[a].glyph_path != kept_candidates(candidates, n)[b].glyph_path,
    decreases n,
{
    if n > 0 {
        let before = kept_candidates(candidates, n - 1);
        if b < before.len() {
            law_indexed_glyphs_are_distinct(candidates, n - 1, a, b);
        } else {
            lemma_kept_come_before(candidates, n - 1, a);
        }
    }
}

/// A kept candidate is one of the candidates.
proof fn lemma_kept_come_before(candidates: Seq<CandidateView>, n: int, a: int)
    requires
        0 <= n <= candidates.len(),
        0 <= a < kept_candidates(candidates, n).len(),
    ensures
        exists|j: int| 0 <= j < n && #[trigger] candidates[j] == kept_candidates(candidates, n)[a],
    decreases n,
{
    if n > 0 {
        let before = kept_candidates(candidates, n - 1);
        if a < before.len() {
            lemma_kept_come_before(candidates, n - 1, a);
            let j = choose|j: int| 0 <= j < n - 1 && #[trigger] candidates[j] == before[a];
            assert(candidates[j] == kept_candidates(candidates, n)[a]);
        } else {
            assert(candidates[n - 1] == kept_candidates(candidates, n)[a]);
        }
    }
}

/// An index can be searched if and only if it is of the first version, its model has no dimension
/// of zero, and it has entries, all with as many finite values as the model puts out.
pub proof fn law_searchable_index(index: CandidateIndex)
    ensures
        index.valid() == {
            &&& index.version == 1
            &&& index.model.input_dim > 0
            &&& index.model.hidden_dim > 0
            &&& index.model.embedding_dim > 0
            &&& index.entries@.len() > 0
            &&& forall|i: int|
                0 <= i < index.entries@.len() ==> (#[trigger] index.entries@[i]).embedding@.len()
                    == index.model.embedding_dim
            &&& forall|i: int, k: int|
                0 <= i < index.entries@.len() && 0 <= k < index.entries@[i].embedding@.len() ==> (
                #[trigger] index.entries@[i].embedding@[k]).finite()
        },
{
    let n = index.entries@.len();
    if index.valid() {
        assert forall|i: int| 0 <= i < n implies (#[trigger] index.entries@[i]).embedding@.len()
            == index.model.embedding_dim by {
            assert(index.entry_fits(i));
        }
        assert forall|i: int, k: int|
            0 <= i < n && 0 <= k < index.entries@[i].embedding@.len() implies (
        #[trigger] index.entries@[i].embedding@[k]).finite() by {
            assert(index.entry_fits(i));
        }
    }
    if (forall|i: int|
        0 <= i < n ==> (#[trigger] index.entries@[i]).embedding@.len()
            == index.model.embedding_dim) && (forall|i: int, k: int|
        0 <= i < n && 0 <= k < index.entries@[i].embedding@.len() ==> (
        #[trigger] index.entries@[i].embedding@[k]).finite()) {
        assert forall|i: int| 0 <= i < n implies #[trigger] index.entry_fits(i) by {
            assert(index.entries@[i].embedding@.len() == index.model.embedding_dim);
            let values = index.entries@[i].embedding@;
            assert forall|k: int| 0 <= k < values.len() implies (#[trigger] values[k]).finite() by {
                assert(index.entries@[i].embedding@[k].finite());
            }
        }
    }
}

/// A hit is the entry at its place in the index, with all that the entry holds, and has the score
/// of that entry. There are as many hits as were asked for, or as many as there are entries.
pub proof fn law_hits_are_their_entries(
    index: CandidateIndex,
    scores: Seq<Single>,
    top_k: nat,
    hits: Seq<SearchHit>,
    a: int,
)
    requires
        scores.len() == index.entries@.len(),
        top_hits(index, scores, top_k, hits),
        0 <= a < hits.len(),
    ensures
        hits.len() == top_k || (hits.len() == scores.len() && scores.len() < top_k),
        hits.len() <= scores.len(),
        hits[a].index < scores.len(),
        ({
            let hit = hits[a];
            let entry = index.entries@[hit.index as int];
            &&& hit.score == scores[hit.index as int]
            &&& hit.entry.id@ == entry.id@
            &&& text_view(hit.entry.codepoint) == text_view(entry.codepoint)
            &&& text_view(hit.entry.character) == text_view(entry.character)
            &&& hit.entry.persona@ == entry.persona@
            &&& hit.entry.glyph_path@ == entry.glyph_path@
            &&& hit.entry.embedding@ == entry.embedding@
        }),
{
    let order = choose|order: Seq<usize>| #[trigger]
        by_score(scores, order) && hits_in_order(index, scores, order, hits);
    assert(hits[a].index == order[a]);
    assert(hits[a].entry@ == index.entries@[order[a] as int]@);
    assert(hits[a].entry@.glyph == index.entries@[order[a] as int]@.glyph);
}

/// An entry that was made of a candidate and its embedding holds both.
pub proof fn law_entry_holds_its_candidate(
    entry: CandidateEntry,
    candidate: GlyphCandidate,
    embedding: Seq<Single>,
)
    requires
        entry@ == (EntryView { glyph: candidate@, embedding }),
    ensures
        entry.id@ == candidate.id@,
        text_view(entry.codepoint) == text_view(candidate.codepoint),
        text_view(entry.character) == text_view(candidate.character),
        entry.persona@ == candidate.persona@,
        entry.glyph_path@ == candidate.glyph_path@,
        entry.embedding@ == embedding,
{
    assert(entry@.glyph == candidate@);
}

/// The candidates that go into an index are those that are the first with their glyph file, in
/// their order.
pub proof fn law_first_glyph_of_a_file_is_kept(candidates: Seq<CandidateView>, n: int) -> (from: Seq<
    int,
>)
    requires
        0 <= n <= candidates.len(),
    ensures
        from.len() == kept_candidates(candidates, n).len(),
        forall|k: int|
            0 <= k < from.len() ==> 0 <= #[trigger] from[k] < n && kept_candidates(candidates, n)[k]
                == candidates[from[k]],
        forall|k: int, l: int| 0 <= k < l < from.len() ==> #[trigger] from[k] < #[trigger] from[l],
        forall|i: int|
            0 <= i < n ==> #[trigger] from.contains(i) == (forall|j: int|
                0 <= j < i ==> (#[trigger] candidates[j]).glyph_path != candidates[i].glyph_path),
    decreases n,
{
    if n == 0 {
        Seq::empty()
    } else {
        let before = law_first_glyph_of_a_file_is_kept(candidates, n - 1);
        let first = forall|j: int|
            0 <= j < n - 1 ==> (#[trigger] candidates[j]).glyph_path != candidates[n
                - 1].glyph_path;
        if first {
            let from = before.push(n - 1);
            assert forall|k: int| 0 <= k < from.len() implies 0 <= #[trigger] from[k] < n
                && kept_candidates(candidates, n)[k] == candidates[from[k]] by {
                if k < before.len() {
                    assert(from[k] == before[k]);
                }
            }
            assert forall|k: int, l: int| 0 <= k < l < from.len() implies #[trigger] from[k]
                < #[trigger] from[l] by {
                assert(from[k] == before[k]);
                if l < before.len() {
                    assert(from[l] == before[l]);
                }
            }
            assert forall|i: int| 0 <= i < n implies #[trigger] from.contains(i) == (forall|j: int|
                0 <= j < i ==> (#[trigger] candidates[j]).glyph_path != candidates[i].glyph_path) by {
                if i < n - 1 {
                    assert(before.contains(i) == from.contains(i)) by {
                        if before.contains(i) {
                            let k = choose|k: int| 0 <= k < before.len() && before[k] == i;
                            assert(from[k] == i);
                        }
                        if from.contains(i) {
                            let k = choose|k: int| 0 <= k < from.len() && from[k] == i;
                            assert(before[k] == i);
                        }
                    }
                } else {
                    assert(from[before.len() as int] == i);
                }
            }
            from
        } else {
            assert(!before.contains(n - 1)) by {
                if before.contains(n - 1) {
                    let k = choose|k: int| 0 <= k < before.len() && before[k] == n - 1;
                    assert(before[k] < n - 1);
                }
            }
            before
        }
    }
}

/// An entry that was left out has a lower score than every hit, or the same score and a later
/// place.
pub proof fn law_of_equal_scores_the_earlier_entry_is_found(
    index: CandidateIndex,
    scores: Seq<Single>,
    top_k: nat,
    hits: Seq<SearchHit>,
    a: int,
    entry: usize,
)
    requires
        scores.len() == index.entries@.len(),
        top_hits(index, scores, top_k, hits),
        0 <= a < hits.len(),
        entry < scores.len(),
        forall|b: int| 0 <= b < hits.len() ==> (#[trigger] hits[b]).index != entry,
    ensures
        scores[entry as int].total_rank() < hits[a].score.total_rank() || (
        scores[entry as int].total_rank() == hits[a].score.total_rank() && hits[a].index < entry),
{
    let order = choose|order: Seq<usize>| #[trigger]
        by_score(scores, order) && hits_in_order(index, scores, order, hits);
    assert(order.contains(entry));
    let p = choose|p: int| 0 <= p < order.len() && order[p] == entry;
    assert(hits[a].index == order[a]);
    if p < hits.len() {
        assert(hits[p].index == order[p]);
    } else {
        assert(a < p);
    }
}

} // verus!
