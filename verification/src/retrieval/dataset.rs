//! Pairs of pose images and glyphs, as they lie in the directories of personas.

use vstd::prelude::*;

use crate::error::{invalid, RetrievalError};
use crate::names::{extension, has_extension_like, is_png, stem, stem_of};
use crate::retrieval::glyph_id::{character_in, codepoint_in, parse_glyph_id, text_view};
use crate::sorting::{order, Ranking, TextRanking};
use crate::text::{
    ascii_lowered, has_prefix, lemma_text_le_antisymmetric, lemma_text_le_reflexive,
    lemma_text_le_transitive, same_text, strip_prefix, text_le,
};

verus! {

/// A pose image and the glyph that belongs to it.
#[derive(Debug)]
pub struct RetrievalPair {
    pub id: String,
    pub codepoint: Option<String>,
    pub character: Option<String>,
    pub persona: String,
    pub image_path: String,
    pub glyph_path: String,
}

/// What a pair holds.
pub struct PairView {
    pub id: Seq<char>,
    pub codepoint: Option<Seq<char>>,
    pub character: Option<Seq<char>>,
    pub persona: Seq<char>,
    pub image_path: Seq<char>,
    pub glyph_path: Seq<char>,
}

impl View for RetrievalPair {
    type V = PairView;

    open spec fn view(&self) -> PairView {
        PairView {
            id: self.id@,
            codepoint: text_view(self.codepoint),
            character: text_view(self.character),
            persona: self.persona@,
            image_path: self.image_path@,
            glyph_path: self.glyph_path@,
        }
    }
}

/// A copy of an optional text.
pub fn copy_text(text: &Option<String>) -> (r: Option<String>)
    ensures
        text_view(r) == text_view(*text),
        r is Some == *text is Some,
        r is Some ==> r->0@ == (*text)->0@,
{
    match text {
        Some(text) => Some(text.clone()),
        None => None,
    }
}

impl Clone for RetrievalPair {
    fn clone(&self) -> (r: RetrievalPair)
        ensures
            r@ == self@,
            r.id@ == self.id@,
            r.codepoint is Some == self.codepoint is Some,
            r.codepoint is Some ==> r.codepoint->0@ == self.codepoint->0@,
            r.character is Some == self.character is Some,
            r.character is Some ==> r.character->0@ == self.character->0@,
            r.persona@ == self.persona@,
            r.image_path@ == self.image_path@,
            r.glyph_path@ == self.glyph_path@,
    {
        RetrievalPair {
            id: self.id.clone(),
            codepoint: copy_text(&self.codepoint),
            character: copy_text(&self.character),
            persona: self.persona.clone(),
            image_path: self.image_path.clone(),
            glyph_path: self.glyph_path.clone(),
        }
    }
}

/// The views of a list of pairs.
pub open spec fn pair_views(pairs: Seq<RetrievalPair>) -> Seq<PairView> {
    pairs.map_values(|pair: RetrievalPair| pair@)
}

/// A glyph that can be found.
#[derive(Debug)]
pub struct GlyphCandidate {
    pub id: String,
    pub codepoint: Option<String>,
    pub character: Option<String>,
    pub persona: String,
    pub glyph_path: String,
}

/// What a candidate holds.
pub struct CandidateView {
    pub id: Seq<char>,
    pub codepoint: Option<Seq<char>>,
    pub character: Option<Seq<char>>,
    pub persona: Seq<char>,
    pub glyph_path: Seq<char>,
}

impl View for GlyphCandidate {
    type V = CandidateView;

    open spec fn view(&self) -> CandidateView {
        CandidateView {
            id: self.id@,
            codepoint: text_view(self.codepoint),
            character: text_view(self.character),
            persona: self.persona@,
            glyph_path: self.glyph_path@,
        }
    }
}

/// The candidate of a pair.
pub open spec fn candidate_of(pair: PairView) -> CandidateView {
    CandidateView {
        id: pair.id,
        codepoint: pair.codepoint,
        character: pair.character,
        persona: pair.persona,
        glyph_path: pair.glyph_path,
    }
}

impl GlyphCandidate {
    /// The candidate of a pair.
    pub fn from_pair(pair: &RetrievalPair) -> (r: GlyphCandidate)
        ensures
            r@ == candidate_of(pair@),
            r.id@ == pair.id@,
            r.codepoint is Some == pair.codepoint is Some,
            r.codepoint is Some ==> r.codepoint->0@ == pair.codepoint->0@,
            r.character is Some == pair.character is Some,
            r.character is Some ==> r.character->0@ == pair.character->0@,
            r.persona@ == pair.persona@,
            r.glyph_path@ == pair.glyph_path@,
    {
        GlyphCandidate {
            id: pair.id.clone(),
            codepoint: copy_text(&pair.codepoint),
            character: copy_text(&pair.character),
            persona: pair.persona.clone(),
            glyph_path: pair.glyph_path.clone(),
        }
    }
}

impl Clone for GlyphCandidate {
    fn clone(&self) -> (r: GlyphCandidate)
        ensures
            r@ == self@,
            r.id@ == self.id@,
            r.codepoint is Some == self.codepoint is Some,
            r.codepoint is Some ==> r.codepoint->0@ == self.codepoint->0@,
            r.character is Some == self.character is Some,
            r.character is Some ==> r.character->0@ == self.character->0@,
            r.persona@ == self.persona@,
            r.glyph_path@ == self.glyph_path@,
    {
        GlyphCandidate {
            id: self.id.clone(),
            codepoint: copy_text(&self.codepoint),
            character: copy_text(&self.character),
            persona: self.persona.clone(),
            glyph_path: self.glyph_path.clone(),
        }
    }
}

/// A file in the image directory of a persona: its name, the path to it, and whether there is a
/// glyph of the same name, with the path to that.
#[derive(Debug)]
pub struct ImageFile {
    pub file_name: String,
    pub image_path: String,
    pub glyph_path: String,
    pub has_glyph: bool,
}

/// A directory in the data root: its name, whether it has an image and a glyph directory, and the
/// files in its image directory.
#[derive(Debug)]
pub struct PersonaListing {
    pub name: String,
    pub has_images: bool,
    pub has_glyphs: bool,
    pub files: Vec<ImageFile>,
}

/// The pair that an image file makes.
pub open spec fn pair_of(persona: Seq<char>, file: ImageFile) -> PairView {
    let id = stem(file.file_name@);
    PairView {
        id,
        codepoint: codepoint_in(id),
        character: character_in(id),
        persona,
        image_path: file.image_path@,
        glyph_path: file.glyph_path@,
    }
}

/// Whether an image file makes a pair: a PNG image with a glyph of the same name.
pub open spec fn makes_pair(file: ImageFile) -> bool {
    has_extension_like(file.file_name@, "png"@) && file.has_glyph
}

/// The pairs that files make, in the given order.
pub open spec fn pairs_in_order(persona: Seq<char>, files: Seq<ImageFile>, order: Seq<usize>) -> Seq<
    PairView,
>
    decreases order.len(),
{
    if order.len() == 0 {
        Seq::empty()
    } else {
        let before = pairs_in_order(persona, files, order.drop_last());
        let file = files[order.last() as int];
        if makes_pair(file) {
            before.push(pair_of(persona, file))
        } else {
            before
        }
    }
}

/// Whether `order` lists positions by the names at them, and by position where names are equal.
pub open spec fn by_name(names: Seq<Seq<char>>, order: Seq<usize>) -> bool {
    &&& order.len() == names.len()
    &&& forall|a: int| 0 <= a < order.len() ==> #[trigger] order[a] < names.len()
    &&& forall|k: usize| k < names.len() ==> #[trigger] order.contains(k)
    &&& forall|a: int, b: int|
        0 <= a < b < order.len() ==> {
            let x = #[trigger] order[a];
            let y = #[trigger] order[b];
            text_le(names[x as int], names[y as int]) && (names[x as int] != names[y as int] || x
                < y)
        }
}

/// The names of files.
pub open spec fn file_names(files: Seq<ImageFile>) -> Seq<Seq<char>> {
    files.map_values(|file: ImageFile| file.file_name@)
}

/// The names of personas.
pub open spec fn persona_names(personas: Seq<PersonaListing>) -> Seq<Seq<char>> {
    personas.map_values(|persona: PersonaListing| persona.name@)
}

/// Whether a directory name is that of a persona.
pub open spec fn names_persona(name: Seq<char>) -> bool {
    has_prefix(name, "persona_"@)
}

/// Whether a directory name is that of a persona.
pub fn is_persona(name: &str) -> (r: bool)
    ensures
        r == names_persona(name@),
        r == "persona_"@.is_prefix_of(name@),
{
    strip_prefix(name, "persona_").is_some()
}

/// Whether `pairs` are those of a persona: none where it is no persona directory or lacks images
/// or glyphs, otherwise those of its files by name.
pub open spec fn pairs_of_persona(persona: PersonaListing, pairs: Seq<PairView>) -> bool {
    if names_persona(persona.name@) && persona.has_images && persona.has_glyphs {
        exists|order: Seq<usize>| #[trigger]
            by_name(file_names(persona.files@), order) && pairs == pairs_in_order(
                persona.name@,
                persona.files@,
                order,
            )
    } else {
        pairs.len() == 0
    }
}

/// Whether `pairs` are those of the personas, in the given order.
pub open spec fn pairs_of_personas(
    personas: Seq<PersonaListing>,
    order: Seq<usize>,
    pairs: Seq<PairView>,
) -> bool
    decreases order.len(),
{
    if order.len() == 0 {
        pairs.len() == 0
    } else {
        exists|n: int|
            0 <= n <= pairs.len() && pairs_of_personas(
                personas,
                order.drop_last(),
                #[trigger] pairs.take(n),
            ) && pairs_of_persona(personas[order.last() as int], pairs.skip(n))
    }
}

/// Whether `pairs` are those of a data root: persona by persona and file by file, in the order of
/// their names.
pub open spec fn pairs_of_listing(personas: Seq<PersonaListing>, pairs: Seq<PairView>) -> bool {
    exists|order: Seq<usize>| #[trigger]
        by_name(persona_names(personas), order) && pairs_of_personas(personas, order, pairs)
}

/// Lists positions by name.
fn order_by_name(names: &Vec<String>) -> (r: Vec<usize>)
    ensures
        by_name(names@.map_values(|name: String| name@), r@),
{
    let n: usize = names.len();
    let ranking = TextRanking { texts: names };
    let r = order(&ranking, n);
    let ghost views = names@.map_values(|name: String| name@);
    assert forall|a: int, b: int| 0 <= a < b < r@.len() implies {
        let x = #[trigger] r@[a];
        let y = #[trigger] r@[b];
        text_le(views[x as int], views[y as int]) && (views[x as int] != views[y as int] || x < y)
    } by {
        assert(ranking.before(r@[a] as int, r@[b] as int));
    }
    r
}

/// The pairs that the files of a persona make.
fn persona_pairs(persona: &PersonaListing) -> (r: Vec<RetrievalPair>)
    ensures
        pairs_of_persona(*persona, pair_views(r@)),
{
    let mut pairs: Vec<RetrievalPair> = Vec::new();
    if !is_persona(persona.name.as_str()) || !persona.has_images || !persona.has_glyphs {
        return pairs;
    }
    let n: usize = persona.files.len();
    let mut names: Vec<String> = Vec::new();
    for i in 0..n
        invariant
            n == persona.files@.len(),
            names@.len() == i,
            forall|j: int| 0 <= j < i ==> names@[j]@ == persona.files@[j].file_name@,
    {
        names.push(persona.files[i].file_name.clone());
    }
    let order = order_by_name(&names);
    proof {
        assert(names@.map_values(|name: String| name@) =~= file_names(persona.files@));
        assert(order@.take(0) =~= Seq::<usize>::empty());
    }
    for a in 0..n
        invariant
            n == persona.files@.len() == order@.len(),
            by_name(file_names(persona.files@), order@),
            pair_views(pairs@) == pairs_in_order(
                persona.name@,
                persona.files@,
                order@.take(a as int),
            ),
    {
        let ghost before = pairs@;
        assert(order@.take(a + 1).drop_last() =~= order@.take(a as int));
        let file = &persona.files[order[a]];
        if is_png(file.file_name.as_str()) && file.has_glyph {
            let id = stem_of(file.file_name.as_str());
            let metadata = parse_glyph_id(id.as_str());
            pairs.push(
                RetrievalPair {
                    id,
                    codepoint: metadata.codepoint,
                    character: metadata.character,
                    persona: persona.name.clone(),
                    image_path: file.image_path.clone(),
                    glyph_path: file.glyph_path.clone(),
                },
            );
            assert(pair_views(pairs@) =~= pair_views(before).push(pair_of(persona.name@, *file)));
        }
    }
    assert(order@.take(n as int) =~= order@);
    pairs
}

/// The pairs of a data root.
#[derive(Debug)]
pub struct RetrievalPairDataset {
    pairs: Vec<RetrievalPair>,
}

impl View for RetrievalPairDataset {
    type V = Seq<RetrievalPair>;

    closed spec fn view(&self) -> Seq<RetrievalPair> {
        self.pairs@
    }
}

/// Whether position `i` is the first with its id.
pub open spec fn first_with_id(pairs: Seq<RetrievalPair>, i: int) -> bool {
    &&& 0 <= i < pairs.len()
    &&& forall|j: int| 0 <= j < i ==> (#[trigger] pairs[j]).id@ != pairs[i].id@
}

/// Whether a candidate is that of the first pair with an id.
pub open spec fn is_of_first(pairs: Seq<RetrievalPair>, candidate: CandidateView) -> bool {
    exists|i: int| #[trigger]
        first_with_id(pairs, i) && candidate == candidate_of(pairs[i]@)
}

/// Whether the candidate of a pair is among `candidates`.
pub open spec fn has_candidate_of(candidates: Seq<GlyphCandidate>, pair: PairView) -> bool {
    exists|a: int|
        0 <= a < candidates.len() && (#[trigger] candidates[a])@ == candidate_of(pair)
}

/// Whether `candidates` are one candidate per id, from the first pair with that id, in the order
/// of the ids.
pub open spec fn unique_candidates(pairs: Seq<RetrievalPair>, candidates: Seq<GlyphCandidate>) -> bool {
    &&& forall|a: int, b: int|
        0 <= a < b < candidates.len() ==> {
            &&& text_le((#[trigger] candidates[a]).id@, (#[trigger] candidates[b]).id@)
            &&& candidates[a].id@ != candidates[b].id@
        }
    &&& forall|a: int|
        0 <= a < candidates.len() ==> #[trigger] is_of_first(pairs, candidates[a]@)
    &&& forall|i: int|
        first_with_id(pairs, i) ==> #[trigger] has_candidate_of(candidates, pairs[i]@)
}

impl RetrievalPairDataset {
    /// Makes the dataset of a data root out of what lies in it. `shown_root` is how the root is
    /// shown.
    pub fn from_data_root(shown_root: &str, personas: &Vec<PersonaListing>) -> (r: Result<
        RetrievalPairDataset,
        RetrievalError,
    >)
        ensures
            r is Ok ==> r->Ok_0@.len() > 0 && pairs_of_listing(
                personas@,
                pair_views(r->Ok_0@),
            ),
            r is Err ==> pairs_of_listing(personas@, Seq::empty()) && r->Err_0.says(
                "no image/glyph pairs found under "@ + shown_root@,
            ),
    {
        let n: usize = personas.len();
        let mut names: Vec<String> = Vec::new();
        for i in 0..n
            invariant
                n == personas@.len(),
                names@.len() == i,
                forall|j: int| 0 <= j < i ==> names@[j]@ == personas@[j].name@,
        {
            names.push(personas[i].name.clone());
        }
        let order = order_by_name(&names);
        let mut pairs: Vec<RetrievalPair> = Vec::new();
        proof {
            assert(names@.map_values(|name: String| name@) =~= persona_names(personas@));
            assert(order@.take(0) =~= Seq::<usize>::empty());
        }
        for a in 0..n
            invariant
                n == personas@.len() == order@.len(),
                by_name(persona_names(personas@), order@),
                pairs_of_personas(personas@, order@.take(a as int), pair_views(pairs@)),
        {
            let ghost before = pair_views(pairs@);
            assert(order@.take(a + 1).drop_last() =~= order@.take(a as int));
            let mut added = persona_pairs(&personas[order[a]]);
            let ghost added_views = pair_views(added@);
            pairs.append(&mut added);
            proof {
                let after = pair_views(pairs@);
                assert(after =~= before + added_views);
                assert(after.take(before.len() as int) =~= before);
                assert(after.skip(before.len() as int) =~= added_views);
                assert(pairs_of_personas(
                    personas@,
                    order@.take(a + 1).drop_last(),
                    after.take(before.len() as int),
                ));
            }
        }
        assert(order@.take(n as int) =~= order@);
        if pairs.len() == 0 {
            assert(pair_views(pairs@) =~= Seq::<PairView>::empty());
            let mut words = "no image/glyph pairs found under ".to_owned();
            words.append(shown_root);
            return invalid(words.as_str());
        }
        Ok(RetrievalPairDataset { pairs })
    }

    pub fn len(&self) -> (r: usize)
        ensures
            r == self@.len(),
    {
        self.pairs.len()
    }

    pub fn is_empty(&self) -> (r: bool)
        ensures
            r == (self@.len() == 0),
    {
        self.pairs.len() == 0
    }

    pub fn pairs(&self) -> (r: &Vec<RetrievalPair>)
        ensures
            r@ == self@,
    {
        &self.pairs
    }

    /// The first `max_pairs` pairs, or all of them.
    pub fn limited_pairs(&self, max_pairs: Option<usize>) -> (r: Vec<RetrievalPair>)
        ensures
            pair_views(r@) == match max_pairs {
                Some(max_pairs) => if max_pairs < self@.len() {
                    pair_views(self@.take(max_pairs as int))
                } else {
                    pair_views(self@)
                },
                None => pair_views(self@),
            },
    {
        let total: usize = self.pairs.len();
        let n: usize = match max_pairs {
            Some(max_pairs) => if max_pairs < total {
                max_pairs
            } else {
                total
            },
            None => total,
        };
        let mut r: Vec<RetrievalPair> = Vec::new();
        for i in 0..n
            invariant
                n <= self.pairs@.len(),
                r@.len() == i,
                forall|j: int| 0 <= j < i ==> (#[trigger] r@[j])@ == self.pairs@[j]@,
        {
            r.push(self.pairs[i].clone());
        }
        assert(pair_views(r@) =~= pair_views(self@.take(n as int)));
        assert(self@.take(total as int) =~= self@);
        r
    }

    /// The candidates of the pairs: one per pair, or one per id.
    pub fn glyph_candidates(&self, unique_by_id: bool) -> (r: Vec<GlyphCandidate>)
        ensures
            !unique_by_id ==> r@.len() == self@.len() && forall|i: int|
                0 <= i < r@.len() ==> (#[trigger] r@[i])@ == candidate_of(self@[i]@),
            unique_by_id ==> unique_candidates(self@, r@),
    {
        let n: usize = self.pairs.len();
        let mut r: Vec<GlyphCandidate> = Vec::new();
        if !unique_by_id {
            for i in 0..n
                invariant
                    n == self.pairs@.len(),
                    r@.len() == i,
                    forall|j: int|
                        0 <= j < i ==> (#[trigger] r@[j])@ == candidate_of(self.pairs@[j]@),
            {
                r.push(GlyphCandidate::from_pair(&self.pairs[i]));
            }
            return r;
        }
        let mut ids: Vec<String> = Vec::new();
        for i in 0..n
            invariant
                n == self.pairs@.len(),
                ids@.len() == i,
                forall|j: int| 0 <= j < i ==> ids@[j]@ == self.pairs@[j].id@,
        {
            ids.push(self.pairs[i].id.clone());
        }
        let order = order_by_name(&ids);
        let ghost names = ids@.map_values(|name: String| name@);
        let ghost pairs = self.pairs@;
        for a in 0..n
            invariant
                n == self.pairs@.len() == order@.len() == ids@.len(),
                pairs == self.pairs@,
                names == ids@.map_values(|name: String| name@),
                forall|j: int| 0 <= j < n ==> ids@[j]@ == pairs[j].id@,
                by_name(names, order@),
                forall|c: int, d: int|
                    0 <= c < d < r@.len() ==> {
                        &&& text_le((#[trigger] r@[c]).id@, (#[trigger] r@[d]).id@)
                        &&& r@[c].id@ != r@[d].id@
                    },
                forall|c: int| 0 <= c < r@.len() ==> #[trigger] is_of_first(pairs, r@[c]@),
                forall|b: int|
                    0 <= b < a ==> exists|c: int|
                        0 <= c < r@.len() && (#[trigger] r@[c]).id@ == names[#[trigger] order@[b] as int],
                forall|b: int|
                    0 <= b < a && #[trigger] first_with_id(pairs, order@[b] as int)
                        ==> has_candidate_of(r@, pairs[order@[b] as int]@),
                r@.len() > 0 ==> a > 0 && r@.last().id@ == names[order@[a - 1] as int],
                a > 0 ==> r@.len() > 0,
        {
            let at: usize = order[a];
            let ghost before = r@;
            let known: bool = a > 0 && same_text(ids[order[a - 1]].as_str(), ids[at].as_str());
            if known {
                proof {
                    assert(!first_with_id(pairs, at as int)) by {
                        let x = order@[a - 1];
                        let y = order@[a as int];
                        assert(names[x as int] == names[y as int] && x < y);
                        assert(pairs[x as int].id@ == pairs[y as int].id@);
                    }
                    let c = r@.len() - 1;
                    assert(r@[c].id@ == names[order@[a as int] as int]);
                }
            } else {
                r.push(GlyphCandidate::from_pair(&self.pairs[at]));
                proof {
                    lemma_new_id_is_first(pairs, names, order@, a as int);
                    assert(first_with_id(pairs, at as int));
                    let last = before.len() as int;
                    assert(r@[last]@ == candidate_of(pairs[at as int]@));
                    assert(r@[last].id@ == names[at as int]);
                    assert forall|c: int| 0 <= c < r@.len() implies #[trigger] is_of_first(
                        pairs,
                        r@[c]@,
                    ) by {
                        if c < last {
                            assert(is_of_first(pairs, before[c]@));
                        }
                    }
                    assert forall|c: int| 0 <= c < last implies text_le(
                        (#[trigger] r@[c]).id@,
                        names[at as int],
                    ) && r@[c].id@ != names[at as int] by {
                        assert(before[c] == r@[c]);
                        let previous = names[order@[a - 1] as int];
                        assert(before.last().id@ == previous);
                        assert(text_le(previous, names[at as int]) && previous != names[at as int]);
                        if c < last - 1 {
                            assert(text_le(before[c].id@, before[last - 1].id@));
                            lemma_text_le_transitive(
                                before[c].id@,
                                previous,
                                names[at as int],
                            );
                            if before[c].id@ == names[at as int] {
                                lemma_text_le_antisymmetric(
                                    previous,
                                    names[at as int],
                                );
                            }
                        }
                    }
                    assert forall|b: int| 0 <= b < a + 1 implies exists|c: int|
                        0 <= c < r@.len() && (#[trigger] r@[c]).id@ == names[#[trigger] order@[b] as int] by {
                        if b < a {
                            let c = choose|c: int|
                                0 <= c < before.len() && (#[trigger] before[c]).id@
                                    == names[order@[b] as int];
                            assert(r@[c] == before[c]);
                        } else {
                            assert(r@[last].id@ == names[order@[b] as int]);
                        }
                    }
                    assert forall|b: int|
                        0 <= b < a + 1 && #[trigger] first_with_id(
                            pairs,
                            order@[b] as int,
                        ) implies has_candidate_of(r@, pairs[order@[b] as int]@) by {
                        if b < a {
                            let c = choose|c: int|
                                0 <= c < before.len() && (#[trigger] before[c])@ == candidate_of(
                                    pairs[order@[b] as int]@,
                                );
                            assert(r@[c] == before[c]);
                        } else {
                            assert(r@[last]@ == candidate_of(pairs[order@[b] as int]@));
                        }
                    }
                }
            }
        }
        assert forall|i: int| first_with_id(pairs, i) implies #[trigger] has_candidate_of(
            r@,
            pairs[i]@,
        ) by {
            assert(order@.contains(i as usize));
            let b = choose|b: int| 0 <= b < order@.len() && order@[b] == i as usize;
            assert(first_with_id(pairs, order@[b] as int));
        }
        r
    }
}

/// In the order of ids, a position whose id was not at the place before is the first with its id.
proof fn lemma_new_id_is_first(
    pairs: Seq<RetrievalPair>,
    names: Seq<Seq<char>>,
    order: Seq<usize>,
    a: int,
)
    requires
        0 <= a < order.len(),
        by_name(names, order),
        names.len() == pairs.len(),
        forall|j: int| 0 <= j < pairs.len() ==> names[j] == (#[trigger] pairs[j]).id@,
        a > 0 ==> names[order[a - 1] as int] != names[order[a] as int],
    ensures
        first_with_id(pairs, order[a] as int),
{
    let at = order[a] as int;
    assert forall|j: int| 0 <= j < at implies (#[trigger] pairs[j]).id@ != pairs[at].id@ by {
        if pairs[j].id@ == pairs[at].id@ {
            assert(order.contains(j as usize));
            let b = choose|b: int| 0 <= b < order.len() && order[b] == j as usize;
            assert(names[j] == names[at]);
            if b > a {
                assert(names[order[a] as int] != names[order[b] as int] || order[a] < order[b]);
            } else if b < a - 1 {
                let previous = names[order[a - 1] as int];
                assert(text_le(names[order[b] as int], previous));
                assert(text_le(previous, names[order[a] as int]));
                lemma_text_le_antisymmetric(previous, names[at]);
            }
        }
    }
}

/// Candidates that are unique by id are in strict order of their ids, so no id occurs twice, and
/// every id of the dataset occurs.
pub proof fn law_unique_candidates_cover_ids(
    pairs: Seq<RetrievalPair>,
    candidates: Seq<GlyphCandidate>,
    i: int,
)
    requires
        unique_candidates(pairs, candidates),
        0 <= i < pairs.len(),
    ensures
        exists|a: int| 0 <= a < candidates.len() && (#[trigger] candidates[a]).id@ == pairs[i].id@,
        forall|a: int, b: int|
            0 <= a < candidates.len() && 0 <= b < candidates.len() && a != b ==> (
            #[trigger] candidates[a]).id@ != (#[trigger] candidates[b]).id@,
    decreases i,
{
    if first_with_id(pairs, i) {
        assert(has_candidate_of(candidates, pairs[i]@));
        let a = choose|a: int|
            0 <= a < candidates.len() && (#[trigger] candidates[a])@ == candidate_of(pairs[i]@);
        assert(candidates[a]@.id == pairs[i].id@);
    } else {
        let j = choose|j: int| 0 <= j < i && (#[trigger] pairs[j]).id@ == pairs[i].id@;
        law_unique_candidates_cover_ids(pairs, candidates, j);
    }
}

/// Whether a file gives a pair: it lies in a directory whose name starts with `persona_` and that
/// has images and glyphs, its extension is `png` in small or capital letters, and there is a glyph
/// for it.
pub open spec fn gives_pair(persona: PersonaListing, file: ImageFile) -> bool {
    &&& has_prefix(persona.name@, "persona_"@)
    &&& persona.has_images
    &&& persona.has_glyphs
    &&& extension(file.file_name@) is Some
    &&& ascii_lowered(extension(file.file_name@)->0) == "png"@
    &&& file.has_glyph
}

/// Whether a pair is that of a file: the image and the glyph of the file, under its name without
/// the extension, with what that name says about the character, and the name of the persona.
pub open spec fn pair_is_of(pair: RetrievalPair, persona: PersonaListing, file: ImageFile) -> bool {
    &&& pair.id@ == stem(file.file_name@)
    &&& text_view(pair.codepoint) == codepoint_in(stem(file.file_name@))
    &&& text_view(pair.character) == character_in(stem(file.file_name@))
    &&& pair.persona@ == persona.name@
    &&& pair.image_path@ == file.image_path@
    &&& pair.glyph_path@ == file.glyph_path@
}

/// Whether the pairs are those of the files at the places `from`, each given as the persona and
/// the file in it: one pair for each file that gives one and no others, by the names of the
/// personas and then by the names of the files.
pub open spec fn pairs_at(
    personas: Seq<PersonaListing>,
    pairs: Seq<RetrievalPair>,
    from: Seq<(int, int)>,
) -> bool {
    &&& from.len() == pairs.len()
    &&& forall|k: int|
        0 <= k < from.len() ==> {
            let (p, f) = #[trigger] from[k];
            &&& 0 <= p < personas.len()
            &&& 0 <= f < personas[p].files@.len()
            &&& gives_pair(personas[p], personas[p].files@[f])
            &&& pair_is_of(pairs[k], personas[p], personas[p].files@[f])
        }
    &&& forall|p: int, f: int|
        0 <= p < personas.len() && 0 <= f < personas[p].files@.len() && gives_pair(
            personas[p],
            #[trigger] personas[p].files@[f],
        ) ==> from.contains((p, f))
    &&& forall|k: int, l: int|
        0 <= k < l < from.len() ==> {
            let (p, f) = #[trigger] from[k];
            let (q, g) = #[trigger] from[l];
            &&& (p, f) != (q, g)
            &&& text_le(personas[p].name@, personas[q].name@)
            &&& p == q ==> text_le(
                personas[p].files@[f].file_name@,
                personas[p].files@[g].file_name@,
            )
        }
}

/// The places in an order of the files that make a pair.
spec fn places_of(files: Seq<ImageFile>, order: Seq<usize>) -> Seq<int>
    decreases order.len(),
{
    if order.len() == 0 {
        Seq::empty()
    } else {
        let before = places_of(files, order.drop_last());
        if makes_pair(files[order.last() as int]) {
            before.push(order.len() - 1)
        } else {
            before
        }
    }
}

/// The places of the files that make a pair run upwards, none is left out, and they give the
/// pairs.
proof fn lemma_places(persona: Seq<char>, files: Seq<ImageFile>, order: Seq<usize>)
    ensures
        ({
            let places = places_of(files, order);
            let pairs = pairs_in_order(persona, files, order);
            &&& places.len() == pairs.len()
            &&& forall|k: int|
                0 <= k < places.len() ==> {
                    &&& 0 <= #[trigger] places[k] < order.len()
                    &&& makes_pair(files[order[places[k]] as int])
                    &&& pairs[k] == pair_of(persona, files[order[places[k]] as int])
                }
            &&& forall|k: int, l: int|
                0 <= k < l < places.len() ==> #[trigger] places[k] < #[trigger] places[l]
            &&& forall|a: int|
                0 <= a < order.len() && makes_pair(files[#[trigger] order[a] as int])
                    ==> places.contains(a)
        }),
    decreases order.len(),
{
    if order.len() > 0 {
        let rest = order.drop_last();
        lemma_places(persona, files, rest);
        let before = places_of(files, rest);
        let places = places_of(files, order);
        let pairs = pairs_in_order(persona, files, order);
        let last = order.len() - 1;
        assert forall|k: int| 0 <= k < places.len() implies {
            &&& 0 <= #[trigger] places[k] < order.len()
            &&& makes_pair(files[order[places[k]] as int])
            &&& pairs[k] == pair_of(persona, files[order[places[k]] as int])
        } by {
            if k < before.len() {
                assert(places[k] == before[k]);
                assert(rest[before[k]] == order[before[k]]);
            }
        }
        assert forall|k: int, l: int| 0 <= k < l < places.len() implies #[trigger] places[k]
            < #[trigger] places[l] by {
            assert(places[k] == before[k]);
            if l < before.len() {
                assert(places[l] == before[l]);
            }
        }
        assert forall|a: int|
            0 <= a < order.len() && makes_pair(files[#[trigger] order[a] as int]) implies
            places.contains(a) by {
            if a < last {
                assert(rest[a] == order[a]);
                assert(before.contains(a));
                let k = choose|k: int| 0 <= k < before.len() && before[k] == a;
                assert(places[k] == a);
            } else {
                assert(places[places.len() - 1] == a);
            }
        }
    }
}

/// Whether pairs come from files: pair `k` from file `files[k]` of the persona at place `at[k]` of
/// an order.
spec fn come_from(
    personas: Seq<PersonaListing>,
    order: Seq<usize>,
    pairs: Seq<PairView>,
    at: Seq<int>,
    files: Seq<int>,
) -> bool {
    &&& at.len() == pairs.len()
    &&& files.len() == pairs.len()
    &&& forall|k: int|
        0 <= k < at.len() ==> {
            let persona = personas[order[#[trigger] at[k]] as int];
            &&& 0 <= at[k] < order.len()
            &&& 0 <= files[k] < persona.files@.len()
            &&& gives_pair(persona, persona.files@[files[k]])
            &&& pairs[k] == pair_of(persona.name@, persona.files@[files[k]])
        }
    &&& forall|k: int, l: int|
        0 <= k < l < at.len() ==> {
            let persona = personas[order[at[k]] as int];
            &&& #[trigger] at[k] <= #[trigger] at[l]
            &&& at[k] == at[l] ==> files[k] != files[l] && text_le(
                persona.files@[files[k]].file_name@,
                persona.files@[files[l]].file_name@,
            )
        }
    &&& forall|a: int, f: int|
        0 <= a < order.len() && 0 <= f < personas[order[a] as int].files@.len() && gives_pair(
            personas[order[a] as int],
            #[trigger] personas[order[a] as int].files@[f],
        ) ==> exists|k: int| 0 <= k < at.len() && #[trigger] at[k] == a && files[k] == f
}

/// The pairs of personas come from their files.
proof fn lemma_come_from(
    personas: Seq<PersonaListing>,
    order: Seq<usize>,
    pairs: Seq<PairView>,
) -> (r: (Seq<int>, Seq<int>))
    requires
        pairs_of_personas(personas, order, pairs),
    ensures
        come_from(personas, order, pairs, r.0, r.1),
    decreases order.len(),
{
    if order.len() == 0 {
        (Seq::empty(), Seq::empty())
    } else {
        let rest = order.drop_last();
        let last = order.len() - 1;
        let persona = personas[order[last] as int];
        let n = choose|n: int|
            0 <= n <= pairs.len() && pairs_of_personas(personas, rest, #[trigger] pairs.take(n))
                && pairs_of_persona(personas[order.last() as int], pairs.skip(n));
        let added = pairs.skip(n);
        let (at0, files0) = lemma_come_from(personas, rest, pairs.take(n));
        assert forall|a: int| 0 <= a < last implies rest[a] == #[trigger] order[a] by {}
        if names_persona(persona.name@) && persona.has_images && persona.has_glyphs {
            let names = file_names(persona.files@);
            let file_order = choose|file_order: Seq<usize>| #[trigger]
                by_name(names, file_order) && added == pairs_in_order(
                    persona.name@,
                    persona.files@,
                    file_order,
                );
            assert(by_name(names, file_order));
            lemma_places(persona.name@, persona.files@, file_order);
            let places = places_of(persona.files@, file_order);
            let at = at0 + Seq::new(places.len(), |k: int| last);
            let files = files0 + Seq::new(places.len(), |k: int| file_order[places[k]] as int);
            assert(pairs =~= pairs.take(n) + added);
            assert forall|k: int| 0 <= k < at.len() implies {
                let persona = personas[order[#[trigger] at[k]] as int];
                &&& 0 <= at[k] < order.len()
                &&& 0 <= files[k] < persona.files@.len()
                &&& gives_pair(persona, persona.files@[files[k]])
                &&& pairs[k] == pair_of(persona.name@, persona.files@[files[k]])
            } by {
                if k < n {
                    assert(at[k] == at0[k]);
                    assert(pairs.take(n)[k] == pairs[k]);
                } else {
                    let j = k - n;
                    assert(0 <= places[j] < file_order.len());
                    assert(file_order[places[j]] < names.len());
                    assert(pairs[k] == added[j]);
                }
            }
            assert forall|k: int, l: int| 0 <= k < l < at.len() implies {
                let persona = personas[order[at[k]] as int];
                &&& #[trigger] at[k] <= #[trigger] at[l]
                &&& at[k] == at[l] ==> files[k] != files[l] && text_le(
                    persona.files@[files[k]].file_name@,
                    persona.files@[files[l]].file_name@,
                )
            } by {
                if l < n {
                    assert(at[k] == at0[k] && at[l] == at0[l]);
                } else if k < n {
                    assert(at[k] == at0[k]);
                } else {
                    let x = file_order[places[k - n]];
                    let y = file_order[places[l - n]];
                    assert(places[k - n] < places[l - n]);
                    assert(text_le(names[x as int], names[y as int]));
                }
            }
            assert forall|a: int, f: int|
                0 <= a < order.len() && 0 <= f < personas[order[a] as int].files@.len()
                    && gives_pair(
                    personas[order[a] as int],
                    #[trigger] personas[order[a] as int].files@[f],
                ) implies exists|k: int| 0 <= k < at.len() && #[trigger] at[k] == a && files[k]
                == f by {
                if a < last {
                    assert(personas[rest[a] as int].files@[f] == personas[order[a] as int].files@[f]);
                    let k = choose|k: int|
                        0 <= k < at0.len() && #[trigger] at0[k] == a && files0[k] == f;
                    assert(at[k] == a && files[k] == f);
                } else {
                    assert(file_order.contains(f as usize)) by {
                        assert(persona.files@.len() == file_order.len());
                        lemma_listed_position(names, file_order, f);
                    }
                    let b = choose|b: int| 0 <= b < file_order.len() && file_order[b] == f as usize;
                    lemma_position_fits(names, file_order, f);
                    assert(makes_pair(persona.files@[file_order[b] as int]));
                    assert(places.contains(b));
                    let j = choose|j: int| 0 <= j < places.len() && places[j] == b;
                    assert(at[n + j] == a && files[n + j] == f);
                }
            }
            (at, files)
        } else {
            assert(pairs.take(n) =~= pairs);
            assert forall|k: int| 0 <= k < at0.len() implies 0 <= #[trigger] at0[k] < last
                && rest[at0[k]] == order[at0[k]] by {}
            assert forall|a: int, f: int|
                0 <= a < order.len() && 0 <= f < personas[order[a] as int].files@.len()
                    && gives_pair(
                    personas[order[a] as int],
                    #[trigger] personas[order[a] as int].files@[f],
                ) implies exists|k: int| 0 <= k < at0.len() && #[trigger] at0[k] == a && files0[k]
                == f by {
                assert(a < last);
                assert(personas[rest[a] as int].files@[f] == personas[order[a] as int].files@[f]);
            }
            (at0, files0)
        }
    }
}

/// An order by name has as many places as a machine can count.
proof fn lemma_position_fits(names: Seq<Seq<char>>, order: Seq<usize>, f: int)
    requires
        by_name(names, order),
        0 <= f < names.len(),
    ensures
        f <= usize::MAX,
{
    if f > usize::MAX {
        assert forall|a: int, b: int| 0 <= a < order.len() && 0 <= b < order.len() && a != b implies
            order[a] != order[b] by {
            if a < b {
                assert(names[order[a] as int] != names[order[b] as int] || order[a] < order[b]);
            } else {
                assert(names[order[b] as int] != names[order[a] as int] || order[b] < order[a]);
            }
        }
        assert(order.no_duplicates());
        let numbers = order.map_values(|u: usize| u as int);
        assert(numbers.no_duplicates());
        numbers.unique_seq_to_set();
        vstd::set_lib::lemma_int_range(0, usize::MAX + 1);
        assert(numbers.to_set().subset_of(vstd::set_lib::set_int_range(0, usize::MAX + 1)));
        vstd::set_lib::lemma_len_subset(
            numbers.to_set(),
            vstd::set_lib::set_int_range(0, usize::MAX + 1),
        );
    }
}

/// An order by name lists every position.
proof fn lemma_listed_position(names: Seq<Seq<char>>, order: Seq<usize>, f: int)
    requires
        by_name(names, order),
        0 <= f < names.len(),
    ensures
        order.contains(f as usize),
{
    lemma_position_fits(names, order, f);
    assert((f as usize) < names.len());
}

/// Every file that gives a pair gives one: its own image with its own glyph, under the name of its
/// persona. The pairs are in the order of the names of the personas and then of the files, and
/// there are no others.
pub proof fn law_pairs_are_those_of_the_files(
    personas: Seq<PersonaListing>,
    pairs: Seq<RetrievalPair>,
) -> (from: Seq<(int, int)>)
    requires
        pairs_of_listing(personas, pair_views(pairs)),
    ensures
        pairs_at(personas, pairs, from),
{
    let names = persona_names(personas);
    let order = choose|order: Seq<usize>| #[trigger]
        by_name(names, order) && pairs_of_personas(personas, order, pair_views(pairs));
    assert(by_name(names, order));
    let (at, files) = lemma_come_from(personas, order, pair_views(pairs));
    let from = Seq::new(pairs.len(), |k: int| (order[at[k]] as int, files[k]));
    assert forall|k: int| 0 <= k < from.len() implies {
        let (p, f) = #[trigger] from[k];
        &&& 0 <= p < personas.len()
        &&& 0 <= f < personas[p].files@.len()
        &&& gives_pair(personas[p], personas[p].files@[f])
        &&& pair_is_of(pairs[k], personas[p], personas[p].files@[f])
    } by {
        assert(0 <= at[k] < order.len());
        assert(order[at[k]] < names.len());
        assert(pair_views(pairs)[k] == pairs[k]@);
    }
    assert forall|p: int, f: int|
        0 <= p < personas.len() && 0 <= f < personas[p].files@.len() && gives_pair(
            personas[p],
            #[trigger] personas[p].files@[f],
        ) implies from.contains((p, f)) by {
        lemma_position_fits(names, order, p);
        lemma_listed_position(names, order, p);
        let a = choose|a: int| 0 <= a < order.len() && order[a] == p as usize;
        assert(personas[order[a] as int].files@[f] == personas[p].files@[f]);
        let k = choose|k: int| 0 <= k < at.len() && #[trigger] at[k] == a && files[k] == f;
        assert(from[k] == (p, f));
    }
    assert forall|k: int, l: int| 0 <= k < l < from.len() implies {
        let (p, f) = #[trigger] from[k];
        let (q, g) = #[trigger] from[l];
        &&& (p, f) != (q, g)
        &&& text_le(personas[p].name@, personas[q].name@)
        &&& p == q ==> text_le(
            personas[p].files@[f].file_name@,
            personas[p].files@[g].file_name@,
        )
    } by {
        assert(at[k] <= at[l]);
        if at[k] < at[l] {
            let x = order[at[k]];
            let y = order[at[l]];
            assert(text_le(names[x as int], names[y as int]));
            assert(names[x as int] != names[y as int] || x < y);
        } else {
            lemma_text_le_reflexive(personas[order[at[k]] as int].name@);
        }
    }
    from
}

/// A dataset is refused only where no file gives a pair.
pub proof fn law_no_pairs_without_files(personas: Seq<PersonaListing>, p: int, f: int)
    requires
        pairs_of_listing(personas, Seq::empty()),
        0 <= p < personas.len(),
        0 <= f < personas[p].files@.len(),
    ensures
        !gives_pair(personas[p], personas[p].files@[f]),
{
    let none = Seq::<RetrievalPair>::empty();
    assert(pair_views(none) =~= Seq::<PairView>::empty());
    let from = law_pairs_are_those_of_the_files(personas, none);
    if gives_pair(personas[p], personas[p].files@[f]) {
        assert(from.contains((p, f)));
    }
}

/// A candidate is the glyph of a pair, under the id, the character and the persona of the pair.
pub proof fn law_candidate_is_the_glyph_of_its_pair(
    pair: RetrievalPair,
    candidate: GlyphCandidate,
)
    requires
        candidate@ == candidate_of(pair@),
    ensures
        candidate.id@ == pair.id@,
        text_view(candidate.codepoint) == text_view(pair.codepoint),
        text_view(candidate.character) == text_view(pair.character),
        candidate.persona@ == pair.persona@,
        candidate.glyph_path@ == pair.glyph_path@,
{
}

/// A candidate that is unique by its id is the glyph of the first pair with that id.
pub proof fn law_unique_candidate_is_the_first_of_its_id(
    pairs: Seq<RetrievalPair>,
    candidates: Seq<GlyphCandidate>,
    c: int,
) -> (i: int)
    requires
        unique_candidates(pairs, candidates),
        0 <= c < candidates.len(),
    ensures
        0 <= i < pairs.len(),
        candidates[c].id@ == pairs[i].id@,
        candidates[c].persona@ == pairs[i].persona@,
        candidates[c].glyph_path@ == pairs[i].glyph_path@,
        text_view(candidates[c].codepoint) == text_view(pairs[i].codepoint),
        text_view(candidates[c].character) == text_view(pairs[i].character),
        forall|j: int| 0 <= j < i ==> (#[trigger] pairs[j]).id@ != candidates[c].id@,
        forall|d: int|
            c < d < candidates.len() ==> text_le(candidates[c].id@, (#[trigger] candidates[d]).id@),
{
    assert(is_of_first(pairs, candidates[c]@));
    let i = choose|i: int| #[trigger]
        first_with_id(pairs, i) && candidates[c]@ == candidate_of(pairs[i]@);
    law_candidate_is_the_glyph_of_its_pair(pairs[i], candidates[c]);
    i
}

} // verus!
