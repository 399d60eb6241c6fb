//! The answer to a live search.

use vstd::prelude::*;

use crate::floats::Single;
use crate::retrieval::dataset::copy_text;
use crate::retrieval::glyph_id::text_view;
use crate::retrieval::index::SearchHit;
use crate::text::{decimal, decimal_text};

verus! {

/// A hit of a live search.
#[derive(Debug)]
pub struct LiveSearchHit {
    pub rank: usize,
    pub index: usize,
    pub id: String,
    pub character: Option<String>,
    pub codepoint: Option<String>,
    pub persona: String,
    pub score: Single,
    pub image_url: String,
}

/// The answer to a live search.
#[derive(Debug)]
pub struct LiveSearchResponse {
    pub top_k: usize,
    pub hits: Vec<LiveSearchHit>,
}

/// The address of a candidate's image.
pub open spec fn candidate_url(index: nat) -> Seq<char> {
    "/candidate/"@ + decimal(index)
}

impl LiveSearchHit {
    /// Whether this shows a hit at a place.
    pub open spec fn shows(self, hit: SearchHit, place: int) -> bool {
        &&& self.rank == place + 1
        &&& self.index == hit.index
        &&& self.id@ == hit.entry.id@
        &&& text_view(self.character) == text_view(hit.entry.character)
        &&& text_view(self.codepoint) == text_view(hit.entry.codepoint)
        &&& self.persona@ == hit.entry.persona@
        &&& self.score == hit.score
        &&& self.image_url@ == candidate_url(hit.index as nat)
    }
}

/// Makes the answer to a live search: the hits with their ranks, from one on, and the addresses
/// of their images.
pub fn live_search_response(hits: &Vec<SearchHit>, top_k: usize) -> (r: LiveSearchResponse)
    ensures
        r.top_k == top_k,
        r.hits@.len() == hits@.len(),
        forall|i: int| 0 <= i < hits@.len() ==> (#[trigger] r.hits@[i]).shows(hits@[i], i),
        forall|i: int|
            0 <= i < hits@.len() ==> {
                &&& (#[trigger] r.hits@[i]).rank == i + 1
                &&& r.hits@[i].index == hits@[i].index
                &&& r.hits@[i].id@ == hits@[i].entry.id@
                &&& r.hits@[i].persona@ == hits@[i].entry.persona@
                &&& r.hits@[i].score == hits@[i].score
                &&& r.hits@[i].image_url@ == "/candidate/"@ + decimal(hits@[i].index as nat)
                &&& r.hits@[i].character is Some == hits@[i].entry.character is Some
                &&& r.hits@[i].character is Some ==> r.hits@[i].character->0@
                    == hits@[i].entry.character->0@
                &&& r.hits@[i].codepoint is Some == hits@[i].entry.codepoint is Some
                &&& r.hits@[i].codepoint is Some ==> r.hits@[i].codepoint->0@
                    == hits@[i].entry.codepoint->0@
            },
{
    let n: usize = hits.len();
    let mut shown: Vec<LiveSearchHit> = Vec::new();
    for i in 0..n
        invariant
            n == hits@.len(),
            shown@.len() == i,
            forall|j: int| 0 <= j < i ==> (#[trigger] shown@[j]).shows(hits@[j], j),
    {
        let hit = &hits[i];
        let mut image_url = "/candidate/".to_owned();
        image_url.append(decimal_text(hit.index).as_str());
        shown.push(
            LiveSearchHit {
                rank: i + 1,
                index: hit.index,
                id: hit.entry.id.clone(),
                character: copy_text(&hit.entry.character),
                codepoint: copy_text(&hit.entry.codepoint),
                persona: hit.entry.persona.clone(),
                score: hit.score,
                image_url,
            },
        );
    }
    LiveSearchResponse { top_k, hits: shown }
}

} // verus!
