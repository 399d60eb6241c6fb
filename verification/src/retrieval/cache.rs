//! The cache of extracted features.

use vstd::prelude::*;
use vstd::string::*;
use vstd::utf8::encode_utf8;

use crate::error::RetrievalError;
use crate::floats::Single;
use crate::retrieval::model::{
    all_finite, check_features, find_not_finite, first_not_finite, not_finite_at, wrong_dim,
    RETRIEVAL_FEATURE_DIM,
};
use crate::text::{decimal, hex, push_hex, same_text};

verus! {

pub const FEATURE_CACHE_VERSION: u32 = 1;

/// What features were extracted from.
#[derive(Clone, Copy, Debug, PartialEq, Eq, Structural)]
pub enum FeatureKind {
    Pose,
    Glyph,
}

impl FeatureKind {
    /// The name of the kind.
    pub open spec fn name(self) -> Seq<char> {
        match self {
            FeatureKind::Pose => "pose"@,
            FeatureKind::Glyph => "glyph"@,
        }
    }

    /// How features of the kind are called.
    pub open spec fn label(self) -> Seq<char> {
        match self {
            FeatureKind::Pose => "pose feature"@,
            FeatureKind::Glyph => "glyph feature"@,
        }
    }

    pub fn as_str(self) -> (r: &'static str)
        ensures
            r@ == self.name(),
            self == FeatureKind::Pose ==> r@ == "pose"@,
            self == FeatureKind::Glyph ==> r@ == "glyph"@,
    {
        match self {
            FeatureKind::Pose => "pose",
            FeatureKind::Glyph => "glyph",
        }
    }

    /// The directory below the cache that holds features of the kind.
    pub fn cache_dir_name(self) -> (r: &'static str)
        ensures
            r@ == self.name(),
            self == FeatureKind::Pose ==> r@ == "pose"@,
            self == FeatureKind::Glyph ==> r@ == "glyph"@,
    {
        self.as_str()
    }

    pub fn feature_label(self) -> (r: &'static str)
        ensures
            r@ == self.label(),
            self == FeatureKind::Pose ==> r@ == "pose feature"@,
            self == FeatureKind::Glyph ==> r@ == "glyph feature"@,
    {
        match self {
            FeatureKind::Pose => "pose feature",
            FeatureKind::Glyph => "glyph feature",
        }
    }
}

/// What is remembered of a file to see whether it has changed.
#[derive(Debug)]
pub struct CacheSourceFingerprint {
    pub path: String,
    pub len: u64,
    pub modified_secs: u64,
    pub modified_nanos: u32,
}

impl CacheSourceFingerprint {
    /// Whether two fingerprints are equal.
    pub open spec fn same(self, other: CacheSourceFingerprint) -> bool {
        &&& self.path@ == other.path@
        &&& self.len == other.len
        &&& self.modified_secs == other.modified_secs
        &&& self.modified_nanos == other.modified_nanos
    }

    /// Whether two fingerprints are equal.
    pub fn is_same(&self, other: &CacheSourceFingerprint) -> (r: bool)
        ensures
            r == self.same(*other),
            r <==> self.path@ == other.path@ && self.len == other.len && self.modified_secs
                == other.modified_secs && self.modified_nanos == other.modified_nanos,
    {
        self.len == other.len && self.modified_secs == other.modified_secs && self.modified_nanos
            == other.modified_nanos && same_text(self.path.as_str(), other.path.as_str())
    }
}

/// Whether two fingerprints that may be missing are equal.
pub open spec fn same_source(
    a: Option<CacheSourceFingerprint>,
    b: Option<CacheSourceFingerprint>,
) -> bool {
    match (a, b) {
        (Some(a), Some(b)) => a.same(b),
        (None, None) => true,
        _ => false,
    }
}

/// Features in the cache, with what they were extracted from.
#[derive(Debug)]
pub struct FeatureCacheEntry {
    pub version: u32,
    pub kind: String,
    pub feature_dim: usize,
    pub primary: CacheSourceFingerprint,
    pub auxiliary: Option<CacheSourceFingerprint>,
    pub features: Vec<Single>,
}

impl FeatureCacheEntry {
    /// Whether the entry holds sound features of a kind for unchanged files.
    pub open spec fn answers(
        self,
        kind: FeatureKind,
        primary: CacheSourceFingerprint,
        auxiliary: Option<CacheSourceFingerprint>,
    ) -> bool {
        &&& self.version == FEATURE_CACHE_VERSION
        &&& self.kind@ == kind.name()
        &&& self.feature_dim == RETRIEVAL_FEATURE_DIM
        &&& self.primary.same(primary)
        &&& same_source(self.auxiliary, auxiliary)
        &&& self.features@.len() == RETRIEVAL_FEATURE_DIM
        &&& all_finite(self.features@)
    }

    /// Whether the entry holds sound features of a kind for unchanged files.
    pub fn matches(
        &self,
        kind: FeatureKind,
        primary: &CacheSourceFingerprint,
        auxiliary: &Option<CacheSourceFingerprint>,
    ) -> (r: bool)
        ensures
            r == self.answers(kind, *primary, *auxiliary),
            r ==> self.features@.len() == 111 && forall|i: int|
                0 <= i < 111 ==> (#[trigger] self.features@[i]).finite(),
    {
        if self.version != FEATURE_CACHE_VERSION || self.feature_dim != RETRIEVAL_FEATURE_DIM
            || self.features.len() != RETRIEVAL_FEATURE_DIM {
            return false;
        }
        let same_auxiliary: bool = match (&self.auxiliary, auxiliary) {
            (Some(a), Some(b)) => a.is_same(b),
            (None, None) => true,
            _ => false,
        };
        same_auxiliary && self.primary.is_same(primary) && same_text(
            self.kind.as_str(),
            kind.as_str(),
        ) && find_not_finite(&self.features).is_none()
    }

    /// Makes the entry for features that were just extracted, once they are found to be sound.
    pub fn new(
        kind: FeatureKind,
        primary: CacheSourceFingerprint,
        auxiliary: Option<CacheSourceFingerprint>,
        features: Vec<Single>,
    ) -> (r: Result<FeatureCacheEntry, RetrievalError>)
        ensures
            r is Ok == (features@.len() == RETRIEVAL_FEATURE_DIM && all_finite(features@)),
            r is Ok ==> {
                let entry = r->Ok_0;
                &&& entry.version == FEATURE_CACHE_VERSION
                &&& entry.kind@ == kind.name()
                &&& entry.feature_dim == RETRIEVAL_FEATURE_DIM
                &&& entry.primary == primary
                &&& entry.auxiliary == auxiliary
                &&& entry.features@ == features@
            },
            features@.len() != RETRIEVAL_FEATURE_DIM ==> r is Err && r->Err_0.says(
                wrong_dim(features@.len(), RETRIEVAL_FEATURE_DIM as nat),
            ),
            features@.len() == RETRIEVAL_FEATURE_DIM && r is Err ==> exists|i: int| #[trigger]
                first_not_finite(features@, i) && r->Err_0.says(
                    not_finite_at(kind.label(), i as nat),
                ),
            r is Ok == (features@.len() == 111 && forall|i: int|
                0 <= i < 111 ==> (#[trigger] features@[i]).finite()),
            r is Ok ==> r->Ok_0.answers(kind, primary, auxiliary),
            r is Ok ==> r->Ok_0.version == 1 && r->Ok_0.feature_dim == 111,
            features@.len() != 111 ==> r is Err && r->Err_0->0@
                == "feature dimension mismatch: expected "@ + decimal(111) + ", got "@ + decimal(
                features@.len(),
            ),
    {
        match check_features(kind.feature_label(), &features, RETRIEVAL_FEATURE_DIM) {
            Err(error) => Err(error),
            Ok(()) => Ok(
                FeatureCacheEntry {
                    version: FEATURE_CACHE_VERSION,
                    kind: kind.as_str().to_owned(),
                    feature_dim: RETRIEVAL_FEATURE_DIM,
                    primary,
                    auxiliary,
                    features,
                },
            ),
        }
    }
}

/// What was put into the cache is found there, as long as the files stay as they were.
pub proof fn law_cached_features_are_found(
    entry: FeatureCacheEntry,
    kind: FeatureKind,
    primary: CacheSourceFingerprint,
    auxiliary: Option<CacheSourceFingerprint>,
    now: CacheSourceFingerprint,
    auxiliary_now: Option<CacheSourceFingerprint>,
)
    requires
        entry.version == FEATURE_CACHE_VERSION,
        entry.kind@ == kind.name(),
        entry.feature_dim == RETRIEVAL_FEATURE_DIM,
        entry.primary == primary,
        entry.auxiliary == auxiliary,
        entry.features@.len() == RETRIEVAL_FEATURE_DIM,
        all_finite(entry.features@),
    ensures
        entry.answers(kind, now, auxiliary_now) == (primary.same(now) && same_source(
            auxiliary,
            auxiliary_now,
        )),
{
}

/// Cached features of one kind never answer for the other.
pub proof fn law_kinds_are_kept_apart(
    entry: FeatureCacheEntry,
    primary: CacheSourceFingerprint,
    auxiliary: Option<CacheSourceFingerprint>,
)
    ensures
        !(entry.answers(FeatureKind::Pose, primary, auxiliary) && entry.answers(
            FeatureKind::Glyph,
            primary,
            auxiliary,
        )),
{
    reveal_strlit("pose");
    reveal_strlit("glyph");
    assert("pose"@.len() != "glyph"@.len());
}

/// One step of the hash: a byte goes in, and the state is multiplied by the prime.
pub open spec fn hash_step(state: u64, byte: u8) -> u64 {
    (state ^ byte as u64).wrapping_mul(0x100000001b3)
}

/// The hash of a list of bytes.
pub open spec fn hash_of(bytes: Seq<u8>) -> u64
    decreases bytes.len(),
{
    if bytes.len() == 0 {
        0xcbf29ce484222325
    } else {
        hash_step(hash_of(bytes.drop_last()), bytes.last())
    }
}

/// What the key of a cache entry is made from: the kind, a zero and the path.
pub open spec fn key_bytes(kind: FeatureKind, path: Seq<char>) -> Seq<u8> {
    encode_utf8(kind.name()) + seq![0u8] + encode_utf8(path)
}

/// Continues a hash with bytes.
fn hash_bytes(start: u64, done: Ghost<Seq<u8>>, bytes: &[u8]) -> (r: u64)
    requires
        start == hash_of(done@),
    ensures
        r == hash_of(done@ + bytes@),
{
    let n: usize = bytes.len();
    let mut state: u64 = start;
    assert(done@ + bytes@.take(0) =~= done@);
    for i in 0..n
        invariant
            n == bytes@.len(),
            state == hash_of(done@ + bytes@.take(i as int)),
    {
        proof {
            let more = done@ + bytes@.take(i + 1);
            assert(more.drop_last() =~= done@ + bytes@.take(i as int));
            assert(more.last() == bytes@[i as int]);
        }
        let byte: u8 = bytes[i];
        state = (state ^ byte as u64).wrapping_mul(0x100000001b3);
    }
    assert(bytes@.take(n as int) =~= bytes@);
    state
}

/// The name of a cache entry.
pub fn feature_cache_key(kind: FeatureKind, path: &str) -> (r: String)
    ensures
        r@ == hex(hash_of(key_bytes(kind, path@)) as nat, 16),
{
    let empty: Ghost<Seq<u8>> = Ghost(Seq::empty());
    let name = kind.as_str().as_bytes();
    let zero: Vec<u8> = vec![0];
    let with_name = hash_bytes(0xcbf29ce484222325, empty, name);
    assert(empty@ + name@ =~= name@);
    let with_zero = hash_bytes(with_name, Ghost(name@), zero.as_slice());
    let ghost head = name@ + zero@;
    let state = hash_bytes(with_zero, Ghost(head), path.as_bytes());
    assert(zero@ =~= seq![0u8]);
    let mut r = String::new();
    push_hex(&mut r, state, 16);
    assert(r@ =~= hex(state as nat, 16));
    r
}

/// The name of a cache entry has sixteen hexadecimal digits.
pub proof fn law_cache_key_has_sixteen_digits(kind: FeatureKind, path: Seq<char>)
    ensures
        hex(hash_of(key_bytes(kind, path)) as nat, 16).len() == 16,
{
    lemma_hex_len(hash_of(key_bytes(kind, path)) as nat, 16);
}

proof fn lemma_hex_len(n: nat, count: nat)
    ensures
        hex(n, count).len() == count,
    decreases count,
{
    if count > 0 {
        lemma_hex_len(n / 16, (count - 1) as nat);
    }
}

/// Cached features answer for a file if and only if they are of its kind, they are 111 finite
/// values of the first version, and nothing about the file has changed: its path, its length and
/// the second and nanosecond of its last change; the same goes for a second file where there is
/// one.
pub proof fn law_cache_answers_only_for_unchanged_files(
    entry: FeatureCacheEntry,
    kind: FeatureKind,
    primary: CacheSourceFingerprint,
    auxiliary: Option<CacheSourceFingerprint>,
)
    ensures
        entry.answers(kind, primary, auxiliary) == {
            &&& entry.version == 1
            &&& entry.kind@ == match kind {
                FeatureKind::Pose => "pose"@,
                FeatureKind::Glyph => "glyph"@,
            }
            &&& entry.feature_dim == 111
            &&& entry.features@.len() == 111
            &&& forall|i: int| 0 <= i < 111 ==> (#[trigger] entry.features@[i]).finite()
            &&& entry.primary.path@ == primary.path@
            &&& entry.primary.len == primary.len
            &&& entry.primary.modified_secs == primary.modified_secs
            &&& entry.primary.modified_nanos == primary.modified_nanos
            &&& entry.auxiliary is Some == auxiliary is Some
            &&& auxiliary is Some ==> {
                &&& entry.auxiliary->0.path@ == auxiliary->0.path@
                &&& entry.auxiliary->0.len == auxiliary->0.len
                &&& entry.auxiliary->0.modified_secs == auxiliary->0.modified_secs
                &&& entry.auxiliary->0.modified_nanos == auxiliary->0.modified_nanos
            }
        },
{
    if entry.answers(kind, primary, auxiliary) {
        assert forall|i: int| 0 <= i < 111 implies (#[trigger] entry.features@[i]).finite() by {}
    }
    if entry.features@.len() == 111 && forall|i: int|
        0 <= i < 111 ==> (#[trigger] entry.features@[i]).finite() {
        assert(all_finite(entry.features@));
    }
}

/// The hash starts at the offset basis, and each byte goes in by an exclusive or and a
/// multiplication with the prime, modulo 2^64.
pub proof fn law_hash_takes_byte_by_byte(bytes: Seq<u8>, byte: u8)
    ensures
        hash_of(Seq::empty()) == 0xcbf29ce484222325,
        hash_of(bytes.push(byte)) == (hash_of(bytes) ^ byte as u64).wrapping_mul(0x100000001b3),
{
    assert(bytes.push(byte).drop_last() =~= bytes);
}

/// The key is made of the name of the kind, a zero byte and the path.
pub proof fn law_cache_key_bytes(path: Seq<char>)
    ensures
        key_bytes(FeatureKind::Pose, path) == encode_utf8("pose"@) + seq![0u8] + encode_utf8(path),
        key_bytes(FeatureKind::Glyph, path) == encode_utf8("glyph"@) + seq![0u8] + encode_utf8(path),
{
}

} // verus!
