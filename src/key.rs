use std::hash::{BuildHasher, Hash, Hasher};

use vstd::prelude::*;

use crate::names::compare_names;
use crate::overrides::{
    canonical_of, lemma_canonical_of_view, lemma_pairs_map, names_consistent, pairs_map, pairs_view,
    Overrides,
};
use crate::state::{RenderState, WgslSource};

verus! {

/// Seeds of the hasher that digests a set of constants. They are fixed so
/// that a key does not change from one run to the next.
pub const DIGEST_SEED_0: u64 = 0x243F_6A88_85A3_08D3;

pub const DIGEST_SEED_1: u64 = 0x1319_8A2E_0370_7344;

pub const DIGEST_SEED_2: u64 = 0xA409_3822_299F_31D0;

pub const DIGEST_SEED_3: u64 = 0x082E_FA98_EC4E_6C89;

/// The 64-bit digest that ahash, seeded with the four keys, gives of a list of
/// named values.
pub uninterp spec fn seeded_ahash(
    k0: u64,
    k1: u64,
    k2: u64,
    k3: u64,
    pairs: Seq<(Seq<char>, u64)>,
) -> u64;

/// Relies on `ahash::RandomState::with_seeds` and the `AHasher` it builds:
/// hashers built from the same seeds hash alike, so the digest of the pairs
/// (their number, then each name's text and each value, through `Hash`)
/// depends on the seeds and the pairs alone.
#[verifier::external_body]
fn digest_pairs(k0: u64, k1: u64, k2: u64, k3: u64, pairs: &[(String, u64)]) -> (r: u64)
    ensures
        r == seeded_ahash(k0, k1, k2, k3, pairs_view(pairs@)),
{
    let mut hasher = ahash::RandomState::with_seeds(k0, k1, k2, k3).build_hasher();
    pairs.hash(&mut hasher);
    hasher.finish()
}

/// The digest of a canonical sequence of constants.
pub open spec fn consts_digest(pairs: Seq<(Seq<char>, u64)>) -> u64 {
    seeded_ahash(DIGEST_SEED_0, DIGEST_SEED_1, DIGEST_SEED_2, DIGEST_SEED_3, pairs)
}

/// The view of a pipeline key: shader identity, render state, digest of the
/// constants.
pub type KeyView = (Seq<char>, RenderState, u64);

/// The key of a shader identity, a render state and a set of constants: the
/// identity and the state as they are, and the digest of the constants in
/// ascending order of name.
pub open spec fn key_of(
    name: Seq<char>,
    state: RenderState,
    consts: Map<Seq<char>, u64>,
) -> KeyView {
    (name, state, consts_digest(canonical_of(consts)))
}

/// The identity under which a compiled pipeline is cached.
#[derive(Clone, Copy, Debug, Hash, Eq)]
pub struct ShaderKey {
    pub src_name: &'static str,
    pub state: RenderState,
    pub consts_hash: u64,
}

impl View for ShaderKey {
    type V = KeyView;

    open spec fn view(&self) -> KeyView {
        (self.src_name@, self.state, self.consts_hash)
    }
}

impl ShaderKey {
    /// Derives the key of a shader, a render state and a set of constants.
    pub fn new(src: &WgslSource, state: RenderState, ov: &Overrides) -> (r: Self)
        requires
            ov.wf(),
        ensures
            r@ == key_of(src.name@, state, ov@),
    {
        let pairs = ov.canonical_pairs();
        let consts_hash = digest_pairs(
            DIGEST_SEED_0,
            DIGEST_SEED_1,
            DIGEST_SEED_2,
            DIGEST_SEED_3,
            pairs,
        );
        ShaderKey { src_name: src.name, state, consts_hash }
    }
}

impl PartialEq for ShaderKey {
    fn eq(&self, other: &ShaderKey) -> (r: bool)
        ensures
            r == (self@ == other@),
    {
        compare_names(self.src_name, other.src_name) == 0 && self.state == other.state
            && self.consts_hash == other.consts_hash
    }
}

impl vstd::std_specs::cmp::PartialEqSpecImpl for ShaderKey {
    open spec fn obeys_eq_spec() -> bool {
        true
    }

    open spec fn eq_spec(&self, other: &ShaderKey) -> bool {
        self@ == other@
    }
}

/// Setting the same pairs in any order gives the same key: `pairs_map(s)` is
/// the set that setting the pairs of `s` one after another yields. The pairs
/// may repeat, but no name may come with two different values (then the
/// order would decide which one is kept).
pub proof fn lemma_key_ignores_insertion_order(
    name: Seq<char>,
    state: RenderState,
    s1: Seq<(Seq<char>, u64)>,
    s2: Seq<(Seq<char>, u64)>,
)
    requires
        names_consistent(s1),
        s1.to_set() == s2.to_set(),
    ensures
        pairs_map(s1) == pairs_map(s2),
        key_of(name, state, pairs_map(s1)) == key_of(name, state, pairs_map(s2)),
{
    assert forall|i: int, j: int|
        0 <= i < s2.len() && 0 <= j < s2.len() && #[trigger] s2[i].0 == #[trigger] s2[j].0 implies s2[i].1
        == s2[j].1 by {
        assert(s2.to_set().contains(s2[i]));
        assert(s2.to_set().contains(s2[j]));
        let a = choose|a: int| 0 <= a < s1.len() && s1[a] == s2[i];
        let b = choose|b: int| 0 <= b < s1.len() && s1[b] == s2[j];
        assert(s1[a].0 == s1[b].0);
    }
    lemma_pairs_map(s1);
    lemma_pairs_map(s2);
    assert forall|k: Seq<char>| #[trigger] pairs_map(s1).contains_key(k) implies pairs_map(
        s2,
    ).contains_key(k) && pairs_map(s1)[k] == pairs_map(s2)[k] by {
        let i = choose|i: int| 0 <= i < s1.len() && s1[i].0 == k;
        assert(s1.to_set().contains(s1[i]));
        assert(s2.to_set().contains(s1[i]));
        let j = choose|j: int| 0 <= j < s2.len() && s2[j] == s1[i];
        assert(pairs_map(s1)[s1[i].0] == s1[i].1);
        assert(pairs_map(s2)[s2[j].0] == s2[j].1);
    }
    assert forall|k: Seq<char>| #[trigger] pairs_map(s2).contains_key(k) implies pairs_map(
        s1,
    ).contains_key(k) by {
        let j = choose|j: int| 0 <= j < s2.len() && s2[j].0 == k;
        assert(s2.to_set().contains(s2[j]));
        let i = choose|i: int| 0 <= i < s1.len() && s1[i] == s2[j];
        assert(s1[i].0 == k);
    }
    assert(pairs_map(s1) =~= pairs_map(s2));
}

/// Two equal keys come from the same shader identity and the same render
/// state; their constant sets are equal too, unless the digest maps two
/// different canonical sequences to one value.
pub proof fn lemma_key_discriminates(
    n1: Seq<char>,
    st1: RenderState,
    o1: Overrides,
    n2: Seq<char>,
    st2: RenderState,
    o2: Overrides,
)
    requires
        o1.wf(),
        o2.wf(),
    ensures
        key_of(n1, st1, o1@) == key_of(n2, st2, o2@) ==> n1 == n2 && st1 == st2,
        o1@ != o2@ ==> canonical_of(o1@) != canonical_of(o2@),
{
    lemma_canonical_of_view(o1);
    lemma_canonical_of_view(o2);
}

} // verus!
