use vstd::prelude::*;

use crate::key::{KeyView, ShaderKey};
use crate::overrides::{canonical_of, pairs_view, Overrides};
use crate::state::{RenderState, WgslSource};

verus! {

/// What a backend is asked to compile: the shader identity, the render state
/// and the constants in ascending order of name.
pub type BuildRequest = (Seq<char>, RenderState, Seq<(Seq<char>, u64)>);

/// A graphics backend that compiles pipelines. Compiling is expensive and may
/// fail (an invalid shader, an unsupported state).
pub trait ShaderBackend {
    type Pipeline;

    type Error;

    /// Compiles the pipeline of a shader, a render state and the constants,
    /// which come in ascending order of name.
    fn compile_pipeline(
        &mut self,
        src: &WgslSource,
        state: &RenderState,
        constants: &[(String, u64)],
    ) -> Result<Self::Pipeline, Self::Error>;
}

/// The map that a list of keyed pipelines holds.
pub open spec fn entries_map<P>(s: Seq<(ShaderKey, P)>) -> Map<KeyView, P>
    decreases s.len(),
{
    if s.len() == 0 {
        Map::empty()
    } else {
        entries_map(s.drop_last()).insert(s.last().0@, s.last().1)
    }
}

/// No key occurs twice.
pub open spec fn keys_unique<P>(s: Seq<(ShaderKey, P)>) -> bool {
    forall|i: int, j: int| 0 <= i < j < s.len() ==> #[trigger] s[i].0@ != #[trigger] s[j].0@
}

/// What a list with unique keys maps each key to.
pub proof fn lemma_entries_map<P>(s: Seq<(ShaderKey, P)>)
    requires
        keys_unique(s),
    ensures
        forall|k: KeyView| #[trigger]
            entries_map(s).contains_key(k) <==> exists|i: int| 0 <= i < s.len() && s[i].0@ == k,
        forall|i: int| 0 <= i < s.len() ==> #[trigger] entries_map(s)[s[i].0@] == s[i].1,
    decreases s.len(),
{
    if s.len() > 0 {
        let t = s.drop_last();
        assert(keys_unique(t));
        lemma_entries_map(t);
        assert(entries_map(s) == entries_map(t).insert(s.last().0@, s.last().1));
        assert forall|k: KeyView| #[trigger]
            entries_map(s).contains_key(k) <==> exists|i: int| 0 <= i < s.len() && s[i].0@ == k by {
            if entries_map(s).contains_key(k) && k != s.last().0@ {
                assert(entries_map(t).contains_key(k));
                let i = choose|i: int| 0 <= i < t.len() && t[i].0@ == k;
                assert(s[i].0@ == k);
            }
            if exists|i: int| 0 <= i < s.len() && s[i].0@ == k {
                let i = choose|i: int| 0 <= i < s.len() && s[i].0@ == k;
                if i < s.len() - 1 {
                    assert(t[i].0@ == k);
                }
            }
        }
        assert forall|i: int| 0 <= i < s.len() implies #[trigger] entries_map(s)[s[i].0@]
            == s[i].1 by {
            if i < s.len() - 1 {
                assert(t[i] == s[i]);
                assert(s[i].0@ != s[s.len() - 1].0@);
            }
        }
    }
}

/// A store of compiled pipelines, at most one for each key. Entries are
/// never replaced or dropped; a failed compile leaves no entry.
pub struct PipelineCache<P> {
    entries: Vec<(ShaderKey, P)>,
    builds: Ghost<Seq<BuildRequest>>,
}

impl<P> View for PipelineCache<P> {
    type V = Map<KeyView, P>;

    closed spec fn view(&self) -> Map<KeyView, P> {
        entries_map(self.entries@)
    }
}

/// What `get_or_create` does: on a key that is present it hands back the stored
/// pipeline and compiles nothing; on one that is absent it asks the backend
/// for `req` once, and stores the pipeline only if the compile succeeded.
pub open spec fn get_or_create_post<P, E>(
    pre: PipelineCache<P>,
    key: KeyView,
    req: BuildRequest,
    post: PipelineCache<P>,
    r: Result<&P, E>,
) -> bool {
    if pre@.contains_key(key) {
        &&& post@ == pre@
        &&& post.builds() == pre.builds()
        &&& r matches Ok(p) && *p == pre@[key]
    } else {
        &&& post.builds() == pre.builds().push(req)
        &&& match r {
            Ok(p) => post@ == pre@.insert(key, *p),
            Err(_) => post@ == pre@,
        }
    }
}

impl<P> PipelineCache<P> {
    /// Keys are unique.
    pub closed spec fn wf(&self) -> bool {
        keys_unique(self.entries@)
    }

    /// The requests made of the backend so far, in order.
    pub closed spec fn builds(&self) -> Seq<BuildRequest> {
        self.builds@
    }

    /// An empty cache.
    pub fn new() -> (r: Self)
        ensures
            r.wf(),
            r@ == Map::<KeyView, P>::empty(),
            r.builds() == Seq::<BuildRequest>::empty(),
    {
        PipelineCache { entries: Vec::new(), builds: Ghost(Seq::empty()) }
    }

    /// Where `key` is stored, if it is.
    fn find(&self, key: &ShaderKey) -> (r: Option<usize>)
        requires
            self.wf(),
        ensures
            r matches Some(i) ==> i < self.entries@.len() && self.entries@[i as int].0@ == key@,
            r is None ==> !self@.contains_key(key@),
    {
        proof {
            lemma_entries_map(self.entries@);
        }
        let len = self.entries.len();
        let mut i: usize = 0;
        while i < len
            invariant
                len == self.entries@.len(),
                i <= len,
                forall|j: int| 0 <= j < i ==> #[trigger] self.entries@[j].0@ != key@,
            decreases len - i,
        {
            if self.entries[i].0 == *key {
                return Some(i);
            }
            i = i + 1;
        }
        None
    }

    /// The pipeline of `key`. When it is not stored yet, the backend compiles
    /// it from the shader, the state and the constants in ascending order of
    /// name; a success is stored, a failure is handed back and not recorded.
    /// The key is taken to have been derived from those same inputs.
    pub fn get_or_create<B: ShaderBackend<Pipeline = P>>(
        &mut self,
        key: ShaderKey,
        backend: &mut B,
        src: &WgslSource,
        state: &RenderState,
        overrides: &Overrides,
    ) -> (r: Result<&P, B::Error>)
        requires
            old(self).wf(),
            overrides.wf(),
        ensures
            final(self).wf(),
            get_or_create_post(
                *old(self),
                key@,
                (src.name@, *state, canonical_of(overrides@)),
                *final(self),
                r,
            ),
    {
        proof {
            lemma_entries_map(self.entries@);
        }
        match self.find(&key) {
            Some(i) => Ok(&self.entries[i].1),
            None => {
                let pairs = overrides.canonical_pairs();
                let ghost req: BuildRequest = (src.name@, *state, pairs_view(pairs@));
                let built = backend.compile_pipeline(src, state, pairs);
                self.builds = Ghost(self.builds@.push(req));
                match built {
                    Ok(p) => {
                        let ghost s = self.entries@;
                        self.entries.push((key, p));
                        proof {
                            assert(self.entries@.drop_last() =~= s);
                            assert forall|a: int, b: int|
                                0 <= a < b < self.entries@.len() implies #[trigger] self.entries@[a].0@
                                != #[trigger] self.entries@[b].0@ by {
                                if b == s.len() {
                                    assert(s[a] == self.entries@[a]);
                                    assert(entries_map(s).contains_key(s[a].0@));
                                }
                            }
                        }
                        let n = self.entries.len() - 1;
                        Ok(&self.entries[n].1)
                    },
                    Err(e) => Err(e),
                }
            },
        }
    }
}

/// Asking twice for one key compiles at most once, and exactly once when the
/// key was not stored before; the second call hands back the pipeline that the
/// first one did, and changes nothing.
pub proof fn lemma_get_or_create_memoizes<P, E>(
    c0: PipelineCache<P>,
    c1: PipelineCache<P>,
    c2: PipelineCache<P>,
    key: KeyView,
    req1: BuildRequest,
    req2: BuildRequest,
    r1: Result<&P, E>,
    r2: Result<&P, E>,
)
    requires
        get_or_create_post(c0, key, req1, c1, r1),
        get_or_create_post(c1, key, req2, c2, r2),
        r1 is Ok,
    ensures
        c2@ == c1@,
        c2.builds() == c1.builds(),
        c0@.contains_key(key) ==> c1.builds() == c0.builds(),
        !c0@.contains_key(key) ==> c1.builds() == c0.builds().push(req1),
        r2 matches Ok(p2) && r1 matches Ok(p1) && *p2 == *p1,
{
    if !c0@.contains_key(key) {
        assert(c1@.contains_key(key));
    }
}

/// A failed compile is not remembered: the cache is as it was, and the next
/// call with the same key asks the backend again.
pub proof fn lemma_failure_not_cached<P, E>(
    c0: PipelineCache<P>,
    c1: PipelineCache<P>,
    c2: PipelineCache<P>,
    key: KeyView,
    req1: BuildRequest,
    req2: BuildRequest,
    r1: Result<&P, E>,
    r2: Result<&P, E>,
)
    requires
        get_or_create_post(c0, key, req1, c1, r1),
        get_or_create_post(c1, key, req2, c2, r2),
        r1 is Err,
    ensures
        c1@ == c0@,
        !c1@.contains_key(key),
        c1.builds() == c0.builds().push(req1),
        c2.builds() == c1.builds().push(req2),
{
}

} // verus!