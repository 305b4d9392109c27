//! The pipeline cache's bookkeeping (which shader paths hold a compiled
//! pipeline, so that hot reload rebuilds only what changed) and the
//! identifiers tagging bind-group layouts.
use vstd::prelude::*;

use crate::assoc::{assoc_map, keys_distinct, lemma_assoc_dom, lemma_assoc_index, lemma_assoc_push, lemma_assoc_remove};
use crate::streaming::{bytes_eq, copy_bytes};

verus! {

/// A cached entry under the bytes of its shader path.
struct CachedPipeline<E> {
    shader_path: Vec<u8>,
    entry: E,
}

/// A cache of compiled render pipelines keyed by the bytes of their shader
/// path.  What is kept per path (the pipeline and what rebuilding it needs)
/// is the caller's type `E`.
pub struct PipelineCache<E> {
    entries: Vec<CachedPipeline<E>>,
}

impl<E> PipelineCache<E> {
    spec fn entry_seq(&self) -> Seq<(Seq<u8>, E)> {
        self.entries@.map_values(|c: CachedPipeline<E>| (c.shader_path@, c.entry))
    }

    /// Cached entries by shader path.
    pub closed spec fn cached(&self) -> Map<Seq<u8>, E> {
        assoc_map(self.entry_seq())
    }

    /// Each shader path is cached at most once.
    pub closed spec fn wf(&self) -> bool {
        keys_distinct(self.entry_seq())
    }

    /// An empty cache.
    pub fn new() -> (c: Self)
        ensures
            c.wf(),
            c.cached() == Map::<Seq<u8>, E>::empty(),
    {
        let c = PipelineCache { entries: Vec::new() };
        proof {
            assert(c.cached() =~= Map::<Seq<u8>, E>::empty());
        }
        c
    }

    fn find(&self, shader_path: &[u8]) -> (r: Option<usize>)
        requires
            self.wf(),
        ensures
            match r {
                Some(i) => i < self.entries@.len() && self.entries@[i as int].shader_path@ == shader_path@
                    && self.cached().dom().contains(shader_path@) && self.cached()[shader_path@]
                    == self.entries@[i as int].entry,
                None => !self.cached().dom().contains(shader_path@),
            },
    {
        let n = self.entries.len();
        let mut i: usize = 0;
        while i < n
            invariant
                self.wf(),
                n == self.entries@.len(),
                i <= n,
                forall|j: int| 0 <= j < i ==> self.entries@[j].shader_path@ != shader_path@,
            decreases n - i,
        {
            if bytes_eq(self.entries[i].shader_path.as_slice(), shader_path) {
                proof {
                    lemma_assoc_index(self.entry_seq(), i as int);
                }
                return Some(i);
            }
            i = i + 1;
        }
        proof {
            if self.cached().dom().contains(shader_path@) {
                let j = lemma_assoc_dom(self.entry_seq(), shader_path@);
                assert(self.entries@[j].shader_path@ == shader_path@);
            }
        }
        None
    }

    /// The entry cached for `shader_path`, if any.
    pub fn get(&self, shader_path: &[u8]) -> (r: Option<&E>)
        requires
            self.wf(),
        ensures
            match r {
                Some(e) => self.cached().dom().contains(shader_path@) && *e == self.cached()[shader_path@],
                None => !self.cached().dom().contains(shader_path@),
            },
    {
        match self.find(shader_path) {
            Some(i) => Some(&self.entries[i].entry),
            None => None,
        }
    }

    /// Whether `shader_path` has a cached entry.
    pub fn contains(&self, shader_path: &[u8]) -> (b: bool)
        requires
            self.wf(),
        ensures
            b == self.cached().dom().contains(shader_path@),
    {
        self.find(shader_path).is_some()
    }

    /// Return the cached entry of `shader_path`; when there is none, call
    /// `create` (once) and cache what it returns.
    pub fn get_or_create<F: FnOnce() -> E>(&mut self, shader_path: &[u8], create: F) -> (r: &E)
        requires
            old(self).wf(),
            create.requires(()),
        ensures
            final(self).wf(),
            final(self).cached().dom().contains(shader_path@),
            *r == final(self).cached()[shader_path@],
            old(self).cached().dom().contains(shader_path@) ==> final(self).cached() == old(self).cached(),
            !old(self).cached().dom().contains(shader_path@) ==> create.ensures((), *r) && final(self).cached()
                == old(self).cached().insert(shader_path@, *r),
    {
        match self.find(shader_path) {
            Some(i) => &self.entries[i].entry,
            None => {
                let entry = create();
                let path = copy_bytes(shader_path);
                let ghost s0 = self.entry_seq();
                proof {
                    lemma_assoc_push(s0, shader_path@, entry);
                }
                self.entries.push(CachedPipeline { shader_path: path, entry });
                proof {
                    assert(self.entry_seq() =~= s0.push((shader_path@, entry)));
                }
                let n = self.entries.len();
                proof {
                    lemma_assoc_index(self.entry_seq(), n - 1);
                }
                &self.entries[n - 1].entry
            },
        }
    }

    /// Remove the cached entry of `shader_path`, so that the next
    /// `get_or_create` compiles it again; whether there was one.
    pub fn invalidate(&mut self, shader_path: &[u8]) -> (removed: bool)
        requires
            old(self).wf(),
        ensures
            final(self).wf(),
            removed == old(self).cached().dom().contains(shader_path@),
            final(self).cached() == old(self).cached().remove(shader_path@),
    {
        match self.find(shader_path) {
            Some(i) => {
                let ghost s0 = self.entry_seq();
                proof {
                    lemma_assoc_remove(s0, i as int);
                }
                let _gone = self.entries.remove(i);
                proof {
                    assert(self.entry_seq() =~= s0.remove(i as int));
                }
                true
            },
            None => {
                proof {
                    assert(self.cached().remove(shader_path@) =~= self.cached());
                }
                false
            },
        }
    }

    /// Rebuild the entry of `shader_path` in place: `recompile` gets the
    /// cached entry and returns its replacement.  Returns `false`, changing
    /// nothing, when the path is not cached (the caller should create it
    /// fresh).
    pub fn rebuild<F: FnOnce(&E) -> E>(&mut self, shader_path: &[u8], recompile: F) -> (rebuilt: bool)
        requires
            old(self).wf(),
            old(self).cached().dom().contains(shader_path@) ==> recompile.requires((&old(self).cached()[shader_path@],)),
        ensures
            final(self).wf(),
            rebuilt == old(self).cached().dom().contains(shader_path@),
            rebuilt ==> exists|e: E|
                recompile.ensures((&old(self).cached()[shader_path@],), e) && final(self).cached() == old(
                    self,
                ).cached().insert(shader_path@, e),
            !rebuilt ==> final(self).cached() == old(self).cached(),
    {
        match self.find(shader_path) {
            Some(i) => {
                let ghost s0 = self.entry_seq();
                let old_entry = self.entries.remove(i);
                let entry = recompile(&old_entry.entry);
                let ghost s1 = s0.remove(i as int);
                proof {
                    assert(self.entry_seq() =~= s1);
                    lemma_assoc_remove(s0, i as int);
                    assert(s0[i as int] == (shader_path@, old_entry.entry));
                    lemma_assoc_push(s1, shader_path@, entry);
                }
                self.entries.push(CachedPipeline { shader_path: old_entry.shader_path, entry });
                proof {
                    assert(self.entry_seq() =~= s1.push((shader_path@, entry)));
                    assert(assoc_map(s0).remove(shader_path@).insert(shader_path@, entry) =~= assoc_map(s0).insert(
                        shader_path@,
                        entry,
                    ));
                }
                true
            },
            None => false,
        }
    }

    /// The cached shader paths, each once.
    pub fn shader_paths(&self) -> (paths: Vec<Vec<u8>>)
        requires
            self.wf(),
        ensures
            forall|i: int| 0 <= i < paths@.len() ==> self.cached().dom().contains(#[trigger] paths@[i]@),
            forall|k: Seq<u8>| #[trigger] self.cached().dom().contains(k) ==> exists|i: int|
                0 <= i < paths@.len() && paths@[i]@ == k,
            forall|i: int, j: int| 0 <= i < j < paths@.len() ==> #[trigger] paths@[i]@ != #[trigger] paths@[j]@,
    {
        let mut paths: Vec<Vec<u8>> = Vec::new();
        let n = self.entries.len();
        let mut i: usize = 0;
        while i < n
            invariant
                self.wf(),
                n == self.entries@.len(),
                i <= n,
                paths@.len() == i,
                forall|j: int| 0 <= j < i ==> #[trigger] paths@[j]@ == self.entries@[j].shader_path@,
            decreases n - i,
        {
            paths.push(copy_bytes(self.entries[i].shader_path.as_slice()));
            i = i + 1;
        }
        proof {
            assert forall|j: int| 0 <= j < paths@.len() implies self.cached().dom().contains(#[trigger] paths@[j]@) by {
                lemma_assoc_index(self.entry_seq(), j);
            }
            assert forall|k: Seq<u8>| #[trigger] self.cached().dom().contains(k) implies exists|j: int|
                0 <= j < paths@.len() && paths@[j]@ == k by {
                let j = lemma_assoc_dom(self.entry_seq(), k);
                assert(paths@[j]@ == k);
            }
            assert forall|a: int, b: int| 0 <= a < b < paths@.len() implies #[trigger] paths@[a]@ != #[trigger] paths@[b]@ by {
                assert(self.entry_seq()[a].0 != self.entry_seq()[b].0);
            }
        }
        paths
    }

    /// Number of cached pipelines.
    pub fn len(&self) -> (n: usize)
        requires
            self.wf(),
        ensures
            n == self.cached().dom().len(),
    {
        proof {
            self.lemma_len();
        }
        self.entries.len()
    }

    /// Whether no pipeline is cached.
    pub fn is_empty(&self) -> (b: bool)
        requires
            self.wf(),
        ensures
            b == (self.cached().dom().len() == 0),
    {
        proof {
            self.lemma_len();
        }
        self.entries.len() == 0
    }

    proof fn lemma_len(&self)
        requires
            self.wf(),
        ensures
            self.cached().dom().finite(),
            self.cached().dom().len() == self.entries@.len(),
    {
        let s = self.entry_seq();
        let keys = s.map_values(|p: (Seq<u8>, E)| p.0);
        assert forall|a: int, b: int| 0 <= a < keys.len() && 0 <= b < keys.len() && a != b implies keys[a] != keys[b] by {
            if a < b {
                assert(s[a].0 != s[b].0);
            } else {
                assert(s[b].0 != s[a].0);
            }
        }
        assert(keys.no_duplicates());
        keys.unique_seq_to_set();
        assert forall|k: Seq<u8>| #[trigger] self.cached().dom().contains(k) == keys.to_set().contains(k) by {
            if self.cached().dom().contains(k) {
                let j = lemma_assoc_dom(s, k);
                assert(keys[j] == k);
            }
            if keys.to_set().contains(k) {
                let j = choose|j: int| 0 <= j < keys.len() && keys[j] == k;
                assert(s[j].0 == k);
            }
        }
        assert(self.cached().dom() =~= keys.to_set());
    }
}

impl<E> Default for PipelineCache<E> {
    fn default() -> (c: Self)
        ensures
            c.wf(),
            c.cached() == Map::<Seq<u8>, E>::empty(),
    {
        Self::new()
    }
}

/// After `invalidate`, the path has no entry, so the next `get_or_create`
/// for it calls its compiler again; every other path keeps its entry.
pub proof fn lemma_invalidate_then_recompile<E>(before: PipelineCache<E>, after: PipelineCache<E>, path: Seq<u8>, other: Seq<u8>)
    requires
        after.cached() == before.cached().remove(path),
    ensures
        !after.cached().dom().contains(path),
        other != path ==> after.cached().dom().contains(other) == before.cached().dom().contains(other),
        other != path && before.cached().dom().contains(other) ==> after.cached()[other] == before.cached()[other],
{
}

/// Source of bind-group layout identifiers: counts up from 1.
pub struct LayoutIdSource {
    next: u64,
}

impl LayoutIdSource {
    /// The identifier the next call hands out.
    pub closed spec fn peek(&self) -> u64 {
        self.next
    }

    /// A source starting at 1.
    pub fn new() -> (s: Self)
        ensures
            s.peek() == 1,
    {
        LayoutIdSource { next: 1 }
    }
}

/// Hand out the next layout identifier and advance the source (wrapping
/// after `u64::MAX`, as an atomic fetch-and-add does).
pub fn next_layout_id(source: &mut LayoutIdSource) -> (id: u64)
    ensures
        id == old(source).peek(),
        final(source).peek() == vstd::wrapping::u64_specs::wrapping_add(old(source).peek(), 1),
{
    let id = source.next;
    source.next = source.next.wrapping_add(1);
    id
}

/// Identifiers come out in increasing order: when a call hands out `id`
/// from a source whose counter is below `u64::MAX`, the source then holds
/// `id + 1`, so the next call hands out a larger identifier.
pub proof fn lemma_layout_ids_increase(before: LayoutIdSource, after: LayoutIdSource, id: u64)
    requires
        id == before.peek(),
        after.peek() == vstd::wrapping::u64_specs::wrapping_add(before.peek(), 1),
        before.peek() < u64::MAX,
    ensures
        after.peek() == id + 1,
        after.peek() > id,
{
}

} // verus!
