//! The query engine: the two caches of one compilation session, side by side.
use crate::freshness::{fingerprints_view, is_fresh};
use crate::module_cache::{entry_key, ModuleCache, ModuleCacheEntry, ModuleCacheKey, ModuleEntryView};
use crate::path::ModulePath;
use crate::programs_cache::{ProgramsCache, ProgramsCacheEntry};
use std::sync::Arc;
use vstd::prelude::*;

verus! {

/// The caches of one compilation session: module metadata keyed by path and
/// include-tests flag, program artifacts keyed by path. The two are
/// independent; no operation touches both.
pub struct QueryEngine<P, E, W> {
    parse_module_cache: ModuleCache,
    programs_cache: ProgramsCache<P, E, W>,
}

impl<P, E, W> QueryEngine<P, E, W> {
    /// Both caches are well formed.
    pub closed spec fn wf(&self) -> bool {
        self.parse_module_cache.wf() && self.programs_cache.wf()
    }

    /// The module metadata cache, as a map.
    pub closed spec fn modules(&self) -> Map<(Seq<char>, bool), ModuleEntryView> {
        self.parse_module_cache@
    }

    /// The program artifact cache, as a map.
    pub closed spec fn programs(&self) -> Map<Seq<char>, ProgramsCacheEntry<P, E, W>> {
        self.programs_cache@
    }

    /// An engine with both caches empty.
    pub fn new() -> (r: Self)
        ensures
            r.wf(),
            r.modules() == Map::<(Seq<char>, bool), ModuleEntryView>::empty(),
            r.programs() == Map::<Seq<char>, ProgramsCacheEntry<P, E, W>>::empty(),
    {
        QueryEngine { parse_module_cache: ModuleCache::new(), programs_cache: ProgramsCache::new() }
    }

    /// A copy of the module metadata stored under `path`, or `None`.
    pub fn get_parse_module_cache_entry(&self, path: &ModuleCacheKey) -> (r: Option<ModuleCacheEntry>)
        requires
            self.wf(),
        ensures
            match r {
                Some(e) => self.modules().contains_key(path@) && e@ == self.modules()[path@],
                None => !self.modules().contains_key(path@),
            },
    {
        self.parse_module_cache.lookup(path)
    }

    /// Stores `entry` under the key made of its path and include-tests flag,
    /// replacing whatever was stored there.
    pub fn insert_parse_module_cache_entry(&mut self, entry: ModuleCacheEntry)
        requires
            old(self).wf(),
        ensures
            final(self).wf(),
            final(self).modules() == old(self).modules().insert(entry_key(entry@), entry@),
            final(self).programs() == old(self).programs(),
    {
        self.parse_module_cache.insert(entry);
    }

    /// The program artifact stored under `path`, or `None`.
    pub fn get_programs_cache_entry(&self, path: &ModulePath) -> (r: Option<
        Arc<ProgramsCacheEntry<P, E, W>>,
    >)
        requires
            self.wf(),
        ensures
            match r {
                Some(e) => self.programs().contains_key(path@) && *e == self.programs()[path@],
                None => !self.programs().contains_key(path@),
            },
    {
        self.programs_cache.lookup(path)
    }

    /// Stores `entry` under its path, replacing whatever was stored there,
    /// the earlier diagnostics included.
    pub fn insert_programs_cache_entry(&mut self, entry: ProgramsCacheEntry<P, E, W>)
        requires
            old(self).wf(),
        ensures
            final(self).wf(),
            final(self).programs() == old(self).programs().insert(entry.path@, entry),
            final(self).modules() == old(self).modules(),
    {
        self.programs_cache.insert(entry);
    }

    /// Whether the module with key `key` may be reused, given the current
    /// fingerprint of each module's source.
    pub fn is_module_fresh(&self, key: &ModuleCacheKey, current: &Vec<(ModulePath, u64)>) -> (r:
        bool)
        requires
            self.wf(),
        ensures
            r == is_fresh(self.modules(), fingerprints_view(current@), key@),
    {
        self.parse_module_cache.is_fresh(key, current)
    }

    /// An independent engine holding what this one holds now; later inserts
    /// into either leave the other unchanged.
    pub fn snapshot(&self) -> (r: Self)
        requires
            self.wf(),
        ensures
            r.wf(),
            r.modules() == self.modules(),
            r.programs() == self.programs(),
    {
        QueryEngine {
            parse_module_cache: self.parse_module_cache.snapshot(),
            programs_cache: self.programs_cache.snapshot(),
        }
    }
}

} // verus!
