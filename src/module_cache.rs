//! The module metadata cache: for each (path, include-tests) key, the
//! fingerprint of the module's source and the paths it depends on.
use crate::path::{paths_view, same_path, share, share_all, ModulePath};
use vstd::prelude::*;

verus! {

/// The identity of a module metadata entry: a module compiled with tests is a
/// different entry from the same module compiled without them.
#[derive(Debug, Clone, Hash, PartialEq, Eq)]
pub struct ModuleCacheKey {
    pub path: ModulePath,
    pub include_tests: bool,
}

impl View for ModuleCacheKey {
    type V = (Seq<char>, bool);

    open spec fn view(&self) -> (Seq<char>, bool) {
        (self.path@, self.include_tests)
    }
}

impl ModuleCacheKey {
    pub fn new(path: ModulePath, include_tests: bool) -> (r: Self)
        ensures
            r.path == path,
            r.include_tests == include_tests,
            r@ == (path@, include_tests),
    {
        Self { path, include_tests }
    }
}

/// A last-modified timestamp, as the time elapsed since the Unix epoch.
#[derive(Debug, Clone, Copy, PartialEq, Eq, Structural)]
pub struct ModifiedTime {
    pub secs: u64,
    pub nanos: u32,
}

/// What is recorded of a module after it was parsed.
#[derive(Debug, Clone)]
pub struct ModuleCacheEntry {
    pub path: ModulePath,
    /// Absent where the source has no timestamp (an in-memory source).
    pub modified_time: Option<ModifiedTime>,
    /// Fingerprint of the module's source text.
    pub hash: u64,
    pub dependencies: Vec<ModulePath>,
    pub include_tests: bool,
}

/// The mathematical value of a `ModuleCacheEntry`.
pub struct ModuleEntryView {
    pub path: Seq<char>,
    pub modified_time: Option<ModifiedTime>,
    pub hash: u64,
    pub dependencies: Seq<Seq<char>>,
    pub include_tests: bool,
}

impl View for ModuleCacheEntry {
    type V = ModuleEntryView;

    open spec fn view(&self) -> ModuleEntryView {
        ModuleEntryView {
            path: self.path@,
            modified_time: self.modified_time,
            hash: self.hash,
            dependencies: paths_view(self.dependencies@),
            include_tests: self.include_tests,
        }
    }
}

/// The key under which an entry is stored.
pub open spec fn entry_key(e: ModuleEntryView) -> (Seq<char>, bool) {
    (e.path, e.include_tests)
}

impl ModuleCacheEntry {
    /// The key under which this entry is stored.
    pub fn key(&self) -> (r: ModuleCacheKey)
        ensures
            r@ == entry_key(self@),
    {
        ModuleCacheKey::new(share(&self.path), self.include_tests)
    }

    /// A copy of this entry; paths are shared, not duplicated.
    pub fn duplicate(&self) -> (r: Self)
        ensures
            r@ == self@,
    {
        let r = ModuleCacheEntry {
            path: share(&self.path),
            modified_time: self.modified_time,
            hash: self.hash,
            dependencies: share_all(&self.dependencies),
            include_tests: self.include_tests,
        };
        assert(r@.dependencies =~= self@.dependencies);
        r
    }
}

/// The map that a list of entries denotes: each entry under its key, a later
/// entry replacing an earlier one with the same key.
pub open spec fn map_of(s: Seq<ModuleEntryView>) -> Map<(Seq<char>, bool), ModuleEntryView>
    decreases s.len(),
{
    if s.len() == 0 {
        Map::empty()
    } else {
        map_of(s.drop_last()).insert(entry_key(s.last()), s.last())
    }
}

/// No two entries of the list share a key.
pub open spec fn keys_unique(s: Seq<ModuleEntryView>) -> bool {
    forall|i: int, j: int|
        0 <= i < j < s.len() ==> entry_key(#[trigger] s[i]) != entry_key(#[trigger] s[j])
}

proof fn lemma_map_of_dom(s: Seq<ModuleEntryView>, k: (Seq<char>, bool))
    ensures
        map_of(s).dom().finite(),
        map_of(s).contains_key(k) <==> exists|i: int| 0 <= i < s.len() && entry_key(s[i]) == k,
    decreases s.len(),
{
    if s.len() > 0 {
        let d = s.drop_last();
        lemma_map_of_dom(d, k);
        if map_of(d).contains_key(k) {
            let i = choose|i: int| 0 <= i < d.len() && entry_key(d[i]) == k;
            assert(s[i] == d[i]);
        }
        if exists|i: int| 0 <= i < s.len() && entry_key(s[i]) == k {
            let i = choose|i: int| 0 <= i < s.len() && entry_key(s[i]) == k;
            if i < s.len() - 1 {
                assert(d[i] == s[i]);
            }
        }
    }
}

proof fn lemma_map_of_len(s: Seq<ModuleEntryView>)
    requires
        keys_unique(s),
    ensures
        map_of(s).dom().len() == s.len(),
    decreases s.len(),
{
    if s.len() > 0 {
        let d = s.drop_last();
        assert(keys_unique(d)) by {
            assert forall|i: int, j: int| 0 <= i < j < d.len() implies entry_key(d[i]) != entry_key(
                d[j],
            ) by {
                assert(d[i] == s[i] && d[j] == s[j]);
            }
        }
        lemma_map_of_len(d);
        lemma_map_of_dom(d, entry_key(s.last()));
        if map_of(d).contains_key(entry_key(s.last())) {
            let i = choose|i: int| 0 <= i < d.len() && entry_key(d[i]) == entry_key(s.last());
            assert(s[i] == d[i]);
            assert(entry_key(s[i]) != entry_key(s[s.len() - 1]));
        }
    }
}

proof fn lemma_map_of_at(s: Seq<ModuleEntryView>, i: int)
    requires
        keys_unique(s),
        0 <= i < s.len(),
    ensures
        map_of(s).contains_key(entry_key(s[i])),
        map_of(s)[entry_key(s[i])] == s[i],
    decreases s.len(),
{
    if i < s.len() - 1 {
        let d = s.drop_last();
        assert(keys_unique(d)) by {
            assert forall|a: int, b: int| 0 <= a < b < d.len() implies entry_key(d[a]) != entry_key(
                d[b],
            ) by {
                assert(d[a] == s[a] && d[b] == s[b]);
            }
        }
        assert(d[i] == s[i]);
        lemma_map_of_at(d, i);
        assert(entry_key(s[i]) != entry_key(s[s.len() - 1]));
    }
}

proof fn lemma_map_of_update(s: Seq<ModuleEntryView>, i: int, e: ModuleEntryView)
    requires
        keys_unique(s),
        0 <= i < s.len(),
        entry_key(s[i]) == entry_key(e),
    ensures
        map_of(s.update(i, e)) == map_of(s).insert(entry_key(e), e),
    decreases s.len(),
{
    let u = s.update(i, e);
    let d = s.drop_last();
    if i == s.len() - 1 {
        assert(u.drop_last() =~= d);
        assert(map_of(u) =~= map_of(s).insert(entry_key(e), e));
    } else {
        assert(keys_unique(d)) by {
            assert forall|a: int, b: int| 0 <= a < b < d.len() implies entry_key(d[a]) != entry_key(
                d[b],
            ) by {
                assert(d[a] == s[a] && d[b] == s[b]);
            }
        }
        assert(u.drop_last() =~= d.update(i, e));
        lemma_map_of_update(d, i, e);
        assert(entry_key(s[i]) != entry_key(s[s.len() - 1]));
        assert(map_of(u) =~= map_of(s).insert(entry_key(e), e));
    }
}

/// The module metadata cache. Its value is a finite map from keys to entries;
/// each entry is stored under the key made of its own path and flag.
pub struct ModuleCache {
    entries: Vec<ModuleCacheEntry>,
}

impl View for ModuleCache {
    type V = Map<(Seq<char>, bool), ModuleEntryView>;

    closed spec fn view(&self) -> Map<(Seq<char>, bool), ModuleEntryView> {
        map_of(self.entry_views())
    }
}

impl ModuleCache {
    spec fn entry_views(&self) -> Seq<ModuleEntryView> {
        self.entries@.map_values(|e: ModuleCacheEntry| e@)
    }

    /// No two stored entries share a key.
    pub closed spec fn wf(&self) -> bool {
        keys_unique(self.entry_views())
    }

    /// Every key of the cache is the key of the entry stored under it, and
    /// the cache holds finitely many entries.
    pub proof fn lemma_well_formed(&self)
        requires
            self.wf(),
        ensures
            self@.dom().finite(),
            forall|k: (Seq<char>, bool)| #[trigger]
                self@.contains_key(k) ==> entry_key(self@[k]) == k,
    {
        lemma_map_of_dom(self.entry_views(), (Seq::empty(), false));
        assert forall|k: (Seq<char>, bool)| #[trigger]
            self@.contains_key(k) implies entry_key(self@[k]) == k by {
            lemma_map_of_dom(self.entry_views(), k);
            let i = choose|i: int|
                0 <= i < self.entry_views().len() && entry_key(self.entry_views()[i]) == k;
            lemma_map_of_at(self.entry_views(), i);
        }
    }

    /// An empty cache.
    pub fn new() -> (r: Self)
        ensures
            r.wf(),
            r@ == Map::<(Seq<char>, bool), ModuleEntryView>::empty(),
    {
        let r = ModuleCache { entries: Vec::new() };
        assert(r.entry_views() =~= Seq::<ModuleEntryView>::empty());
        r
    }

    /// The number of entries.
    pub fn len(&self) -> (r: usize)
        requires
            self.wf(),
        ensures
            r == self@.dom().len(),
    {
        proof {
            lemma_map_of_len(self.entry_views());
        }
        self.entries.len()
    }

    /// Where the entry with the given key stands, if anywhere.
    fn position(&self, path: &ModulePath, include_tests: bool) -> (r: Option<usize>)
        ensures
            match r {
                Some(i) => i < self.entries.len() && entry_key(self.entry_views()[i as int]) == (
                path@,
                include_tests,
                ),
                None => forall|i: int|
                    0 <= i < self.entries.len() ==> entry_key(#[trigger] self.entry_views()[i])
                        != (path@, include_tests),
            },
    {
        let mut i: usize = 0;
        while i < self.entries.len()
            invariant
                i <= self.entries.len(),
                forall|j: int|
                    0 <= j < i ==> entry_key(#[trigger] self.entry_views()[j]) != (
                    path@,
                    include_tests,
                    ),
            decreases self.entries.len() - i,
        {
            let e = &self.entries[i];
            if e.include_tests == include_tests && same_path(&e.path, path) {
                return Some(i);
            }
            i = i + 1;
        }
        None
    }

    /// A copy of the entry stored under `key`, or `None` where there is none.
    pub fn lookup(&self, key: &ModuleCacheKey) -> (r: Option<ModuleCacheEntry>)
        requires
            self.wf(),
        ensures
            match r {
                Some(e) => self@.contains_key(key@) && e@ == self@[key@],
                None => !self@.contains_key(key@),
            },
    {
        proof {
            lemma_map_of_dom(self.entry_views(), key@);
        }
        match self.position(&key.path, key.include_tests) {
            Some(i) => {
                proof {
                    lemma_map_of_at(self.entry_views(), i as int);
                }
                Some(self.entries[i].duplicate())
            },
            None => None,
        }
    }

    /// Stores `entry` under its own key, replacing whatever was stored there.
    pub fn insert(&mut self, entry: ModuleCacheEntry)
        requires
            old(self).wf(),
        ensures
            final(self).wf(),
            final(self)@ == old(self)@.insert(entry_key(entry@), entry@),
    {
        let ghost s = self.entry_views();
        match self.position(&entry.path, entry.include_tests) {
            Some(i) => {
                proof {
                    lemma_map_of_update(s, i as int, entry@);
                }
                self.entries.set(i, entry);
                assert(self.entry_views() =~= s.update(i as int, entry@));
                assert(keys_unique(self.entry_views())) by {
                    let u = self.entry_views();
                    assert forall|a: int, b: int| 0 <= a < b < u.len() implies entry_key(u[a])
                        != entry_key(u[b]) by {
                        assert(entry_key(u[a]) == entry_key(s[a]));
                        assert(entry_key(u[b]) == entry_key(s[b]));
                    }
                }
            },
            None => {
                self.entries.push(entry);
                assert(self.entry_views().drop_last() =~= s);
                assert(keys_unique(self.entry_views())) by {
                    let u = self.entry_views();
                    assert forall|a: int, b: int| 0 <= a < b < u.len() implies entry_key(u[a])
                        != entry_key(u[b]) by {
                        assert(u[a] == s[a]);
                        if b < s.len() {
                            assert(u[b] == s[b]);
                        }
                    }
                }
            },
        }
    }

    /// A copy of the whole cache, taken entry by entry.
    pub fn snapshot(&self) -> (r: Self)
        requires
            self.wf(),
        ensures
            r.wf(),
            r@ == self@,
    {
        let mut copies: Vec<ModuleCacheEntry> = Vec::new();
        let mut i: usize = 0;
        while i < self.entries.len()
            invariant
                i <= self.entries.len(),
                copies.len() == i,
                forall|j: int| 0 <= j < i ==> (#[trigger] copies@[j])@ == self.entry_views()[j],
            decreases self.entries.len() - i,
        {
            copies.push(self.entries[i].duplicate());
            i = i + 1;
        }
        let r = ModuleCache { entries: copies };
        assert(r.entry_views() =~= self.entry_views());
        r
    }
}

} // verus!

verus! {

/// The map after inserting each entry of `es`, in order, into `m`.
pub open spec fn insert_all(
    m: Map<(Seq<char>, bool), ModuleEntryView>,
    es: Seq<ModuleEntryView>,
) -> Map<(Seq<char>, bool), ModuleEntryView>
    decreases es.len(),
{
    if es.len() == 0 {
        m
    } else {
        insert_all(m, es.drop_last()).insert(entry_key(es.last()), es.last())
    }
}

/// A key that was not present and under which nothing was inserted is still
/// not present.
pub proof fn lemma_absent_unless_inserted(
    m: Map<(Seq<char>, bool), ModuleEntryView>,
    es: Seq<ModuleEntryView>,
    k: (Seq<char>, bool),
)
    requires
        !m.contains_key(k),
        forall|i: int| 0 <= i < es.len() ==> entry_key(#[trigger] es[i]) != k,
    ensures
        !insert_all(m, es).contains_key(k),
    decreases es.len(),
{
    if es.len() > 0 {
        let d = es.drop_last();
        assert forall|i: int| 0 <= i < d.len() implies entry_key(#[trigger] d[i]) != k by {
            assert(d[i] == es[i]);
        }
        lemma_absent_unless_inserted(m, d, k);
        assert(entry_key(es[es.len() - 1]) != k);
    }
}

/// After an entry is inserted, looking up its key gives that entry.
pub proof fn lemma_lookup_after_insert(
    m: Map<(Seq<char>, bool), ModuleEntryView>,
    e: ModuleEntryView,
)
    ensures
        m.insert(entry_key(e), e).contains_key(entry_key(e)),
        m.insert(entry_key(e), e)[entry_key(e)] == e,
{
}

/// A second entry under the same key replaces the first entirely: nothing of
/// the first remains observable.
pub proof fn lemma_insert_replaces(
    m: Map<(Seq<char>, bool), ModuleEntryView>,
    first: ModuleEntryView,
    second: ModuleEntryView,
)
    requires
        entry_key(first) == entry_key(second),
    ensures
        m.insert(entry_key(first), first).insert(entry_key(second), second) == m.insert(
            entry_key(second),
            second,
        ),
{
    assert(m.insert(entry_key(first), first).insert(entry_key(second), second) =~= m.insert(
        entry_key(second),
        second,
    ));
}

/// Entries for one path with and without tests are independent: inserting
/// one leaves what is stored under the other unchanged.
pub proof fn lemma_include_tests_independent(
    m: Map<(Seq<char>, bool), ModuleEntryView>,
    e: ModuleEntryView,
)
    ensures
        m.insert(entry_key(e), e).contains_key((e.path, !e.include_tests)) == m.contains_key(
            (e.path, !e.include_tests),
        ),
        m.insert(entry_key(e), e)[(e.path, !e.include_tests)] == m[(e.path, !e.include_tests)],
{
}

/// Inserting entries with pairwise distinct keys, in any order, into an
/// empty cache leaves exactly those entries, each retrievable under its key.
pub proof fn lemma_distinct_inserts(es: Seq<ModuleEntryView>)
    requires
        keys_unique(es),
    ensures
        insert_all(Map::empty(), es).dom().len() == es.len(),
        forall|i: int|
            0 <= i < es.len() ==> insert_all(Map::empty(), es).contains_key(entry_key(#[trigger] es[i]))
                && insert_all(Map::empty(), es)[entry_key(es[i])] == es[i],
{
    lemma_insert_all_empty(es);
    lemma_map_of_len(es);
    assert forall|i: int| 0 <= i < es.len() implies insert_all(Map::empty(), es).contains_key(
        entry_key(#[trigger] es[i]),
    ) && insert_all(Map::empty(), es)[entry_key(es[i])] == es[i] by {
        lemma_map_of_at(es, i);
    }
}

proof fn lemma_insert_all_empty(es: Seq<ModuleEntryView>)
    ensures
        insert_all(Map::empty(), es) == map_of(es),
    decreases es.len(),
{
    if es.len() > 0 {
        lemma_insert_all_empty(es.drop_last());
    }
}

} // verus!
