//! The program artifact cache: for each module path, the program built from
//! the module and the diagnostics of that build.
use crate::path::{same_path, share, share_all, ModulePath};
use std::sync::Arc;
use vstd::prelude::*;

verus! {

/// What is kept of a module after it was analysed: the program built from it,
/// of type `P`, and the errors (`E`) and warnings (`W`) of that build.
#[derive(Debug)]
pub struct ProgramsCacheEntry<P, E, W> {
    pub path: ModulePath,
    pub programs: P,
    pub handler_data: (Vec<E>, Vec<W>),
}

/// The map that a list of entries denotes: each entry under its path, a later
/// entry replacing an earlier one with the same path.
pub open spec fn programs_map_of<P, E, W>(s: Seq<ProgramsCacheEntry<P, E, W>>) -> Map<
    Seq<char>,
    ProgramsCacheEntry<P, E, W>,
>
    decreases s.len(),
{
    if s.len() == 0 {
        Map::empty()
    } else {
        programs_map_of(s.drop_last()).insert(s.last().path@, s.last())
    }
}

/// No two entries of the list have the same path.
pub open spec fn paths_unique<P, E, W>(s: Seq<ProgramsCacheEntry<P, E, W>>) -> bool {
    forall|i: int, j: int| 0 <= i < j < s.len() ==> (#[trigger] s[i]).path@ != (#[trigger] s[j]).path@
}

proof fn lemma_programs_map_of_dom<P, E, W>(s: Seq<ProgramsCacheEntry<P, E, W>>, k: Seq<char>)
    ensures
        programs_map_of(s).dom().finite(),
        programs_map_of(s).contains_key(k) <==> exists|i: int| 0 <= i < s.len() && s[i].path@ == k,
    decreases s.len(),
{
    if s.len() > 0 {
        let d = s.drop_last();
        lemma_programs_map_of_dom(d, k);
        if programs_map_of(d).contains_key(k) {
            let i = choose|i: int| 0 <= i < d.len() && d[i].path@ == k;
            assert(s[i] == d[i]);
        }
        if exists|i: int| 0 <= i < s.len() && s[i].path@ == k {
            let i = choose|i: int| 0 <= i < s.len() && s[i].path@ == k;
            if i < s.len() - 1 {
                assert(d[i] == s[i]);
            }
        }
    }
}

proof fn lemma_programs_map_of_at<P, E, W>(s: Seq<ProgramsCacheEntry<P, E, W>>, i: int)
    requires
        paths_unique(s),
        0 <= i < s.len(),
    ensures
        programs_map_of(s).contains_key(s[i].path@),
        programs_map_of(s)[s[i].path@] == s[i],
    decreases s.len(),
{
    if i < s.len() - 1 {
        let d = s.drop_last();
        assert(paths_unique(d)) by {
            assert forall|a: int, b: int| 0 <= a < b < d.len() implies d[a].path@ != d[b].path@ by {
                assert(d[a] == s[a] && d[b] == s[b]);
            }
        }
        assert(d[i] == s[i]);
        lemma_programs_map_of_at(d, i);
        assert(s[i].path@ != s[s.len() - 1].path@);
    }
}

proof fn lemma_programs_map_of_update<P, E, W>(
    s: Seq<ProgramsCacheEntry<P, E, W>>,
    i: int,
    e: ProgramsCacheEntry<P, E, W>,
)
    requires
        paths_unique(s),
        0 <= i < s.len(),
        s[i].path@ == e.path@,
    ensures
        programs_map_of(s.update(i, e)) == programs_map_of(s).insert(e.path@, e),
    decreases s.len(),
{
    let u = s.update(i, e);
    let d = s.drop_last();
    if i == s.len() - 1 {
        assert(u.drop_last() =~= d);
        assert(programs_map_of(u) =~= programs_map_of(s).insert(e.path@, e));
    } else {
        assert(paths_unique(d)) by {
            assert forall|a: int, b: int| 0 <= a < b < d.len() implies d[a].path@ != d[b].path@ by {
                assert(d[a] == s[a] && d[b] == s[b]);
            }
        }
        assert(u.drop_last() =~= d.update(i, e));
        lemma_programs_map_of_update(d, i, e);
        assert(s[i].path@ != s[s.len() - 1].path@);
        assert(programs_map_of(u) =~= programs_map_of(s).insert(e.path@, e));
    }
}

/// The program artifact cache. Its value is a finite map from paths to
/// entries; each entry is stored under its own path. Stored entries are
/// shared, never changed in place.
pub struct ProgramsCache<P, E, W> {
    entries: Vec<Arc<ProgramsCacheEntry<P, E, W>>>,
}

impl<P, E, W> View for ProgramsCache<P, E, W> {
    type V = Map<Seq<char>, ProgramsCacheEntry<P, E, W>>;

    closed spec fn view(&self) -> Map<Seq<char>, ProgramsCacheEntry<P, E, W>> {
        programs_map_of(self.stored())
    }
}

impl<P, E, W> ProgramsCache<P, E, W> {
    spec fn stored(&self) -> Seq<ProgramsCacheEntry<P, E, W>> {
        self.entries@.map_values(|e: Arc<ProgramsCacheEntry<P, E, W>>| *e)
    }

    /// No two stored entries have the same path.
    pub closed spec fn wf(&self) -> bool {
        paths_unique(self.stored())
    }

    /// The cache holds finitely many entries.
    pub proof fn lemma_finite(&self)
        ensures
            self@.dom().finite(),
    {
        lemma_programs_map_of_dom(self.stored(), Seq::empty());
    }

    /// An empty cache.
    pub fn new() -> (r: Self)
        ensures
            r.wf(),
            r@ == Map::<Seq<char>, ProgramsCacheEntry<P, E, W>>::empty(),
    {
        let r = ProgramsCache { entries: Vec::new() };
        assert(r.stored() =~= Seq::<ProgramsCacheEntry<P, E, W>>::empty());
        r
    }

    fn position(&self, path: &ModulePath) -> (r: Option<usize>)
        ensures
            match r {
                Some(i) => i < self.entries.len() && self.stored()[i as int].path@ == path@,
                None => forall|i: int|
                    0 <= i < self.entries.len() ==> (#[trigger] self.stored()[i]).path@ != path@,
            },
    {
        let mut i: usize = 0;
        while i < self.entries.len()
            invariant
                i <= self.entries.len(),
                forall|j: int| 0 <= j < i ==> (#[trigger] self.stored()[j]).path@ != path@,
            decreases self.entries.len() - i,
        {
            if same_path(&self.entries[i].path, path) {
                return Some(i);
            }
            i = i + 1;
        }
        None
    }

    /// The entry stored under `path`, shared, or `None` where there is none.
    pub fn lookup(&self, path: &ModulePath) -> (r: Option<Arc<ProgramsCacheEntry<P, E, W>>>)
        requires
            self.wf(),
        ensures
            match r {
                Some(e) => self@.contains_key(path@) && *e == self@[path@],
                None => !self@.contains_key(path@),
            },
    {
        proof {
            lemma_programs_map_of_dom(self.stored(), path@);
        }
        match self.position(path) {
            Some(i) => {
                proof {
                    lemma_programs_map_of_at(self.stored(), i as int);
                }
                Some(share(&self.entries[i]))
            },
            None => None,
        }
    }

    /// Stores `entry` under its path, replacing whatever was stored there,
    /// diagnostics included.
    pub fn insert(&mut self, entry: ProgramsCacheEntry<P, E, W>)
        requires
            old(self).wf(),
        ensures
            final(self).wf(),
            final(self)@ == old(self)@.insert(entry.path@, entry),
    {
        let ghost s = self.stored();
        let ghost e = entry;
        match self.position(&entry.path) {
            Some(i) => {
                proof {
                    lemma_programs_map_of_update(s, i as int, e);
                }
                self.entries.set(i, Arc::new(entry));
                assert(self.stored() =~= s.update(i as int, e));
                assert(paths_unique(self.stored())) by {
                    let u = self.stored();
                    assert forall|a: int, b: int| 0 <= a < b < u.len() implies u[a].path@
                        != u[b].path@ by {
                        assert(u[a].path@ == s[a].path@);
                        assert(u[b].path@ == s[b].path@);
                    }
                }
            },
            None => {
                self.entries.push(Arc::new(entry));
                assert(self.stored().drop_last() =~= s);
                assert(paths_unique(self.stored())) by {
                    let u = self.stored();
                    assert forall|a: int, b: int| 0 <= a < b < u.len() implies u[a].path@
                        != u[b].path@ by {
                        assert(u[a] == s[a]);
                        if b < s.len() {
                            assert(u[b] == s[b]);
                        }
                    }
                }
            },
        }
    }

    /// A copy of the whole cache; the stored entries are shared with it.
    pub fn snapshot(&self) -> (r: Self)
        requires
            self.wf(),
        ensures
            r.wf(),
            r@ == self@,
    {
        let r = ProgramsCache { entries: share_all(&self.entries) };
        assert(r.stored() =~= self.stored());
        r
    }
}

} // verus!
