//! The freshness policy: whether a module's cached metadata still reflects its
//! source, transitively through the modules it depends on.
use crate::module_cache::{ModuleCache, ModuleCacheKey, ModuleEntryView};
use crate::path::{paths_view, same_path, share, share_all, ModulePath};
use vstd::prelude::*;

verus! {

/// The current fingerprints, as (path, fingerprint) pairs.
pub open spec fn fingerprints_view(s: Seq<(ModulePath, u64)>) -> Seq<(Seq<char>, u64)> {
    s.map_values(|x: (ModulePath, u64)| (x.0@, x.1))
}

/// The current fingerprint of `p`: that of the first pair naming `p`.
pub open spec fn fingerprint_of(current: Seq<(Seq<char>, u64)>, p: Seq<char>) -> Option<u64>
    decreases current.len(),
{
    if current.len() == 0 {
        None
    } else if current[0].0 == p {
        Some(current[0].1)
    } else {
        fingerprint_of(current.drop_first(), p)
    }
}

/// The keys of the cache whose path is not on the stack.
pub open spec fn unvisited(
    cache: Map<(Seq<char>, bool), ModuleEntryView>,
    stack: Set<Seq<char>>,
) -> Set<(Seq<char>, bool)> {
    cache.dom().filter(|k: (Seq<char>, bool)| !stack.contains(k.0))
}

/// Whether the module at `path` is fresh while the modules of `stack` are
/// being checked: a module on the stack counts as fresh; any other is fresh
/// when it has an entry, its current fingerprint is the stored one, and each
/// of its dependencies is fresh with the module pushed on the stack.
/// Dependencies are looked up under the same include-tests flag.
pub open spec fn fresh_from(
    cache: Map<(Seq<char>, bool), ModuleEntryView>,
    current: Seq<(Seq<char>, u64)>,
    path: Seq<char>,
    include_tests: bool,
    stack: Set<Seq<char>>,
) -> bool
    decreases unvisited(cache, stack).len(),
    when cache.dom().finite()
    via fresh_from_decreases
{
    if stack.contains(path) {
        true
    } else if !cache.contains_key((path, include_tests)) {
        false
    } else {
        let e = cache[(path, include_tests)];
        &&& fingerprint_of(current, path) == Some(e.hash)
        &&& forall|i: int|
            0 <= i < e.dependencies.len() ==> fresh_from(
                cache,
                current,
                #[trigger] e.dependencies[i],
                include_tests,
                stack.insert(path),
            )
    }
}

/// Whether the module with key `key` is fresh.
pub open spec fn is_fresh(
    cache: Map<(Seq<char>, bool), ModuleEntryView>,
    current: Seq<(Seq<char>, u64)>,
    key: (Seq<char>, bool),
) -> bool {
    fresh_from(cache, current, key.0, key.1, Set::empty())
}

proof fn lemma_unvisited_shrinks(
    cache: Map<(Seq<char>, bool), ModuleEntryView>,
    path: Seq<char>,
    include_tests: bool,
    stack: Set<Seq<char>>,
)
    requires
        cache.dom().finite(),
        cache.contains_key((path, include_tests)),
        !stack.contains(path),
    ensures
        unvisited(cache, stack.insert(path)).len() < unvisited(cache, stack).len(),
{
    let a = unvisited(cache, stack);
    let b = unvisited(cache, stack.insert(path));
    let k = (path, include_tests);
    cache.dom().lemma_len_filter(|k: (Seq<char>, bool)| !stack.contains(k.0));
    assert(a.contains(k));
    assert(b.subset_of(a.remove(k)));
    vstd::set_lib::lemma_len_subset(b, a.remove(k));
}

#[via_fn]
proof fn fresh_from_decreases(
    cache: Map<(Seq<char>, bool), ModuleEntryView>,
    current: Seq<(Seq<char>, u64)>,
    path: Seq<char>,
    include_tests: bool,
    stack: Set<Seq<char>>,
) {
    if cache.dom().finite() && !stack.contains(path) && cache.contains_key((path, include_tests)) {
        lemma_unvisited_shrinks(cache, path, include_tests, stack);
    }
}

/// A module whose current fingerprint is the stored one and which depends on
/// nothing is fresh.
pub proof fn lemma_fresh_without_dependencies(
    cache: ModuleCache,
    current: Seq<(Seq<char>, u64)>,
    key: (Seq<char>, bool),
)
    requires
        cache.wf(),
        cache@.contains_key(key),
        cache@[key].dependencies.len() == 0,
        fingerprint_of(current, key.0) == Some(cache@[key].hash),
    ensures
        is_fresh(cache@, current, key),
{
    cache.lemma_well_formed();
}

/// A module whose current fingerprint is the stored one, but whose only
/// dependency has a current fingerprint other than its stored one, is not
/// fresh.
pub proof fn lemma_stale_dependency(
    cache: ModuleCache,
    current: Seq<(Seq<char>, u64)>,
    key: (Seq<char>, bool),
    dependency: Seq<char>,
)
    requires
        cache.wf(),
        cache@.contains_key(key),
        cache@[key].dependencies == seq![dependency],
        fingerprint_of(current, key.0) == Some(cache@[key].hash),
        cache@.contains_key((dependency, key.1)),
        fingerprint_of(current, dependency) != Some(cache@[(dependency, key.1)].hash),
    ensures
        !is_fresh(cache@, current, key),
{
    cache.lemma_well_formed();
    let stack = Set::<Seq<char>>::empty().insert(key.0);
    assert(dependency != key.0);
    assert(!fresh_from(cache@, current, dependency, key.1, stack));
    assert(cache@[key].dependencies[0] == dependency);
}

/// Two modules that depend on each other, each with its stored fingerprint
/// current, are both fresh: the walk stops at the cycle.
pub proof fn lemma_fresh_cycle(
    cache: ModuleCache,
    current: Seq<(Seq<char>, u64)>,
    a: Seq<char>,
    b: Seq<char>,
    include_tests: bool,
)
    requires
        cache.wf(),
        cache@.contains_key((a, include_tests)),
        cache@.contains_key((b, include_tests)),
        cache@[(a, include_tests)].dependencies == seq![b],
        cache@[(b, include_tests)].dependencies == seq![a],
        fingerprint_of(current, a) == Some(cache@[(a, include_tests)].hash),
        fingerprint_of(current, b) == Some(cache@[(b, include_tests)].hash),
    ensures
        is_fresh(cache@, current, (a, include_tests)),
        is_fresh(cache@, current, (b, include_tests)),
{
    cache.lemma_well_formed();
    let e = Set::<Seq<char>>::empty();
    let sa = e.insert(a);
    let sb = e.insert(b);
    assert(sa.insert(b).contains(a));
    assert(sb.insert(a).contains(b));
    assert(fresh_from(cache@, current, a, include_tests, sa.insert(b)));
    assert(fresh_from(cache@, current, b, include_tests, sb.insert(a)));
    if a != b {
        assert(fresh_from(cache@, current, b, include_tests, sa));
        assert(fresh_from(cache@, current, a, include_tests, sb));
    }
    assert(cache@[(a, include_tests)].dependencies[0] == b);
    assert(cache@[(b, include_tests)].dependencies[0] == a);
}

/// The current fingerprint of `path`, if the list has one.
pub fn current_fingerprint(current: &Vec<(ModulePath, u64)>, path: &ModulePath) -> (r: Option<u64>)
    ensures
        r == fingerprint_of(fingerprints_view(current@), path@),
{
    let ghost all = fingerprints_view(current@);
    let mut i: usize = 0;
    assert(all.subrange(0, all.len() as int) =~= all);
    while i < current.len()
        invariant
            i <= current.len(),
            all == fingerprints_view(current@),
            fingerprint_of(all, path@) == fingerprint_of(all.subrange(i as int, all.len() as int), path@),
        decreases current.len() - i,
    {
        proof {
            let rest = all.subrange(i as int, all.len() as int);
            assert(rest.drop_first() =~= all.subrange(i + 1, all.len() as int));
        }
        if same_path(&current[i].0, path) {
            return Some(current[i].1);
        }
        i = i + 1;
    }
    None
}

/// Whether `path` is one of the paths of `stack`.
fn on_stack(stack: &Vec<ModulePath>, path: &ModulePath) -> (r: bool)
    ensures
        r == paths_view(stack@).contains(path@),
{
    let mut i: usize = 0;
    while i < stack.len()
        invariant
            i <= stack.len(),
            forall|j: int| 0 <= j < i ==> paths_view(stack@)[j] != path@,
        decreases stack.len() - i,
    {
        if same_path(&stack[i], path) {
            assert(paths_view(stack@)[i as int] == path@);
            return true;
        }
        i = i + 1;
    }
    false
}

impl ModuleCache {
    fn fresh_from(
        &self,
        current: &Vec<(ModulePath, u64)>,
        path: &ModulePath,
        include_tests: bool,
        stack: &Vec<ModulePath>,
    ) -> (r: bool)
        requires
            self.wf(),
        ensures
            r == fresh_from(
                self@,
                fingerprints_view(current@),
                path@,
                include_tests,
                paths_view(stack@).to_set(),
            ),
        decreases unvisited(self@, paths_view(stack@).to_set()).len(),
    {
        let ghost cur = fingerprints_view(current@);
        let ghost set = paths_view(stack@).to_set();
        proof {
            self.lemma_well_formed();
        }
        if on_stack(stack, path) {
            return true;
        }
        let key = ModuleCacheKey::new(share(path), include_tests);
        let entry = match self.lookup(&key) {
            Some(e) => e,
            None => return false,
        };
        if current_fingerprint(current, path) != Some(entry.hash) {
            return false;
        }
        let mut next = share_all(stack);
        next.push(share(path));
        proof {
            assert(paths_view(next@) =~= paths_view(stack@).push(path@));
            let a = paths_view(stack@);
            let b = paths_view(next@);
            assert forall|x: Seq<char>| b.contains(x) == set.insert(path@).contains(x) by {
                if a.contains(x) {
                    let i = choose|i: int| 0 <= i < a.len() && a[i] == x;
                    assert(b[i] == x);
                }
                if b.contains(x) && x != path@ {
                    let i = choose|i: int| 0 <= i < b.len() && b[i] == x;
                    assert(a[i] == x);
                }
                if x == path@ {
                    assert(b[a.len() as int] == x);
                }
            }
            assert(b.to_set() =~= set.insert(path@));
            lemma_unvisited_shrinks(self@, path@, include_tests, set);
        }
        let mut i: usize = 0;
        while i < entry.dependencies.len()
            invariant
                self.wf(),
                i <= entry.dependencies.len(),
                self@.dom().finite(),
                self@.contains_key((path@, include_tests)),
                set == paths_view(stack@).to_set(),
                !set.contains(path@),
                cur == fingerprints_view(current@),
                entry@ == self@[(path@, include_tests)],
                paths_view(next@).to_set() == set.insert(path@),
                unvisited(self@, set.insert(path@)).len() < unvisited(self@, set).len(),
                forall|j: int|
                    0 <= j < i ==> fresh_from(
                        self@,
                        cur,
                        #[trigger] paths_view(entry.dependencies@)[j],
                        include_tests,
                        set.insert(path@),
                    ),
            decreases entry.dependencies.len() - i,
        {
            if !self.fresh_from(current, &entry.dependencies[i], include_tests, &next) {
                proof {
                    let e = self@[(path@, include_tests)];
                    assert(e.dependencies[i as int] == paths_view(entry.dependencies@)[i as int]);
                    assert(!set.contains(path@));
                    assert(!fresh_from(
                        self@,
                        cur,
                        e.dependencies[i as int],
                        include_tests,
                        set.insert(path@),
                    ));
                }
                return false;
            }
            i = i + 1;
        }
        true
    }

    /// Whether the module with key `key` is fresh, given the current
    /// fingerprint of each module's source. A module that has no entry, or
    /// whose current fingerprint is missing or differs from the stored one,
    /// is not fresh, and neither is one that depends on such a module. A
    /// dependency cycle ends the walk, counting as fresh.
    pub fn is_fresh(&self, key: &ModuleCacheKey, current: &Vec<(ModulePath, u64)>) -> (r: bool)
        requires
            self.wf(),
        ensures
            r == is_fresh(self@, fingerprints_view(current@), key@),
    {
        let stack: Vec<ModulePath> = Vec::new();
        assert(paths_view(stack@).to_set() =~= Set::empty());
        self.fresh_from(current, &key.path, key.include_tests, &stack)
    }
}

} // verus!
