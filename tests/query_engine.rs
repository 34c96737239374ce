use query_engine::{
    current_fingerprint, ModifiedTime, ModuleCache, ModuleCacheEntry, ModuleCacheKey, ModulePath,
    ProgramsCache, ProgramsCacheEntry, QueryEngine,
};
use std::sync::Arc;

type Engine = QueryEngine<String, String, String>;

fn path(s: &str) -> ModulePath {
    Arc::new(s.to_string())
}

fn entry(p: &str, hash: u64, deps: &[&str], include_tests: bool) -> ModuleCacheEntry {
    ModuleCacheEntry {
        path: path(p),
        modified_time: Some(ModifiedTime { secs: 1_700_000_000, nanos: 5 }),
        hash,
        dependencies: deps.iter().map(|d| path(d)).collect(),
        include_tests,
    }
}

fn same_entry(a: &ModuleCacheEntry, b: &ModuleCacheEntry) -> bool {
    a.path == b.path
        && a.modified_time == b.modified_time
        && a.hash == b.hash
        && a.dependencies == b.dependencies
        && a.include_tests == b.include_tests
}

fn key(p: &str, include_tests: bool) -> ModuleCacheKey {
    ModuleCacheKey::new(path(p), include_tests)
}

fn artifact(p: &str, program: &str, errors: &[&str], warnings: &[&str]) -> ProgramsCacheEntry<String, String, String> {
    ProgramsCacheEntry {
        path: path(p),
        programs: program.to_string(),
        handler_data: (
            errors.iter().map(|e| e.to_string()).collect(),
            warnings.iter().map(|w| w.to_string()).collect(),
        ),
    }
}

#[test]
fn key_new_keeps_fields() {
    let k = ModuleCacheKey::new(path("src/main.sw"), true);
    assert_eq!(*k.path, "src/main.sw");
    assert!(k.include_tests);
    assert_eq!(k, key("src/main.sw", true));
    assert_ne!(k, key("src/main.sw", false));
}

#[test]
fn lookup_of_key_never_inserted_is_none() {
    let mut engine: Engine = QueryEngine::new();
    assert!(engine.get_parse_module_cache_entry(&key("a.sw", false)).is_none());
    engine.insert_parse_module_cache_entry(entry("b.sw", 1, &[], false));
    assert!(engine.get_parse_module_cache_entry(&key("a.sw", false)).is_none());
    assert!(engine.get_programs_cache_entry(&path("a.sw")).is_none());
}

#[test]
fn lookup_after_insert_returns_equal_copy() {
    let mut engine: Engine = QueryEngine::new();
    let e = entry("a.sw", 42, &["b.sw", "c.sw"], false);
    engine.insert_parse_module_cache_entry(e.clone());
    let got = engine.get_parse_module_cache_entry(&key("a.sw", false)).unwrap();
    assert!(same_entry(&got, &e));
    assert_eq!(got.hash, 42);
    assert_eq!(got.dependencies.len(), 2);
    assert_eq!(*got.dependencies[1], "c.sw");
}

#[test]
fn second_insert_replaces_first() {
    let mut engine: Engine = QueryEngine::new();
    engine.insert_parse_module_cache_entry(entry("a.sw", 1, &["b.sw"], false));
    let mut second = entry("a.sw", 2, &[], false);
    second.modified_time = None;
    engine.insert_parse_module_cache_entry(second.clone());
    let got = engine.get_parse_module_cache_entry(&key("a.sw", false)).unwrap();
    assert!(same_entry(&got, &second));
    assert_eq!(got.hash, 2);
    assert!(got.dependencies.is_empty());
    assert!(got.modified_time.is_none());
}

#[test]
fn include_tests_variants_are_independent() {
    let mut engine: Engine = QueryEngine::new();
    engine.insert_parse_module_cache_entry(entry("a.sw", 1, &[], false));
    engine.insert_parse_module_cache_entry(entry("a.sw", 2, &["t.sw"], true));
    assert_eq!(engine.get_parse_module_cache_entry(&key("a.sw", false)).unwrap().hash, 1);
    let with_tests = engine.get_parse_module_cache_entry(&key("a.sw", true)).unwrap();
    assert_eq!(with_tests.hash, 2);
    assert_eq!(with_tests.dependencies.len(), 1);
}

#[test]
fn entry_key_and_duplicate() {
    let e = entry("a.sw", 9, &["b.sw"], true);
    assert_eq!(e.key(), key("a.sw", true));
    assert!(same_entry(&e.duplicate(), &e));
}

#[test]
fn fresh_when_fingerprint_matches_and_no_dependencies() {
    let mut engine: Engine = QueryEngine::new();
    engine.insert_parse_module_cache_entry(entry("a.sw", 7, &[], false));
    let current = vec![(path("a.sw"), 7u64)];
    assert!(engine.is_module_fresh(&key("a.sw", false), &current));
}

#[test]
fn not_fresh_when_fingerprint_changed() {
    let mut engine: Engine = QueryEngine::new();
    engine.insert_parse_module_cache_entry(entry("a.sw", 7, &[], false));
    let current = vec![(path("a.sw"), 8u64)];
    assert!(!engine.is_module_fresh(&key("a.sw", false), &current));
}

#[test]
fn not_fresh_without_entry_or_current_fingerprint() {
    let mut engine: Engine = QueryEngine::new();
    let current = vec![(path("a.sw"), 7u64)];
    assert!(!engine.is_module_fresh(&key("a.sw", false), &current));
    engine.insert_parse_module_cache_entry(entry("a.sw", 7, &[], false));
    assert!(!engine.is_module_fresh(&key("a.sw", true), &current));
    assert!(!engine.is_module_fresh(&key("a.sw", false), &vec![]));
}

#[test]
fn not_fresh_when_sole_dependency_changed() {
    let mut engine: Engine = QueryEngine::new();
    engine.insert_parse_module_cache_entry(entry("a.sw", 1, &["b.sw"], false));
    engine.insert_parse_module_cache_entry(entry("b.sw", 2, &[], false));
    let changed = vec![(path("a.sw"), 1u64), (path("b.sw"), 3u64)];
    assert!(!engine.is_module_fresh(&key("a.sw", false), &changed));
    let unchanged = vec![(path("a.sw"), 1u64), (path("b.sw"), 2u64)];
    assert!(engine.is_module_fresh(&key("a.sw", false), &unchanged));
}

#[test]
fn not_fresh_when_dependency_has_no_entry() {
    let mut engine: Engine = QueryEngine::new();
    engine.insert_parse_module_cache_entry(entry("a.sw", 1, &["b.sw"], false));
    let current = vec![(path("a.sw"), 1u64), (path("b.sw"), 2u64)];
    assert!(!engine.is_module_fresh(&key("a.sw", false), &current));
}

#[test]
fn staleness_propagates_transitively() {
    let mut engine: Engine = QueryEngine::new();
    engine.insert_parse_module_cache_entry(entry("a.sw", 1, &["b.sw"], false));
    engine.insert_parse_module_cache_entry(entry("b.sw", 2, &["c.sw"], false));
    engine.insert_parse_module_cache_entry(entry("c.sw", 3, &[], false));
    let current = vec![(path("a.sw"), 1u64), (path("b.sw"), 2u64), (path("c.sw"), 4u64)];
    assert!(!engine.is_module_fresh(&key("a.sw", false), &current));
    assert!(!engine.is_module_fresh(&key("b.sw", false), &current));
}

#[test]
fn dependency_cycle_terminates_and_is_fresh() {
    let mut engine: Engine = QueryEngine::new();
    engine.insert_parse_module_cache_entry(entry("a.sw", 1, &["b.sw"], false));
    engine.insert_parse_module_cache_entry(entry("b.sw", 2, &["a.sw"], false));
    let current = vec![(path("a.sw"), 1u64), (path("b.sw"), 2u64)];
    assert!(engine.is_module_fresh(&key("a.sw", false), &current));
    assert!(engine.is_module_fresh(&key("b.sw", false), &current));
    let changed = vec![(path("a.sw"), 1u64), (path("b.sw"), 5u64)];
    assert!(!engine.is_module_fresh(&key("a.sw", false), &changed));
}

#[test]
fn current_fingerprint_takes_first_match() {
    let current = vec![(path("a.sw"), 1u64), (path("b.sw"), 2u64), (path("a.sw"), 3u64)];
    assert_eq!(current_fingerprint(&current, &path("a.sw")), Some(1));
    assert_eq!(current_fingerprint(&current, &path("b.sw")), Some(2));
    assert_eq!(current_fingerprint(&current, &path("c.sw")), None);
}

#[test]
fn snapshot_is_unaffected_by_later_inserts() {
    let mut engine: Engine = QueryEngine::new();
    engine.insert_parse_module_cache_entry(entry("a.sw", 1, &[], false));
    engine.insert_programs_cache_entry(artifact("a.sw", "prog-1", &["e1"], &[]));
    let copy = engine.snapshot();
    engine.insert_parse_module_cache_entry(entry("a.sw", 2, &[], false));
    engine.insert_parse_module_cache_entry(entry("b.sw", 3, &[], false));
    engine.insert_programs_cache_entry(artifact("a.sw", "prog-2", &[], &["w1"]));
    assert_eq!(copy.get_parse_module_cache_entry(&key("a.sw", false)).unwrap().hash, 1);
    assert!(copy.get_parse_module_cache_entry(&key("b.sw", false)).is_none());
    assert_eq!(copy.get_programs_cache_entry(&path("a.sw")).unwrap().programs, "prog-1");
    assert_eq!(engine.get_parse_module_cache_entry(&key("a.sw", false)).unwrap().hash, 2);
}

#[test]
fn programs_insert_replaces_diagnostics() {
    let mut engine: Engine = QueryEngine::new();
    engine.insert_programs_cache_entry(artifact("a.sw", "prog-1", &["e1", "e2"], &["w1"]));
    engine.insert_programs_cache_entry(artifact("a.sw", "prog-2", &[], &["w2"]));
    let got = engine.get_programs_cache_entry(&path("a.sw")).unwrap();
    assert_eq!(got.programs, "prog-2");
    assert!(got.handler_data.0.is_empty());
    assert_eq!(got.handler_data.1, vec!["w2".to_string()]);
}

#[test]
fn distinct_keys_all_retrievable() {
    let mut cache = ModuleCache::new();
    let n: u64 = 50;
    for i in 0..n {
        cache.insert(entry(&format!("m{}.sw", i), i, &[], i % 2 == 0));
    }
    assert_eq!(cache.len(), n as usize);
    for i in 0..n {
        let got = cache.lookup(&key(&format!("m{}.sw", i), i % 2 == 0)).unwrap();
        assert_eq!(got.hash, i);
    }
    let copy = cache.snapshot();
    assert_eq!(copy.len(), n as usize);
}

#[test]
fn programs_cache_lookup_and_snapshot() {
    let mut cache: ProgramsCache<String, String, String> = ProgramsCache::new();
    cache.insert(artifact("a.sw", "pa", &[], &[]));
    cache.insert(artifact("b.sw", "pb", &["e"], &[]));
    let copy = cache.snapshot();
    cache.insert(artifact("a.sw", "pa2", &[], &[]));
    assert_eq!(copy.lookup(&path("a.sw")).unwrap().programs, "pa");
    assert_eq!(cache.lookup(&path("a.sw")).unwrap().programs, "pa2");
    assert_eq!(cache.lookup(&path("b.sw")).unwrap().handler_data.0, vec!["e".to_string()]);
    assert!(cache.lookup(&path("c.sw")).is_none());
}
