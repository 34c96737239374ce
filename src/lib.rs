//! Incremental-compilation cache: per-module parse metadata, per-module
//! program artifacts, and the freshness policy that decides whether a cached
//! module may be reused.
pub mod engine;
pub mod freshness;
pub mod module_cache;
pub mod path;
pub mod programs_cache;

pub use engine::QueryEngine;
pub use freshness::current_fingerprint;
pub use module_cache::{ModifiedTime, ModuleCache, ModuleCacheEntry, ModuleCacheKey};
pub use path::ModulePath;
pub use programs_cache::{ProgramsCache, ProgramsCacheEntry};
