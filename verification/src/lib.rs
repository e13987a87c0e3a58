//! Schema-migration engine: connection-string parsing, a migration catalog
//! loaded from directory entries, direction-aware plan building, and the pure
//! bookkeeping logic behind plan execution and schema dumps.

pub mod catalog;
pub mod dsn;
pub mod plan;
pub mod runner;
pub mod text;
