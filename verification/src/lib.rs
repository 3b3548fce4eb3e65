//! Fail-safe A/B boot-partition selection stored in GPT attribute bits.
//!
//! The library parses and re-serialises the on-disk GPT structures
//! (`table`), decodes the per-partition priority/tries/successful bit
//! fields (`prio`), groups partition entries into two redundant sets and
//! implements the safe upgrade / rollback transitions on them (`set`,
//! `state`).  All device I/O stays outside: callers hand in the raw disk
//! image bytes and receive the exact byte regions to write back, in the
//! crash-safe order (backup copy first, then primary).

pub mod crc32;
pub mod error;
pub mod guid;
pub mod prio;
pub mod set;
pub mod state;
pub mod table;
