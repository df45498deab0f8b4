//! Skync: a consolidation engine for "skill" bundles.
//!
//! Skills are self-describing directories, identified by a `SKILL.md` marker
//! document, scattered across configured source locations. The engine scans
//! the sources, resolves naming collisions (earliest-configured source wins),
//! plans the symbolic-link reconciliation that makes a library directory
//! mirror the discovered set, projects the enabled subset into per-target
//! directories, and reports link health.
//!
//! The engine itself never touches the filesystem: callers hand it plain
//! observations of directories (`SourceScan`, `LibEntry`, `HealthScan`) and
//! receive plans and reports back, so every decision the engine makes is
//! verified for every possible on-disk state.

pub mod config;
pub mod consolidate;
pub mod discover;
pub mod health;
pub mod propagate;
pub mod render;
