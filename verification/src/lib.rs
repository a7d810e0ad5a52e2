//! Incremental tag-index maintenance for a cargo-style project: the
//! dependency graph built from package metadata, the per-crate cache and
//! invalidation rules, the re-export scanner, and the merge protocol that
//! combines tag files.

pub mod config;
pub mod dep_tree;
pub mod dependencies;
pub mod fs_view;
pub mod json;
pub mod paths;
pub mod plan;
pub mod rt_result;
pub mod scheduler;
pub mod strutil;
pub mod tags;
pub mod types;
pub mod vi_tag;
