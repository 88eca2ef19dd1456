//! Verified core of a read-only monitor for local coding-agent sessions.
//!
//! The library holds the decision logic: lifecycle readiness, session view
//! state, attention, queueing, dependency graphs, link parsing and the
//! record interpretation that turns structured JSON records into normalized
//! session facts. Reading files, databases and the windowing system is left to
//! the application around it.

pub mod text;
pub mod attention;
pub mod capability;
pub mod config;
pub mod decimal;
pub mod dependency_graph;
pub mod discovery;
pub mod extensions;
pub mod json;
pub mod linking;
pub mod metrics;
pub mod model;
pub mod navigation;
pub mod order;
pub mod paths;
pub mod presentation;
pub mod process_health;
pub mod project;
pub mod queue;
pub mod readiness;
pub mod result_bundle;
pub mod review;
pub mod verification;
pub mod watcher;
