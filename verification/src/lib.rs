//! ForgeSim: a discrete-event simulator for GPU cluster scheduling.
//!
//! The library models a cluster of GPU nodes (whole GPUs and MIG slices),
//! a resource manager that places jobs all-or-nothing, FIFO, priority and
//! preemptive priority schedulers, an event-driven simulation engine, metrics aggregation,
//! scheduler trace replay and the ingest logic for Forge export documents.
//!
//! Times are whole seconds and memory sizes whole gigabytes.

pub mod strings;
pub mod models;
pub mod sorting;
pub mod cluster;
pub mod mig;
pub mod resource;
pub mod engine;
pub mod fifo;
pub mod priority;
pub mod preemptive;
pub mod events;
pub mod metrics;
pub mod snapshot;
pub mod config;
pub mod trace;
pub mod stubs;
pub mod yaml;
pub mod text;
pub mod forge_bundle;
pub mod laws;
