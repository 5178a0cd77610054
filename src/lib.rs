//! An event-sourcing kernel: sortable identifiers, a partitioned append-only
//! event store, deterministic projection of aggregates and a command pipeline
//! with optimistic concurrency.

pub mod digits;
pub mod clock;
pub mod entropy;
pub mod error;
pub mod sortable_id;
pub mod partition;
pub mod event;
pub mod aggregate;
pub mod repository;
pub mod command;
pub mod branch;
