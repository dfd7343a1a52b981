//! A composable typed-access layer over an ordered byte-keyed store.
//!
//! Containers (a single `Item`, or a `MapContainer` keyed by typed
//! segments whose entries are themselves containers) share one flat
//! byte-keyed `Store`, each occupying a disjoint key-space carved out by a
//! `StorageBranch` prefix.

pub mod order;
pub mod branch;
pub mod container;
pub mod encoding;
pub mod item;
pub mod map;
pub mod store;
