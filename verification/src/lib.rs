//! An in-memory entity-component registry.
//!
//! The registry associates opaque `u64` entity identifiers with typed
//! component values and answers multi-type membership queries. Component
//! types are identified by caller-chosen `u64` tags; the values of every
//! component type live in a pool of their own, keyed by entity. All public
//! operations carry contracts over an abstract model that maps each live
//! entity to the components it owns.

pub mod laws;
pub mod model;
mod pool;
pub mod registry;
mod seqs;

pub use registry::Registry;
