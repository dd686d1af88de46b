//! Bundles a dynamically linked executable with a private copy of its
//! shared-library closure. The library holds the decisions: reading the
//! dependency resolver's listing, naming copies, guarding against
//! colliding base names, and walking the dependency graph.
pub mod closure;
pub mod compare;
pub mod layout;
pub mod listing;
pub mod paths;
