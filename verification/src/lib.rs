//! An in-memory space of automated market maker pools, kept in step with a chain.
pub mod amm;
pub mod builder;
pub mod cache;
pub mod error;
pub mod factory;
pub mod filters;
pub mod grouping;
pub mod index;
pub mod index_laws;
pub mod key_map;
pub mod key_set;
pub mod log_filter;
pub mod lookup_laws;
pub mod manager;
pub mod order;
pub mod pass;
pub mod primitives;
pub mod reorg_laws;
pub mod setup_laws;
pub mod space;
pub mod step_laws;
pub mod sync;
pub mod text;
pub mod view_laws;
