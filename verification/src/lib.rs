//! Core of a multi-tenant competition scoring platform.
//!
//! Each tenant owns an isolated store of players, competitions and an
//! append-only score log; a shared store holds the tenant registry, a global
//! id sequence and cross-tenant visit history.  The modules here model those
//! stores and verify the logic that operates on them: tenant-name validation,
//! store and lock addressing, global id generation, the per-tenant advisory
//! lock protocol, score ingestion (full replace), ranking with versioning and
//! tie-breaks, and billing aggregation.

pub mod billing;
pub mod error;
pub mod ids;
pub mod lock;
pub mod num;
pub mod platform;
pub mod rank;
pub mod store;
pub mod strutil;
pub mod tenant;
pub mod upload;
pub mod viewer;

pub use error::ApiError;
