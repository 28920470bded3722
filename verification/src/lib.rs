//! Core of a columnar query engine: a data-block model, a vectorized
//! group-by kernel, a per-column block filter index, and a push-based
//! executor graph, with machine-checked contracts throughout.

pub mod binder;
pub mod bloom;
pub mod digest;
pub mod error;
pub mod expr;
pub mod executor;
pub mod federated;
pub mod format;
pub mod fuse_source;
pub mod group_by;
pub mod pipeline;
pub mod signer;
pub mod strutil;
pub mod value;
pub mod variant_type;
pub mod xor_filter;

pub use error::EngineError;
pub use error::ErrorKind;
