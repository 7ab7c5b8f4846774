//! A content-addressed, deduplicating object store for structured values.
//!
//! Nested records are decomposed into flat byte blobs, each identified by an
//! 8-byte content hash (a [`hash::ValueId`]).  Structural sub-values are
//! replaced in their parent's encoding by their own id, which yields automatic
//! structural sharing and supports range queries over the leading fields of a
//! record without full deserialization.

pub mod hash;
pub mod model;
pub mod codec;
pub mod table;
pub mod order;
pub mod engine;
pub mod store;
pub mod laws;

pub use hash::ValueId;
pub use hash::value_id_of;
pub use model::{Shape, TypeDesc, Registry, Value};
pub use codec::{serialize_into, serialize_type, serialize_prefix, deserialize_value,
    deserialize_type};
pub use table::BlobTable;
pub use store::{TypeVault, VaultError};
