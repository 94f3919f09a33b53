//! Block-level delta encoding in the style of rsync: fingerprint a base,
//! describe a target as copies from the base and literal bytes, and rebuild
//! the target from the base and that description.
use vstd::prelude::*;

pub mod buzhash;
pub mod command;
pub mod diff;
pub mod error;
pub mod patch;
pub mod rolling;
pub mod roundtrip;
pub mod signature;
pub mod strong;

pub use buzhash::{
    hash64, lightweight_delta, lightweight_signature, lightweight_signature_with_chunk_size,
    BuzHash, LightweightChunkSignature, LightweightHash, LightweightSignature,
};
pub use command::{Delta, DeltaOp};
pub use diff::{delta, delta_with_chunk_size, DeltaBuilder};
pub use error::SyncError;
pub use patch::apply_to_vec;
pub use rolling::RollingChecksum;
pub use signature::{
    signature, signature_with_chunk_size, suggest_chunk_size, ChunkSignature, Signature,
    DEFAULT_CHUNK_SIZE,
};
