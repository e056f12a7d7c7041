//! Reading the protobuf format that map extracts come in.

pub mod blob;
pub mod block;
pub mod listing;
pub mod node;
pub mod wire;

pub use blob::{BlobDesc, BlobFault, BlobKind};
pub use block::{Block, Way};
pub use node::DenseNode;
pub use wire::{varint, zigzag, DeltaSint, PackedVarint};
