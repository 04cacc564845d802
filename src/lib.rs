//! An incrementally updatable Merkle hash tree: full builds (sequential or
//! parallel), repair of the path above an appended leaf, and audit paths.
pub mod hash_function;
pub mod hash_function_string;
pub mod layers;
pub mod merkle_error;
pub mod merkle_tree;
pub mod merkle_tree_string;
pub mod serialization_format;

pub use merkle_error::MerkleError;
pub use merkle_tree::MerkleTree;
pub use merkle_tree_string::MerkleTreeString;
pub use serialization_format::SerializationFormat;
