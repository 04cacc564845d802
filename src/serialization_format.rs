use vstd::prelude::*;

verus! {

/// The leaf encoder that turns caller values into bytes before they are hashed.
/// It is chosen when a tree is made and kept for the tree's lifetime.
#[derive(Debug, Clone, Copy, PartialEq, Eq, Structural)]
pub enum SerializationFormat {
    /// Compact JSON text.
    Json,
    /// MessagePack.
    MsgPack,
    /// Bincode's fixed binary record encoding.
    Bincode,
}

} // verus!
