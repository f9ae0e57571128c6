use vstd::prelude::*;

use crate::graph::{CgiUkey, ChunkUkey, DependenciesBlockIdentifier, ModuleIdentifier};

verus! {

/// A block that is to be walked for a chunk of a chunk group.
#[derive(Clone, Copy, Debug, PartialEq, Eq, Structural)]
pub struct ProcessBlock {
    pub block: DependenciesBlockIdentifier,
    pub module: ModuleIdentifier,
    pub chunk_group_info: CgiUkey,
    pub chunk: ChunkUkey,
}

/// What the queues of a code splitter hold. Only blocks that are to be processed can be walked in
/// parallel; any other action is held by its number.
#[derive(Clone, Copy, Debug, PartialEq, Eq, Structural)]
pub enum QueueAction {
    ProcessBlock(ProcessBlock),
    Other(u64),
}

} // verus!
