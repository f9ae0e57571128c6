use vstd::prelude::*;

use std::sync::Arc;

verus! {

/// A module, by its number.
pub type ModuleIdentifier = u64;

/// An `import()` block inside a module, by its number.
pub type AsyncDependenciesBlockIdentifier = u64;

/// A chunk, by its number.
pub type ChunkUkey = u64;

/// A chunk group, by its number.
pub type ChunkGroupUkey = u64;

/// The bookkeeping record of a chunk group, by its number.
pub type CgiUkey = u64;

/// A dependency, by its number.
pub type DependencyId = u64;

/// A set of runtimes, by its number: two runtimes are the same exactly where the numbers are.
pub type RuntimeKey = u64;

/// What a connection list is shared as: cloning one copies a pointer.
pub type ConnectionIdList = Arc<Vec<DependencyId>>;

/// A target of a block, whether the connections to it are active, and the connections.
pub type BlockModule = (ModuleIdentifier, ConnectionState, ConnectionIdList);

/// The targets of one block, in source order.
pub type BlockModules = Vec<BlockModule>;

/// A place that dependencies hang from: a module's own body, or an `import()` block in it.
#[derive(Clone, Copy, Debug, PartialEq, Eq, Structural)]
pub enum DependenciesBlockIdentifier {
    Module(ModuleIdentifier),
    AsyncDependenciesBlock(AsyncDependenciesBlockIdentifier),
}

/// Whether a connection between two modules is active.
#[derive(Clone, Copy, Debug, PartialEq, Eq, Structural)]
pub enum ConnectionState {
    Active(bool),
    CircularConnection,
    TransitiveOnly,
}

impl ConnectionState {
    pub fn is_true(&self) -> (r: bool)
        ensures
            r == (*self == ConnectionState::Active(true)),
    {
        match self {
            ConnectionState::Active(active) => *active,
            _ => false,
        }
    }

    pub fn is_false(&self) -> (r: bool)
        ensures
            r == (*self == ConnectionState::Active(false)),
    {
        match self {
            ConnectionState::Active(active) => !*active,
            _ => false,
        }
    }
}

} // verus!
