use vstd::prelude::*;

use std::collections::HashMap;
use std::sync::Arc;

use crate::counter::{count_of, counter_add, counter_sum};
use crate::graph::DependenciesBlockIdentifier;

verus! {

broadcast use vstd::std_specs::hash::group_hash_axioms;

/// A map keyed by blocks. Module bodies and `import()` blocks are numbered independently, so each
/// kind has a table of its own.
#[derive(Debug)]
pub struct BlockMap<V> {
    modules: HashMap<u64, V>,
    async_blocks: HashMap<u64, V>,
}

impl<V> View for BlockMap<V> {
    type V = Map<DependenciesBlockIdentifier, V>;

    closed spec fn view(&self) -> Map<DependenciesBlockIdentifier, V> {
        joined(self.modules@, self.async_blocks@)
    }
}

/// The map that holds one table under the module bodies and one under the `import()` blocks.
spec fn joined<V>(modules: Map<u64, V>, async_blocks: Map<u64, V>) -> Map<
    DependenciesBlockIdentifier,
    V,
> {
    Map::new(
        |block: DependenciesBlockIdentifier|
            match block {
                DependenciesBlockIdentifier::Module(id) => modules.contains_key(id),
                DependenciesBlockIdentifier::AsyncDependenciesBlock(id) =>
                    async_blocks.contains_key(id),
            },
        |block: DependenciesBlockIdentifier|
            match block {
                DependenciesBlockIdentifier::Module(id) => modules[id],
                DependenciesBlockIdentifier::AsyncDependenciesBlock(id) => async_blocks[id],
            },
    )
}

/// The joined map has as many entries as the two tables together.
proof fn lemma_joined_len<V>(modules: Map<u64, V>, async_blocks: Map<u64, V>)
    requires
        modules.dom().finite(),
        async_blocks.dom().finite(),
    ensures
        joined(modules, async_blocks).dom().finite(),
        joined(modules, async_blocks).len() == modules.len() + async_blocks.len(),
{
    let module_block = |id: u64| DependenciesBlockIdentifier::Module(id);
    let async_block = |id: u64| DependenciesBlockIdentifier::AsyncDependenciesBlock(id);
    let left = modules.dom().map(module_block);
    let right = async_blocks.dom().map(async_block);
    vstd::set_lib::lemma_map_size(modules.dom(), left, module_block);
    vstd::set_lib::lemma_map_size(async_blocks.dom(), right, async_block);
    assert(left.disjoint(right));
    vstd::set_lib::lemma_set_disjoint_lens(left, right);
    assert forall|block: DependenciesBlockIdentifier|
        joined(modules, async_blocks).dom().contains(block) implies (left + right).contains(
        block,
    ) by {
        match block {
            DependenciesBlockIdentifier::Module(id) => {
                assert(modules.dom().contains(id) && module_block(id) == block);
            },
            DependenciesBlockIdentifier::AsyncDependenciesBlock(id) => {
                assert(async_blocks.dom().contains(id) && async_block(id) == block);
            },
        }
    }
    assert(joined(modules, async_blocks).dom() =~= left + right);
}

/// A map keyed by blocks has finitely many entries.
pub(crate) proof fn lemma_block_map_finite<V>(map: BlockMap<V>)
    ensures
        map@.dom().finite(),
{
    lemma_joined_len(map.modules@, map.async_blocks@);
}

/// Copies into `target` the entries of `source` whose keys it lacks, and counts them.
fn copy_missing<T>(target: &mut HashMap<u64, Arc<T>>, source: &HashMap<u64, Arc<T>>) -> (added:
    usize)
    ensures
        final(target)@ == source@.union_prefer_right(old(target)@),
        added == final(target)@.len() - old(target)@.len(),
{
    let mut added: usize = 0;
    for (key, value) in entries: source.iter()
        invariant
            added == target@.len() - old(target)@.len(),
            added <= entries.index(),
            entries.seq().len() == source.len(),
            forall|k: u64|
                target@.contains_key(k) <==> old(target)@.contains_key(k) || exists|i: int|
                    0 <= i < entries.index() && *(#[trigger] entries.seq()[i]).0 == k,
            forall|k: u64|
                #[trigger] target@.contains_key(k) ==> target@[k] == (if old(target)@.contains_key(
                    k,
                ) {
                    old(target)@[k]
                } else {
                    source@[k]
                }),
    {
        if !target.contains_key(key) {
            target.insert(*key, value.clone());
            added = added + 1;
        }
    }
    added
}

impl<V> BlockMap<V> {
    /// The map without entries.
    pub fn new() -> (map: BlockMap<V>)
        ensures
            map@ == Map::<DependenciesBlockIdentifier, V>::empty(),
    {
        let map = BlockMap { modules: HashMap::new(), async_blocks: HashMap::new() };
        assert(map@ =~= Map::<DependenciesBlockIdentifier, V>::empty());
        map
    }

    /// The value of a block, where it has one.
    pub fn get(&self, block: DependenciesBlockIdentifier) -> (value: Option<&V>)
        ensures
            value == (if self@.contains_key(block) {
                Some(&self@[block])
            } else {
                None
            }),
    {
        match block {
            DependenciesBlockIdentifier::Module(id) => self.modules.get(&id),
            DependenciesBlockIdentifier::AsyncDependenciesBlock(id) => self.async_blocks.get(&id),
        }
    }

    /// Gives a block a value, in place of any that it had.
    pub fn insert(&mut self, block: DependenciesBlockIdentifier, value: V)
        ensures
            final(self)@ == old(self)@.insert(block, value),
    {
        match block {
            DependenciesBlockIdentifier::Module(id) => {
                self.modules.insert(id, value);
            },
            DependenciesBlockIdentifier::AsyncDependenciesBlock(id) => {
                self.async_blocks.insert(id, value);
            },
        }
        assert(self@ =~= old(self)@.insert(block, value));
    }

    /// How many blocks have a value, as a statistics counter counts.
    pub fn count(&self) -> (n: u32)
        ensures
            self@.dom().finite(),
            n == counter_sum(0, self@.len() as int),
    {
        proof {
            lemma_joined_len(self.modules@, self.async_blocks@);
        }
        counter_add(count_of(self.modules.len()), self.async_blocks.len())
    }
}

impl<T> BlockMap<Arc<T>> {
    /// Gives each block of `source` that has no value here the value that it has there. What was
    /// here stays as it was. The result is how many blocks gained a value, as a statistics counter
    /// counts.
    pub fn merge_missing(&mut self, source: &BlockMap<Arc<T>>) -> (added: u32)
        ensures
            final(self)@ == source@.union_prefer_right(old(self)@),
            old(self)@.dom().finite(),
            final(self)@.dom().finite(),
            added == counter_sum(0, final(self)@.len() - old(self)@.len()),
    {
        let modules = copy_missing(&mut self.modules, &source.modules);
        let async_blocks = copy_missing(&mut self.async_blocks, &source.async_blocks);
        proof {
            lemma_joined_len(old(self).modules@, old(self).async_blocks@);
            lemma_joined_len(self.modules@, self.async_blocks@);
        }
        assert(self@ =~= source@.union_prefer_right(old(self)@));
        counter_add(count_of(modules), async_blocks)
    }
}

} // verus!
