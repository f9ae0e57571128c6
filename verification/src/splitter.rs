use vstd::prelude::*;

use std::collections::HashMap;
use std::collections::HashSet;
use std::sync::Arc;

use crate::block_map::BlockMap;
use crate::graph::{
    CgiUkey, ChunkGroupUkey, ChunkUkey, ConnectionIdList, ModuleIdentifier, RuntimeKey,
};
use crate::mask::OrdinalMask;
use crate::order::ModuleGraph;
use crate::queue::QueueAction;
use crate::stats::ParallelCodeSplitterStats;
use crate::walk::{BlockConnectionMap, PreparedBlocksMap};

verus! {

broadcast use vstd::std_specs::hash::group_hash_axioms;

/// The environment variable that switches parallel code splitting off.
pub const PARALLEL_CODE_SPLITTING_ENV: &'static str = "RSPACK_EXPERIMENTAL_PARALLEL_CODE_SPLITTING";

/// The environment variable that switches the statistics on.
pub const PARALLEL_CODE_SPLITTING_STATS_ENV: &'static str =
    "RSPACK_EXPERIMENTAL_PARALLEL_CODE_SPLITTING_STATS";

/// What the parallel code splitter keeps from round to round.
#[derive(Debug)]
pub struct ParallelCodeSplitterState {
    pub enabled: bool,
    pub stats_enabled: bool,
    pub stats: ParallelCodeSplitterStats,
    /// The modules that were looked at once for a place in the order of entering.
    pub checked_pre_order_modules: HashSet<ModuleIdentifier>,
    /// The modules that were looked at once for a place in the order of leaving.
    pub checked_post_order_modules: HashSet<ModuleIdentifier>,
}

/// Whether the bytes of an environment variable switch something on: they are not empty and not `0`.
pub open spec fn switched_on(value: Seq<u8>) -> bool {
    value.len() > 0 && value != seq![0x30u8]
}

fn is_switched_on(value: &[u8]) -> (r: bool)
    ensures
        r == switched_on(value@),
{
    let on = value.len() > 0 && !(value.len() == 1 && value[0] == 0x30u8);
    proof {
        if value@.len() == 1 && value@[0] == 0x30u8 {
            assert(value@ =~= seq![0x30u8]);
        }
    }
    on
}

impl ParallelCodeSplitterState {
    /// Takes the switches from the bytes of the two environment variables, where they are set, and
    /// forgets what was counted and checked. Splitting in parallel is on unless it is switched off,
    /// the statistics are off unless they are switched on.
    pub fn configure_from_env(
        &mut self,
        code_splitting: Option<&[u8]>,
        code_splitting_stats: Option<&[u8]>,
    )
        ensures
            final(self).enabled == (match code_splitting {
                Some(value) => switched_on(value@),
                None => true,
            }),
            final(self).stats_enabled == (match code_splitting_stats {
                Some(value) => switched_on(value@),
                None => false,
            }),
            final(self).stats == ParallelCodeSplitterStats::zero(),
            final(self).checked_pre_order_modules@ == Set::<ModuleIdentifier>::empty(),
            final(self).checked_post_order_modules@ == Set::<ModuleIdentifier>::empty(),
    {
        self.enabled = match code_splitting {
            Some(value) => is_switched_on(value),
            None => true,
        };
        self.stats_enabled = match code_splitting_stats {
            Some(value) => is_switched_on(value),
            None => false,
        };
        self.stats = ParallelCodeSplitterStats::default();
        self.checked_pre_order_modules.clear();
        self.checked_post_order_modules.clear();
    }
}

impl Default for ParallelCodeSplitterState {
    fn default() -> (state: ParallelCodeSplitterState)
        ensures
            !state.enabled,
            !state.stats_enabled,
            state.stats == ParallelCodeSplitterStats::zero(),
            state.checked_pre_order_modules@ == Set::<ModuleIdentifier>::empty(),
            state.checked_post_order_modules@ == Set::<ModuleIdentifier>::empty(),
    {
        ParallelCodeSplitterState {
            enabled: false,
            stats_enabled: false,
            stats: ParallelCodeSplitterStats::default(),
            checked_pre_order_modules: HashSet::new(),
            checked_post_order_modules: HashSet::new(),
        }
    }
}

/// What is known of a chunk group while its modules are collected.
#[derive(Debug)]
pub struct ChunkGroupInfo {
    pub chunk_group: ChunkGroupUkey,
    pub chunk_loading: bool,
    pub async_chunks: bool,
    pub runtime: RuntimeKey,
    pub min_available_modules: Arc<OrdinalMask>,
    /// The modules that were left out because they are available already, in the order in which
    /// they were met.
    pub skipped_items: Vec<ModuleIdentifier>,
    /// The connections that were not active, in the order in which they were met.
    pub skipped_module_connections: Vec<(ModuleIdentifier, ConnectionIdList)>,
}

/// The part of a code splitter that splitting in parallel reads and changes.
#[derive(Debug)]
pub struct CodeSplitter {
    pub parallel_state: ParallelCodeSplitterState,
    pub queue: Vec<QueueAction>,
    pub queue_delayed: Vec<QueueAction>,
    pub chunk_group_infos: HashMap<CgiUkey, ChunkGroupInfo>,
    pub mask_by_chunk: HashMap<ChunkUkey, OrdinalMask>,
    pub prepared_blocks_map: PreparedBlocksMap,
    pub ordinal_by_module: HashMap<ModuleIdentifier, u64>,
    pub block_modules_runtime_map: HashMap<RuntimeKey, BlockConnectionMap>,
    pub stat_processed_queue_items: u32,
    pub stat_processed_blocks: u32,
    pub next_free_module_pre_order_index: u32,
    pub next_free_module_post_order_index: u32,
}

impl Default for CodeSplitter {
    fn default() -> (splitter: CodeSplitter)
        ensures
            !splitter.parallel_state.enabled,
            !splitter.parallel_state.stats_enabled,
            splitter.parallel_state.stats == ParallelCodeSplitterStats::zero(),
            splitter.parallel_state.checked_pre_order_modules@ == Set::<ModuleIdentifier>::empty(),
            splitter.parallel_state.checked_post_order_modules@ == Set::<ModuleIdentifier>::empty(),
            splitter.queue@.len() == 0,
            splitter.queue_delayed@.len() == 0,
            splitter.chunk_group_infos@ == Map::<CgiUkey, ChunkGroupInfo>::empty(),
            splitter.mask_by_chunk@ == Map::<ChunkUkey, OrdinalMask>::empty(),
            splitter.prepared_blocks_map@.dom().is_empty(),
            splitter.ordinal_by_module@ == Map::<ModuleIdentifier, u64>::empty(),
            splitter.block_modules_runtime_map@ == Map::<RuntimeKey, BlockConnectionMap>::empty(),
            splitter.stat_processed_queue_items == 0,
            splitter.stat_processed_blocks == 0,
            splitter.next_free_module_pre_order_index == 0,
            splitter.next_free_module_post_order_index == 0,
    {
        CodeSplitter {
            parallel_state: ParallelCodeSplitterState::default(),
            queue: Vec::new(),
            queue_delayed: Vec::new(),
            chunk_group_infos: HashMap::new(),
            mask_by_chunk: HashMap::new(),
            prepared_blocks_map: BlockMap::new(),
            ordinal_by_module: HashMap::new(),
            block_modules_runtime_map: HashMap::new(),
            stat_processed_queue_items: 0,
            stat_processed_blocks: 0,
            next_free_module_pre_order_index: 0,
            next_free_module_post_order_index: 0,
        }
    }
}

/// The places that the modules of a chunk group have in its two orders.
#[derive(Debug)]
pub struct ChunkGroup {
    pub module_pre_order_indices: HashMap<ModuleIdentifier, usize>,
    pub module_post_order_indices: HashMap<ModuleIdentifier, usize>,
    pub next_pre_order_index: usize,
    pub next_post_order_index: usize,
}

/// The part of a compilation that a commit changes.
#[derive(Debug)]
pub struct Compilation {
    pub module_graph: ModuleGraph,
    pub chunk_group_by_ukey: HashMap<ChunkGroupUkey, ChunkGroup>,
}

} // verus!
