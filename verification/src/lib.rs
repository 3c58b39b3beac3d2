//! Radix-tree caches for key/value index runs, with machine-checked contracts.

#![allow(unused_imports)]

mod chains;
mod content;
mod evict_order;
mod handed;
mod hi_backups;
mod hi_hits;
mod hi_laws;
mod hi_model;
mod hi_plans;
mod hiradix;
mod holds;
mod idset;
pub mod insert_recency;
mod key;
mod lru;
mod mamba;
mod mamba_holds;
mod mamba_laws;
mod mamba_model;
mod mamba_order;
mod marks;
mod ns;
mod policy;
mod prefixes;
mod query;
mod queue;
mod reach;
mod recency;
mod render;
mod seqs;
mod swa;
mod swa_accounts;
mod swa_holds;
mod swa_laws;
mod swa_model;
mod swa_order;
mod swa_reads;
mod tick_laws;
mod topo;
mod tree;
mod tree_holds;
mod tree_laws;
mod tree_model;
mod unified;
mod walk_laws;

pub use hi_model::HiPolicy;
pub use hiradix::{
    DropSubtreeResult, HiEvictResult, HiHostEvictResult, HiInsertResult, HiMatchResult, HiRadixNode,
    HiRadixTree, LoadBackPlan,
};
pub use key::{common_prefix_len, FlatKey, RadixKey};
pub use lru::{LRUList, Lru};
pub use mamba::{
    MambaEvictResult, MambaFreeOps, MambaInsertResult, MambaMatchResult, MambaNode, MambaRadixTree,
};
pub use policy::{EvictionPolicy, Prio};
pub use swa::{
    FreeOps, SWADecResult, SWAEvictResult, SWAInsertResult, SWAMatchResult, SWANode, SWARadixTree,
    SWARecover,
};
pub use topo::{ChildKey, Head, NodeId, ROOT};
pub use tree::{EvictResult, InsertResult, MatchResult, RadixTree, RawNode};
pub use unified::insert::UStepResult;
pub use unified::matching::UMatchResult;
pub use unified::sanity::sanity_check;
pub use unified::transfers::{
    ULoadBackSpec, UStorageBackupSpec, PHASE_BACKUP_HOST, PHASE_BACKUP_STORAGE, PHASE_LOAD_BACK,
    PHASE_PREFETCH,
};
pub use unified::tree::{UInsertParams, UIntsertResult, UNode, UnifiedRadixTree};
pub use unified::views::UWalkResult;
pub use unified::{
    Layer, UCacheAction, UChildKey, UConfig, UDecLockParams, UEvictOutcome, UEvictStep, UHead,
    UIncLockResult, UNodeDump, UTransfer, UrkvEvent, CT_BASE, CT_C128, CT_FULL, CT_MAMBA, CT_SWA,
    NUM_CT,
};
