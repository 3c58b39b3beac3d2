//! What holds across operations, on concrete trees.

use sglang_radix::{
    EvictionPolicy, HiPolicy, HiRadixTree, MambaRadixTree, RadixKey, RadixTree, SWARadixTree, UConfig,
    UDecLockParams, UInsertParams, UIntsertResult, UnifiedRadixTree, CT_FULL, CT_MAMBA, CT_SWA, ROOT,
};

fn key(tokens: &[i64]) -> RadixKey<'_> {
    RadixKey::new(tokens)
}

fn sum_lens(runs: &[Vec<i64>]) -> usize {
    runs.iter().map(|r| r.len()).sum()
}

// ---- the plain tree ----

#[test]
fn plain_insert_then_match_keeps_the_cached_part() {
    let mut t = RadixTree::new(1, false, EvictionPolicy::Lru);
    t.insert(&key(&[1, 2, 3, 4]), &[10, 11, 12, 13], 0, false);
    let r = t.insert(&key(&[1, 2, 5, 6]), &[20, 21, 22, 23], 0, false);
    assert_eq!(r.prefix_len, 2);
    let m = t.match_prefix(&key(&[1, 2, 5, 6]));
    assert_eq!(m.indices, vec![10, 11, 22, 23]);
    assert_eq!(m.last_node, r.last_node);
    // The other key is answered as before.
    assert_eq!(t.match_prefix(&key(&[1, 2, 3, 4])).indices, vec![10, 11, 12, 13]);
    assert_eq!(t.total_size(), 6);
}

#[test]
fn plain_lock_then_unlock_restores_sizes() {
    let mut t = RadixTree::new(1, false, EvictionPolicy::Lru);
    let r = t.insert(&key(&[1, 2, 3]), &[10, 11, 12], 0, false);
    assert_eq!(t.inc_lock_ref(r.last_node), -3);
    assert_eq!((t.evictable_size(), t.protected_size()), (0, 3));
    assert_eq!(t.evict(3).num_tokens_evicted, 0);
    assert_eq!(t.dec_lock_ref(r.last_node), 3);
    assert_eq!((t.evictable_size(), t.protected_size()), (3, 0));
    let e = t.evict(1);
    assert_eq!(e.evicted_values, vec![vec![10, 11, 12]]);
    assert_eq!(t.total_size(), 0);
}

#[test]
fn pretty_print_lists_the_tree() {
    let mut t = RadixTree::new(1, false, EvictionPolicy::Lru);
    assert_eq!(t.pretty_print(), "0 [] r=1\n#tokens: 0\n");
    t.insert(&key(&[1, 2, 3]), &[10, 11, 12], 0, false);
    let r = t.insert(&key(&[1, 2, 4, -5]), &[20, 21, 22, 23], 0, false);
    t.inc_lock_ref(r.last_node);
    assert_eq!(
        t.pretty_print(),
        "0 [] r=1\n  2 [1, 2] r=1\n    1 [3] r=0\n    2 [4, -5] r=1\n#tokens: 5\n"
    );
}

#[test]
fn pretty_print_shows_ten_elements() {
    let mut t = RadixTree::new(1, false, EvictionPolicy::Lru);
    let tokens: Vec<i64> = (0..12).collect();
    t.insert(&key(&tokens), &tokens, 0, false);
    assert_eq!(
        t.pretty_print(),
        "0 [] r=1\n  12 [0, 1, 2, 3, 4, 5, 6, 7, 8, 9] r=0\n#tokens: 12\n"
    );
}

#[test]
fn unknown_policies_are_refused() {
    assert_eq!(
        EvictionPolicy::parse("Arc"),
        Err("unknown eviction policy \"arc\" (expected lru|lfu|fifo|mru|filo|priority|slru)".to_string())
    );
    assert_eq!(
        EvictionPolicy::parse("A\"B"),
        Err("unknown eviction policy \"a\\\"b\" (expected lru|lfu|fifo|mru|filo|priority|slru)".to_string())
    );
    assert_eq!(
        HiPolicy::parse("Sometimes"),
        Err(
            "unknown hicache write policy \"sometimes\" (expected\nwrite_through | write_through_selective | write_back)"
                .to_string()
        )
    );
}

#[test]
fn plain_new_leaves_are_newest() {
    let mut t = RadixTree::new(1, false, EvictionPolicy::Mru);
    t.insert(&key(&[1, 2]), &[10, 11], 0, false);
    t.insert(&key(&[5, 6]), &[50, 51], 0, false);
    t.insert(&key(&[1, 2, 3]), &[10, 11, 12], 0, false);
    // The newest leaf is the last one made.
    assert_eq!(t.evict(1).evicted_values, vec![vec![12]]);
    // Its parent was on the way of the last insert.
    assert_eq!(t.evict(1).evicted_values, vec![vec![10, 11]]);
    assert_eq!(t.evict(1).evicted_values, vec![vec![50, 51]]);
}

#[test]
fn plain_locks_reach_up_until_they_are_released() {
    let mut t = RadixTree::new(1, false, EvictionPolicy::Lru);
    let a = t.insert(&key(&[1, 2, 3, 4]), &[10, 11, 12, 13], 0, false).last_node;
    let b = t.insert(&key(&[1, 2, 5, 6]), &[10, 11, 22, 23], 0, false).last_node;
    assert_eq!(t.inc_lock_ref(a), -4);
    assert_eq!(t.inc_lock_ref(b), -2);
    assert_eq!(t.evict(100).num_tokens_evicted, 0);
    assert_eq!(t.dec_lock_ref(a), 2);
    // All that is not locked can go, and goes.
    assert_eq!(t.evictable_size(), 2);
    assert_eq!(t.evict(100).evicted_values, vec![vec![12, 13]]);
    assert_eq!(t.evictable_size(), 0);
    assert_eq!(t.dec_lock_ref(b), 4);
    assert_eq!(t.evict(100).num_tokens_evicted, 4);
    assert_eq!(t.total_size(), 0);
}

// ---- the two-tier tree ----

fn hi() -> HiRadixTree {
    HiRadixTree::new(1, false, HiPolicy::WriteThrough, EvictionPolicy::Lru, 1, 1)
}

#[test]
fn hi_insert_then_match_keeps_the_cached_part() {
    let mut t = hi();
    t.insert(&key(&[1, 2, 3, 4]), &[10, 11, 12, 13], 0, false);
    let before = t.match_prefix(&key(&[1, 2, 5, 6]));
    assert_eq!(before.indices, vec![10, 11]);
    let r = t.insert(&key(&[1, 2, 5, 6]), &[20, 21, 22, 23], 0, false);
    assert_eq!(r.prefix_len, before.indices.len());
    let m = t.match_prefix(&key(&[1, 2, 5, 6]));
    assert_eq!(m.indices, vec![10, 11, 22, 23]);
    assert_eq!(m.last_device_node, r.last_node);
    assert_eq!(m.host_hit_length, 0);
    assert!(m.splits.is_empty());
}

#[test]
fn hi_insert_over_an_evicted_node_puts_it_back() {
    let mut t = hi();
    let n = t.insert(&key(&[1, 2]), &[10, 11], 0, false).last_node;
    t.begin_backup(n, &[100, 101], true);
    t.dec_lock_ref(n);
    assert_eq!(t.evict(2).free_device, vec![vec![10, 11]]);
    assert_eq!(t.total_host_size(), 2);
    let r = t.insert(&key(&[1, 2, 3]), &[20, 21, 22], 0, false);
    assert_eq!(r.prefix_len, 0);
    assert_eq!(t.match_prefix(&key(&[1, 2, 3])).indices, vec![20, 21, 22]);
}

#[test]
fn hi_load_back_given_up_and_carried_out() {
    let mut t = hi();
    let n = t.insert(&key(&[1, 2, 3, 4]), &[10, 11, 12, 13], 0, false).last_node;
    t.begin_backup(n, &[100, 101, 102, 103], true);
    t.dec_lock_ref(n);
    let e = t.evict(4);
    assert_eq!(e.num_tokens_evicted, 4);
    assert_eq!((t.total_size(), t.total_host_size()), (0, 4));
    assert_eq!(t.match_prefix(&key(&[1, 2, 3, 4])).host_hit_length, 4);

    // Given up: everything is as it was.
    let plan = t.init_load_back(n, None).expect("four host tokens");
    assert_eq!(plan.nodes, vec![n]);
    assert_eq!(plan.host_indices, vec![100, 101, 102, 103]);
    assert_eq!(t.node_host_ref(n), 1);
    t.abort_load_back(&plan);
    assert_eq!(t.node_host_ref(n), 0);
    assert!(t.node_evicted(n));
    assert_eq!(t.node_lock_ref(n), 0);

    // Carried out: the run is on the device.
    let plan = t.init_load_back(n, None).expect("four host tokens");
    t.finish_load_back(&plan, Some(&[30, 31, 32, 33]));
    assert_eq!(t.match_prefix(&key(&[1, 2, 3, 4])).indices, vec![30, 31, 32, 33]);
    assert_eq!(t.node_lock_ref(n), 1);
    assert_eq!(t.node_host_value(n), Some(vec![100, 101, 102, 103]));
}

#[test]
fn hi_eviction_spares_locks_and_keeps_host_copies() {
    let mut t = hi();
    let a = t.insert(&key(&[1, 2]), &[10, 11], 0, false).last_node;
    let b = t.insert(&key(&[5, 6, 7]), &[20, 21, 22], 0, false).last_node;
    t.begin_backup(b, &[200, 201, 202], true);
    t.dec_lock_ref(b);
    assert_eq!(t.inc_lock_ref(a), -2);
    let e = t.evict(100);
    assert_eq!(e.num_tokens_evicted, 3);
    assert_eq!(e.free_device, vec![vec![20, 21, 22]]);
    assert_eq!(t.node_value(a), Some(vec![10, 11]));
    assert!(t.node_evicted(b) && t.node_backuped(b));
    assert_eq!(t.total_host_size(), 3);
    assert_eq!(t.dec_lock_ref(a), 2);
    assert_eq!(t.evictable_size(), 2);
}

#[test]
fn hi_new_nodes_get_ticks_of_their_own() {
    let mut t = HiRadixTree::new(1, false, HiPolicy::WriteThrough, EvictionPolicy::Lru, 1, 10);
    let a = t.insert(&key(&[0, 1]), &[0, 1], 0, false).last_node;
    let b = t.insert(&key(&[0, 1, 2]), &[0, 1, 2], 0, false).last_node;
    assert!(t.node_last_access(b) > t.node_last_access(a));
    // Walk, front of the split, leaf: three ticks in that order.
    let r = t.insert(&key(&[0, 5]), &[0, 5], 0, false);
    let (front, tail) = r.splits[0];
    assert_eq!(tail, a);
    assert!(t.node_last_access(front) > t.node_last_access(tail));
    assert!(t.node_last_access(r.last_node) > t.node_last_access(front));
    // A host-only leaf too.
    let root_access = t.node_last_access(ROOT);
    assert_eq!(t.insert_host(ROOT, &key(&[7, 8]), &[70, 71]), 0);
    let h = t.match_prefix(&key(&[7, 8])).last_host_node;
    assert!(t.node_last_access(h) > root_access);
}

#[test]
fn hi_protected_host_leaves_are_not_evictable() {
    let mut t = HiRadixTree::new(1, false, HiPolicy::WriteThrough, EvictionPolicy::Lru, 1, 1);
    let tokens: Vec<i64> = (0..4).collect();
    let host: Vec<i64> = (1000..1004).collect();
    let a = t.insert(&key(&tokens), &tokens, 0, false).last_node;
    t.begin_backup(a, &host, false);
    assert_eq!(t.evict(4).num_tokens_evicted, 4);
    assert_eq!(t.evictable_host_leaves(), vec![a]);
    t.protect_host(a);
    assert!(t.evictable_host_leaves().is_empty());
    assert_eq!(t.evict_host(4).num_tokens_evicted, 0);
    t.release_host(a);
    assert_eq!(t.evictable_host_leaves(), vec![a]);

    // A load back protects what it loads until it is given up or done.
    let plan = t.init_load_back(a, None).expect("four host tokens");
    assert!(t.evictable_host_leaves().is_empty());
    t.abort_load_back(&plan);
    assert_eq!(t.evictable_host_leaves(), vec![a]);
    let plan = t.init_load_back(a, None).expect("four host tokens");
    t.finish_load_back(&plan, Some(&[30, 31, 32, 33]));
    assert!(t.evictable_host_leaves().is_empty());
    t.dec_lock_ref(a);
    t.evict(4);
    assert_eq!(t.evictable_host_leaves(), vec![a]);
}

#[test]
fn hi_backups_leave_from_the_bottom() {
    let mut t = hi();
    let top = t.insert(&key(&[1, 2]), &[10, 11], 0, false).last_node;
    let low = t.insert(&key(&[1, 2, 3]), &[10, 11, 12], 0, false).last_node;
    t.begin_backup(top, &[100, 101], false);
    t.begin_backup(low, &[102], false);
    assert_eq!(t.evict(100).num_tokens_evicted, 3);
    assert_eq!((t.total_size(), t.total_host_size()), (0, 3));
    // The lower copy goes first; the one above it is still whole.
    let e = t.evict_host(1);
    assert_eq!(e.free_host, vec![vec![102]]);
    assert_eq!(e.deleted, vec![low]);
    assert_eq!(t.match_prefix(&key(&[1, 2, 3])).host_hit_length, 2);
    let e = t.evict_host(100);
    assert_eq!(e.free_host, vec![vec![100, 101]]);
    assert_eq!(t.total_host_size(), 0);
}

// ---- the hybrid tree ----

#[test]
fn mamba_balanced_locks_leave_the_tree_evictable() {
    let mut t = MambaRadixTree::new(1, false, 4);
    let a = t.insert(&key(&[1, 2, 3, 4]), &[10, 11, 12, 13], &[7], 0).last_node;
    let b = t.insert(&key(&[1, 2, 3, 4, 5]), &[10, 11, 12, 13, 14], &[8], 0).last_node;
    t.inc_lock_ref(b);
    t.inc_lock_ref(a);
    // The cut below leaves a locked front part without a state.
    t.match_prefix(&key(&[1, 2, 9]));
    t.dec_lock_ref(a);
    // The state of the inner node can go; its tokens are held from below.
    let e = t.evict(100, 100);
    assert_eq!(e.free.mamba, vec![vec![7]]);
    assert!(e.free.kv.is_empty());
    assert_eq!(t.full_protected_size(), 5);
    t.dec_lock_ref(b);
    let e = t.evict(100, 100);
    assert_eq!(e.free.mamba, vec![vec![8]]);
    assert_eq!(t.total_size(), (0, 0));
}

#[test]
fn mamba_insert_then_match_finds_the_state() {
    let mut t = MambaRadixTree::new(1, false, 4);
    t.insert(&key(&[1, 2, 3, 4]), &[10, 11, 12, 13], &[7], 0);
    let r = t.insert(&key(&[1, 2, 5, 6]), &[20, 21, 22, 23], &[8], 0);
    assert_eq!(r.prefix_len, 2);
    assert_eq!(r.free.kv, vec![(vec![20, 21], 0)]);
    let m = t.match_prefix(&key(&[1, 2, 5, 6]));
    assert_eq!(m.indices, vec![10, 11, 22, 23]);
    assert_eq!(m.last_node, r.last_node);
    assert_eq!(m.mamba_branching_seqlen, None);
    assert_eq!(t.node_mamba_value(m.last_node), Some(vec![8]));
}

#[test]
fn mamba_lock_then_unlock_and_evict() {
    let mut t = MambaRadixTree::new(1, false, 4);
    t.insert(&key(&[1, 2, 3, 4]), &[10, 11, 12, 13], &[7], 0);
    let r = t.insert(&key(&[1, 2, 5, 6]), &[20, 21, 22, 23], &[8], 0);
    let before = (
        t.full_evictable_size(),
        t.full_protected_size(),
        t.mamba_evictable_size(),
        t.mamba_protected_size(),
    );
    assert_eq!(t.inc_lock_ref(r.last_node), (-4, -1));
    // A locked path is spared: only the other leaf goes.
    let e = t.evict(100, 100);
    assert_eq!(e.free.kv, vec![(vec![12, 13], 0)]);
    assert_eq!(e.free.mamba, vec![vec![7]]);
    assert_eq!(t.dec_lock_ref(r.last_node), (4, 1));
    assert_eq!(before, (6, 0, 2, 0));
    assert_eq!(t.total_size(), (4, 1));
    // The last leaf goes with the stateless node above it.
    let e = t.evict(1, 0);
    let tokens: usize = e.free.kv.iter().map(|(run, _)| run.len()).sum();
    assert_eq!(tokens, 4);
    assert_eq!(e.full_num_evicted, 4);
    assert_eq!(e.free.mamba, vec![vec![8]]);
    assert_eq!(t.total_size(), (0, 0));
}

// ---- the sliding-window tree ----

#[test]
fn swa_insert_revives_lost_window_slots() {
    let mut t = SWARadixTree::new(1, false, 4);
    t.insert(&key(&[1, 2, 3, 4]), &[10, 11, 12, 13], 0, 0);
    let ab = [1, 2, 3, 4, 5, 6];
    let r = t.insert(&key(&ab), &[10, 11, 12, 13, 14, 15], 0, 0);
    let e = t.evict(0, 4);
    assert_eq!(e.free.swa, vec![vec![10, 11, 12, 13]]);
    assert_eq!(e.swa_num_evicted, 4);
    // Two window tokens after the gap are not a window of four.
    assert!(t.match_prefix(&key(&ab)).indices.is_empty());

    let again = t.insert(&key(&ab), &[20, 21, 22, 23, 24, 25], 0, 0);
    assert_eq!(again.prefix_len, 6);
    assert_eq!(again.free.kv, vec![vec![10, 11, 12, 13], vec![24, 25]]);
    let m = t.match_prefix(&key(&ab));
    assert_eq!(m.indices, vec![20, 21, 22, 23, 14, 15]);
    assert_eq!(m.last_node, again.last_node);
    assert_eq!(again.last_node, r.last_node);
    assert_eq!(t.total_size(), (6, 6));
}

/// A tree whose first four tokens of six have lost their window slots.
fn with_gap(window: usize) -> SWARadixTree {
    let mut t = SWARadixTree::new(1, false, window);
    t.insert(&key(&[1, 2, 3, 4]), &[10, 11, 12, 13], 0, 0);
    t.insert(&key(&[1, 2, 3, 4, 5, 6]), &[10, 11, 12, 13, 14, 15], 0, 0);
    t.evict(0, 4);
    t
}

#[test]
fn swa_insert_revives_what_still_has_its_slots() {
    let ab = [1, 2, 3, 4, 5, 6];
    let new = [20, 21, 22, 23, 24, 25];
    // Four tokens with window slots lie past the gap: a window of two or
    // four, not of five.
    for window in [2, 4, 5] {
        let mut t = with_gap(window);
        let r = t.insert(&key(&ab), &new, 0, 2);
        assert_eq!(r.free.kv, vec![vec![12, 13], vec![20, 21], vec![24, 25]]);
        let m = t.match_prefix(&key(&ab));
        if window < 5 {
            assert_eq!(m.indices, vec![10, 11, 22, 23, 14, 15]);
            assert_eq!(m.last_node, r.last_node);
        } else {
            assert!(m.indices.is_empty());
        }
        assert_eq!(t.total_size(), (6, 4));
    }
    // Where the caller shares the first four tokens already, nothing of them
    // changes.
    let mut t = with_gap(2);
    t.insert(&key(&ab), &new, 4, 2);
    assert_eq!(t.match_prefix(&key(&ab)).indices, vec![10, 11, 12, 13, 14, 15]);
    assert_eq!(t.total_size(), (6, 2));
}

#[test]
fn swa_new_part_may_lack_window_slots() {
    let ab = [1, 2, 3, 4, 5, 6];
    let new = [20, 21, 22, 23, 24, 25];
    let mut t = SWARadixTree::new(1, false, 4);
    let r = t.insert(&key(&ab), &new, 0, 2);
    let m = t.match_prefix(&key(&ab));
    assert_eq!(m.indices, new.to_vec());
    assert_eq!(m.last_node, r.last_node);
    assert_eq!(t.total_size(), (6, 4));
    // All of them gone: nothing is added.
    let mut t = SWARadixTree::new(1, false, 4);
    let r = t.insert(&key(&ab), &new, 0, 6);
    assert_eq!(r.free.kv, vec![new.to_vec()]);
    assert!(t.match_prefix(&key(&ab)).indices.is_empty());
    assert_eq!(t.total_size(), (0, 0));
}

#[test]
fn swa_lock_then_unlock_with_its_mark() {
    let mut t = SWARadixTree::new(1, false, 2);
    t.insert(&key(&[1, 2, 3, 4]), &[10, 11, 12, 13], 0, 0);
    let leaf = t.insert(&key(&[1, 2, 3, 4, 5, 6]), &[10, 11, 12, 13, 14, 15], 0, 0).last_node;
    let (mark, delta) = t.inc_lock_ref(leaf);
    assert_eq!(delta, -6);
    assert!(mark.is_some());
    // The window of two ends with the leaf.
    assert_eq!((t.full_protected_size(), t.swa_protected_size()), (6, 2));
    assert_eq!(t.dec_lock_ref(leaf, mark, false), 6);
    assert_eq!((t.full_protected_size(), t.swa_protected_size()), (0, 0));
    assert_eq!((t.full_evictable_size(), t.swa_evictable_size()), (6, 6));
    // What an eviction hands out is what is gone.
    let e = t.evict(100, 100);
    assert_eq!(sum_lens(&e.free.kv) + sum_lens(&e.free.full), 6);
    assert_eq!(sum_lens(&e.free.kv) + sum_lens(&e.free.swa), 6);
    assert_eq!(t.total_size(), (0, 0));
}

#[test]
fn mamba_evictions_ask_for_what_they_reach() {
    let mut t = MambaRadixTree::new(1, false, 1);
    let b = t.insert(&key(&[8, 9]), &[80, 90], &[8], 0).last_node;
    t.insert(&key(&[1, 2, 3, 4]), &[10, 11, 12, 13], &[7], 0);
    t.match_prefix(&key(&[1, 2, 5]));
    let front = t.node_children(ROOT).into_iter().find(|&id| id != b).expect("a front");
    // A lock on a node without a state outlives the node below it.
    assert_eq!(t.inc_lock_ref(front), (-2, 0));
    assert_eq!(t.inc_lock_ref(b), (-2, -1));
    assert_eq!(t.evict(1, 0).full_num_evicted, 2);
    assert_eq!(t.dec_lock_ref(b), (2, 1));
    assert_eq!(t.dec_lock_ref(front), (2, 0));
    // A budget that ends before that node is met.
    let e = t.evict(1, 0);
    assert_eq!(e.free.kv, vec![(vec![80, 90], 0)]);
    assert_eq!(t.full_evictable_size(), 2);
}

#[test]
fn full_locks_cover_the_others_on_the_root_too() {
    let mut t = MambaRadixTree::new(1, false, 1);
    let n = t.insert(&key(&[1, 2]), &[10, 11], &[7], 0).last_node;
    let before = (t.node_full_lock_ref(n), t.node_mamba_lock_ref(n));
    let (f, m) = t.inc_lock_ref(n);
    for id in [ROOT, n] {
        assert!(t.node_full_lock_ref(id) >= t.node_mamba_lock_ref(id));
    }
    assert_eq!((t.node_full_lock_ref(ROOT), t.node_mamba_lock_ref(ROOT)), (1, 1));
    assert_eq!(t.dec_lock_ref(n), (-f, -m));
    assert_eq!((t.node_full_lock_ref(n), t.node_mamba_lock_ref(n)), before);
    let t = SWARadixTree::new(1, false, 2);
    assert_eq!((t.node_full_lock_ref(ROOT), t.node_swa_lock_ref(ROOT)), (1, 1));
}

// ---- the unified tree ----

fn cfg() -> UConfig {
    UConfig {
        page_size: 1,
        is_eagle: false,
        sliding_window_size: 0,
        mamba_checkpoint_grid: 0,
        mamba_max_states_per_path: -1,
        eviction_policy: EvictionPolicy::Lru,
        write_through_threshold: 100,
        is_write_back: false,
        has_swa_host_pool: false,
        enable_session_radix_cache: false,
    }
}

fn params() -> UInsertParams {
    UInsertParams {
        prev_prefix_len: 0,
        chunked: false,
        priority: 0,
        swa_evicted_seqlen: 0,
        mamba_value: None,
    }
}

fn put(t: &mut UnifiedRadixTree, tokens: &[i64], first: i64, p: &UInsertParams) -> UIntsertResult {
    let value: Vec<i64> = (0..tokens.len() as i64).map(|i| first + i).collect();
    let mut step = t.begin_insert(1, tokens, Some(value), p);
    while step.result.is_none() {
        step = t.resume_insert();
    }
    step.result.unwrap()
}

#[test]
fn unified_insert_then_match_keeps_the_cached_part() {
    let mut t = UnifiedRadixTree::new(cfg());
    put(&mut t, &[1, 2, 3, 4], 10, &params());
    let r = put(&mut t, &[1, 2, 5, 6], 20, &params());
    assert_eq!(r.prefix_len, 2);
    let m = t.match_prefix(1, &[1, 2, 5, 6]);
    assert_eq!(m.device_indices, vec![10, 11, 22, 23]);
    assert_eq!(m.last_device_node, r.last_device_node);
    assert_eq!(m.best_match_node, r.last_device_node);
    assert_eq!(m.host_hit_length, 0);
    assert_eq!(m.full_kv_hit_length, 4);
    assert_eq!(t.total_size(), (6, 0));
}

#[test]
fn unified_states_end_a_match() {
    let mut c = cfg();
    c.mamba_checkpoint_grid = 2;
    let mut t = UnifiedRadixTree::new(c);
    let with_state = |slot: i64| UInsertParams { mamba_value: Some(vec![slot]), ..params() };
    put(&mut t, &[1, 2, 3, 4], 10, &with_state(7));
    let r = put(&mut t, &[1, 2, 5, 6], 20, &with_state(8));
    assert!(!r.mamba_exist);
    let m = t.match_prefix(1, &[1, 2, 5, 6]);
    assert_eq!(m.device_indices, vec![10, 11, 22, 23]);
    assert_eq!(m.mamba_branching_seqlen, None);
    // The cut left the shared part without a state: nothing is usable, and
    // the next checkpoint is due after two tokens.
    let m = t.match_prefix(1, &[1, 2, 9]);
    assert!(m.device_indices.is_empty());
    assert_eq!(m.full_kv_hit_length, 2);
    assert_eq!(m.mamba_branching_seqlen, Some(2));
    let mut slots = t.all_mamba_values_flatten();
    slots.sort();
    assert_eq!(slots, vec![7, 8]);
    // The same key again has its state.
    assert!(put(&mut t, &[1, 2, 5, 6], 30, &with_state(9)).mamba_exist);
    assert!(t.sanity_check(&[], &[]).is_empty());
}

#[test]
fn unified_lock_then_unlock_restores_the_tree() {
    let mut c = cfg();
    c.mamba_checkpoint_grid = 2;
    c.sliding_window_size = 2;
    let mut t = UnifiedRadixTree::new(c);
    let p = UInsertParams { mamba_value: Some(vec![7]), ..params() };
    let l = put(&mut t, &[1, 2], 10, &p).last_device_node;
    t.set_component_device_value(l, CT_SWA, vec![50, 51]);
    let locks = t.node_by_id(l).lock_ref;
    let inc = t.inc_lock_ref(l, &[]);
    assert_eq!(inc.delta, 2);
    assert!(inc.swa_uuid_for_lock.is_some());
    assert_eq!(t.node_by_id(l).lock_ref, [1, 1, 1, 0]);
    assert_eq!(t.component_protected_size(CT_FULL), 2);
    assert_eq!(t.component_protected_size(CT_SWA), 2);
    assert_eq!(t.component_protected_size(CT_MAMBA), 1);
    let dec = UDecLockParams {
        swa_uuid_for_lock: inc.swa_uuid_for_lock,
        swa_uuid_for_host_lock: None,
        skip_lock_node_ids: inc.skip_lock_node_ids.clone(),
    };
    t.dec_lock_ref(l, &dec, false);
    assert_eq!(t.node_by_id(l).lock_ref, locks);
    assert_eq!(t.component_protected_size(CT_FULL), 0);
    assert_eq!(t.component_evictable_size(CT_SWA), 2);
    assert_eq!(t.component_evictable_size(CT_MAMBA), 1);
    assert!(t.sanity_check(&[], &[]).is_empty());
}

#[test]
fn unified_device_and_host_cover_a_match() {
    let mut t = UnifiedRadixTree::new(cfg());
    t.set_hicache_enabled();
    let top = put(&mut t, &[1, 2], 10, &params()).last_device_node;
    let low = put(&mut t, &[1, 2, 3, 4, 5], 20, &params()).last_device_node;
    t.commit_backup(top, &[100, 101], &[]);
    t.commit_backup(low, &[102, 103, 104], &[]);
    let size = t.evictable_size();
    let out = t.evict_device_leaf(low, false);
    assert_eq!(out.device_frees, vec![(CT_FULL, vec![vec![22, 23, 24]])]);
    assert_eq!(t.evictable_size(), size - 3);
    let m = t.match_prefix(1, &[1, 2, 3, 4, 5]);
    assert_eq!(m.device_indices, vec![10, 11]);
    assert_eq!(m.host_hit_length, 3);
    assert_eq!(m.full_kv_hit_length, 5);
    assert_eq!((m.last_device_node, m.last_host_node), (top, low));

    // The plan of a load-back names what is missing, and can be carried out.
    let plan = t.build_load_back_spec(low, None).expect("a plan");
    assert_eq!(plan.kv.nodes_to_load, vec![low]);
    assert_eq!(plan.kv.host_indices, Some(vec![102, 103, 104]));
    assert!(plan.comp_xfers.is_empty());
    t.commit_load_back(low, Some(&[70, 71, 72]), &plan.kv.nodes_to_load, &plan.comp_xfers);
    t.finish_load_back(low);
    let m = t.match_prefix(1, &[1, 2, 3, 4, 5]);
    assert_eq!(m.device_indices, vec![10, 11, 70, 71, 72]);
    assert_eq!(m.host_hit_length, 0);
    assert!(t.sanity_check(&[], &[]).is_empty());
}

#[test]
fn unified_unbacked_leaf_is_deleted() {
    let mut t = UnifiedRadixTree::new(cfg());
    let a = put(&mut t, &[1, 2], 10, &params()).last_device_node;
    let b = put(&mut t, &[1, 2, 3], 20, &params()).last_device_node;
    let out = t.evict_device_leaf(b, false);
    assert_eq!(out.device_frees, vec![(CT_FULL, vec![vec![22]])]);
    assert_eq!(out.tracker, vec![(CT_FULL, 1)]);
    assert_eq!(t.match_prefix(1, &[1, 2, 3]).device_indices, vec![10, 11]);
    assert!(t.d_leaves.contains(&a));
    // Where the caller writes back, it is asked for a backup instead.
    let out = t.evict_device_leaf(a, true);
    assert_eq!(out.backup_kv, Some(vec![a]));
    assert_eq!(t.total_size(), (2, 0));
    assert_eq!(t.root_id(), ROOT);
}

#[test]
fn a_repeated_match_finds_the_same() {
    let long = [1, 2, 3, 4];
    let query = [1, 2, 9];

    let mut t = SWARadixTree::new(1, false, 2);
    t.insert(&key(&long), &[10, 11, 12, 13], 0, 0);
    let (a, b) = (t.match_prefix(&key(&query)), t.match_prefix(&key(&query)));
    assert_eq!((&a.indices, a.last_node), (&vec![10, 11], 2));
    assert_eq!((a.indices, a.last_node), (b.indices, b.last_node));

    let mut t = MambaRadixTree::new(1, false, 2);
    t.insert(&key(&long), &[10, 11, 12, 13], &[7], 0);
    let (a, b) = (t.match_prefix(&key(&query)), t.match_prefix(&key(&query)));
    assert_eq!((&a.indices, a.last_node, a.mamba_branching_seqlen), (&vec![], ROOT, Some(2)));
    assert_eq!(
        (a.indices, a.last_node, a.mamba_branching_seqlen),
        (b.indices, b.last_node, b.mamba_branching_seqlen)
    );

    let mut t = hi();
    t.insert(&key(&long), &[10, 11, 12, 13], 0, false);
    let (a, b) = (t.match_prefix(&key(&query)), t.match_prefix(&key(&query)));
    assert_eq!(a.splits, vec![(2, 1)]);
    assert!(b.splits.is_empty());
    assert_eq!((a.indices, a.last_device_node), (b.indices, b.last_device_node));

    let mut t = UnifiedRadixTree::new(cfg());
    put(&mut t, &long, 10, &params());
    let (a, b) = (t.match_prefix(1, &query), t.match_prefix(1, &query));
    assert_eq!(a.device_indices, vec![10, 11]);
    assert_eq!((a.device_indices, a.best_match_node), (b.device_indices, b.best_match_node));
}
