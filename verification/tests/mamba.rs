use sglang_radix::{MambaRadixTree, RadixKey, ROOT};

fn vals(n: usize, off: i64) -> Vec<i64> {
    (0..n as i64).map(|i| i + off).collect()
}

#[test]
fn mamba_insert_match_lock_basic() {
    let mut t = MambaRadixTree::new(1, false, 64);
    let ids: Vec<i64> = (0..10).collect();
    let r = t.insert(&RadixKey::new(&ids), &vals(10, 1000), &[77], 0);
    assert_eq!(r.prefix_len, 0);
    assert!(!r.mamba_exist);
    assert_eq!(t.full_evictable_size(), 10);
    assert_eq!(t.mamba_evictable_size(), 1);

    let m = t.match_prefix(&RadixKey::new(&ids));
    assert_eq!(m.indices.len(), 10);
    assert_eq!(m.last_node, r.last_node);
    assert_eq!(m.mamba_branching_seqlen, None);
    // match does not lock
    assert_eq!(t.full_protected_size(), 0);
    assert_eq!(t.mamba_protected_size(), 0);

    let (fd, md) = t.inc_lock_ref(r.last_node);
    assert_eq!(fd, -10);
    assert_eq!(md, -1);
    assert_eq!(t.full_protected_size(), 10);
    assert_eq!(t.mamba_protected_size(), 1);
    assert_eq!(t.node_full_lock_ref(r.last_node), 1);
    assert_eq!(t.node_mamba_lock_ref(r.last_node), 1);
    assert_eq!(t.dec_lock_ref(r.last_node), (10, 1));
    assert_eq!(t.full_protected_size(), 0);
    assert_eq!(t.mamba_protected_size(), 0);
}

#[test]
fn evict_full_leaf_overfills_to_node_boundary() {
    let mut t = MambaRadixTree::new(1, false, 64);
    let a: Vec<i64> = (0..10).collect();
    let b: Vec<i64> = (100..110).collect();
    t.insert(&RadixKey::new(&a), &vals(10, 1000), &[1], 0);
    t.insert(&RadixKey::new(&b), &vals(10, 2000), &[2], 0);

    // Full-side evict of 5: the LRU leaf is A (inserted first),
    // overfilling to its 10-token boundary; the mamba state goes
    // with it but does NOT count toward the mamba budget.
    let r = t.evict(5, 0);
    assert_eq!(r.full_num_evicted, 10);
    assert_eq!(r.mamba_num_evicted, 0);
    assert_eq!(r.free.kv, vec![(vals(10, 1000), 0)]);
    assert_eq!(r.free.mamba, vec![vec![1]]);
    assert_eq!(t.full_evictable_size(), 10);
    assert_eq!(t.mamba_evictable_size(), 1);
    assert_eq!(t.node_children(ROOT).len(), 1);
}

#[test]
fn evict_mamba_internal_tombstones_then_cascades() {
    // root -> A(10) -> B(10).
    let mut t = MambaRadixTree::new(1, false, 64);
    let a: Vec<i64> = (0..10).collect();
    t.insert(&RadixKey::new(&a), &vals(10, 1000), &[1], 0);
    let ab: Vec<i64> = (0..20).collect();
    t.insert(&RadixKey::new(&ab), &vals(20, 1000), &[2], 0);

    // Mamba evict of 5: the LRU mamba node is A (internal) -> free
    // its state, tombstone it (1). The scan continues from B
    // (leaf, unlocked) -> free full+mamba, delete; deleting B
    // cascades: A is a tombstone without children and unlocked, so
    // its full KV is freed and it is deleted too.
    let r = t.evict(0, 5);
    // Phase 2 only: no full phase ran, so the cascade's 10 tokens
    // are NOT in full_num_evicted.
    assert_eq!(r.full_num_evicted, 0);
    assert_eq!(r.mamba_num_evicted, 2);
    assert_eq!(r.free.mamba, vec![vec![1], vec![2]]);
    // B holds the tail of the second insert's value.
    assert_eq!(
        r.free.kv,
        vec![(vals(20, 1000)[10..].to_vec(), 0), (vals(10, 1000), 0)]
    );
    assert!(t.node_children(ROOT).is_empty());
    assert_eq!(t.total_size(), (0, 0));
    assert_eq!(t.full_evictable_size(), 0);
    assert_eq!(t.mamba_evictable_size(), 0);
}

#[test]
fn match_past_mamba_tombstone_keeps_full_prefix() {
    // root -> A(100, mamba) -> B(100, mamba). Evict A's state only.
    let mut t = MambaRadixTree::new(1, false, 64);
    let a: Vec<i64> = (0..100).collect();
    t.insert(&RadixKey::new(&a), &vals(100, 1000), &[1], 0);
    let ab: Vec<i64> = (0..200).collect();
    t.insert(&RadixKey::new(&ab), &vals(200, 2000), &[2], 0);
    let r = t.evict(0, 1);
    assert_eq!(r.mamba_num_evicted, 1);
    assert!(t.node_mamba_tombstone(1)); // A
    assert!(!t.node_mamba_tombstone(2)); // B

    // Matching the full 200: best node is B (it holds a state), so
    // the whole full KV is reusable even though A's state is gone.
    let m = t.match_prefix(&RadixKey::new(&ab));
    assert_eq!(m.indices.len(), 200);
    assert_eq!(m.last_node, 2);
    assert_eq!(m.mamba_branching_seqlen, None);

    // Matching 150 tokens ends inside B: the split front is a
    // mamba tombstone and A's state is gone, so NO node on the
    // path holds a live state -> the match falls back to the root
    // (empty prefix) and reports the chunk-aligned branching point
    // of the whole 150-token run (150 // 64 * 64 = 128), where the
    // caller's forward pass will place the new checkpoint. The
    // split itself did happen: B is now B1(50, tombstone) -> B2.
    let m = t.match_prefix(&RadixKey {
        tokens: &ab[..150],
        ..RadixKey::new(&[])
    });
    assert!(m.indices.is_empty());
    assert_eq!(m.last_node, ROOT);
    assert_eq!(m.mamba_branching_seqlen, Some(128));
    // B (id 2) became the split tail; its new front (id 3) is a
    // mamba tombstone holding the state-less first 50 tokens.
    assert!(t.node_mamba_tombstone(3));
    assert!(!t.node_mamba_tombstone(2));
    assert_eq!(t.node_children(3).len(), 1);
}

#[test]
fn insert_revives_mamba_tombstone() {
    // root -> A(10) -> B(10); tombstone A's state; re-insert A.
    let mut t = MambaRadixTree::new(1, false, 64);
    let a: Vec<i64> = (0..10).collect();
    t.insert(&RadixKey::new(&a), &vals(10, 1000), &[1], 0);
    let ab: Vec<i64> = (0..20).collect();
    t.insert(&RadixKey::new(&ab), &vals(20, 1000), &[2], 0);
    t.evict(0, 1);
    assert!(t.node_mamba_tombstone(1));
    assert_eq!(t.mamba_evictable_size(), 1);

    let r = t.insert(&RadixKey::new(&a), &vals(10, 5000), &[9], 0);
    assert_eq!(r.prefix_len, 10);
    assert!(!r.mamba_exist); // the state was attached, not duplicated
    assert!(!t.node_mamba_tombstone(1));
    assert_eq!(t.node_mamba_value(1), Some(vec![9]));
    // The incoming full KV overlapped the tree: freed, not kept.
    assert_eq!(r.free.kv, vec![(vals(10, 5000), 0)]);
    assert_eq!(t.mamba_evictable_size(), 2);
    // The tree keeps ITS own A value.
    let m = t.match_prefix(&RadixKey::new(&a));
    assert_eq!(m.indices, vals(10, 1000));
}

#[test]
fn insert_prev_prefix_len_partial_free() {
    let mut t = MambaRadixTree::new(1, false, 64);
    let ids: Vec<i64> = (0..10).collect();
    t.insert(&RadixKey::new(&ids), &vals(10, 1000), &[1], 0);

    // The first 4 tokens of the incoming value are already locked
    // (prev_prefix_len=4): only [4, 10) is freed, positioned at
    // start_pos 4. The mamba value already exists -> the caller
    // frees the incoming one.
    let r = t.insert(&RadixKey::new(&ids), &vals(10, 4000), &[8], 4);
    assert_eq!(r.prefix_len, 10);
    assert!(r.mamba_exist);
    assert_eq!(r.free.kv, vec![(vals(10, 4000)[4..].to_vec(), 4)]);
    assert!(r.free.mamba.is_empty());
    // The tree's own value and state are untouched.
    assert_eq!(t.node_mamba_value(1), Some(vec![1]));
}

#[test]
fn insert_empty_key_reports_mamba_exist() {
    let mut t = MambaRadixTree::new(1, false, 64);
    let ids: [i64; 0] = [];
    let r = t.insert(&RadixKey::new(&ids), &[], &[3], 0);
    assert_eq!(r.prefix_len, 0);
    assert!(r.mamba_exist);
    assert_eq!(r.last_node, ROOT);
    assert!(r.free.kv.is_empty());
}

#[test]
fn evict_full_counts_cascade() {
    // root -> A(10, tombstone) -> B(10): the full-side evict of the
    // leaf B cascades into deleting A, and here the cascade's full tokens ARE counted.
    let mut t = MambaRadixTree::new(1, false, 64);
    let a: Vec<i64> = (0..10).collect();
    t.insert(&RadixKey::new(&a), &vals(10, 1000), &[1], 0);
    let ab: Vec<i64> = (0..20).collect();
    t.insert(&RadixKey::new(&ab), &vals(20, 1000), &[2], 0);
    t.evict(0, 1); // tombstone A's state
    assert!(t.node_mamba_tombstone(1));

    let r = t.evict(1, 0);
    assert_eq!(r.full_num_evicted, 20); // B(10) + cascade A(10)
    assert_eq!(r.mamba_num_evicted, 0);
    assert_eq!(
        r.free.kv,
        vec![(vals(20, 1000)[10..].to_vec(), 0), (vals(10, 1000), 0)]
    );
    assert_eq!(r.free.mamba, vec![vec![2]]);
    assert!(t.node_children(ROOT).is_empty());
    assert_eq!(t.total_size(), (0, 0));
}

#[test]
fn split_front_node_is_mamba_tombstone_with_full_lock() {
    let mut t = MambaRadixTree::new(1, false, 64);
    let ids: Vec<i64> = (0..20).collect();
    let leaf = t.insert(&RadixKey::new(&ids), &vals(20, 1000), &[5], 0).last_node;
    let (fd, md) = t.inc_lock_ref(leaf);
    assert_eq!((fd, md), (-20, -1));

    // Match the first 10 tokens: splits the node at 10. The front
    // keeps the full lock ref, loses the mamba lock and state; the
    // tail keeps the mamba lock and state. The split front is a
    // mamba tombstone and the root holds no state, so the match
    // itself falls back to the root (empty prefix).
    let m = t.match_prefix(&RadixKey {
        tokens: &ids[..10],
        ..RadixKey::new(&[])
    });
    assert!(m.indices.is_empty());
    assert_eq!(m.last_node, ROOT);
    let front = t.node_children(ROOT).pop().unwrap();
    let tail = t.node_children(front).pop().unwrap();
    assert_eq!(front, 2); // the new front node
    assert_eq!(tail, leaf); // the original leaf became the tail
    assert!(t.node_mamba_tombstone(front));
    assert_eq!(t.node_full_lock_ref(front), 1);
    assert_eq!(t.node_mamba_lock_ref(front), 0);
    assert!(!t.node_mamba_tombstone(tail));
    assert_eq!(t.node_full_lock_ref(tail), 1);
    assert_eq!(t.node_mamba_lock_ref(tail), 1);
    assert_eq!(t.node_mamba_value(tail), Some(vec![5]));
    assert_eq!(t.full_protected_size(), 20);
    assert_eq!(t.mamba_protected_size(), 1);

    // Release from the original leaf id (now the tail).
    assert_eq!(t.dec_lock_ref(leaf), (20, 1));
}

#[test]
fn mamba_evict_respects_locks() {
    let mut t = MambaRadixTree::new(1, false, 64);
    let a: Vec<i64> = (0..10).collect();
    let b: Vec<i64> = (100..110).collect();
    let la = t.insert(&RadixKey::new(&a), &vals(10, 1000), &[1], 0).last_node;
    let lb = t.insert(&RadixKey::new(&b), &vals(10, 2000), &[2], 0).last_node;
    t.inc_lock_ref(la); // lock A (LRU)

    // Mamba evict of 10: A is locked -> skip; B is free -> evict
    // both its states... one state per node, so exactly 1.
    let r = t.evict(0, 10);
    assert_eq!(r.mamba_num_evicted, 1);
    assert_eq!(r.free.mamba, vec![vec![2]]);
    assert!(!t.node_mamba_tombstone(la));
    assert!(t.node_children(ROOT).len() == 1);

    t.dec_lock_ref(la);
    let r = t.evict(0, 10);
    assert_eq!(r.mamba_num_evicted, 1);
    assert_eq!(r.free.mamba, vec![vec![1]]);
    assert_eq!(r.free.kv, vec![(vals(10, 1000), 0)]);
    assert_eq!(t.total_size(), (0, 0));
}
