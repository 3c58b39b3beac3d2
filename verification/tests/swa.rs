use sglang_radix::{RadixKey, SWARadixTree, ROOT};

fn vals(n: usize, off: i64) -> Vec<i64> {
    (0..n as i64).map(|i| i + off).collect()
}

#[test]
fn swa_insert_match_lock_basic() {
    let mut t = SWARadixTree::new(1, false, 64);
    let ids: Vec<i64> = (0..100).collect();
    let r = t.insert(&RadixKey::new(&ids), &vals(100, 1000), 0, 0);
    assert_eq!(r.prefix_len, 0);
    assert_eq!(t.full_evictable_size(), 100);
    assert_eq!(t.swa_evictable_size(), 100);

    let m = t.match_prefix(&RadixKey::new(&ids));
    assert_eq!(m.indices.len(), 100);
    assert_eq!(m.last_node, r.last_node);
    assert_eq!(t.full_evictable_size(), 100); // match does not lock
    assert_eq!(t.full_protected_size(), 0);

    let (uuid, delta) = t.inc_lock_ref(r.last_node);
    assert_eq!(delta, -100);
    assert_eq!(t.full_protected_size(), 100);
    // window (64) < 100: the SWA lock boundary lands inside this node,
    // but the lock is per-NODE, so the whole node's SWA is protected.
    assert_eq!(uuid, Some(2)); // first issued uuid (counter starts at 1, post-increment)
    assert_eq!(t.swa_protected_size(), 100);
    assert_eq!(t.dec_lock_ref(r.last_node, uuid, false), 100);
    assert_eq!(t.swa_protected_size(), 0);
    assert_eq!(t.full_protected_size(), 0);
}

#[test]
fn evict_dual_budget() {
    let mut t = SWARadixTree::new(1, false, 4);
    // Two disjoint 10-token leaves.
    let a: Vec<i64> = (0..10).collect();
    let b: Vec<i64> = (100..110).collect();
    t.insert(&RadixKey::new(&a), &vals(10, 1000), 0, 0);
    t.insert(&RadixKey::new(&b), &vals(10, 2000), 0, 0);

    // SWA-only evict: internal-node path is unreachable with leaves;
    // the unlocked-leaf path frees full+swa for 10 tokens.
    let r = t.evict(0, 10);
    assert_eq!(r.full_num_evicted, 10);
    assert_eq!(r.swa_num_evicted, 10);
    assert_eq!(t.full_evictable_size(), 10);
    assert_eq!(t.swa_evictable_size(), 10);
    assert_eq!(r.free.kv.len(), 1);
    assert_eq!(r.free.kv[0].len(), 10);
}

#[test]
fn swa_evict_tombstones_internal_nodes() {
    let mut t = SWARadixTree::new(1, false, 4);
    // Chain: root -> A(10) -> B(10): insert A, then A+B.
    let a: Vec<i64> = (0..10).collect();
    t.insert(&RadixKey::new(&a), &vals(10, 1000), 0, 0);
    let ab: Vec<i64> = (0..20).collect();
    t.insert(&RadixKey::new(&ab), &vals(20, 1000), 0, 0);
    assert_eq!(t.full_evictable_size(), 20);
    assert_eq!(t.swa_evictable_size(), 20);

    // SWA-evict 5: the LRU non-leaf is A (internal, unlocked) -> free
    // swa only, tombstone it.
    let r = t.evict(0, 5);
    assert_eq!(r.full_num_evicted, 0);
    assert_eq!(r.swa_num_evicted, 10); // overfills to the node boundary
    assert_eq!(r.free.swa.len(), 1);
    assert_eq!(r.free.swa[0].len(), 10);
    assert_eq!(t.swa_evictable_size(), 10); // only B's SWA remains
    assert_eq!(t.full_evictable_size(), 20);
}

#[test]
fn match_stops_at_tombstone_gap() {
    // root -> A(100) -> B(100).
    let mut t = SWARadixTree::new(1, false, 64);
    let a: Vec<i64> = (0..100).collect();
    t.insert(&RadixKey::new(&a), &vals(100, 1000), 0, 0);
    let ab: Vec<i64> = (0..200).collect();
    t.insert(&RadixKey::new(&ab), &vals(200, 1000), 0, 0);

    // SWA-evict with a huge budget: the LRU node is A (internal,
    // unlocked) -> free SWA only, tombstone it (100). Then the scan
    // continues from A's predecessor — B (leaf, unlocked) -> free
    // full+swa, delete (100 + 100). Deleting B cascades: A lost its
    // last child while tombstoned and unlocked, so its full KV is
    // freed (into `free.full`) and it is deleted too. The cascade's
    // full tokens are NOT added to `full_num_evicted` in phase 2.
    let r = t.evict(0, 10_000);
    assert_eq!(r.full_num_evicted, 100);
    assert_eq!(r.swa_num_evicted, 200);
    // B went out via `kv`, A's full side via `full`.
    assert_eq!(
        r.free.kv.iter().map(|v| v.len()).collect::<Vec<_>>(),
        vec![100]
    );
    assert_eq!(
        r.free.full.iter().map(|v| v.len()).collect::<Vec<_>>(),
        vec![100]
    );
    assert!(t.node_children(ROOT).is_empty()); // both A and B detached
    assert_eq!(t.full_evictable_size(), 0);
    assert_eq!(t.swa_evictable_size(), 0);

    // The tree is empty now: a match of the full 200 tokens finds
    // nothing.
    let m = t.match_prefix(&RadixKey::new(&ab));
    assert_eq!(m.indices.len(), 0);
    assert_eq!(m.last_node, ROOT);
}

#[test]
fn match_valid_across_tombstone_when_window_covered() {
    // root -> A(100, tombstone) -> B(100, live). Distance since the
    // tombstone at B is 100 >= window 64, so the full match is valid
    // and B's run is the reusable KV.
    let mut t = SWARadixTree::new(1, false, 64);
    let a: Vec<i64> = (0..100).collect();
    t.insert(&RadixKey::new(&a), &vals(100, 1000), 0, 0);
    let ab: Vec<i64> = (0..200).collect();
    t.insert(&RadixKey::new(&ab), &vals(200, 2000), 0, 0);
    // Tombstone A only: A is the LRU node and internal, so its whole
    // 100-token SWA run is freed and it is tombstoned; B (MRU) is
    // untouched.
    let r = t.evict(0, 10);
    assert_eq!(r.full_num_evicted, 0);
    assert_eq!(r.swa_num_evicted, 100); // overfills to A's boundary
    assert!(t.node_tombstone(1));

    let m = t.match_prefix(&RadixKey::new(&ab));
    // Runs: [A(100), B(100)]; best run count = 2 (distance 100 >= 64
    // at the end), but the post-processor keeps runs up to best_len
    // inclusive... A is a tombstone run: it still holds full KV, so
    // its indices are reusable only as far as the window rule allows.
    // The window rule validates the LAST node (B, 100 since last
    // tombstone), so both runs survive the list slice.
    assert_eq!(m.indices.len(), 200);
    assert_eq!(m.last_node, 2); // B
}

#[test]
fn dec_swa_lock_only_tombstones_leaf() {
    let mut t = SWARadixTree::new(1, false, 4);
    let ids: Vec<i64> = (0..10).collect();
    let leaf = t.insert(&RadixKey::new(&ids), &vals(10, 1000), 0, 0).last_node;
    let (uuid, _) = t.inc_lock_ref(leaf);
    assert_eq!(t.swa_protected_size(), 10); // window 4 <= 10, whole leaf

    let r = t.dec_swa_lock_only(leaf, uuid);
    assert_eq!(r.free_swa.len(), 1);
    assert_eq!(r.free_swa[0].len(), 10);
    assert!(t.node_tombstone(leaf));
    assert_eq!(t.node_full_lock_ref(leaf), 1); // full lock untouched
    assert_eq!(t.swa_protected_size(), 0);

    // Final release skips the SWA side (already released).
    let delta = t.dec_lock_ref(leaf, None, true);
    assert_eq!(delta, 10);
    assert_eq!(t.full_protected_size(), 0);
}

#[test]
fn insert_recover_locked_full() {
    // root -> A(100) -> B(100); lock B; SWA-evict tombstones A while
    // its full side stays locked; re-inserting the prefix adopts the
    // incoming SWA for A (recover) and frees B's overlap.
    let mut t = SWARadixTree::new(1, false, 64);
    let a: Vec<i64> = (0..100).collect();
    t.insert(&RadixKey::new(&a), &vals(100, 1000), 0, 0);
    let ab: Vec<i64> = (0..200).collect();
    let b = t.insert(&RadixKey::new(&ab), &vals(200, 2000), 0, 0).last_node;
    let (uuid, _) = t.inc_lock_ref(b);
    assert!(uuid.is_some());

    let r = t.evict(0, 10);
    assert_eq!(r.swa_num_evicted, 100);
    assert_eq!(r.full_num_evicted, 0);
    assert!(t.node_tombstone(1)); // A
    assert_eq!(t.node_full_lock_ref(1), 1);

    let new_ab = vals(200, 9000);
    let r = t.insert(&RadixKey::new(&ab), &new_ab, 0, 0);
    assert_eq!(r.prefix_len, 200);
    assert_eq!(r.recover_locked_full.len(), 1);
    assert_eq!(r.recover_locked_full[0].tree_value, vals(100, 1000));
    assert_eq!(r.recover_locked_full[0].incoming, new_ab[..100].to_vec());
    // free_full(incoming) is reported in walk order; B's overlap via kv.
    assert_eq!(r.free.full, vec![new_ab[..100].to_vec()]);
    assert_eq!(r.free.kv, vec![new_ab[100..].to_vec()]);
    // A is live-SWA again, its value is the ADOPTED tree value (the
    // locked full slots stayed in place). B is non-tombstone, so the
    // tree keeps ITS value and the incoming overlap is freed.
    assert!(!t.node_tombstone(1));
    assert_eq!(t.swa_evictable_size(), 100);
    let m = t.match_prefix(&RadixKey::new(&ab));
    let mut expected = vals(100, 1000);
    expected.extend(vals(200, 2000)[100..].iter());
    assert_eq!(m.indices, expected);

    // Second lock (B keeps its uuid marker, so the same uuid applies);
    // release both locks, then drain to zero.
    let (uuid2, _) = t.inc_lock_ref(b);
    assert_eq!(uuid2, uuid);
    t.dec_lock_ref(b, uuid, false);
    t.dec_lock_ref(b, uuid2, false);
    let r = t.evict(10_000, 10_000);
    assert_eq!(r.full_num_evicted, 200);
    assert_eq!(r.swa_num_evicted, 200);
    assert_eq!(t.total_size(), (0, 0));
}

#[test]
fn insert_with_swa_evicted_seqlen_creates_tombstone_leaf() {
    let mut t = SWARadixTree::new(1, false, 4);
    // 20-token insert where SWA has evicted [5, 12): the first 5 go
    // into a tombstoned node, [12, 20) into a live leaf.
    let ids: Vec<i64> = (0..20).collect();
    let r = t.insert(&RadixKey::new(&ids), &vals(20, 1000), 0, 12);
    assert_eq!(r.prefix_len, 0);
    // Full: both nodes hold full KV. SWA: only the live tail.
    assert_eq!(t.full_evictable_size(), 20);
    assert_eq!(t.swa_evictable_size(), 8);
    assert_eq!(t.total_size(), (20, 8));
}
