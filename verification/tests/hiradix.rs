use sglang_radix::{EvictionPolicy, HiInsertResult, HiPolicy, HiRadixTree, RadixKey, ROOT};

/// write-through / LRU / threshold 1 / load_back_threshold 10.
fn wt() -> HiRadixTree {
    HiRadixTree::new(1, false, HiPolicy::WriteThrough, EvictionPolicy::Lru, 1, 10)
}

fn key<'a>(tokens: &'a [i64]) -> RadixKey<'a> {
    RadixKey::new(tokens)
}

/// Find the root's child whose value is `value` (child-map order is
/// arbitrary).
fn child_with_value(t: &HiRadixTree, value: &[i64]) -> u32 {
    t.node_children(ROOT)
        .into_iter()
        .find(|&id| t.node_value(id).as_deref() == Some(value))
        .expect("child with that value not found")
}

fn insert(t: &mut HiRadixTree, tokens: &[i64], vals: &[i64]) -> HiInsertResult {
    t.insert(&key(tokens), vals, 0, false)
}

/// Insert `tokens` with fresh device values `100..` and return the
/// new leaf id.
fn insert_vals(t: &mut HiRadixTree, tokens: &[i64], base: i64) -> (HiInsertResult, i64) {
    let vals: Vec<i64> = (0..tokens.len()).map(|i| base + i as i64).collect();
    let r = insert(t, tokens, &vals);
    (r, base)
}

#[test]
fn match_host_hit_length_and_last_host_node() {
    let mut t = wt();
    let key_a: Vec<i64> = (0..4).collect();
    let (r1, _) = insert_vals(&mut t, &key_a, 0);
    let a = r1.last_node;
    // extend: child B over [4,8)
    let key_ab: Vec<i64> = (0..8).collect();
    let (r2, _) = insert_vals(&mut t, &key_ab, 100);
    let b = r2.last_node;
    assert_ne!(a, b);

    // back up both (write-through: lock then "ack")
    let ha: Vec<i64> = (1000..1004).collect();
    let hb: Vec<i64> = (2000..2004).collect();
    t.begin_backup(a, &ha, true);
    t.dec_lock_ref(a);
    t.begin_backup(b, &hb, true);
    t.dec_lock_ref(b);

    // evict the whole chain from the device (both demoted)
    let ev = t.evict(8);
    assert_eq!(ev.num_tokens_evicted, 8);
    assert!(t.node_evicted(a) && t.node_evicted(b));
    assert!(t.node_children(b).is_empty());

    let m = t.match_prefix(&key(&key_ab));
    assert!(m.indices.is_empty(), "no device KV left");
    assert_eq!(m.host_hit_length, 8);
    assert_eq!(m.last_device_node, ROOT);
    assert_eq!(m.last_host_node, b);
}

#[test]
fn insert_reattach_not_counted() {
    let mut t = wt();
    let tokens: Vec<i64> = (0..4).collect();
    let (r1, _) = insert_vals(&mut t, &tokens, 0);
    let a = r1.last_node;
    assert_eq!(r1.prefix_len, 0);

    let ha: Vec<i64> = (1000..1004).collect();
    t.begin_backup(a, &ha, true);
    t.dec_lock_ref(a);
    let ev = t.evict(4);
    assert_eq!(ev.num_tokens_evicted, 4);
    assert!(t.node_evicted(a));
    assert_eq!(t.evictable_size(), 0);

    // re-insert the same prefix: the node is re-attached, NOT
    // counted as a live prefix.
    let vals: Vec<i64> = (50..54).collect();
    let r2 = t.insert(&key(&tokens), &vals, 0, false);
    assert_eq!(r2.prefix_len, 0, "re-attach must not count toward the prefix");
    assert_eq!(r2.last_node, a);
    assert!(!t.node_evicted(a));
    assert_eq!(t.node_value(a), Some(vals.clone()));
    assert_eq!(t.node_host_value(a), Some(ha.clone()));
    assert_eq!(t.evictable_size(), 4);
    assert_eq!(t.total_size(), 4);
}

#[test]
fn hit_count_threshold_triggers_backup_needed() {
    // threshold 2: new leaf hit=1 (no backup), second insert hit=2.
    let mut t = HiRadixTree::new(1, false, HiPolicy::WriteThrough, EvictionPolicy::Lru, 2, 10);
    let tokens: Vec<i64> = (0..4).collect();
    let vals: Vec<i64> = (0..4).collect();
    let r1 = t.insert(&key(&tokens), &vals, 0, false);
    let a = r1.last_node;
    assert!(
        r1.backup_needed.is_empty(),
        "hit_count 1 must not trigger at threshold 2"
    );
    assert_eq!(t.node_hit_count(a), 1);

    let r2 = t.insert(&key(&tokens), &vals, 0, false);
    assert_eq!(r2.prefix_len, 4);
    assert_eq!(r2.backup_needed, vec![a]);
    assert_eq!(t.node_hit_count(a), 2);
    assert!(!t.node_backuped(a), "backup is the caller's job");

    // the caller enqueues the DMA and attaches the host copy
    let ha: Vec<i64> = (9000..9004).collect();
    let delta = t.begin_backup(a, &ha, true);
    assert_eq!(delta, -4);
    assert!(t.node_backuped(a));
    assert!(t.node_backup_pending(a));
    assert_eq!(t.node_lock_ref(a), 1);
    t.end_backup(a);
    assert!(!t.node_backup_pending(a));
    // ack the protective lock
    assert_eq!(t.dec_lock_ref(a), 4);
}

#[test]
fn evict_demotes_backuped_and_drops_regular_in_lru_order() {
    let mut t = wt();
    let ka: Vec<i64> = (0..4).collect();
    let kb: Vec<i64> = (8..12).collect();
    let va: Vec<i64> = (0..4).collect();
    let vb: Vec<i64> = (100..104).collect();
    let r1 = t.insert(&key(&ka), &va, 0, false);
    let a = r1.last_node;
    let r2 = t.insert(&key(&kb), &vb, 0, false);
    let b = r2.last_node;

    // back up A only (older under LRU)
    let ha: Vec<i64> = (1000..1004).collect();
    t.begin_backup(a, &ha, true);
    t.dec_lock_ref(a);

    let ev = t.evict(8);
    assert_eq!(ev.num_tokens_evicted, 8);
    assert_eq!(ev.free_device, vec![va.clone(), vb.clone()]);
    // A demoted (kept in tree with its host copy), B deleted
    assert!(t.node_evicted(a));
    assert_eq!(t.node_host_value(a), Some(ha));
    assert!(t.node_value(b).is_none());
    assert_eq!(t.node_children(ROOT), vec![a]);
    assert_eq!(t.evictable_size(), 0);
}

#[test]
fn evict_respects_locks_and_promotes_parent() {
    let mut t = wt();
    let tokens: Vec<i64> = (0..8).collect();
    // two-node chain: A=[0,4), B=[4,8)
    let half: Vec<i64> = (0..4).collect();
    insert_vals(&mut t, &half, 0);
    let vals8: Vec<i64> = (0..8).collect();
    let r2 = insert(&mut t, &tokens, &vals8);
    let b = r2.last_node;
    let a = t.node_children(ROOT)[0];
    assert_ne!(a, b);

    // lock A (device protection); B stays unlocked
    let delta = t.inc_lock_ref(a);
    assert_eq!(delta, -4);

    let ev = t.evict(8);
    // B is dropped (4 tokens); A is promoted but skipped: locked.
    assert_eq!(ev.num_tokens_evicted, 4);
    assert_eq!(ev.free_device.len(), 1);
    assert!(!t.node_evicted(a), "locked node must survive eviction");
    // A is a live leaf again (its only child is gone) but still
    // locked, so it must stay OUT of the evictable set
    assert!(!t.evictable_leaves().contains(&a));

    // unlock: A re-enters the set
    assert_eq!(t.dec_lock_ref(a), 4);
    assert!(t.evictable_leaves().contains(&a));
}

#[test]
fn evict_host_skip_rules_and_parent_promotion() {
    let mut t = wt();
    let tokens: Vec<i64> = (0..8).collect();
    let half: Vec<i64> = (0..4).collect();
    insert_vals(&mut t, &half, 0);
    let vals8: Vec<i64> = (0..8).collect();
    let r2 = insert(&mut t, &tokens, &vals8);
    let b = r2.last_node;
    let a = t.node_children(ROOT)[0];

    let ha: Vec<i64> = (1000..1004).collect();
    let hb: Vec<i64> = (2000..2004).collect();
    t.begin_backup(a, &ha, true);
    t.dec_lock_ref(a);
    t.begin_backup(b, &hb, true);
    t.dec_lock_ref(b);

    // demote the whole chain from the device
    let ev = t.evict(8);
    assert_eq!(ev.num_tokens_evicted, 8);
    assert!(t.node_evicted(a) && t.node_evicted(b));
    // host-leaf set: only B (A has a backuped child)
    assert_eq!(t.evictable_host_leaves(), vec![b]);

    // host-protect B: eviction must skip it
    t.protect_host(b);
    let eh = t.evict_host(8);
    assert_eq!(eh.num_tokens_evicted, 0);
    assert!(t.node_children(a).contains(&b), "protected node survives");
    t.release_host(b);

    // now evict the whole host chain: B first, then promoted A
    let eh = t.evict_host(8);
    assert_eq!(eh.num_tokens_evicted, 8);
    assert_eq!(eh.deleted, vec![b, a]);
    assert_eq!(eh.free_host, vec![hb.clone(), ha.clone()]);
    assert_eq!(t.node_children(ROOT), vec![]);
    assert!(t.evictable_host_leaves().is_empty());
}

#[test]
fn load_back_skips_below_threshold_and_releases_lock() {
    let mut t = wt(); // threshold 10
    let tokens: Vec<i64> = (0..4).collect();
    let (_, _) = insert_vals(&mut t, &tokens, 0);
    let a = t.node_children(ROOT)[0];
    let ha: Vec<i64> = (1000..1004).collect();
    t.begin_backup(a, &ha, true);
    t.dec_lock_ref(a);
    assert_eq!(t.evict(4).num_tokens_evicted, 4);
    assert!(t.node_evicted(a));

    // 4 < 10: skipped, temporary lock must be released
    let plan = t.init_load_back(a, None);
    assert!(plan.is_none());
    assert_eq!(t.node_lock_ref(a), 0);
    assert_eq!(t.node_host_ref(a), 0);
    assert!(t.node_evicted(a));
    assert_eq!(t.evictable_size(), 0);
}

#[test]
fn load_back_roundtrip_reattaches_and_locks_chain() {
    let mut t = wt();
    let tokens12: Vec<i64> = (0..12).collect();
    let first6: Vec<i64> = (0..6).collect();
    insert_vals(&mut t, &first6, 0);
    let vals12: Vec<i64> = (0..12).collect();
    insert(&mut t, &tokens12, &vals12);
    let b = t.node_children(t.node_children(ROOT)[0])[0];
    let a = t.node_children(ROOT)[0];
    let ha: Vec<i64> = (1000..1006).collect();
    let hb: Vec<i64> = (2000..2006).collect();
    t.begin_backup(a, &ha, true);
    t.dec_lock_ref(a);
    t.begin_backup(b, &hb, true);
    t.dec_lock_ref(b);
    assert_eq!(t.evict(12).num_tokens_evicted, 12);

    let plan = t.init_load_back(b, None).expect("12 >= threshold 10");
    assert_eq!(plan.ancestor, ROOT);
    assert_eq!(plan.nodes, vec![a, b]);
    assert_eq!(plan.host_indices, [1000, 1001, 1002, 1003, 1004, 1005, 2000, 2001, 2002, 2003, 2004, 2005]);
    assert_eq!(t.node_host_ref(a), 1);
    assert_eq!(t.node_host_ref(b), 1);

    let device: Vec<i64> = (500..512).collect();
    let lock_delta = t.finish_load_back(&plan, Some(&device));
    assert_eq!(lock_delta, -12, "permanent chain lock moved 12 tokens to protected");
    assert_eq!(t.node_value(a), Some(device[..6].to_vec()));
    assert_eq!(t.node_value(b), Some(device[6..12].to_vec()));
    // the re-attached tokens are immediately locked by the chain
    // lock, so all 12 are protected and none evictable
    assert_eq!(t.evictable_size(), 0);
    assert_eq!(t.protected_size(), 12);
    assert_eq!(t.node_lock_ref(a), 1);
    assert_eq!(t.node_lock_ref(b), 1);
    // host copies survive the load-back
    assert_eq!(t.node_host_value(a), Some(ha));
    assert_eq!(t.node_host_value(b), Some(hb));
    // caller releases the permanent lock when the request ends
    assert_eq!(t.dec_lock_ref(b), 12);
    assert_eq!(t.evictable_size(), 12);
    assert_eq!(t.protected_size(), 0);
}

#[test]
fn load_back_quota_and_failure_paths() {
    // A live (10 tokens), B evicted+backuped (10 tokens)
    let mut t = wt();
    let tokens20: Vec<i64> = (0..20).collect();
    let first10: Vec<i64> = (0..10).collect();
    insert_vals(&mut t, &first10, 0);
    let vals20: Vec<i64> = (0..20).collect();
    insert(&mut t, &tokens20, &vals20);
    let b = t.node_children(t.node_children(ROOT)[0])[0];
    let a = t.node_children(ROOT)[0];
    let hb: Vec<i64> = (2000..2010).collect();
    t.begin_backup(b, &hb, true);
    t.dec_lock_ref(b);
    assert_eq!(t.evict(10).num_tokens_evicted, 10);
    assert!(t.node_evicted(b));

    // quota: 10 tokens > quota(15) + delta(-10) = 5 -> skip
    let plan = t.init_load_back(b, Some(15));
    assert!(plan.is_none());
    assert_eq!(t.node_lock_ref(a), 0, "temporary lock released on skip");

    let plan = t.init_load_back(b, None).expect("no quota: load proceeds");
    assert_eq!(plan.ancestor, a);
    assert_eq!(plan.nodes, vec![b]);
    assert_eq!(t.node_lock_ref(a), 1, "temporary ancestor lock held");

    // DMA failure (even after the caller's evict+retry)
    let delta = t.finish_load_back(&plan, None);
    assert_eq!(delta, 0);
    assert!(t.node_evicted(b), "no value attached on failure");
    assert_eq!(t.node_lock_ref(a), 0, "temporary lock released");
    assert_eq!(t.node_host_ref(b), 0, "host protection released");
    // host copy is intact for a later retry
    assert_eq!(t.node_host_value(b), Some(hb));
}

#[test]
fn split_slices_host_value_and_inherits_state() {
    let mut t = wt();
    let tokens: Vec<i64> = (0..10).collect();
    let vals: Vec<i64> = (0..10).collect();
    let r = t.insert(&key(&tokens), &vals, 5, false);
    let c = r.last_node;
    let hc: Vec<i64> = (9000..9010).collect();
    t.begin_backup(c, &hc, false); // no lock, pending=true

    // match 4 of the 10: split c into front(4) + tail(6)
    let four: Vec<i64> = (0..4).collect();
    let m = t.match_prefix(&key(&four));
    assert_eq!(m.indices, vals[..4].to_vec());
    assert_eq!(m.splits.len(), 1);
    let (front, tail) = m.splits[0];
    assert_eq!(tail, c, "the tail keeps the original id");
    assert_eq!(front, t.node_children(ROOT)[0]);
    assert_eq!(t.node_children(front), vec![c]);

    assert_eq!(t.node_value(front), Some(vals[..4].to_vec()));
    assert_eq!(t.node_value(c), Some(vals[4..].to_vec()));
    assert_eq!(t.node_host_value(front), Some(hc[..4].to_vec()));
    assert_eq!(t.node_host_value(c), Some(hc[4..].to_vec()));
    // inherited state on the front
    assert_eq!(t.node_hit_count(front), 1);
    assert_eq!(t.node_priority(front), 5);
    assert_eq!(t.node_lock_ref(front), 0);
    // pending flag rides the split onto both halves
    assert!(t.node_backup_pending(front));
    assert!(t.node_backup_pending(c));
    // fresh creation tick on the front
    assert!(t.node_last_access(front) > t.node_last_access(c));

    // match post-processing on the split path
    assert_eq!(m.last_device_node, front);
    assert_eq!(m.last_host_node, front, "the front is backuped");
    assert_eq!(m.host_hit_length, 0);

    t.end_backup(front);
    t.end_backup(c);
    assert!(!t.node_backup_pending(front) && !t.node_backup_pending(c));
}

#[test]
fn lock_walk_updates_leaf_sets() {
    let mut t = wt();
    let ka: Vec<i64> = (0..4).collect();
    let kb: Vec<i64> = (8..12).collect();
    insert_vals(&mut t, &ka, 0);
    insert_vals(&mut t, &kb, 100);
    let a = child_with_value(&t, &[0, 1, 2, 3]);
    let b = child_with_value(&t, &[100, 101, 102, 103]);

    let mut leaves = t.evictable_leaves();
    leaves.sort();
    assert_eq!(leaves, vec![a, b]);

    // lock A: it leaves the set; B is untouched
    assert_eq!(t.inc_lock_ref(a), -4);
    assert_eq!(t.evictable_leaves(), vec![b]);

    // evict drops only B
    let ev = t.evict(4);
    assert_eq!(ev.num_tokens_evicted, 4);
    assert!(!t.node_evicted(a));
    assert!(t.node_children(ROOT).contains(&a));

    // unlock: A re-enters the set (live leaf, no children)
    assert_eq!(t.dec_lock_ref(a), 4);
    assert_eq!(t.evictable_leaves(), vec![a]);
}

#[test]
fn drop_subtree_refused_when_host_protected_then_frees_all() {
    let mut t = wt();
    let tokens: Vec<i64> = (0..8).collect();
    let first4: Vec<i64> = (0..4).collect();
    insert_vals(&mut t, &first4, 0);
    let vals8: Vec<i64> = (0..8).collect();
    let rp = insert(&mut t, &tokens, &vals8);
    let q = rp.last_node;
    let p = t.node_children(ROOT)[0];
    let qh: Vec<i64> = (2000..2004).collect();
    t.begin_backup(q, &qh, false);

    // refused while Q holds a host reference
    t.protect_host(q);
    let refused = t.drop_subtree_no_host(p);
    assert_eq!(refused.freed_device, 0);
    assert!(refused.free_device.is_empty() && refused.free_host.is_empty());
    assert!(!t.node_evicted(p), "refusal must not mutate the tree");
    assert_eq!(t.node_children(p), vec![q]);
    t.release_host(q);

    let res = t.drop_subtree_no_host(p);
    assert_eq!(res.freed_device, 8);
    assert_eq!(res.free_device.len(), 2);
    assert_eq!(res.free_host, vec![qh]);
    assert_eq!(t.node_children(ROOT), vec![]);
    assert_eq!(t.evictable_size(), 0);
}

#[test]
fn insert_host_creates_evicted_only_node() {
    let mut t = wt();
    let key4: Vec<i64> = (0..4).collect();
    let key8: Vec<i64> = (0..8).collect();
    insert_vals(&mut t, &key4, 0);
    let a = t.node_children(ROOT)[0];

    // prefetch result: 8 host tokens, the first 4 already on host?
    // No — A is not backuped yet, so the whole 8-token host run is
    // fresh; 4 overlap the device node A.
    let hv: Vec<i64> = (7000..7008).collect();
    let matched = t.insert_host(ROOT, &key(&key8), &hv);
    assert_eq!(matched, 4, "overlap with the live node A");
    let h = t.node_children(a)[0];
    assert!(t.node_evicted(h), "prefetch nodes are host-only");
    assert_eq!(t.node_host_value(h), Some(hv[4..].to_vec()));
    assert_eq!(t.node_priority(h), t.node_priority(a));
    assert!(t.evictable_host_leaves().contains(&h));

    // match sees the device prefix + the host suffix
    let m = t.match_prefix(&key(&key8));
    assert_eq!(m.indices, (0..4).collect::<Vec<i64>>());
    assert_eq!(m.host_hit_length, 4);
    assert_eq!(m.last_device_node, a);
    assert_eq!(m.last_host_node, h);

    // host-evict the prefetch node
    let eh = t.evict_host(4);
    assert_eq!(eh.deleted, vec![h]);
    assert_eq!(eh.free_host, vec![hv[4..].to_vec()]);
    assert!(t.node_children(a).is_empty());
}

#[test]
fn bigram_eagle_tree_works() {
    let mut t = HiRadixTree::new(1, true, HiPolicy::WriteThrough, EvictionPolicy::Lru, 1, 10);
    // 5 raw tokens -> 4 bigrams
    let toks: Vec<i64> = (1..6).collect();
    let vals: Vec<i64> = (0..4).collect();
    let r = t.insert(&RadixKey { is_bigram: true, ..key(&toks) }, &vals, 0, false);
    assert_eq!(r.prefix_len, 0);
    let a = r.last_node;
    assert_eq!(t.node_key(a).unwrap().len(), 8, "flattened bigram key");

    let ha: Vec<i64> = (1000..1004).collect();
    t.begin_backup(a, &ha, true);
    t.dec_lock_ref(a);
    let ev = t.evict(4);
    assert_eq!(ev.num_tokens_evicted, 4, "4 bigram units");

    let m = t.match_prefix(&RadixKey {
        is_bigram: true,
        ..key(&toks)
    });
    assert!(m.indices.is_empty());
    assert_eq!(m.host_hit_length, 4);
    assert_eq!(m.last_host_node, a);
}

#[test]
fn reset_clears_everything() {
    let mut t = wt();
    let toks: Vec<i64> = (0..8).collect();
    insert_vals(&mut t, &toks, 0);
    t.reset();
    assert_eq!(t.total_size(), 0);
    assert_eq!(t.total_host_size(), 0);
    assert_eq!(t.evictable_size(), 0);
    assert_eq!(t.protected_size(), 0);
    assert!(t.evictable_leaves().is_empty());
    assert!(t.evictable_host_leaves().is_empty());
    // root invariants
    assert_eq!(t.node_value(ROOT), Some(vec![]));
    assert_eq!(t.node_host_value(ROOT), Some(vec![]));
    assert_eq!(t.node_lock_ref(ROOT), 1);
    assert_eq!(t.node_priority(ROOT), i32::MIN);
    let m = t.match_prefix(&key(&toks));
    assert!(m.indices.is_empty());
    assert_eq!(m.last_device_node, ROOT);
    assert_eq!(m.last_host_node, ROOT);
}
