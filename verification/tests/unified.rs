//! The unified tree: inserts in steps, matches, locks, eviction, and the
//! host tier.

use sglang_radix::{
    EvictionPolicy, UCacheAction, UConfig, UDecLockParams, UInsertParams, UIntsertResult, UStepResult,
    UnifiedRadixTree, CT_FULL, CT_MAMBA, CT_SWA,
};

fn base_cfg() -> UConfig {
    UConfig {
        page_size: 1,
        is_eagle: false,
        sliding_window_size: 0,
        mamba_checkpoint_grid: 0,
        mamba_max_states_per_path: -1,
        eviction_policy: EvictionPolicy::Lru,
        write_through_threshold: 2,
        is_write_back: false,
        has_swa_host_pool: false,
        enable_session_radix_cache: false,
    }
}

fn params() -> UInsertParams {
    UInsertParams {
        prev_prefix_len: 0,
        chunked: false,
        priority: 0,
        swa_evicted_seqlen: 0,
        mamba_value: None,
    }
}

/// Insert `value = tokens + 1000`, pumping through any barriers and
/// applying deferred MambaEvictExcess actions like a caller would.
fn insert(tree: &mut UnifiedRadixTree, ns: u32, tokens: &[i64]) -> UIntsertResult {
    let value: Vec<i64> = tokens.iter().map(|t| t + 1000).collect();
    insert_with_value(tree, ns, tokens, &value, &params())
}

fn insert_with_value(
    tree: &mut UnifiedRadixTree,
    ns: u32,
    tokens: &[i64],
    value: &[i64],
    p: &UInsertParams,
) -> UIntsertResult {
    let step = tree.begin_insert(ns, tokens, Some(value.to_vec()), p);
    pump(tree, step)
}

fn pump(tree: &mut UnifiedRadixTree, mut step: UStepResult) -> UIntsertResult {
    while step.result.is_none() {
        for a in &step.actions {
            if let UCacheAction::MambaEvictExcess { tail_node } = a {
                tree.evict_excess_path_states(*tail_node);
            }
        }
        step = tree.resume_insert();
    }
    step.result.unwrap()
}

fn tracker_full(t: &[(u8, i64)], ct: u8) -> i64 {
    t.iter().find(|(c, _)| *c == ct).map(|(_, n)| *n).unwrap_or(0)
}

#[test]
fn full_insert_split_and_match() {
    let mut t = UnifiedRadixTree::new(base_cfg());
    let r1 = insert(&mut t, 1, &[1, 2, 3, 4]);
    assert_eq!(r1.prefix_len, 0);
    let l1 = r1.last_device_node;
    assert_eq!(t.node_key(l1), vec![1, 2, 3, 4]);

    let r2 = insert(&mut t, 1, &[1, 2, 5, 6]);
    assert_eq!(r2.prefix_len, 2);
    let l2 = r2.last_device_node;
    // The first node was split into "12" (new) + "34" (l1 kept its id).
    assert_eq!(t.node_key(l1), vec![3, 4]);
    let mid = t.node_parent(l1).expect("l1 has a parent");
    assert_eq!(t.node_key(mid), vec![1, 2]);
    assert_eq!(t.node_parent(l2), Some(mid));
    assert_eq!(t.node_key(l2), vec![5, 6]);

    let m = t.match_prefix(1, &[1, 2, 3, 4]);
    assert_eq!(m.device_indices, vec![1001, 1002, 1003, 1004]);
    assert_eq!(m.full_kv_hit_length, 4);
    assert_eq!(m.last_device_node, l1);
    let m2 = t.match_prefix(1, &[1, 2, 5, 7]);
    // "12" (2) + partial "5" (1) — the partial match still counts, and
    // the match walk split "56" into "5" (new device fragment) + "6".
    assert_eq!(m2.full_kv_hit_length, 3);
    assert_eq!(t.node_key(m2.last_device_node), vec![5]);
    assert!(t.sanity_check(&[], &[]).is_empty());
    assert_eq!(t.dump_nodes().len(), 5); // root + mid + l1 + "5" + "6"
}

#[test]
fn page_alignment_truncates() {
    let mut cfg = base_cfg();
    cfg.page_size = 4;
    let mut t = UnifiedRadixTree::new(cfg);
    let r = insert(&mut t, 1, &[1, 2, 3, 4, 5, 6]);
    // Key truncated to whole pages.
    assert_eq!(t.node_key(r.last_device_node), vec![1, 2, 3, 4]);
    assert_eq!(t.match_prefix(1, &[1, 2]).full_kv_hit_length, 0);
    assert_eq!(
        t.match_prefix(1, &[1, 2, 3, 4, 9, 9]).full_kv_hit_length,
        4
    );
    assert!(t.sanity_check(&[], &[]).is_empty());
}

#[test]
fn namespaces_are_isolated() {
    let mut t = UnifiedRadixTree::new(base_cfg());
    let r1 = insert(&mut t, 7, &[1, 2, 3, 4]);
    let r2 = insert(&mut t, 9, &[1, 2, 3, 4]);
    assert_ne!(r1.last_device_node, r2.last_device_node);
    assert_eq!(t.match_prefix(7, &[1, 2, 3, 4]).full_kv_hit_length, 4);
    assert_eq!(t.match_prefix(9, &[1, 2, 3, 4]).full_kv_hit_length, 4);
    assert_eq!(t.match_prefix(11, &[1, 2, 3, 4]).full_kv_hit_length, 0);
    assert!(t.sanity_check(&[], &[]).is_empty());
}

#[test]
fn full_lock_protects_from_eviction() {
    let mut t = UnifiedRadixTree::new(base_cfg());
    let la = insert(&mut t, 1, &[1, 2, 3, 4]).last_device_node;
    let lb = insert(&mut t, 1, &[5, 6, 7, 8]).last_device_node;

    let inc = t.inc_lock_ref(la, &[]);
    assert_eq!(inc.delta, 4);
    assert_eq!(t.component_protected_size(CT_FULL), 4);
    assert!(!t.d_leaves.contains(&la));

    t.evict_device_start(CT_FULL, 4);
    let step = t.evict_device_next_node(CT_FULL, 0);
    assert_eq!(step.node_id, Some(lb)); // la locked -> lb picked
    let out = t.evict_device_leaf(lb, false);
    assert_eq!(tracker_full(&out.tracker, CT_FULL), 4);
    t.evict_device_end(CT_FULL);
    // Write-through, unbacked leaf is deleted outright.
    assert_eq!(t.match_prefix(1, &[5, 6, 7, 8]).full_kv_hit_length, 0);

    t.dec_lock_ref(la, &UDecLockParams::default(), false);
    assert_eq!(t.component_evictable_size(CT_FULL), 4);
    assert_eq!(t.component_protected_size(CT_FULL), 0);
    assert!(t.sanity_check(&[], &[]).is_empty());
}

#[test]
fn write_back_evict_backup_demote_reinsert() {
    let mut cfg = base_cfg();
    cfg.is_write_back = true;
    let mut t = UnifiedRadixTree::new(cfg);
    t.set_hicache_enabled(); // host hits are only surfaced in HiCache mode
    let la = insert(&mut t, 1, &[1, 2, 3, 4]).last_device_node;

    // Evict under write-back: the leaf asks for a D->H backup first.
    let out = t.evict_device_leaf(la, true);
    let backup = out.backup_kv.expect("write-back defers the demote");
    assert_eq!(backup, vec![la]);
    assert!(!t.is_evicted(la), "node stays device-resident until backup");

    // The caller commits the backup, then demotes.
    t.commit_backup(la, &[9001, 9002, 9003, 9004], &[]);
    assert!(t.is_backuped(la));
    let out = t.demote_node(la);
    assert_eq!(tracker_full(&out.tracker, CT_FULL), 4);
    assert!(t.is_evicted(la));
    assert!(t.component_has_host_value_only(la, CT_FULL));

    // Host hit only, no device KV.
    let m = t.match_prefix(1, &[1, 2, 3, 4]);
    assert_eq!(m.full_kv_hit_length, 4); // tree match incl. host copy
    assert!(m.device_indices.is_empty());
    assert_eq!(m.last_device_node, t.root_id());
    assert_eq!(m.host_hit_length, 4);
    assert_eq!(m.last_host_node, la);

    // Re-insert over the evicted node: it is un-evicted in place.
    let r = insert(&mut t, 1, &[1, 2, 3, 4]);
    assert_eq!(r.last_device_node, la);
    assert!(r.created_nodes.is_empty());
    let m = t.match_prefix(1, &[1, 2, 3, 4]);
    assert_eq!(m.device_indices, vec![1001, 1002, 1003, 1004]);
    assert!(t.sanity_check(&[], &[]).is_empty());
}

#[test]
fn swa_window_lock_and_release() {
    let mut cfg = base_cfg();
    cfg.sliding_window_size = 4;
    let mut t = UnifiedRadixTree::new(cfg);
    let l = insert(&mut t, 1, &[1, 2, 3, 4]).last_device_node;
    t.set_component_device_value(l, CT_SWA, vec![2001, 2002, 2003, 2004]);
    assert_eq!(t.component_evictable_size(CT_SWA), 4);

    // Lock only the SWA layer (FULL skipped -> the leaf stays a D-leaf).
    let inc = t.inc_lock_ref(l, &[CT_FULL]);
    assert!(inc.skip_ids(CT_FULL).contains(&l));
    let uuid = inc.swa_uuid_for_lock.expect("window filled -> uuid");
    assert_eq!(t.component_evictable_size(CT_SWA), 0);
    assert_eq!(t.component_protected_size(CT_SWA), 4);

    // dec_swa_lock_only releases the window; at ref 0 the leaf is a
    // device leaf, so the SWA value is evicted inline.
    t.dec_swa_lock_only(l, Some(uuid), &[]);
    assert!(t.get_component_device_value(l, CT_SWA).is_none());
    assert_eq!(t.component_evictable_size(CT_SWA), 0);
    assert_eq!(t.component_protected_size(CT_SWA), 0);
    // FULL was never locked (skipped at acquire); release with skip ids.
    let dec = UDecLockParams {
        skip_lock_node_ids: inc.skip_lock_node_ids.clone(),
        ..Default::default()
    };
    t.dec_lock_ref(l, &dec, true /* skip SWA */);
    assert!(t.sanity_check(&[], &[]).is_empty());
}

#[test]
fn swa_lru_cursor_eviction() {
    let mut cfg = base_cfg();
    cfg.sliding_window_size = 4;
    let mut t = UnifiedRadixTree::new(cfg);
    let l1 = insert(&mut t, 1, &[1, 2, 3, 4]).last_device_node;
    let l2 = insert(&mut t, 1, &[5, 6, 7, 8]).last_device_node;
    t.set_component_device_value(l1, CT_SWA, vec![3001, 3002, 3003, 3004]);
    t.set_component_device_value(l2, CT_SWA, vec![3005, 3006, 3007, 3008]);
    // MRU order: l2 was inserted last.
    assert_eq!(t.lru_order(CT_SWA, 0), vec![l2, l1]);

    t.evict_device_start(CT_SWA, 4);
    let step = t.evict_device_next_node(CT_SWA, 0);
    assert_eq!(step.node_id, Some(l1)); // LRU first
    let out = t.evict_device_leaf(l1, false);
    assert_eq!(tracker_full(&out.tracker, CT_FULL), 4);
    t.evict_device_end(CT_SWA);
    assert_eq!(t.lru_order(CT_SWA, 0), vec![l2]);
    assert!(t.sanity_check(&[], &[]).is_empty());
}

#[test]
fn mamba_excess_path_states() {
    let mut cfg = base_cfg();
    cfg.mamba_checkpoint_grid = 4;
    cfg.mamba_max_states_per_path = 1;
    let mut t = UnifiedRadixTree::new(cfg);
    let p1 = UInsertParams {
        mamba_value: Some(vec![5001]),
        ..params()
    };
    let full1 = vec![2001, 2002, 2003, 2004];
    let l1 = insert_with_value(&mut t, 1, &[1, 2, 3, 4], &full1, &p1).last_device_node;
    assert_eq!(
        t.get_component_device_value(l1, CT_MAMBA),
        Some(vec![5001])
    );
    // Extend the path: a second checkpoint beyond the cap of 1.
    let p2 = UInsertParams {
        mamba_value: Some(vec![5002]),
        ..params()
    };
    let full2: Vec<i64> = (5..13).collect();
    let l2 = insert_with_value(&mut t, 1, &[1, 2, 3, 4, 5, 6, 7, 8], &full2, &p2)
        .last_device_node;
    assert_eq!(t.get_component_device_value(l2, CT_MAMBA), Some(vec![5002]));
    // The shallow checkpoint (l1) was evicted; the tail one stays.
    assert!(t.get_component_device_value(l1, CT_MAMBA).is_none());
    // FULL data survived on both.
    assert_eq!(t.node_by_id(l1).value[CT_FULL as usize].as_ref().unwrap().len(), 4);
    assert!(t.sanity_check(&[], &[]).is_empty());
}

#[test]
fn write_through_backup_on_hit() {
    let mut cfg = base_cfg();
    cfg.write_through_threshold = 1;
    let mut t = UnifiedRadixTree::new(cfg);
    t.set_hicache_enabled();
    let value: Vec<i64> = [1, 2, 3, 4].iter().map(|x| x + 1000).collect();
    let p = params();
    let step = t.begin_insert(1, &[1, 2, 3, 4], Some(value), &p);
    // A single step completes a plain insert; the terminal step flushes
    // the BackupKV emitted by the hit check.
    let r = step.result.expect("insert completes in one step");
    let l = r.last_device_node;
    assert!(
        step
            .actions
            .iter()
            .any(|a| matches!(a, UCacheAction::BackupKV { node_ids } if node_ids == &[l])),
        "hit at threshold 1 must emit BackupKV: {:?}",
        step.actions
    );
    // The caller's part: spec, commit, acknowledgement.
    let (host, comp) = t.build_backup_spec(l);
    assert_eq!(host, vec![1001, 1002, 1003, 1004]);
    t.commit_backup(l, &host, &comp);
    assert!(t.is_backuped(l));
    t.mark_write_through_pending(l);
    t.finish_write_through(&[l], 7);
    assert!(t.sanity_check(&[], &[]).is_empty());
}

#[test]
fn host_eviction_and_load_back_round_trip() {
    let cfg = base_cfg();
    let mut t = UnifiedRadixTree::new(cfg);
    t.set_hicache_enabled();
    let l = insert(&mut t, 1, &[1, 2, 3, 4]).last_device_node;
    let (host, comp) = t.build_backup_spec(l);
    t.commit_backup(l, &host, &comp);

    // Demote: device freed, host copy kept (host-only node).
    let out = t.evict_device_leaf(l, false);
    assert!(out.backup_kv.is_none());
    assert!(t.is_evicted(l));
    assert!(t.is_backuped(l));

    // Load back from host: device value restored from the new indices.
    let spec = t.build_load_back_spec(l, None).expect("host copy to load");
    assert_eq!(spec.kv.host_indices, Some(vec![1001, 1002, 1003, 1004]));
    let actions = t.commit_load_back(
        l,
        Some(&[7001, 7002, 7003, 7004]),
        &spec.kv.nodes_to_load,
        &[],
    );
    assert!(actions.is_empty());
    t.finish_load_back(l);
    assert!(!t.is_evicted(l));
    let m = t.match_prefix(1, &[1, 2, 3, 4]);
    assert_eq!(m.device_indices, vec![7001, 7002, 7003, 7004]);

    // Demote again, then host-evict the now host-only node.
    t.evict_device_leaf(l, false);
    assert!(t.is_evicted(l) && t.is_backuped(l));
    let out = t.drive_host_eviction(CT_FULL, 4);
    assert_eq!(tracker_full(&out.tracker, CT_FULL), 4);
    assert!(!t.is_backuped(l));
    assert!(t.is_evicted(l));
    // Dead node (evicted, unbacked): the match stops at the root.
    assert_eq!(t.match_prefix(1, &[1, 2, 3, 4]).full_kv_hit_length, 0);
    assert!(t.sanity_check(&[], &[]).is_empty());
}

#[test]
fn split_preserves_hash_lists() {
    let mut t = UnifiedRadixTree::new(base_cfg());
    let l = insert(&mut t, 1, &[1, 2, 3, 4]).last_device_node;
    t.set_hash_values(l, vec!["h0".into(), "h1".into(), "h2".into(), "h3".into()]);
    let (new_id, action) = t.split_node(l, 2);
    assert!(action.is_none());
    assert_eq!(t.node_key(new_id), vec![1, 2]);
    assert_eq!(t.node_key(l), vec![3, 4]);
    assert_eq!(t.node_parent(l), Some(new_id));
    assert_eq!(t.get_hash_values(new_id), vec!["h0".to_string(), "h1".to_string()]);
    assert_eq!(t.get_hash_values(l), vec!["h2".to_string(), "h3".to_string()]);
    assert_eq!(
        t.get_prefix_hash_values(l),
        vec!["h0".to_string(), "h1".to_string()]
    );
    assert!(t.sanity_check(&[], &[]).is_empty());
}

#[test]
fn insert_host_builds_backuped_path() {
    let cfg = base_cfg();
    let mut t = UnifiedRadixTree::new(cfg);
    t.set_hicache_enabled();
    let r = t.insert_host(t.root_id(), 1, &[1, 2, 3, 4], vec![9001, 9002, 9003, 9004], None);
    let l = r
        .inserted_host_node
        .or(Some(r.last_device_node))
        .expect("host node");
    assert!(t.is_backuped(l));
    assert!(t.is_evicted(l), "host-only node is device-evicted");
    assert!(t.component_has_host_value_only(l, CT_FULL));
    let m = t.match_prefix(1, &[1, 2, 3, 4]);
    assert_eq!(m.host_hit_length, 4);
    assert!(t.sanity_check(&[], &[]).is_empty());
}

#[test]
fn drop_subtree_no_host_removes_host_only_branch() {
    let mut cfg = base_cfg();
    cfg.is_write_back = true; // host refills are kept even when unbacked
    let mut t = UnifiedRadixTree::new(cfg);
    t.set_hicache_enabled();
    // Device leaf "1234" (unbacked) with a host-only child "56".
    let l = insert(&mut t, 1, &[1, 2, 3, 4]).last_device_node;
    let host_all = vec![8000, 8001, 8002, 8003, 8004, 8005];
    let r = t.insert_host(t.root_id(), 1, &[1, 2, 3, 4, 5, 6], host_all, None);
    let h = r.inserted_host_node.expect("host-only child created");
    assert!(!r.host_insert_dropped);
    assert_eq!(t.node_by_id(h).host_value[CT_FULL as usize], Some(vec![8004, 8005]));
    // l is still a D-leaf (its only child holds no device FULL value).
    assert!(t.is_device_leaf(l));
    let out = t.drop_subtree_no_host(l);
    assert!(out.is_dropped);
    assert_eq!(t.match_prefix(1, &[1, 2, 3, 4]).full_kv_hit_length, 0);
    assert_eq!(t.match_prefix(1, &[1, 2, 3, 4, 5, 6]).host_hit_length, 0);
    let _ = h;
    assert!(t.sanity_check(&[], &[]).is_empty());
}

#[test]
fn kv_event_log_tracks_stores_and_removals() {
    let mut t = UnifiedRadixTree::new(base_cfg());
    let l = insert(&mut t, 1, &[1, 2, 3, 4]).last_device_node;
    let ev = t.take_kv_events();
    assert!(ev.iter().any(|e| e.op == 1 && e.node == l && e.medium == 1));
    t.evict_device_start(CT_FULL, 4);
    let step = t.evict_device_next_node(CT_FULL, 0);
    assert_eq!(step.node_id, Some(l));
    t.evict_device_leaf(l, false);
    t.evict_device_end(CT_FULL);
    let ev = t.take_kv_events();
    assert!(ev.iter().any(|e| e.op == 0 && e.node == l && e.medium == 1));
    assert!(t.take_kv_events().is_empty(), "log drains");
}

#[test]
fn sanity_check_catches_corruption() {
    let mut t = UnifiedRadixTree::new(base_cfg());
    let _ = insert(&mut t, 1, &[1, 2, 3, 4]).last_device_node;
    // Corrupt: give the root a FULL device value but drop it from no set —
    // instead clear a live node's value while keeping it a D-leaf.
    let l = t.match_prefix(1, &[1, 2, 3, 4]).last_device_node;
    t.nodes[l as usize].value[CT_FULL as usize] = None;
    assert!(!t.sanity_check(&[], &[]).is_empty());
}
