//! What an audit of the unified tree finds, and the views of that tree.

use sglang_radix::{
    sanity_check, EvictionPolicy, UCacheAction, UConfig, UInsertParams, UIntsertResult, UnifiedRadixTree,
    CT_FULL, CT_MAMBA, CT_SWA,
};

fn cfg() -> UConfig {
    UConfig {
        page_size: 1,
        is_eagle: false,
        sliding_window_size: 0,
        mamba_checkpoint_grid: 0,
        mamba_max_states_per_path: -1,
        eviction_policy: EvictionPolicy::Lru,
        write_through_threshold: 100,
        is_write_back: false,
        has_swa_host_pool: false,
        enable_session_radix_cache: false,
    }
}

fn with_states() -> UConfig {
    UConfig { mamba_checkpoint_grid: 4, ..cfg() }
}

fn params() -> UInsertParams {
    UInsertParams {
        prev_prefix_len: 0,
        chunked: false,
        priority: 0,
        swa_evicted_seqlen: 0,
        mamba_value: Some(vec![7]),
    }
}

fn put(t: &mut UnifiedRadixTree, tokens: &[i64]) -> UIntsertResult {
    let value: Vec<i64> = tokens.iter().map(|x| x + 1000).collect();
    let mut step = t.begin_insert(1, tokens, Some(value), &params());
    while step.result.is_none() {
        step = t.resume_insert();
    }
    step.result.unwrap()
}

/// A tree with one leaf of four tokens, node 17.
fn one_leaf(c: UConfig) -> UnifiedRadixTree {
    let mut t = UnifiedRadixTree::new(c);
    assert_eq!(put(&mut t, &[1, 2, 3, 4]).last_device_node, 17);
    assert!(t.sanity_check(&[], &[]).is_empty());
    t
}

/// A tree with node 18 below node 17.
fn two_deep() -> UnifiedRadixTree {
    let mut t = UnifiedRadixTree::new(cfg());
    assert_eq!(put(&mut t, &[1, 2]).last_device_node, 17);
    assert_eq!(put(&mut t, &[1, 2, 3]).last_device_node, 18);
    t
}

fn finds(t: &UnifiedRadixTree, text: &str) -> bool {
    t.sanity_check(&[], &[]).iter().any(|m| m == text)
}

#[test]
fn audit_of_the_root() {
    let mut t = one_leaf(cfg());
    t.nodes[0].value[0] = None;
    t.nodes[0].lock_ref[0] = 0;
    assert_eq!(
        t.sanity_check(&[], &[]),
        vec!["[Root] root missing Full device value", "[Root] root Full lock_ref=0"]
    );
    assert_eq!(sanity_check(&t, &[], &[]), t.sanity_check(&[], &[]));
}

#[test]
fn audit_of_a_dead_node() {
    let mut t = one_leaf(cfg());
    t.nodes[17].value[0] = None;
    assert_eq!(
        t.sanity_check(&[], &[]),
        vec![
            "node 17 dead: no Full device and no Full host",
            "D-leaf extra: [17]",
            "[Size] ct0 evictable=4 != recomputed=0",
        ]
    );
}

#[test]
fn audit_of_locks() {
    let mut t = one_leaf(cfg());
    t.nodes[17].lock_ref[0] = -1;
    assert!(finds(&t, "node 17 ct0 lock_ref=-1"));
    t.nodes[17].lock_ref[0] = 0;
    t.nodes[17].host_lock_ref[0] = -2;
    assert!(finds(&t, "node 17 ct0 host_lock_ref=-2"));
    t.nodes[17].host_lock_ref[0] = 0;
    t.nodes[17].lock_ref[0] = 3;
    assert!(finds(&t, "[Size] ct0 protected=0 != recomputed=4"));
    assert!(finds(&t, "D-leaf extra: [17]"));
    t.nodes[17].value[0] = None;
    assert!(finds(&t, "node 17 ct0 evicted but lock_ref=3"));
}

#[test]
fn audit_of_parents() {
    let mut t = two_deep();
    t.nodes[18].host_value[0] = Some(vec![9]);
    assert!(finds(&t, "node 18 backed up but parent 17 not backed up"));
    assert!(finds(&t, "Duplicate missing: [18]"));
    t.nodes[17].value[0] = None;
    assert!(finds(&t, "node 18 device present but parent 17 evicted"));
}

#[test]
fn audit_of_components() {
    let mut t = one_leaf(with_states());
    t.nodes[17].host_value[2] = Some(vec![9]);
    assert!(finds(&t, "node 17 ct2 host present but Full.host_value=None"));
    t.nodes[17].lock_ref[2] = 1;
    assert!(finds(&t, "node 17 full_lock=0 < ct2_lock=1"));
    t.nodes[17].value[2] = None;
    assert!(finds(&t, "ct2 device LRU: +tree=[], +lru=[17]"));
    assert!(finds(&t, "ct2 host LRU: +S3=[17], +lru=[]"));
    assert!(finds(&t, "node 17 ct2 evicted but lock_ref=1"));
    t.nodes[17].value[2] = Some(vec![7]);
    t.nodes[17].value[0] = None;
    assert!(finds(&t, "node 17 ct2 device present but Full.value=None"));
}

#[test]
fn audit_of_lists() {
    let mut t = one_leaf(with_states());
    // The front part of a cut node has no state and is on no list.
    let (front, _) = t.split_node(17, 2);
    t.nodes[front as usize].value[2] = Some(vec![8]);
    assert!(finds(&t, &format!("ct2 device LRU: +tree=[{}], +lru=[]", front)));

    // A state on the host alone is on the host list.
    let mut t = one_leaf(with_states());
    t.set_hicache_enabled();
    let (host, mut comps) = t.build_backup_spec(17);
    assert_eq!(comps.len(), 1);
    assert_eq!(comps[0].0, CT_MAMBA);
    comps[0].1[0].host_indices = Some(vec![900]);
    t.commit_backup(17, &host, &comps);
    t.evict_device_leaf(17, false);
    assert!(t.component_has_host_value_only(17, CT_MAMBA));
    assert_eq!(t.lru_order(CT_MAMBA, 1), vec![17]);
    assert!(t.sanity_check(&[], &[]).is_empty());
    t.nodes[17].host_value[2] = None;
    assert!(finds(&t, "ct2 host LRU: +S3=[], +lru=[17]"));
}

#[test]
fn audit_of_leaf_sets() {
    let mut t = one_leaf(cfg());
    t.d_leaves.insert(7);
    assert!(finds(&t, "D-leaf extra: [7]"));
    assert!(finds(&t, "1 stale nodes in device_leaves: [7]"));
    t.d_leaves.remove(&7);
    t.h_leaves.insert(17);
    assert!(finds(&t, "H-leaf extra: [17]"));
    assert!(finds(&t, "[Leaf] 1 in both sets: [17]"));
    t.h_leaves.insert(8);
    assert!(finds(&t, "1 stale nodes in host_leaves: [8]"));
    t.h_leaves.remove(&8);
    t.h_leaves.remove(&17);
    t.d_leaves.remove(&17);
    assert!(finds(&t, "D-leaf missing: [17]"));
    t.nodes[17].host_value[0] = t.nodes[17].value[0].take();
    assert!(finds(&t, "H-leaf missing: [17]"));
}

#[test]
fn audit_of_transfers() {
    let mut t = one_leaf(cfg());
    assert_eq!(
        t.sanity_check(&[(7, 99)], &[]),
        vec!["[Ongoing] write_through node 7 not in tree".to_string()]
    );
    assert_eq!(
        t.sanity_check(&[(7, 17)], &[]),
        vec!["[Ongoing] write_through node 7 lock_ref=0".to_string()]
    );
    assert_eq!(
        t.sanity_check(&[], &[(8, 99)]),
        vec!["[Ongoing] load_back node 8 not in tree".to_string()]
    );
    assert_eq!(
        t.sanity_check(&[], &[(8, 17)]),
        vec!["[Ongoing] load_back node 8 lock_ref=0".to_string()]
    );
    t.nodes[17].lb_pending = Some(5);
    assert_eq!(
        t.sanity_check(&[], &[]),
        vec!["[Ongoing] node 17 load_back_pending_id=5 has no live load-back".to_string()]
    );
    t.inc_lock_ref(17, &[]);
    assert_eq!(
        t.sanity_check(&[(7, 17)], &[(8, 17), (9, 5)]),
        vec!["[Ongoing] load_back node 9 not in tree"]
    );
}

#[test]
fn audit_of_a_transfer_for_a_deleted_node() {
    let mut t = UnifiedRadixTree::new(UConfig { write_through_threshold: 2, ..cfg() });
    let p = UInsertParams { mamba_value: None, ..params() };
    let step = t.begin_insert(1, &[1, 2, 3, 4], Some(vec![1001, 1002, 1003, 1004]), &p);
    let l = step.result.expect("done at once").last_device_node;
    t.evict_device_leaf(l, false);
    assert_eq!(
        sanity_check(&t, &[(7, l)], &[]),
        vec!["[Ongoing] write_through node 7 not in tree"]
    );
    // Transfers are reported in the order they are given in.
    assert_eq!(
        sanity_check(&t, &[(9, l), (7, l)], &[(8, l)]),
        vec![
            "[Ongoing] write_through node 9 not in tree",
            "[Ongoing] write_through node 7 not in tree",
            "[Ongoing] load_back node 8 not in tree",
        ]
    );
}

#[test]
fn audit_names_nodes_together() {
    // Five members of a leaf set at most.
    let mut t = one_leaf(cfg());
    for id in 10..17 {
        t.d_leaves.insert(id);
    }
    assert_eq!(
        t.sanity_check(&[], &[]),
        vec![
            "D-leaf extra: [10, 11, 12, 13, 14]",
            "5 stale nodes in device_leaves: [10, 11, 12, 13, 14]",
        ]
    );

    // What a list lacks and what it has too much, in one message.
    let mut t = one_leaf(with_states());
    let l = put(&mut t, &[5, 6, 7, 8]).last_device_node;
    let (front, _) = t.split_node(l, 2);
    t.nodes[17].value[2] = None;
    t.nodes[front as usize].value[2] = Some(vec![8]);
    assert_eq!(
        t.sanity_check(&[], &[]),
        vec![format!("ct2 device LRU: +tree=[{}], +lru=[17]", front)]
    );
    // Nodes are named in the order of their ids.
    t.nodes[l as usize].value[2] = None;
    assert!(finds(&t, &format!("ct2 device LRU: +tree=[{}], +lru=[17, {}]", front, l)));
}

#[test]
fn nodes_are_numbered_behind_the_ends_of_the_lists() {
    let mut t = two_deep();
    assert_eq!(t.node_parent(0), None);
    // The ids from 1 to 16 name the ends of the eight lists.
    for id in 1..17 {
        assert_eq!(t.node_parent(id), None);
        assert!(t.node_key(id).is_empty());
    }
    assert_eq!(t.node_parent(17), Some(0));
    assert_eq!(t.node_parent(18), Some(17));
    t.reset();
    assert_eq!(put(&mut t, &[5, 6]).last_device_node, 17);
}

#[test]
fn reclaimed_duplicates_are_digested() {
    let mut t = UnifiedRadixTree::new(UConfig { is_write_back: true, ..cfg() });
    t.set_hicache_enabled();
    let a = put(&mut t, &[1, 2, 3, 4]).last_device_node;
    let b = put(&mut t, &[5, 6]).last_device_node;
    t.commit_backup(a, &[100, 101, 102, 103], &[]);
    t.commit_backup(b, &[104, 105], &[]);
    assert!(t.duplicate_ids().is_empty());
    t.mark_write_through_pending(a);
    t.mark_write_through_pending(b);
    t.finish_write_through(&[a], a as i64);
    t.finish_write_through(&[b], b as i64);
    assert_eq!(t.duplicate_ids(), vec![a, b]);
    assert_eq!(t.reclaim_digest(), 0);
    let out = t.drive_host_eviction(CT_FULL, 4);
    assert_eq!(out.tracker, vec![(CT_FULL, 4)]);
    assert_eq!(out.host_frees, vec![(CT_FULL, vec![vec![100, 101, 102, 103]])]);
    assert!(!t.is_backuped(a) && !t.is_evicted(a));
    assert_eq!(t.duplicate_ids(), vec![b]);
    // 0 * 1000003 + 17 + 1
    assert_eq!(t.reclaim_digest(), 18);
    t.drive_host_eviction(CT_FULL, 2);
    // 18 * 1000003 + 18 + 1
    assert_eq!(t.reclaim_digest(), 18_000_073);
    assert!(t.sanity_check(&[], &[]).is_empty());
}

#[test]
fn views_of_values_and_slots() {
    let mut t = UnifiedRadixTree::new(cfg());
    let l1 = put(&mut t, &[1, 2, 3, 4]).last_device_node;
    let l2 = put(&mut t, &[1, 2, 5, 6]).last_device_node;
    let mid = t.node_parent(l1).expect("a parent");
    assert_eq!(t.collect_full_device_indices(l1, 0), vec![1001, 1002, 1003, 1004]);
    assert_eq!(t.collect_full_device_indices(l2, mid), vec![1005, 1006]);
    let mut all = t.all_values_flatten();
    all.sort();
    assert_eq!(all, vec![1001, 1002, 1003, 1004, 1005, 1006]);
    assert_eq!(t.total_size(), (6, 0));
    assert_eq!(t.active_cts(), vec![CT_FULL]);

    let rows = |r: sglang_radix::UWalkResult| {
        let mut v: Vec<(i64, i64, i64)> = (0..r.slot_indices.len())
            .map(|i| (r.slot_indices[i], r.positions[i], r.prev_slot_indices[i]))
            .collect();
        v.sort();
        v
    };
    assert_eq!(
        rows(t.walk_for_kv_canary(false, false)),
        vec![
            (1001, 0, -1),
            (1002, 1, 1001),
            (1003, 2, 1002),
            (1004, 3, 1003),
            (1005, 2, 1002),
            (1006, 3, 1005),
        ]
    );
    t.inc_lock_ref(l1, &[]);
    assert_eq!(
        rows(t.walk_for_kv_canary(true, false)),
        vec![(1005, 2, 1002), (1006, 3, 1005)]
    );
}

#[test]
fn bigram_keys_count_pairs() {
    let mut t = UnifiedRadixTree::new(UConfig { is_eagle: true, ..cfg() });
    let p = UInsertParams { mamba_value: None, ..params() };
    let step = t.begin_insert(1, &[1, 2, 3], Some(vec![10, 11]), &p);
    let l = step.result.expect("done at once").last_device_node;
    assert_eq!(t.node_key(l), vec![1, 2, 3]);
    assert_eq!(t.key_len(&[1, 2, 3]), 2);
    let m = t.match_prefix(1, &[1, 2, 3]);
    assert_eq!(m.device_indices, vec![10, 11]);
    assert_eq!(m.full_kv_hit_length, 2);
    // One pair in common: the node is cut after it.
    let m = t.match_prefix(1, &[1, 2, 9]);
    assert_eq!(m.device_indices, vec![10]);
    assert_eq!(t.node_key(m.last_device_node), vec![1, 2]);
    assert_eq!(t.node_key(l), vec![2, 3]);
    assert!(t.sanity_check(&[], &[]).is_empty());
}

#[test]
fn a_long_leaf_keeps_its_window_apart() {
    let mut t = UnifiedRadixTree::new(UConfig { sliding_window_size: 2, ..cfg() });
    let p = UInsertParams { mamba_value: None, ..params() };
    let step = t.begin_insert(1, &[1, 2, 3, 4, 5], Some(vec![10, 11, 12, 13, 14]), &p);
    assert!(step.result.is_none());
    assert!(t.has_ongoing_insert());
    let mut sources: Vec<(u32, Vec<i64>)> = Vec::new();
    for a in &step.actions {
        if let UCacheAction::SWARebuild { node, source_value } = a {
            sources.push((*node, source_value.clone()));
        }
    }
    assert_eq!(sources, vec![(18, vec![10, 11, 12]), (17, vec![13, 14])]);
    for (node, source) in &sources {
        let slots: Vec<i64> = source.iter().map(|x| x + 100).collect();
        t.set_component_device_value(*node, CT_SWA, slots);
    }
    let r = t.resume_insert().result.expect("done");
    assert_eq!(r.last_device_node, 17);
    assert_eq!(t.lru_order(CT_SWA, 0), vec![17, 18]);
    let m = t.match_prefix(1, &[1, 2, 3, 4, 5]);
    assert_eq!(m.device_indices, vec![10, 11, 12, 13, 14]);
    // The lock takes the window and marks where it is full.
    let inc = t.inc_lock_ref(17, &[]);
    assert_eq!(inc.delta, 5);
    assert_eq!(t.component_protected_size(CT_SWA), 2);
    assert!(t.sanity_check(&[], &[]).is_empty());
}

#[test]
fn prefetched_parts_are_attached_to_host_nodes() {
    let mut t = UnifiedRadixTree::new(with_states());
    t.set_hicache_enabled();
    let mut r = t.insert_host(0, 1, &[1, 2, 3, 4], vec![90, 91, 92, 93], None);
    let l = r.inserted_host_node.expect("a host node");
    assert!(t.commit_mamba_prefetch(Some(vec![77]), true, &mut r).is_empty());
    assert_eq!(t.node_by_id(l).host_value[CT_MAMBA as usize], Some(vec![77]));
    assert!(t.component_has_host_value_only(l, CT_MAMBA));
    assert_eq!(t.match_prefix(1, &[1, 2, 3, 4]).mamba_host_hit_length, 1);
    // A second one is given back.
    let back = t.commit_mamba_prefetch(Some(vec![78]), true, &mut r);
    assert_eq!(
        back,
        vec![UCacheAction::FreeComponentHostSlot { ct: CT_MAMBA, chunks: vec![vec![78]] }]
    );
    assert!(r.mamba_exist);

    let mut t = UnifiedRadixTree::new(UConfig { sliding_window_size: 2, has_swa_host_pool: true, ..cfg() });
    t.set_hicache_enabled();
    let r = t.insert_host(0, 1, &[1, 2, 3, 4], vec![90, 91, 92, 93], None);
    let l = r.inserted_host_node.expect("a host node");
    // Two window tokens for a node of four: it is cut where they begin.
    assert!(t.commit_swa_prefetch(0, vec![50, 51], 2, &r).is_empty());
    assert_eq!(t.node_key(l), vec![3, 4]);
    assert_eq!(t.node_by_id(l).host_value[CT_SWA as usize], Some(vec![50, 51]));
    let m = t.match_prefix(1, &[1, 2, 3, 4]);
    assert_eq!(m.host_hit_length, 4);
    assert_eq!(m.swa_host_hit_length, 2);
    assert!(t.sanity_check(&[], &[]).is_empty());
}

/// Inserts a key into a tree with a window, storing what it asks for.
fn put_windowed(t: &mut UnifiedRadixTree, tokens: &[i64], first: i64) -> (UIntsertResult, Vec<u32>) {
    let p = UInsertParams { mamba_value: None, ..params() };
    let value: Vec<i64> = (0..tokens.len() as i64).map(|i| first + i).collect();
    let mut asked: Vec<u32> = Vec::new();
    let mut step = t.begin_insert(1, tokens, Some(value), &p);
    loop {
        for a in &step.actions {
            if let UCacheAction::SWARebuild { node, source_value } = a {
                let slots: Vec<i64> = source_value.iter().map(|x| x + 100).collect();
                t.set_component_device_value(*node, CT_SWA, slots);
                asked.push(*node);
            }
        }
        match step.result {
            Some(r) => return (r, asked),
            None => step = t.resume_insert(),
        }
    }
}

#[test]
fn an_insert_goes_on_after_what_it_asks_for() {
    let mut t = UnifiedRadixTree::new(UConfig { sliding_window_size: 2, ..cfg() });
    let (r, asked) = put_windowed(&mut t, &[1, 2], 10);
    assert_eq!((r.last_device_node, asked), (17, vec![17]));
    let (r, asked) = put_windowed(&mut t, &[1, 2, 3, 4], 20);
    assert_eq!((r.last_device_node, r.prefix_len, asked), (18, 2, vec![18]));

    // The inner node loses its window slots, and its tokens with that stay.
    t.evict_device_start(CT_SWA, 2);
    let step = t.evict_device_next_node(CT_SWA, 0);
    assert!(step.made_progress);
    t.evict_device_end(CT_SWA);
    assert_eq!(t.node_by_id(17).value[CT_SWA as usize], None);
    assert_eq!(t.match_prefix(1, &[1, 2, 3, 4]).device_indices, vec![10, 11, 22, 23]);

    // The next insert brings them back on its way, then adds its leaf.
    let key = [1, 2, 3, 4, 5, 6];
    let (r, asked) = put_windowed(&mut t, &key, 30);
    assert_eq!((r.last_device_node, r.prefix_len, asked), (19, 4, vec![17, 19]));
    let m = t.match_prefix(1, &key);
    assert_eq!(m.device_indices, vec![30, 31, 22, 23, 34, 35]);
    assert_eq!(m.last_device_node, 19);
    assert_eq!(m.full_kv_hit_length, 6);
    assert_eq!(m.host_hit_length, 0);
    assert!(t.sanity_check(&[], &[]).is_empty());
}
