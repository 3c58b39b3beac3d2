use sglang_radix::{EvictionPolicy, RawNode};

#[test]
fn parse_all() {
    assert_eq!(EvictionPolicy::parse("lru"), Ok(EvictionPolicy::Lru));
    assert_eq!(EvictionPolicy::parse("LRU"), Ok(EvictionPolicy::Lru));
    assert_eq!(
        EvictionPolicy::parse("slru"),
        Ok(EvictionPolicy::Slru { threshold: 2 })
    );
    assert!(EvictionPolicy::parse("arc").is_err());
}

#[test]
fn lru_orders_by_last_access_then_id() {
    let p = EvictionPolicy::Lru;
    let old = RawNode::test_node(1, 5, 0, 0);
    let new = RawNode::test_node(2, 9, 0, 0);
    let tie = RawNode::test_node(3, 5, 0, 0);
    let a = p.prio(&old);
    let b = p.prio(&new);
    let c = p.prio(&tie);
    assert!(a < b);
    // same last_access, different id -> id tie-break
    assert!(c > a);
}

#[test]
fn lfu_orders_by_hits_then_age() {
    let p = EvictionPolicy::Lfu;
    let hot = RawNode::test_node(1, 1, 10, 0);
    let cold = RawNode::test_node(2, 1, 0, 0);
    assert!(p.prio(&cold) < p.prio(&hot));
}

#[test]
fn slru_probation_first() {
    let p = EvictionPolicy::Slru { threshold: 2 };
    let probation = RawNode::test_node(1, 1, 1, 0);
    let protected = RawNode::test_node(2, 1, 2, 0);
    assert!(p.prio(&probation) < p.prio(&protected));
}
