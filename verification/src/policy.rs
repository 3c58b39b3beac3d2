//! Eviction strategies.
//!
//! Eviction goes by ascending `Prio` (smallest evicted first). Equal
//! priorities fall back to node id, which is total and deterministic.

use crate::queue::HeapItem;
use crate::topo::NodeId;
use crate::tree::RawNode;
use std::cmp::Ordering;
use vstd::prelude::*;
use vstd::string::*;

verus! {

/// One eviction-policy priority. `Prio` is the ascending eviction order
/// (smaller first).
#[derive(Debug, Clone, Copy, PartialEq, Eq, Ord, Structural)]
pub struct Prio {
    /// Primary component.
    pub a: i64,
    /// Secondary component.
    pub b: i64,
    /// Final tie-break: node id (total order).
    pub c: u32,
}

impl Prio {
    /// Lexicographic order of the components.
    pub open spec fn below(self, other: Prio) -> bool {
        ||| self.a < other.a
        ||| self.a == other.a && self.b < other.b
        ||| self.a == other.a && self.b == other.b && self.c < other.c
    }

    /// The components in order of weight.
    pub(crate) fn key(&self) -> (r: (i64, i64, u32))
        ensures
            r == (self.a, self.b, self.c),
    {
        (self.a, self.b, self.c)
    }
}

impl PartialOrd for Prio {
    fn partial_cmp(&self, other: &Self) -> (r: Option<Ordering>) {
        let (a, b, c) = self.key();
        let (x, y, z) = other.key();
        if a < x || a == x && (b < y || b == y && c < z) {
            Some(Ordering::Less)
        } else if a == x && b == y && c == z {
            Some(Ordering::Equal)
        } else {
            Some(Ordering::Greater)
        }
    }
}

impl vstd::std_specs::cmp::PartialOrdSpecImpl for Prio {
    open spec fn obeys_partial_cmp_spec() -> bool {
        true
    }

    open spec fn partial_cmp_spec(&self, other: &Self) -> Option<Ordering> {
        if self.below(*other) {
            Some(Ordering::Less)
        } else if *self == *other {
            Some(Ordering::Equal)
        } else {
            Some(Ordering::Greater)
        }
    }
}

/// `v` capped at the largest `i64`.
pub open spec fn clamped(v: u64) -> i64 {
    if v > i64::MAX {
        i64::MAX
    } else {
        v as i64
    }
}

fn clamp_u64(v: u64) -> (r: i64)
    ensures
        r == clamped(v),
{
    if v > i64::MAX as u64 {
        i64::MAX
    } else {
        v as i64
    }
}

/// Which node leaves first.
#[derive(Debug, Clone, Copy, PartialEq, Eq, Structural)]
pub enum EvictionPolicy {
    Lru,
    Lfu,
    Fifo,
    Mru,
    Filo,
    Priority,
    Slru { threshold: u64 },
}

impl Default for EvictionPolicy {
    fn default() -> (r: Self)
        ensures
            r == EvictionPolicy::Lru,
    {
        EvictionPolicy::Lru
    }
}

/// `c` with an upper-case ASCII letter made lower-case.
pub open spec fn lower_char(c: char) -> char {
    if 'A' <= c <= 'Z' {
        (c as u32 + 32) as char
    } else {
        c
    }
}

/// `text` with upper-case ASCII letters made lower-case.
pub open spec fn lowered(text: Seq<char>) -> Seq<char> {
    Seq::new(text.len(), |i: int| lower_char(text[i]))
}

/// `str::to_ascii_lowercase`: the letters `A` to `Z` become `a` to `z`, and
/// every other character stays as it is.
#[verifier::external_body]
pub(crate) fn ascii_lowercase(text: &str) -> (r: String)
    ensures
        r@ == lowered(text@),
{
    text.to_ascii_lowercase()
}

/// The text that `{:?}` gives for a string: quoted and escaped.
pub uninterp spec fn debug_text(text: Seq<char>) -> Seq<char>;

/// `format!` with `{:?}` on a string: its quoted and escaped text, a
/// function of the string alone.
#[verifier::external_body]
pub(crate) fn debug_string(text: &str) -> (r: String)
    ensures
        r@ == debug_text(text@),
{
    format!("{:?}", text)
}

impl EvictionPolicy {
    /// The policy that `name` names, in lower case.
    pub open spec fn named(name: Seq<char>) -> Option<EvictionPolicy> {
        if name == "lru"@ {
            Some(EvictionPolicy::Lru)
        } else if name == "lfu"@ {
            Some(EvictionPolicy::Lfu)
        } else if name == "fifo"@ {
            Some(EvictionPolicy::Fifo)
        } else if name == "mru"@ {
            Some(EvictionPolicy::Mru)
        } else if name == "filo"@ {
            Some(EvictionPolicy::Filo)
        } else if name == "priority"@ {
            Some(EvictionPolicy::Priority)
        } else if name == "slru"@ {
            Some(EvictionPolicy::Slru { threshold: 2 })
        } else {
            None
        }
    }

    /// Parse a policy name, in any letter case: exactly
    /// `lru|lfu|fifo|mru|filo|priority|slru`.
    pub fn parse(name: &str) -> (r: Result<Self, String>)
        ensures
            match (EvictionPolicy::named(lowered(name@)), r) {
                (Some(p), Ok(q)) => p == q,
                (None, Err(text)) => text@ == "unknown eviction policy "@ + debug_text(lowered(name@))
                    + " (expected lru|lfu|fifo|mru|filo|priority|slru)"@,
                _ => false,
            },
    {
        let low = ascii_lowercase(name);
        if low == "lru".to_owned() {
            Ok(Self::Lru)
        } else if low == "lfu".to_owned() {
            Ok(Self::Lfu)
        } else if low == "fifo".to_owned() {
            Ok(Self::Fifo)
        } else if low == "mru".to_owned() {
            Ok(Self::Mru)
        } else if low == "filo".to_owned() {
            Ok(Self::Filo)
        } else if low == "priority".to_owned() {
            Ok(Self::Priority)
        } else if low == "slru".to_owned() {
            Ok(Self::Slru { threshold: 2 })
        } else {
            let mut text = "unknown eviction policy ".to_owned();
            text.append(debug_string(low.as_str()).as_str());
            text.append(" (expected lru|lfu|fifo|mru|filo|priority|slru)");
            Err(text)
        }
    }

    /// The priority of a node with these fields.
    pub open spec fn prio_of(
        self,
        id: NodeId,
        last_access: u64,
        hit_count: u64,
        priority: i32,
    ) -> Prio {
        let la = clamped(last_access);
        match self {
            EvictionPolicy::Lru => Prio { a: la, b: 0, c: id },
            EvictionPolicy::Lfu => Prio { a: clamped(hit_count), b: la, c: id },
            EvictionPolicy::Fifo => Prio { a: 0, b: 0, c: id },
            EvictionPolicy::Mru => Prio { a: (i64::MAX - la) as i64, b: 0, c: id },
            EvictionPolicy::Filo => Prio { a: (i64::MAX - id) as i64, b: 0, c: la as u32 },
            EvictionPolicy::Priority => Prio { a: priority as i64, b: la, c: id },
            EvictionPolicy::Slru { threshold } => Prio {
                a: if hit_count >= threshold {
                    1
                } else {
                    0
                },
                b: la,
                c: id,
            },
        }
    }

    /// The queue item of a node with these fields.
    pub open spec fn item_of(
        self,
        id: NodeId,
        last_access: u64,
        hit_count: u64,
        priority: i32,
    ) -> HeapItem {
        let p = self.prio_of(id, last_access, hit_count, priority);
        HeapItem { a: p.a, b: p.b, c: p.c as i64, id }
    }

    /// Eviction priority of a node with these fields; smaller values are
    /// evicted first.
    pub fn prio_fields(&self, id: NodeId, last_access: u64, hit_count: u64, priority: i32) -> (r: Prio)
        ensures
            r == self.prio_of(id, last_access, hit_count, priority),
    {
        let la = clamp_u64(last_access);
        match self {
            // last access
            Self::Lru => Prio { a: la, b: 0, c: id },
            // (hit count, last access)
            Self::Lfu => Prio { a: clamp_u64(hit_count), b: la, c: id },
            // creation: node id is creation order
            Self::Fifo => Prio { a: 0, b: 0, c: id },
            // last access, newest first
            Self::Mru => Prio { a: i64::MAX - la, b: 0, c: id },
            // creation, newest first
            Self::Filo => Prio { a: i64::MAX - (id as i64), b: 0, c: la as u32 },
            // (priority, last access)
            Self::Priority => Prio { a: priority as i64, b: la, c: id },
            // (segment, last access)
            Self::Slru { threshold } => Prio {
                a: if hit_count >= *threshold {
                    1
                } else {
                    0
                },
                b: la,
                c: id,
            },
        }
    }

    /// Eviction priority; smaller values are evicted first.
    pub fn prio(&self, node: &RawNode) -> (r: Prio)
        ensures
            r == self.prio_of(node.id, node.last_access, node.hit_count, node.priority),
    {
        self.prio_fields(node.id, node.last_access, node.hit_count, node.priority)
    }
}

/// No two nodes share a priority, whatever their other fields.
pub proof fn law_priorities_are_distinct(
    p: EvictionPolicy,
    i: NodeId,
    j: NodeId,
    la: u64,
    lb: u64,
    ha: u64,
    hb: u64,
    pa: i32,
    pb: i32,
)
    requires
        i != j,
    ensures
        p.prio_of(i, la, ha, pa) != p.prio_of(j, lb, hb, pb),
        p.prio_of(i, la, ha, pa).below(p.prio_of(j, lb, hb, pb)) || p.prio_of(j, lb, hb, pb).below(
            p.prio_of(i, la, ha, pa),
        ),
{
}

/// Under `Lru` the node not visited for longest leaves first; under `Mru`
/// the one visited last. Times are told apart up to the largest `i64`.
pub proof fn law_recency_policies(i: NodeId, j: NodeId, la: u64, lb: u64, h: u64, p: i32)
    requires
        la < lb,
        la < i64::MAX,
    ensures
        EvictionPolicy::Lru.prio_of(i, la, h, p).below(EvictionPolicy::Lru.prio_of(j, lb, h, p)),
        EvictionPolicy::Mru.prio_of(j, lb, h, p).below(EvictionPolicy::Mru.prio_of(i, la, h, p)),
{
}

/// Under `Fifo` the older node leaves first, under `Filo` the younger.
pub proof fn law_creation_policies(i: NodeId, j: NodeId, la: u64, lb: u64, h: u64, p: i32)
    requires
        i < j,
    ensures
        EvictionPolicy::Fifo.prio_of(i, la, h, p).below(EvictionPolicy::Fifo.prio_of(j, lb, h, p)),
        EvictionPolicy::Filo.prio_of(j, lb, h, p).below(EvictionPolicy::Filo.prio_of(i, la, h, p)),
{
}

/// Under `Lfu` fewer hits leave first, under `Priority` a lower priority,
/// under `Slru` a node below the hit threshold.
pub proof fn law_weighted_policies(
    i: NodeId,
    j: NodeId,
    la: u64,
    lb: u64,
    ha: u64,
    hb: u64,
    pa: i32,
    pb: i32,
    threshold: u64,
)
    ensures
        ha < hb && ha < i64::MAX ==> EvictionPolicy::Lfu.prio_of(i, la, ha, pa).below(
            EvictionPolicy::Lfu.prio_of(j, lb, hb, pb),
        ),
        pa < pb ==> EvictionPolicy::Priority.prio_of(i, la, ha, pa).below(
            EvictionPolicy::Priority.prio_of(j, lb, hb, pb),
        ),
        ha < threshold <= hb ==> (EvictionPolicy::Slru { threshold }).prio_of(i, la, ha, pa).below(
            (EvictionPolicy::Slru { threshold }).prio_of(j, lb, hb, pb),
        ),
{
}

/// Whether `policy` evicts node `i`, visited last at `la`, hit `ha` times and
/// of priority `pa`, before node `j` with `lb`, `hb` and `pb`. Ids go by
/// creation, and settle what the rest leaves open.
pub open spec fn evicts_first(
    policy: EvictionPolicy,
    i: NodeId,
    la: u64,
    ha: u64,
    pa: i32,
    j: NodeId,
    lb: u64,
    hb: u64,
    pb: i32,
) -> bool {
    let older = la < lb || (la == lb && i < j);
    match policy {
        EvictionPolicy::Lru => older,
        EvictionPolicy::Lfu => ha < hb || (ha == hb && older),
        EvictionPolicy::Fifo => i < j,
        EvictionPolicy::Mru => la > lb || (la == lb && i < j),
        EvictionPolicy::Filo => i > j,
        EvictionPolicy::Priority => pa < pb || (pa == pb && older),
        EvictionPolicy::Slru { threshold } => {
            (ha < threshold && hb >= threshold) || ((ha < threshold) == (hb < threshold) && older)
        },
    }
}

/// The lower priority is that of the node that the policy evicts first.
/// Times and hits are told apart up to the largest `i64`.
pub proof fn law_priority_order(
    policy: EvictionPolicy,
    i: NodeId,
    la: u64,
    ha: u64,
    pa: i32,
    j: NodeId,
    lb: u64,
    hb: u64,
    pb: i32,
)
    requires
        i != j,
        la <= i64::MAX,
        lb <= i64::MAX,
        ha <= i64::MAX,
        hb <= i64::MAX,
    ensures
        policy.prio_of(i, la, ha, pa).below(policy.prio_of(j, lb, hb, pb)) == evicts_first(
            policy,
            i,
            la,
            ha,
            pa,
            j,
            lb,
            hb,
            pb,
        ),
        policy.item_of(i, la, ha, pa).before(policy.item_of(j, lb, hb, pb)) == evicts_first(
            policy,
            i,
            la,
            ha,
            pa,
            j,
            lb,
            hb,
            pb,
        ),
{
}

} // verus!
