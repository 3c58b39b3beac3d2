//! A walk finds all there is to find: no node of the tree goes on with the
//! query where the walk ends.

use crate::chains;
use crate::seqs;
use crate::topo;
use crate::topo::{NodeId, Shape, Walk, ROOT};
use crate::unified::laws;
use crate::unified::matching;
use crate::walk_laws;
use vstd::prelude::*;

verus! {

/// Whether `y` is a node below the root in namespace `ns` that hangs in the
/// tree, as all above it do.
pub open spec fn hangs_in(s: Shape, ns: u32, y: NodeId) -> bool {
    &&& 0 < y < s.nodes.len()
    &&& s.nodes[y as int].ns == ns
    &&& forall|k: int| 0 <= k < s.up(y).len() ==> s.nodes[(#[trigger] s.up(y)[k]) as int].attached
}

/// Whether the keys down to `y` are a prefix of `flat`.
pub open spec fn leads_to(s: Shape, flat: Seq<i64>, y: NodeId) -> bool {
    let path = s.nodes[y as int].path;
    path.len() <= flat.len() && path == flat.take(path.len() as int)
}

/// The `i`-th node of the way up from `y`; the root ends it.
pub open spec fn above(s: Shape, y: NodeId, i: int) -> NodeId {
    if 0 <= i < s.up(y).len() {
        s.up(y)[i]
    } else {
        ROOT
    }
}

/// What is above a node: a front of its path.
pub proof fn lemma_above(s: Shape, y: NodeId, i: int)
    requires
        s.wf(),
        0 < y < s.nodes.len(),
        0 <= i <= s.up(y).len(),
    ensures
        s.has(above(s, y, i)),
        s.nodes[above(s, y, i) as int].path.len() <= s.nodes[y as int].path.len(),
        s.nodes[above(s, y, i) as int].path == s.nodes[y as int].path.take(
            s.nodes[above(s, y, i) as int].path.len() as int,
        ),
        i < s.up(y).len() ==> s.nodes[above(s, y, i) as int].ns == s.nodes[y as int].ns,
        above(s, y, 0) == y,
    decreases i,
{
    assert(s.up(y).len() > 0 && s.up(y)[0] == y) by {
        topo::lemma_up(s, y);
    }
    let a = above(s, y, i);
    let path = s.nodes[y as int].path;
    if i > 0 {
        let c = above(s, y, i - 1);
        lemma_above(s, y, i - 1);
        assert(0 < c < s.nodes.len() && s.nodes[c as int].parent == a && (i < s.up(y).len() ==> a != ROOT)) by {
            topo::lemma_up(s, y);
            assert(s.up(y)[i - 1] == c);
            if i < s.up(y).len() {
                assert(s.up(y)[i] == a);
            }
        }
        assert(s.hangs(c as int));
        let p = s.nodes[a as int].path;
        let q = s.nodes[c as int].path;
        assert(p =~= q.take(p.len() as int));
        assert(p =~= path.take(p.len() as int));
    } else {
        assert(path =~= path.take(path.len() as int));
    }
}

/// One step down the way to `y`.
proof fn lemma_step(s: Shape, ns: u32, flat: Seq<i64>, y: NodeId, i: int, n: int)
    requires
        s.wf(),
        hangs_in(s, ns, y),
        s.aligned(flat.len() as int),
        s.aligned(n),
        0 <= n <= flat.len(),
        n <= s.nodes[y as int].path.len(),
        s.nodes[y as int].path.take(n) == flat.take(n),
        0 < i <= s.up(y).len(),
        s.nodes[above(s, y, i) as int].path.len() < n,
    ensures
        ({
            let node = above(s, y, i);
            let c = above(s, y, i - 1);
            let at = s.nodes[node as int].path.len() as int;
            let key = s.nodes[c as int].key;
            let rem = flat.skip(at);
            let m = s.shared(rem, c);
            &&& s.aligned(rem.len() as int)
            &&& s.chunk() <= n - at <= rem.len()
            &&& s.child_of(node, ns, rem.take(s.chunk() as int)) == Some(c)
            &&& s.nodes[c as int].path.len() == at + key.len()
            &&& 0 < m <= rem.len()
            &&& m <= key.len()
            &&& at + key.len() <= n ==> m == key.len()
            &&& at + key.len() > n ==> m >= n - at
            &&& at + key.len() <= n ==> rem.skip(key.len() as int) == flat.skip(at + key.len())
            &&& 0 < c < s.nodes.len()
        }),
{
    let node = above(s, y, i);
    let c = above(s, y, i - 1);
    let path = s.nodes[y as int].path;
    let at = s.nodes[node as int].path.len() as int;
    let key = s.nodes[c as int].key;
    let rem = flat.skip(at);
    let k = s.chunk() as int;
    lemma_above(s, y, i);
    lemma_above(s, y, i - 1);
    topo::lemma_chunk(s);
    assert(0 < c < s.nodes.len() && s.nodes[c as int].parent == node) by {
        topo::lemma_up(s, y);
        assert(s.up(y)[i - 1] == c);
    }
    assert(s.nodes[s.up(y)[i - 1] as int].attached);
    assert(s.hangs(c as int));
    let q = s.nodes[c as int].path;
    lemma_whole(s, node);
    topo::lemma_aligned(s, n, at);
    topo::lemma_aligned(s, flat.len() as int, at);
    assert(s.aligned(0)) by {
        vstd::arithmetic::div_mod::lemma_small_mod(0, s.chunk());
    }
    topo::lemma_aligned(s, key.len() as int, 0);
    assert(key.len() >= k && n - at >= k);
    assert forall|j: int| 0 <= j < key.len() && at + j < n implies rem[j] == key[j] by {
        assert(q[at + j] == key[j]);
        assert(q[at + j] == path[at + j]);
        assert(path.take(n)[at + j] == flat.take(n)[at + j]);
    }
    assert(rem.take(k) =~= key.take(k));
    assert(s.named(node, ns, rem.take(k), c));
    topo::lemma_child_of(s, node, ns, rem.take(k), c);
    topo::lemma_shared(s, rem, c);
    if at + key.len() <= n {
        assert(rem.skip(key.len() as int) =~= flat.skip(at + key.len()));
        assert(rem.take(key.len() as int) =~= key);
        walk_laws::lemma_shared_whole(s, rem, c);
    } else {
        let d = n - at;
        assert(rem.take(d) =~= key.take(d));
        seqs::lemma_lcp_at_least(rem, key, d as nat);
        let full = seqs::lcp(rem, key) as int;
        assert(s.aligned(d));
        assert(full - full % k >= d) by (nonlinear_arith)
            requires
                full >= d,
                k >= 1,
                d % k == 0,
        {
            vstd::arithmetic::div_mod::lemma_fundamental_div_mod(full, k);
            vstd::arithmetic::div_mod::lemma_fundamental_div_mod(d, k);
            vstd::arithmetic::div_mod::lemma_div_is_ordered(d, full, k);
            assert(k * (full / k) >= k * (d / k));
        }
    }
}

/// Paths are whole pages.
pub proof fn lemma_whole(s: Shape, x: NodeId)
    requires
        s.wf(),
        s.has(x),
    ensures
        s.aligned(s.nodes[x as int].path.len() as int),
    decreases s.nodes[x as int].path.len(), (if s.nodes[x as int].parent == ROOT { 0int } else { 1 }),
{
    topo::lemma_chunk(s);
    vstd::arithmetic::div_mod::lemma_small_mod(0, s.chunk());
    if x != ROOT {
        let p = s.nodes[x as int].parent;
        assert(s.hangs(x as int));
        topo::lemma_path_grows(s, x);
        let a = s.nodes[p as int].path.len() as int;
        let b = s.nodes[x as int].key.len() as int;
        if p != ROOT {
            lemma_whole(s, p);
        } else {
            assert(s.nodes[p as int].path.len() == 0);
        }
        vstd::arithmetic::div_mod::lemma_add_mod_noop(a, b, s.chunk() as int);
        assert(s.nodes[x as int].path.len() == a + b);
    }
}

proof fn lemma_longest(s: Shape, ns: u32, flat: Seq<i64>, y: NodeId, i: int, n: int)
    requires
        s.wf(),
        hangs_in(s, ns, y),
        s.aligned(flat.len() as int),
        s.aligned(n),
        0 <= n <= flat.len(),
        n <= s.nodes[y as int].path.len(),
        s.nodes[y as int].path.take(n) == flat.take(n),
        0 <= i <= s.up(y).len(),
        s.nodes[above(s, y, i) as int].path.len() <= n,
    ensures
        ({
            let at = s.nodes[above(s, y, i) as int].path.len() as int;
            at + s.walk(above(s, y, i), ns, flat.skip(at)).used >= n
        }),
    decreases i,
{
    lemma_above(s, y, i);
    let at = s.nodes[above(s, y, i) as int].path.len() as int;
    if at < n && i > 0 {
        lemma_step(s, ns, flat, y, i, n);
        let c = above(s, y, i - 1);
        let key = s.nodes[c as int].key;
        let rem = flat.skip(at);
        let m = s.shared(rem, c);
        if at + key.len() <= n {
            lemma_longest(s, ns, flat, y, i - 1, n);
        }
    }
}

proof fn lemma_met(s: Shape, ns: u32, flat: Seq<i64>, y: NodeId, i: int)
    requires
        s.wf(),
        hangs_in(s, ns, y),
        s.aligned(flat.len() as int),
        leads_to(s, flat, y),
        0 <= i <= s.up(y).len(),
    ensures
        ({
            let at = s.nodes[above(s, y, i) as int].path.len() as int;
            forall|j: int|
                0 <= j < i ==> s.walk(above(s, y, i), ns, flat.skip(at)).chain.contains(#[trigger] above(s, y, j))
        }),
    decreases i,
{
    if i > 0 {
        let n = s.nodes[y as int].path.len() as int;
        let node = above(s, y, i);
        let c = above(s, y, i - 1);
        let at = s.nodes[node as int].path.len() as int;
        let rem = flat.skip(at);
        lemma_above(s, y, i);
        lemma_above(s, y, i - 1);
        lemma_whole(s, y);
        assert(s.nodes[y as int].path.take(n) =~= s.nodes[y as int].path);
        assert(s.nodes[c as int].path.len() > at) by {
            topo::lemma_up(s, y);
            assert(s.up(y)[i - 1] == c);
            assert(s.nodes[c as int].attached);
            topo::lemma_path_grows(s, c);
        }
        lemma_step(s, ns, flat, y, i, n);
        let key = s.nodes[c as int].key;
        assert(at + key.len() <= n);
        lemma_met(s, ns, flat, y, i - 1);
        let w = s.walk(c, ns, rem.skip(key.len() as int));
        let all = s.walk(node, ns, rem);
        assert(all.chain == seq![c] + w.chain);
        assert forall|j: int| 0 <= j < i implies all.chain.contains(#[trigger] above(s, y, j)) by {
            if j == i - 1 {
                assert(all.chain[0] == c);
            } else {
                let k = w.chain.index_of(above(s, y, j));
                assert(w.chain.contains(above(s, y, j)));
                assert(all.chain[k + 1] == above(s, y, j));
            }
        }
    }
}

/// A walk goes as far as any node of the tree does: whole pages that the
/// query shares with the keys down to a node are all walked.
pub proof fn law_walk_is_longest(s: Shape, ns: u32, flat: Seq<i64>, y: NodeId, n: int)
    requires
        s.wf(),
        hangs_in(s, ns, y),
        s.aligned(flat.len() as int),
        s.aligned(n),
        0 <= n <= flat.len(),
        n <= s.nodes[y as int].path.len(),
        s.nodes[y as int].path.take(n) == flat.take(n),
    ensures
        n <= s.walk(ROOT, ns, flat).used,
{
    let i = s.up(y).len() as int;
    assert(above(s, y, i) == ROOT);
    assert(s.nodes[ROOT as int].path.len() == 0);
    assert(flat.skip(0) =~= flat);
    lemma_longest(s, ns, flat, y, i, n);
}

/// A walk comes past every node whose keys from the root on the query starts
/// with.
pub proof fn law_walk_meets(s: Shape, ns: u32, flat: Seq<i64>, y: NodeId)
    requires
        s.wf(),
        hangs_in(s, ns, y),
        s.aligned(flat.len() as int),
        leads_to(s, flat, y),
    ensures
        s.walk(ROOT, ns, flat).chain.contains(y),
{
    let i = s.up(y).len() as int;
    assert(above(s, y, i) == ROOT);
    assert(s.nodes[ROOT as int].path.len() == 0);
    assert(flat.skip(0) =~= flat);
    lemma_above(s, y, 0);
    assert(s.up(y).len() > 0) by {
        topo::lemma_up(s, y);
    }
    lemma_met(s, ns, flat, y, i);
    assert(above(s, y, 0) == y);
}

/// Tokens up a path, counted from its end.
pub proof fn lemma_back_tokens(s: Shape, ids: Seq<NodeId>, n: int, j: int)
    requires
        0 <= j <= n <= ids.len(),
    ensures
        chains::tokens(s, ids.take(n).reverse(), j) == chains::tokens(s, ids, n) - chains::tokens(s, ids, n - j),
    decreases j,
{
    if j > 0 {
        lemma_back_tokens(s, ids, n, j - 1);
        assert(ids.take(n).reverse()[j - 1] == ids[n - j]);
    }
}

/// What is known of node `ids[j]` of a walk.
pub open spec fn placed(s: Shape, ns: u32, flat: Seq<i64>, ids: Seq<NodeId>, j: int) -> bool {
    &&& 0 < ids[j] < s.nodes.len()
    &&& s.nodes[ids[j] as int].attached
    &&& s.nodes[ids[j] as int].ns == ns
    &&& leads_to(s, flat, ids[j])
    &&& s.up(ids[j]) == ids.take(j + 1).reverse()
    &&& s.nodes[ids[j] as int].path.len() == chains::tokens(s, ids, j + 1) * s.unit
    &&& s.units(ids[j] as int) >= 1
}

/// The nodes of a walk that takes all of its last node.
pub proof fn lemma_chain(s: Shape, ns: u32, flat: Seq<i64>, ids: Seq<NodeId>, used: nat)
    requires
        s.wf(),
        s.aligned(flat.len() as int),
        s.walk(ROOT, ns, flat) == (Walk { chain: ids, stop: None, used }),
    ensures
        forall|j: int| 0 <= j < ids.len() ==> #[trigger] placed(s, ns, flat, ids, j),
        used <= flat.len(),
        used == chains::tokens(s, ids, ids.len() as int) * s.unit,
        topo::end_of(ids) < s.nodes.len(),
        s.nodes[topo::end_of(ids) as int].path == flat.take(used as int),
{
    let n = ids.len() as int;
    topo::lemma_walk_chain(s, ROOT, ns, flat);
    let w = s.walk(ROOT, ns, flat);
    assert(w.chain == ids);
    assert forall|j: int| 0 <= j < n implies #[trigger] laws::linked(s, ids, j) by {
        assert(s.is_child(if j == 0 { ROOT } else { w.chain[j - 1] }, w.chain[j]));
    }
    topo::lemma_walk_path(s, ROOT, ns, flat);
    assert(s.nodes[topo::end_of(ids) as int].path =~= flat.take(used as int));
    assert forall|j: int| 0 <= j < n implies #[trigger] placed(s, ns, flat, ids, j) by {
        let end = ids[n - 1];
        let c = w.chain[j];
        assert(c == ids[j]);
        assert(s.nodes[c as int].attached && s.nodes[c as int].ns == ns);
        assert(laws::linked(s, ids, j));
        laws::lemma_up_back(s, ids, j + 1);
        assert(laws::linked(s, ids, n - 1));
        laws::lemma_up_back(s, ids, n);
        assert(ids.take(n) =~= ids);
        assert(s.up(end)[n - 1 - j] == ids[j]);
        lemma_above(s, end, n - 1 - j);
        let part = s.nodes[ids[j] as int].path;
        assert(part =~= flat.take(part.len() as int));
        chains::lemma_units(s, ids[j] as int);
        lemma_depth(s, ids, j + 1);
    }
    lemma_depth(s, ids, n);
    if n > 0 {
        assert(laws::linked(s, ids, n - 1));
    }
}

/// Paths are as long as the tokens before their ends.
proof fn lemma_depth(s: Shape, ids: Seq<NodeId>, k: int)
    requires
        s.wf(),
        0 <= k <= ids.len(),
        forall|j: int| 0 <= j < ids.len() ==> #[trigger] laws::linked(s, ids, j),
    ensures
        s.nodes[matching::node_at(ids, k) as int].path.len() == chains::tokens(s, ids, k) * s.unit,
    decreases k,
{
    if k > 0 {
        lemma_depth(s, ids, k - 1);
        let x = ids[k - 1];
        assert(laws::linked(s, ids, k - 1));
        assert(s.hangs(x as int));
        chains::lemma_units(s, x as int);
        let a = chains::tokens(s, ids, k - 1);
        let b = s.units(x as int);
        assert(chains::tokens(s, ids, k) == a + b);
        assert((a + b) * s.unit == a * s.unit + b * s.unit) by (nonlinear_arith);
    } else {
        assert(chains::tokens(s, ids, 0) * s.unit == 0);
    }
}

/// Of two nodes of a walk the later one is as deep at least.
pub proof fn lemma_deeper(s: Shape, ns: u32, flat: Seq<i64>, ids: Seq<NodeId>, i: int, j: int)
    requires
        s.wf(),
        0 <= i <= j < ids.len(),
        forall|k: int| 0 <= k < ids.len() ==> #[trigger] placed(s, ns, flat, ids, k),
    ensures
        s.nodes[ids[i] as int].path.len() <= s.nodes[ids[j] as int].path.len(),
        i < j ==> s.nodes[ids[i] as int].path.len() < s.nodes[ids[j] as int].path.len(),
{
    assert(placed(s, ns, flat, ids, i) && placed(s, ns, flat, ids, j));
    assert forall|n: int| 0 <= n < ids.len() implies s.units((#[trigger] ids[n]) as int) >= 0 by {
        assert(placed(s, ns, flat, ids, n));
    }
    chains::lemma_tokens_le(s, ids, i + 1, j + 1);
    let a = chains::tokens(s, ids, i + 1);
    let b = chains::tokens(s, ids, j + 1);
    assert(a * s.unit <= b * s.unit) by (nonlinear_arith)
        requires
            a <= b,
            s.unit >= 1,
    ;
    if i < j {
        chains::lemma_tokens_le(s, ids, i + 1, j);
        assert(b == chains::tokens(s, ids, j) + s.units(ids[j] as int));
        assert(a * s.unit < b * s.unit) by (nonlinear_arith)
            requires
                a < b,
                s.unit >= 1,
        ;
    }
}

/// What hangs in the tree hangs below what does.
pub open spec fn rooted(s: Shape) -> bool {
    forall|i: int|
        #![trigger s.nodes[i]]
        0 < i < s.nodes.len() && s.nodes[i].attached ==> s.nodes[s.nodes[i].parent as int].attached
}

/// In such a tree a node that hangs does so all the way up.
pub proof fn lemma_rooted(s: Shape, y: NodeId)
    requires
        s.wf(),
        rooted(s),
        0 < y < s.nodes.len(),
        s.nodes[y as int].attached,
    ensures
        hangs_in(s, s.nodes[y as int].ns, y),
{
    assert forall|k: int| 0 <= k < s.up(y).len() implies s.nodes[(#[trigger] s.up(y)[k]) as int].attached by {
        lemma_rooted_at(s, y, k);
    }
}

proof fn lemma_rooted_at(s: Shape, y: NodeId, k: int)
    requires
        s.wf(),
        rooted(s),
        0 < y < s.nodes.len(),
        s.nodes[y as int].attached,
        0 <= k < s.up(y).len(),
    ensures
        s.nodes[s.up(y)[k] as int].attached,
    decreases k,
{
    topo::lemma_up(s, y);
    if k > 0 {
        lemma_rooted_at(s, y, k - 1);
        let c = s.up(y)[k - 1];
        assert(s.nodes[c as int].parent == s.up(y)[k]);
        assert(0 < c < s.nodes.len());
    }
}

/// A cut leaves it so.
pub proof fn lemma_rooted_split(s: Shape, c: NodeId, m: int)
    requires
        s.wf(),
        rooted(s),
        0 < c < s.nodes.len() < NodeId::MAX,
        s.nodes[c as int].attached,
    ensures
        rooted(s.split(c, m)),
{
    let t = s.split(c, m);
    assert forall|i: int| #![trigger t.nodes[i]] 0 < i < t.nodes.len() && t.nodes[i].attached implies t.nodes[
        t.nodes[i].parent as int].attached by {
        assert(s.hangs(c as int));
        if i < s.nodes.len() {
            assert(s.hangs(i));
        }
    }
}

} // verus!
