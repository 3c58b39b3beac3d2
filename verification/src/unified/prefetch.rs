//! Prefetch into the host tier: host paths below an anchor, and what other
//! components attach to them.

use crate::key::RadixKey;
use crate::seqs;
use crate::seqs::copy_range;
use crate::topo;
use crate::topo::{NodeId, Walk, ROOT};
use crate::tree_model;
use crate::unified;
use crate::unified::facts;
use crate::unified::insert;
use crate::unified::matching;
use crate::unified::model;
use crate::unified::model::{Inserted, UNodeState, UState};
use crate::unified::tree::{UIntsertResult, UNode, UnifiedRadixTree};
use crate::unified::views::copy_texts;
use crate::unified::{Act, UCacheAction, CT_MAMBA, CT_SWA};
use vstd::prelude::*;

verus! {

impl UState {
    // ---- host paths ----

    /// `ids` visited, one after the other.
    pub open spec fn touched_all(self, ids: Seq<NodeId>) -> UState
        decreases ids.len(),
    {
        if ids.len() == 0 {
            self
        } else {
            self.touched_all(ids.drop_last()).touched(ids.last())
        }
    }

    /// The nodes of a walk from `anchor` visited; the one that is matched in
    /// part is cut.
    pub open spec fn host_walked(self, anchor: NodeId, w: Walk) -> UState {
        let a = self.touched(anchor).touched_all(w.chain);
        match w.stop {
            Some((c, m)) => a.touched(c).cut(c, m as int),
            None => a,
        }
    }

    /// The last node that a walk from `anchor` matches whole, once the node
    /// matched in part is cut.
    pub open spec fn host_end(self, anchor: NodeId, w: Walk) -> NodeId {
        match w.stop {
            Some((c, m)) => self.nodes.len() as NodeId,
            None => if w.chain.len() == 0 {
                anchor
            } else {
                w.chain.last()
            },
        }
    }

    /// A host path below `anchor`: what is missing of it becomes a host-only
    /// leaf, unless it would hang below KV that is not backed up and the
    /// tree writes through.
    pub open spec fn after_insert_host(
        self,
        anchor: NodeId,
        ns: u32,
        raw: Seq<i64>,
        host: Seq<i64>,
        hashes: Option<Seq<Seq<char>>>,
    ) -> (UState, Inserted) {
        let flat = self.flat(raw);
        let unit = self.shape.unit as int;
        let w = self.shape.walk(anchor, ns, flat);
        let t = self.host_walked(anchor, w);
        let node = self.host_end(anchor, w);
        let n = w.used as int / unit;
        let r = Inserted {
            prefix_len: n,
            total_len: flat.len() as int / unit,
            actions: matching::opt_list(self.walk_report(w)),
            ..Inserted::none()
        };
        if flat.len() == 0 {
            (self.touched(anchor), Inserted { mamba_exist: true, ..Inserted::none() })
        } else if w.used == flat.len() {
            (
                t,
                Inserted {
                    host_node: if node != ROOT && t.backuped(node) {
                        Some(node)
                    } else {
                        None
                    },
                    ..r
                },
            )
        } else if node != ROOT && !t.backuped(node) && !self.cfg.is_write_back {
            (t, Inserted { host_dropped: true, ..r })
        } else {
            let leaf = UNodeState {
                hashes: model::hash_skip(hashes, n / self.shape.page as int),
                ..t.newborn(t.nodes[node as int].priority).with_host(0, Some(host.skip(n)))
            };
            (
                t.grown(node, ns, flat.skip(w.used as int), leaf),
                Inserted { host_node: Some(t.nodes.len() as NodeId), ..r },
            )
        }
    }

    // ---- windows ----

    /// The host window `host`, which ends at `pos` and begins at `start`,
    /// attached to the nodes `ids` from place `k` on, deepest first: to those
    /// without one; the others' part of it goes back. Also where that ends.
    pub open spec fn window_filled(self, ids: Seq<NodeId>, k: int, pos: int, start: int, host: Seq<i64>) -> (
        UState,
        Seq<Act>,
        int,
    )
        decreases ids.len() - k,
    {
        if k >= ids.len() || pos <= start {
            (self, Seq::empty(), pos)
        } else {
            let x = ids[k];
            let from = pos - self.units(x);
            let fill = if from < start {
                start
            } else {
                from
            };
            let slice = host.subrange(fill - start, pos - start);
            if self.nodes[x as int].host[1] is None {
                let (a, acts) = if fill > from {
                    (
                        self.cut(x, (fill - from) * self.shape.unit),
                        matching::opt_list(self.cut_report(x)),
                    )
                } else {
                    (self, Seq::empty())
                };
                let (t, more, end) = a.hosted(x, 1, slice).window_filled(ids, k + 1, from, start, host);
                (t, acts + more, end)
            } else {
                let (t, more, end) = self.window_filled(ids, k + 1, from, start, host);
                (t, seq![Act::FreeHost { ct: CT_SWA, chunks: seq![slice] }] + more, end)
            }
        }
    }

    /// A prefetched window below `anchor` at its end: attached up from the
    /// end of the path, unless it is not whole.
    pub open spec fn swa_prefetched(self, anchor: NodeId, host: Seq<i64>, loaded: i64, r: Inserted) -> (
        UState,
        Seq<Act>,
    ) {
        let page = self.shape.page as int;
        let pages = host.len() as int / page;
        let back = if host.len() > 0 {
            seq![Act::FreeHost { ct: CT_SWA, chunks: seq![host] }]
        } else {
            Seq::empty()
        };
        if (anchor != ROOT && pages < self.cfg.tail_size() / page) || r.host_node is None || pages == 0 || loaded < pages {
            (self, back)
        } else {
            let up = self.shape.up(r.host_node->0);
            let ids = up.take(self.place_of(up, anchor));
            let start = r.total_len - pages * page;
            let (t, acts, end) = self.window_filled(ids, 0, r.total_len, start, host);
            (
                t,
                if end > start {
                    acts.push(Act::FreeHost { ct: CT_SWA, chunks: seq![host.take(end - start)] })
                } else {
                    acts
                },
            )
        }
    }

    // ---- states ----

    /// A prefetched state at its end: attached to the end of the path, unless
    /// that has one. Also whether the report now says that it had one.
    pub open spec fn mamba_prefetched(self, host: Option<Seq<i64>>, loaded: bool, r: Inserted) -> (
        UState,
        Seq<Act>,
        bool,
    ) {
        if host is None || r.host_node is None || !loaded || self.nodes[r.host_node->0 as int].host[2] is Some {
            (
                self,
                seq![
                    Act::FreeHost {
                        ct: CT_MAMBA,
                        chunks: seq![
                            match host {
                                Some(h) => h,
                                None => Seq::empty(),
                            },
                        ],
                    },
                ],
                r.mamba_exist || r.host_node is Some,
            )
        } else {
            (self.hosted(r.host_node->0, 2, host->0), Seq::empty(), false)
        }
    }
}

impl UnifiedRadixTree {
    /// Visits `ids`, one after the other.
    fn touch_all(&mut self, ids: &Vec<NodeId>)
        requires
            old(self).wf(),
            forall|k: int| 0 <= k < ids@.len() ==> old(self)@.live(#[trigger] ids@[k]),
        ensures
            final(self).wf(),
            final(self)@ == old(self)@.touched_all(ids@),
            final(self)@.shape == old(self)@.shape,
            final(self)@.cfg == old(self)@.cfg,
            final(self)@.nodes.len() == old(self)@.nodes.len(),
            forall|i: int|
                0 <= i < old(self)@.nodes.len() ==> (#[trigger] final(self)@.nodes[i]).wt == old(self)@.nodes[i].wt,
    {
        let ghost st = self@;
        let mut k: usize = 0;
        assert(ids@.take(0).len() == 0);
        while k < ids.len()
            invariant
                self.wf(),
                k <= ids@.len(),
                forall|k: int| 0 <= k < ids@.len() ==> st.live(#[trigger] ids@[k]),
                self@ == st.touched_all(ids@.take(k as int)),
                self@.shape == st.shape,
                self@.cfg == st.cfg,
                self@.nodes.len() == st.nodes.len(),
                forall|i: int| 0 <= i < st.nodes.len() ==> (#[trigger] self@.nodes[i]).wt == st.nodes[i].wt,
            decreases ids@.len() - k,
        {
            assert(ids@.take(k + 1).drop_last() =~= ids@.take(k as int));
            assert(st.live(ids@[k as int]));
            self.touch_node(ids[k]);
            k += 1;
        }
        assert(ids@.take(k as int) =~= ids@);
    }

    /// A host-only leaf below `p`.
    fn add_host_leaf(&mut self, p: NodeId, ns: u32, key: Vec<i64>, host: Vec<i64>, hashes: Option<Vec<String>>) -> (f:
        NodeId)
        requires
            old(self).wf(),
            old(self)@.live(p),
            old(self)@.roomy(1),
            key@.len() > 0,
            old(self)@.shape.aligned(key@.len() as int),
            p != ROOT ==> old(self)@.shape.nodes[p as int].ns == ns,
            old(self)@.shape.child_of(p, ns, key@.take(old(self)@.shape.chunk() as int)) is None,
            host@.len() == key@.len() as int / old(self)@.shape.unit as int,
            model::hashes_fit(unified::opt_texts(hashes), host@.len() as int, old(self)@.shape.page as int),
        ensures
            final(self).wf(),
            ({
                let st = old(self)@;
                let leaf = UNodeState {
                    hashes: unified::opt_texts(hashes),
                    ..st.newborn(st.nodes[p as int].priority).with_host(0, Some(host@))
                };
                final(self)@ == st.grown(p, ns, key@, leaf)
            }),
            f == old(self)@.nodes.len(),
    {
        let ghost st = self@;
        let ghost hs = host@;
        let ghost names = unified::opt_texts(hashes);
        proof {
            self.lemma_wf();
        }
        let priority = self.node_by_id(p).priority;
        let c0 = self.clock();
        let c1: i128 = if c0 < model::CLOCK_CAP {
            c0 + model::TICK
        } else {
            c0
        };
        let mut node = UNode::blank(c0, c1, priority);
        node.host_value[0] = Some(host);
        node.hash_value = hashes;
        let ghost n = node@;
        proof {
            let leaf = UNodeState { hashes: names, ..st.newborn(priority).with_host(0, Some(hs)) };
            assert(n.host =~= leaf.host);
            assert(n =~= leaf);
            assert(n.host[0] == Some(hs));
            assert(n.host[1] is None && n.host[2] is None && n.host[3] is None);
        }
        self.grow(p, ns, key, node)
    }

    /// Visits the nodes of a walk from `anchor`, and cuts the one that is
    /// matched in part: the end, how far the key matched, and the report of
    /// the cut.
    #[verifier::rlimit(40)]
    fn walk_host(&mut self, anchor: NodeId, ns: u32, flat: &[i64]) -> (r: (NodeId, usize, Option<UCacheAction>))
        requires
            old(self).wf(),
            old(self)@.live(anchor),
            anchor != ROOT ==> old(self)@.shape.nodes[anchor as int].ns == ns,
            old(self)@.roomy(2),
            old(self)@.shape.aligned(flat@.len() as int),
        ensures
            final(self).wf(),
            ({
                let st = old(self)@;
                let t = final(self)@;
                let w = st.shape.walk(anchor, ns, flat@);
                &&& t == st.host_walked(anchor, w)
                &&& r.0 == st.host_end(anchor, w)
                &&& r.1 == w.used
                &&& unified::opt_act(r.2) == st.walk_report(w)
                &&& t.live(r.0)
                &&& t.cfg == st.cfg
                &&& t.roomy(1)
                &&& t.shape.page == st.shape.page && t.shape.unit == st.shape.unit
                &&& r.0 != ROOT ==> t.shape.nodes[r.0 as int].ns == ns
                &&& r.1 <= flat@.len()
                &&& st.shape.aligned(r.1 as int)
                &&& r.1 < flat@.len() ==> t.shape.child_of(
                    r.0,
                    ns,
                    flat@.skip(r.1 as int).take(t.shape.chunk() as int),
                ) is None
            }),
    {
        let ghost st = self@;
        proof {
            self.lemma_wf();
        }
        let ghost w = st.shape.walk(anchor, ns, flat@);
        let path = self.topo().walk_from(anchor, ns, flat);
        let used = path.used;
        proof {
            topo::lemma_walk(st.shape, anchor, ns, flat@);
        }
        let stop = path.stop;
        let mut node = path.end_from(anchor);
        let chain = path.chain;
        self.touch_node(anchor);
        let ghost a = self@;
        proof {
            assert forall|k: int| 0 <= k < chain@.len() implies a.live(#[trigger] chain@[k]) by {
                assert(st.shape.is_child(
                    if k == 0 {
                        anchor
                    } else {
                        w.chain[k - 1]
                    },
                    w.chain[k],
                ));
            }
        }
        self.touch_all(&chain);
        let mut report: Option<UCacheAction> = None;
        if stop.is_some() {
            let (c, m) = stop.unwrap();
            proof {
                assert(w.stop == Some((c, m as nat)));
            }
            self.touch_node(c);
            let ghost d = self@;
            proof {
                self.lemma_wf();
                assert(d.cuttable(c, m as int));
                assert(d.cut_report(c) == st.cut_report(c));
                facts::lemma_cut(d, c, m as int);
                assert(d.shape == st.shape);
                if used < flat@.len() {
                    tree_model::lemma_front_children(
                        d.shape,
                        c,
                        m as int,
                        ns,
                        flat@.skip(used as int).take(st.shape.chunk() as int),
                    );
                }
            }
            let (f, x) = self.cut(c, m);
            node = f;
            report = x;
        } else {
            proof {
                assert(w.stop is None);
                if chain@.len() > 0 {
                    assert(w.chain[w.chain.len() - 1] == node);
                }
            }
        }
        (node, used, report)
    }

    /// Adds a host path below `anchor`, whose key is `raw_tokens` in `ns`.
    #[verifier::rlimit(60)]
    pub fn insert_host(
        &mut self,
        anchor: NodeId,
        ns: u32,
        raw_tokens: &[i64],
        host_value: Vec<i64>,
        hash_value: Option<Vec<String>>,
    ) -> (r: UIntsertResult)
        requires
            old(self).wf(),
            old(self)@.live(anchor),
            anchor != ROOT ==> old(self)@.shape.nodes[anchor as int].ns == ns,
            old(self)@.roomy(2),
            raw_tokens@.len() <= i64::MAX,
            ({
                let st = old(self)@;
                let u = st.flat(raw_tokens@).len() as int / st.shape.unit as int;
                &&& u == (if st.cfg.is_eagle && raw_tokens@.len() > 0 {
                    raw_tokens@.len() - 1
                } else {
                    raw_tokens@.len() as int
                })
                &&& u > 0 ==> host_value@.len() == u
                &&& u > 0 ==> model::hashes_fit(unified::opt_texts(hash_value), u, st.shape.page as int)
            }),
        ensures
            final(self).wf(),
            (final(self)@, r@) == old(self)@.after_insert_host(
                anchor,
                ns,
                raw_tokens@,
                host_value@,
                unified::opt_texts(hash_value),
            ),
    {
        let ghost st = self@;
        let cfg = self.config();
        proof {
            self.lemma_wf();
            matching::lemma_flat(st, raw_tokens@);
        }
        let flat = RadixKey::new(raw_tokens).with_bigram(cfg.is_eagle).flatten_page_aligned(cfg.page_size as usize);
        let ghost fs = st.flat(raw_tokens@);
        let mut result = UIntsertResult::default();
        if flat.len() == 0 {
            self.touch_node(anchor);
            result.mamba_exist = true;
            assert(result@ =~= (Inserted { mamba_exist: true, ..Inserted::none() }));
            return result;
        }
        let ghost w = st.shape.walk(anchor, ns, fs);
        let unit = self.topo().unit_size();
        let (node, used, report) = self.walk_host(anchor, ns, flat.as_ref());
        let ghost t = self@;
        let n = used / unit;
        let u = flat.len() / unit;
        proof {
            insert::lemma_rest(st, fs.len() as int, used as int);
        }
        result.prefix_len = n as i64;
        result.total_len = u as i64;
        let ghost acts = matching::opt_list(unified::opt_act(report));
        if let Some(x) = report {
            result.cache_actions.push(x);
        }
        assert(unified::acts(result.cache_actions@) =~= acts);
        if used == flat.len() {
            if node != ROOT && self.is_backuped(node) {
                result.inserted_host_node = Some(node);
            }
            return result;
        }
        if node != ROOT && !self.is_backuped(node) && !self.is_write_back() {
            result.host_insert_dropped = true;
            return result;
        }
        let key = copy_range(flat.as_ref(), used, flat.len());
        let host = copy_range(host_value.as_slice(), n, host_value.len());
        let page = cfg.page_size as usize;
        let ghost names = unified::opt_texts(hash_value);
        proof {
            assert(key@ =~= fs.skip(used as int));
            assert(host@ =~= host_value@.skip(n as int));
            facts::lemma_pages(st.shape, used as int);
            facts::lemma_hash_cut(names, u as int, n as int, page as int);
        }
        let rest = match hash_value {
            Some(h) => {
                let v = copy_texts(&h, n / page, h.len());
                assert(unified::texts(v@) =~= unified::texts(h@).skip(n as int / page as int));
                Some(v)
            },
            None => None,
        };
        assert(unified::opt_texts(rest) == model::hash_skip(names, n as int / page as int));
        let f = self.add_host_leaf(node, ns, key, host, rest);
        result.inserted_host_node = Some(f);
        result
    }
}

/// Asks for a host run of `ct` to be freed.
fn free_host_run(acts: &mut Vec<UCacheAction>, ct: u8, run: Vec<i64>)
    ensures
        unified::acts(final(acts)@) == unified::acts(old(acts)@).push(Act::FreeHost { ct, chunks: seq![run@] }),
{
    let ghost rs = run@;
    let mut chunks: Vec<Vec<i64>> = Vec::new();
    chunks.push(run);
    assert(unified::runs(chunks@) =~= seq![rs]);
    insert::add_act(acts, UCacheAction::FreeComponentHostSlot { ct, chunks });
}

/// Whole pages taken from whole pages.
proof fn lemma_mod_less(a: int, b: int, page: int)
    requires
        page >= 1,
        a % page == 0,
        b % page == 0,
    ensures
        (a - b) % page == 0,
{
    vstd::arithmetic::div_mod::lemma_mod_equivalence(a, b, page);
}

/// A whole number of pages.
proof fn lemma_whole(q: int, page: int)
    requires
        page >= 1,
    ensures
        (q * page) % page == 0,
{
    vstd::arithmetic::div_mod::lemma_mod_multiples_basic(q, page);
}

impl UnifiedRadixTree {
    /// Attaches the part of the window that lies on `x`, which has none.
    fn fill_window(&mut self, x: NodeId, skip: i128, slice: Vec<i64>, acts: &mut Vec<UCacheAction>)
        requires
            old(self).wf(),
            old(self)@.cfg.swa(),
            old(self)@.inner(x),
            old(self)@.roomy(1),
            0 <= skip < old(self)@.units(x),
            skip as int % (old(self)@.shape.page as int) == 0,
            slice@.len() == old(self)@.units(x) - skip,
        ensures
            final(self).wf(),
            ({
                let st = old(self)@;
                let (a, more) = if skip > 0 {
                    (st.cut(x, skip * st.shape.unit), matching::opt_list(st.cut_report(x)))
                } else {
                    (st, Seq::empty())
                };
                &&& final(self)@ == a.hosted(x, 1, slice@)
                &&& unified::acts(final(acts)@) == unified::acts(old(acts)@) + more
            }),
            final(self)@.cfg == old(self)@.cfg,
            skip == 0 ==> final(self)@.shape == old(self)@.shape && final(self)@.nodes.len() == old(self)@.nodes.len(),
    {
        let ghost st = self@;
        let ghost before = unified::acts(acts@);
        proof {
            self.lemma_wf();
        }
        if skip > 0 {
            let unit = self.topo().unit_size();
            let len = self.topo().key(x).len();
            proof {
                insert::lemma_cut_at(st, x, skip as int);
                facts::lemma_cut(st, x, skip * unit);
                insert::lemma_cut_units(st, x, skip * unit);
            }
            let (f, a) = self.cut(x, skip as usize * unit);
            insert::add_opt_act(acts, a);
        } else {
            assert(before =~= before + Seq::<Act>::empty());
        }
        self.store_host(x, CT_SWA, slice);
    }

    /// Attaches a prefetched window up from the end of the path that
    /// `insert_result` reports, unless it is not whole: the host slots that
    /// are not used.
    #[verifier::rlimit(60)]
    pub fn commit_swa_prefetch(
        &mut self,
        anchor: NodeId,
        host_indices: Vec<i64>,
        loaded_pages: i64,
        insert_result: &UIntsertResult,
    ) -> (r: Vec<UCacheAction>)
        requires
            old(self).wf(),
            old(self)@.cfg.swa(),
            old(self)@.roomy(1),
            insert_result.total_len as int % (old(self)@.shape.page as int) == 0,
            insert_result.inserted_host_node matches Some(t) ==> {
                &&& old(self)@.inner(t)
                &&& anchor == ROOT || old(self)@.shape.up(t).contains(anchor)
            },
        ensures
            final(self).wf(),
            (final(self)@, unified::acts(r@)) == old(self)@.swa_prefetched(
                anchor,
                host_indices@,
                loaded_pages,
                insert_result@,
            ),
    {
        let ghost st = self@;
        let ghost host = host_indices@;
        let cfg = self.config();
        let page = cfg.page_size as usize;
        let mut acts: Vec<UCacheAction> = Vec::new();
        assert(unified::acts(acts@) =~= Seq::<Act>::empty());
        proof {
            self.lemma_wf();
        }
        let pages = host_indices.len() / page;
        let full = cfg.swa_tail_size() / cfg.page_size as i64;
        if (anchor != ROOT && (pages as i128) < full as i128) || insert_result.inserted_host_node.is_none() || pages == 0
            || (loaded_pages as i128) < pages as i128 {
            if host_indices.len() > 0 {
                free_host_run(&mut acts, CT_SWA, host_indices);
                assert(unified::acts(acts@) =~= seq![Act::FreeHost { ct: CT_SWA, chunks: seq![host] }]);
            }
            return acts;
        }
        let target = insert_result.inserted_host_node.unwrap();
        let up = self.up(target);
        let mut count: usize = 0;
        while count < up.len() && up[count] != anchor
            invariant
                count <= up@.len(),
                forall|j: int| 0 <= j < count ==> #[trigger] up@[j] != anchor,
            decreases up@.len() - count,
        {
            count += 1;
        }
        let total: i128 = insert_result.total_len as i128;
        proof {
            assert(pages * page <= host.len()) by {
                vstd::arithmetic::div_mod::lemma_fundamental_div_mod(host.len() as int, page as int);
                vstd::arithmetic::div_mod::lemma_mod_bound(host.len() as int, page as int);
                assert(page * pages == pages * page) by (nonlinear_arith);
            }
            assert(0 <= pages * page) by (nonlinear_arith)
                requires
                    pages >= 0,
                    page >= 0,
            ;
        }
        let span: usize = pages * page;
        let start: i128 = total - span as i128;
        let mut pos: i128 = total;
        let ghost ids = up@.take(count as int);
        let ghost p = st.shape.page as int;
        proof {
            if anchor != ROOT {
                let k = up@.index_of(anchor);
                assert(up@[k] == anchor);
            } else if count < up@.len() {
                assert(st.inner(up@[count as int]));
            }
            assert(count == st.place_of(up@, anchor));
            lemma_whole(pages as int, p);
            lemma_mod_less(total as int, span as int, p);
        }
        let ghost goal = st.window_filled(ids, 0, total as int, start as int, host);
        let mut k: usize = 0;
        assert(unified::acts(acts@) + goal.1 =~= goal.1);
        while k < count && pos > start
            invariant
                self.wf(),
                self@.cfg == st.cfg,
                st.cfg.swa(),
                st.roomy(1),
                p == st.shape.page,
                host == host_indices@,
                k <= count <= up@.len(),
                ids == up@.take(count as int),
                up@ == st.shape.up(target),
                forall|j: int| 0 <= j < up@.len() ==> st.inner(#[trigger] up@[j]),
                pos > start ==> self@.shape == st.shape && self@.nodes.len() == st.nodes.len(),
                pos - start <= span <= host.len(),
                start as int % p == 0,
                pos as int % p == 0,
                start <= i64::MAX,
                i64::MIN - usize::MAX <= start,
                pos >= i64::MIN - 2 * usize::MAX,
                ({
                    let (t, more, end) = self@.window_filled(ids, k as int, pos as int, start as int, host);
                    &&& t == goal.0
                    &&& unified::acts(acts@) + more == goal.1
                    &&& end == goal.2
                }),
            decreases count - k,
        {
            let x = up[k];
            let ghost cur = self@;
            let ghost before = unified::acts(acts@);
            proof {
                self.lemma_wf();
                assert(st.inner(up@[k as int]));
                assert(ids[k as int] == x);
                facts::lemma_units(cur, x);
                assert(cur.shape.hangs(x as int));
                facts::lemma_pages(cur.shape, cur.shape.nodes[x as int].key.len() as int);
            }
            let u = self.topo().units(x);
            let from: i128 = pos - u as i128;
            let fill: i128 = if from < start {
                start
            } else {
                from
            };
            proof {
                lemma_mod_less(pos as int, u as int, p);
                lemma_mod_less(fill as int, from as int, p);
            }
            let slice = copy_range(host_indices.as_slice(), (fill - start) as usize, (pos - start) as usize);
            let none = self.copy_host(x, CT_SWA).is_none();
            let ghost sl = slice@;
            if none {
                self.fill_window(x, fill - from, slice, &mut acts);
                proof {
                    let more0 = if fill > from {
                        matching::opt_list(cur.cut_report(x))
                    } else {
                        Seq::empty()
                    };
                    let more = self@.window_filled(ids, k + 1, from as int, start as int, host).1;
                    assert((before + more0) + more =~= before + (more0 + more));
                }
            } else {
                free_host_run(&mut acts, CT_SWA, slice);
                proof {
                    let a = Act::FreeHost { ct: CT_SWA, chunks: seq![sl] };
                    let more = self@.window_filled(ids, k + 1, from as int, start as int, host).1;
                    assert(before.push(a) + more =~= before + (seq![a] + more));
                }
            }
            pos = from;
            k += 1;
        }
        assert(unified::acts(acts@) + Seq::<Act>::empty() =~= unified::acts(acts@));
        if pos > start {
            let rest = copy_range(host_indices.as_slice(), 0, (pos - start) as usize);
            assert(rest@ =~= host.take(pos - start));
            free_host_run(&mut acts, CT_SWA, rest);
        }
        acts
    }

    /// Attaches a prefetched state to the end of the path that
    /// `insert_result` reports, unless that has one.
    pub fn commit_mamba_prefetch(
        &mut self,
        host_indices: Option<Vec<i64>>,
        loaded: bool,
        insert_result: &mut UIntsertResult,
    ) -> (r: Vec<UCacheAction>)
        requires
            old(self).wf(),
            old(self)@.cfg.mamba(),
            old(insert_result).inserted_host_node matches Some(t) ==> old(self)@.inner(t),
        ensures
            final(self).wf(),
            ({
                let (t, acts, exist) = old(self)@.mamba_prefetched(
                    seqs::opt_run(host_indices),
                    loaded,
                    old(insert_result)@,
                );
                &&& final(self)@ == t
                &&& unified::acts(r@) == acts
                &&& final(insert_result)@ == (Inserted { mamba_exist: exist, ..old(insert_result)@ })
            }),
    {
        let target = insert_result.inserted_host_node;
        let held = match target {
            Some(t) => self.copy_host(t, CT_MAMBA).is_some(),
            None => false,
        };
        let mut acts: Vec<UCacheAction> = Vec::new();
        assert(unified::acts(acts@) =~= Seq::<Act>::empty());
        if host_indices.is_none() || target.is_none() || !loaded || held {
            if target.is_some() {
                insert_result.mamba_exist = true;
            }
            let run = match host_indices {
                Some(h) => h,
                None => Vec::new(),
            };
            let ghost rs = run@;
            free_host_run(&mut acts, CT_MAMBA, run);
            assert(unified::acts(acts@) =~= seq![Act::FreeHost { ct: CT_MAMBA, chunks: seq![rs] }]);
            return acts;
        }
        let t = target.unwrap();
        let h = host_indices.unwrap();
        self.store_host(t, CT_MAMBA, h);
        insert_result.mamba_exist = false;
        acts
    }
}

} // verus!
