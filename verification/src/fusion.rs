//! The spider-fusion rewrite engine.
//!
//! Two distinct spiders of the same fusable kind (`Z` or `X`) joined by
//! a `Regular` edge that is not a self-loop may be fused: the
//! lower-slot node survives, its phase becomes the normalized sum of
//! the two phases, the fusing edge and every other edge between the
//! pair disappear, and the victim's remaining edges are re-pointed to
//! the survivor (parallel edges are kept, never merged; no self-loop is
//! ever introduced by fusion). [`ZXGraph::fuse_spiders`] applies the
//! rule repeatedly, always to the candidate edge with the lowest slot,
//! until no candidate remains.

use crate::graph::count_where;
use crate::graph::fusable;
use crate::graph::joins;
use crate::graph::lemma_count_where_take_all;
use crate::graph::lemma_count_where_take_step;
use crate::graph::other_endpoint;
use crate::graph::touches;
use crate::graph::Edge;
use crate::graph::EdgeIndex;
use crate::graph::EdgeType;
use crate::graph::Node;
use crate::graph::NodeIndex;
use crate::graph::SpiderType;
use crate::graph::ZXError;
use crate::graph::ZXGraph;
use crate::phase::normal;
use crate::phase::normalize_phase;
use crate::phase::FULL_TURN;
use vstd::prelude::*;

verus! {

/// How many reconnection records name `x` as the far endpoint with
/// edge kind `k`.
pub(crate) open spec fn recon_count(
    r: Seq<(EdgeIndex, NodeIndex, EdgeType)>,
    x: NodeIndex,
    k: EdgeType,
) -> nat {
    count_where(r, |tr: (EdgeIndex, NodeIndex, EdgeType)| tr.1 == x && tr.2 == k)
}

/// One application of the fusion rule takes `pre` to `post` by fusing
/// victim `v` into survivor `s` across the edge `f`: the survivor
/// keeps its kind, its phase becomes the normalized sum, the victim
/// and every edge touching it disappear (the victim also leaves both
/// boundary sets), edges not touching the victim survive unchanged,
/// any new edge runs from the survivor to a third node, and for every
/// third node and edge kind the survivor's link count becomes the sum
/// of both nodes' former counts, with the survivor's self-loops and
/// all links among third nodes kept.
pub open spec fn fused(pre: ZXGraph, post: ZXGraph, s: NodeIndex, v: NodeIndex, f: EdgeIndex) -> bool {
    &&& post.wf()
    &&& post.node_ok(s)
    &&& !post.node_ok(v)
    &&& post.kind_of(s) == pre.kind_of(s)
    &&& post.phase_of(s) == normal(pre.phase_of(s) + pre.phase_of(v))
    &&& forall|m: NodeIndex| m != s && m != v ==> (post.node_ok(m) <==> pre.node_ok(m))
    &&& forall|m: NodeIndex|
        m != s && m != v && pre.node_ok(m) ==> post.kind_of(m) == pre.kind_of(m) && post.phase_of(
            m,
        ) == pre.phase_of(m)
    &&& forall|e: EdgeIndex|
        pre.edge_ok(e) && !touches(pre.edge_at(e), v) ==> post.edge_ok(e) && post.edge_at(e)
            == pre.edge_at(e)
    &&& forall|e: EdgeIndex| pre.edge_ok(e) && touches(pre.edge_at(e), v) ==> !post.edge_ok(e)
    &&& forall|e: EdgeIndex|
        #[trigger] post.edge_ok(e) && !pre.edge_ok(e) ==> post.edge_at(e).endpoints.0 == s
            && post.edge_at(e).endpoints.1 != s && post.edge_at(e).endpoints.1 != v
    &&& forall|x: NodeIndex, k: EdgeType|
        x != s && x != v ==> #[trigger] post.links(s, x, k) == pre.links(s, x, k) + pre.links(
            v,
            x,
            k,
        )
    &&& forall|k: EdgeType| #[trigger] post.links(s, s, k) == pre.links(s, s, k)
    &&& forall|y: NodeIndex, k: EdgeType| #[trigger] post.links(v, y, k) == 0
    &&& forall|y: NodeIndex, z: NodeIndex, k: EdgeType|
        y != s && y != v && z != s && z != v ==> #[trigger] post.links(y, z, k) == pre.links(
            y,
            z,
            k,
        )
    &&& !post.is_input(v)
    &&& !post.is_output(v)
    &&& forall|m: NodeIndex|
        m != v ==> (post.is_input(m) <==> pre.is_input(m)) && (post.is_output(m) <==> pre.is_output(
            m,
        ))
    &&& post.live_nodes() + 1 == pre.live_nodes()
    &&& post.node_slots() == pre.node_slots()
}

/// `post` arises from `pre` by one run of the deterministic candidate
/// scan and fusion: the fusing edge is the live `Regular` edge with
/// the lowest slot joining two distinct same-kind fusable spiders, and
/// of its two endpoints the lower slot survives.
pub open spec fn fusion_step(pre: ZXGraph, post: ZXGraph) -> bool {
    exists|t: (NodeIndex, NodeIndex, EdgeIndex)|
        {
            let s = if t.0.slot <= t.1.slot {
                t.0
            } else {
                t.1
            };
            let v = if t.0.slot <= t.1.slot {
                t.1
            } else {
                t.0
            };
            &&& #[trigger] pre.is_candidate(t.2.slot as int)
            &&& pre.edge_ok(t.2)
            &&& pre.edge_at(t.2).endpoints == (t.0, t.1)
            &&& forall|j: int| 0 <= j < t.2.slot ==> !pre.is_candidate(j)
            &&& fused(pre, post, s, v, t.2)
        }
}

/// `post` arises from `pre` by exactly `n` fusion steps.
pub open spec fn fusion_reachable(pre: ZXGraph, post: ZXGraph, n: nat) -> bool
    decreases n,
{
    if n == 0 {
        post == pre
    } else {
        exists|mid: ZXGraph| #[trigger] fusion_step(pre, mid) && fusion_reachable(mid, post, (n - 1) as nat)
    }
}

/// Reachability extends by one step at the back: `n` steps to `mid`
/// and one more step to `post` make `n + 1` steps to `post`.
proof fn lemma_fusion_reachable_snoc(pre: ZXGraph, mid: ZXGraph, post: ZXGraph, n: nat)
    requires
        fusion_reachable(pre, mid, n),
        fusion_step(mid, post),
    ensures
        fusion_reachable(pre, post, n + 1),
    decreases n,
{
    if n == 0 {
        assert(mid == pre);
        assert(fusion_step(pre, post));
        assert(fusion_reachable(post, post, 0));
    } else {
        let mid1 = choose|mid1: ZXGraph|
            #[trigger] fusion_step(pre, mid1) && fusion_reachable(mid1, mid, (n - 1) as nat);
        lemma_fusion_reachable_snoc(mid1, mid, post, (n - 1) as nat);
    }
}

impl ZXGraph {
    /// Tests whether edge slot `j` holds a fusion candidate, returning
    /// its endpoints and handle when it does.
    fn candidate_at(&self, j: usize) -> (r: Option<(NodeIndex, NodeIndex, EdgeIndex)>)
        requires
            self.wf(),
            j < self.edge_slots(),
        ensures
            r is None <==> !self.is_candidate(j as int),
            r matches Some(t) ==> {
                &&& self.is_candidate(j as int)
                &&& t.2.slot == j
                &&& self.edge_ok(t.2)
                &&& self.edge_at(t.2).endpoints == (t.0, t.1)
            },
    {
        let edge = match &self.edges[j] {
            Some(e) => e,
            None => {
                return None;
            },
        };
        if !(edge.edge_type == EdgeType::Regular) {
            return None;
        }
        let n1 = edge.endpoints.0;
        let n2 = edge.endpoints.1;
        if n1 == n2 {
            return None;
        }
        proof {
            assert(self.edge_slot_wf(j as int));
        }
        let k1 = self.nodes[n1.slot].as_ref().unwrap().spider_type;
        let k2 = self.nodes[n2.slot].as_ref().unwrap().spider_type;
        if k1 == k2 && (k1 == SpiderType::Z || k1 == SpiderType::X) {
            let eh = EdgeIndex { slot: j, gen: self.edge_gens[j] };
            Some((n1, n2, eh))
        } else {
            None
        }
    }

    /// Scans the edge table in ascending slot order and returns the
    /// first fusion candidate — its two (distinct, same-kind) endpoint
    /// handles and the fusing edge — or `None` when the graph has no
    /// candidate.
    fn find_fusion_candidate(&self) -> (r: Option<(NodeIndex, NodeIndex, EdgeIndex)>)
        requires
            self.wf(),
        ensures
            r is None <==> !self.has_candidate(),
            r matches Some(t) ==> {
                &&& self.is_candidate(t.2.slot as int)
                &&& self.edge_ok(t.2)
                &&& self.edge_at(t.2).endpoints == (t.0, t.1)
                &&& forall|j: int| 0 <= j < t.2.slot ==> !self.is_candidate(j)
            },
    {
        let elen = self.edges.len();
        let mut j: usize = 0;
        while j < elen
            invariant
                self.wf(),
                j <= elen,
                elen == self.edge_slots(),
                forall|jj: int| 0 <= jj < j ==> !self.is_candidate(jj),
            decreases elen - j,
        {
            match self.candidate_at(j) {
                Some(t) => {
                    return Some(t);
                },
                None => {},
            }
            j = j + 1;
        }
        proof {
            assert forall|jj: int| !self.is_candidate(jj) by {
                if 0 <= jj < self.edge_slots() {
                    assert(!self.is_candidate(jj));
                }
            }
        }
        None
    }

    /// Fuses the victim `v` into the survivor `s` across the fusing
    /// edge `f`: the survivor's phase becomes the normalized sum, every
    /// edge between the pair (the fusing edge included) disappears, and
    /// each remaining victim edge to a third node is re-pointed to the
    /// survivor with its kind kept. The victim node is then removed.
    fn fuse_pair(&mut self, s: NodeIndex, v: NodeIndex, f: EdgeIndex)
        requires
            old(self).wf(),
            old(self).node_ok(s),
            old(self).node_ok(v),
            old(self).edge_ok(f),
            s != v,
            joins(old(self).edge_at(f), s, v),
        ensures
            final(self).wf(),
            final(self).node_ok(s),
            !final(self).node_ok(v),
            final(self).kind_of(s) == old(self).kind_of(s),
            final(self).phase_of(s) == normal(
                old(self).phase_of(s) + old(self).phase_of(v),
            ),
            forall|m: NodeIndex|
                m != s && m != v ==> (final(self).node_ok(m) <==> old(self).node_ok(m)),
            forall|m: NodeIndex|
                m != s && m != v && old(self).node_ok(m) ==> final(self).kind_of(m) == old(self).kind_of(m) && final(self).phase_of(m) == old(self).phase_of(m),
            forall|e: EdgeIndex|
                old(self).edge_ok(e) && !touches(old(self).edge_at(e), v) ==> final(self).edge_ok(
                    e,
                ) && final(self).edge_at(e) == old(self).edge_at(e),
            forall|e: EdgeIndex|
                old(self).edge_ok(e) && touches(old(self).edge_at(e), v) ==> !final(self).edge_ok(e),
            forall|e: EdgeIndex|
                #[trigger] final(self).edge_ok(e) && !old(self).edge_ok(e) ==> final(self).edge_at(
                    e,
                ).endpoints.0 == s && final(self).edge_at(e).endpoints.1 != s && final(self).edge_at(e).endpoints.1 != v,
            forall|x: NodeIndex, k: EdgeType|
                x != s && x != v ==> #[trigger] final(self).links(s, x, k) == old(self).links(
                    s,
                    x,
                    k,
                ) + old(self).links(v, x, k),
            forall|k: EdgeType| #[trigger] final(self).links(s, s, k) == old(self).links(s, s, k),
            forall|y: NodeIndex, k: EdgeType| #[trigger] final(self).links(v, y, k) == 0,
            forall|y: NodeIndex, z: NodeIndex, k: EdgeType|
                y != s && y != v && z != s && z != v ==> #[trigger] final(self).links(y, z, k)
                    == old(self).links(y, z, k),
            !final(self).is_input(v),
            !final(self).is_output(v),
            forall|m: NodeIndex|
                m != v ==> (final(self).is_input(m) <==> old(self).is_input(m)) && (final(self).is_output(m) <==> old(self).is_output(m)),
            final(self).live_nodes() + 1 == old(self).live_nodes(),
            final(self).node_slots() == old(self).node_slots(),
    {
        let ghost orig = *old(self);
        proof {
            assert(orig.node_slot_wf(s.slot as int));
            assert(orig.node_slot_wf(v.slot as int));
        }
        // New survivor phase: the normalized sum of the two phases.
        let ps = self.nodes[s.slot].as_ref().unwrap().phase;
        let pv = self.nodes[v.slot].as_ref().unwrap().phase;
        let sum: u64 = ps + pv;
        let np = normalize_phase(sum as i64);
        self.set_phase(s, np);
        let ghost base = *self;
        proof {
            assert(base.edges@ == orig.edges@);
            assert(base.edge_gens@ == orig.edge_gens@);
            assert(forall|e: EdgeIndex| base.edge_ok(e) == orig.edge_ok(e));
            assert(forall|e: EdgeIndex| base.edge_at(e) == orig.edge_at(e));
            assert(forall|x: NodeIndex, y: NodeIndex, k: EdgeType|
                #[trigger] base.links(x, y, k) == orig.links(x, y, k));
        }
        // Collect the victim's other edges off the edge table, in
        // ascending slot order: handle, far endpoint, kind.
        let mut recon: Vec<(EdgeIndex, NodeIndex, EdgeType)> = Vec::new();
        let elen = self.edges.len();
        let mut j: usize = 0;
        while j < elen
            invariant
                *self == base,
                base.wf(),
                base.node_ok(v),
                base.edge_ok(f),
                joins(base.edge_at(f), s, v),
                s != v,
                j <= elen,
                elen == base.edges@.len(),
                forall|i: int|
                    0 <= i < recon@.len() ==> {
                        let tr = #[trigger] recon@[i];
                        &&& base.edge_ok(tr.0)
                        &&& tr.0 != f
                        &&& touches(base.edge_at(tr.0), v)
                        &&& tr.1 == other_endpoint(base.edge_at(tr.0), v)
                        &&& tr.2 == base.edge_at(tr.0).edge_type
                        &&& tr.0.slot < j
                    },
                forall|i1: int, i2: int|
                    0 <= i1 < i2 < recon@.len() ==> recon@[i1].0.slot < recon@[i2].0.slot,
                forall|e2: EdgeIndex|
                    #[trigger] base.edge_ok(e2) && touches(base.edge_at(e2), v) && e2 != f
                        && e2.slot < j ==> exists|i: int|
                        0 <= i < recon@.len() && recon@[i].0 == e2,
                forall|x: NodeIndex, k: EdgeType|
                    x != s && x != v ==> #[trigger] recon_count(recon@, x, k) == count_where(
                        base.edges@.take(j as int),
                        |oe: Option<Edge>| oe is Some && joins(oe->0, v, x) && oe->0.edge_type
                            == k,
                    ),
            decreases elen - j,
        {
            let ghost prevr = recon@;
            let mut hit: Option<(EdgeIndex, NodeIndex, EdgeType)> = None;
            match &self.edges[j] {
                Some(ed) => {
                    if j != f.slot && (ed.endpoints.0 == v || ed.endpoints.1 == v) {
                        let eh = EdgeIndex { slot: j, gen: self.edge_gens[j] };
                        let other = if ed.endpoints.0 == v {
                            ed.endpoints.1
                        } else {
                            ed.endpoints.0
                        };
                        hit = Some((eh, other, ed.edge_type));
                    }
                },
                None => {},
            }
            match hit {
                Some(tr) => {
                    proof {
                        assert(base.edge_ok(tr.0));
                        assert(tr.0 != f) by {
                            assert(f.slot != j);
                        }
                    }
                    recon.push(tr);
                },
                None => {},
            }
            proof {
                assert forall|x: NodeIndex, k: EdgeType| x != s && x != v implies
                    #[trigger] recon_count(recon@, x, k) == count_where(
                    base.edges@.take(j + 1),
                    |oe: Option<Edge>| oe is Some && joins(oe->0, v, x) && oe->0.edge_type == k,
                ) by {
                    let p = |oe: Option<Edge>| oe is Some && joins(oe->0, v, x) && oe->0.edge_type
                        == k;
                    let q = |tr: (EdgeIndex, NodeIndex, EdgeType)| tr.1 == x && tr.2 == k;
                    assert(recon_count(prevr, x, k) == count_where(
                        base.edges@.take(j as int),
                        p,
                    ));
                    lemma_count_where_take_step(base.edges@, p, j as int);
                    if recon@.len() > prevr.len() {
                        crate::graph::lemma_count_where_push(prevr, q, recon@.last());
                        assert(recon@.drop_last() =~= prevr);
                        assert(recon@ =~= prevr.push(recon@.last()));
                        let ed = base.edges@[j as int]->0;
                        assert(touches(ed, v));
                        assert(joins(ed, v, x) <==> other_endpoint(ed, v) == x);
                    } else {
                        assert(recon@ == prevr);
                        if base.edges@[j as int] is Some {
                            let ed = base.edges@[j as int]->0;
                            if j == f.slot {
                                assert(ed == base.edge_at(f));
                                assert(joins(ed, s, v));
                                assert(!joins(ed, v, x));
                            } else {
                                assert(!touches(ed, v));
                                assert(!joins(ed, v, x));
                            }
                        }
                    }
                }
                assert forall|e2: EdgeIndex|
                    #[trigger] base.edge_ok(e2) && touches(base.edge_at(e2), v) && e2 != f
                        && e2.slot < j + 1 implies exists|i: int|
                        0 <= i < recon@.len() && recon@[i].0 == e2 by {
                    if e2.slot < j {
                        let i = choose|i: int| 0 <= i < prevr.len() && prevr[i].0 == e2;
                        assert(recon@[i].0 == e2);
                    } else {
                        assert(e2.slot == j);
                        assert(base.edges@[j as int] is Some);
                        assert(e2.gen == base.edge_gens@[j as int]);
                        assert(recon@.len() > prevr.len());
                        assert(recon@[recon@.len() - 1].0 == e2);
                    }
                }
            }
            j = j + 1;
        }
        let ghost rseq = recon@;
        proof {
            // The per-endpoint counts collected equal the victim's
            // link counts.
            assert forall|x: NodeIndex, k: EdgeType| x != s && x != v implies
                #[trigger] recon_count(rseq, x, k) == orig.links(v, x, k) by {
                let p = |oe: Option<Edge>| oe is Some && joins(oe->0, v, x) && oe->0.edge_type
                    == k;
                lemma_count_where_take_all(base.edges@, p);
                assert(count_where(base.edges@, p) == base.links(v, x, k));
            }
        }
        // Drop the fusing edge, then migrate the victim's other edges.
        let _ = self.remove_edge(f);
        proof {
            let cur = *self;
            assert forall|x: NodeIndex, k: EdgeType| x != s && x != v implies #[trigger] cur.links(
                s,
                x,
                k,
            ) == orig.links(s, x, k) && cur.links(v, x, k) == orig.links(v, x, k) by {
                assert(!joins(base.edge_at(f), s, x));
                assert(!joins(base.edge_at(f), v, x));
                assert(base.links(s, x, k) == cur.links(s, x, k));
                assert(base.links(v, x, k) == cur.links(v, x, k));
                assert(base.links(s, x, k) == orig.links(s, x, k));
                assert(base.links(v, x, k) == orig.links(v, x, k));
            }
            assert forall|k: EdgeType| #[trigger] cur.links(s, s, k) == orig.links(s, s, k) by {
                assert(!joins(base.edge_at(f), s, s));
                assert(base.links(s, s, k) == cur.links(s, s, k));
                assert(base.links(s, s, k) == orig.links(s, s, k));
            }
            assert forall|y: NodeIndex, z: NodeIndex, k: EdgeType|
                y != s && y != v && z != s && z != v implies #[trigger] cur.links(y, z, k)
                == orig.links(y, z, k) by {
                assert(!joins(base.edge_at(f), y, z));
                assert(base.links(y, z, k) == cur.links(y, z, k));
                assert(base.links(y, z, k) == orig.links(y, z, k));
            }
        }
        let rlen = recon.len();
        let mut m: usize = 0;
        while m < rlen
            invariant
                self.wf(),
                s != v,
                rlen == recon@.len(),
                recon@ == rseq,
                m <= rlen,
                forall|i: int|
                    0 <= i < rlen ==> {
                        let tr = #[trigger] recon@[i];
                        &&& orig.edge_ok(tr.0)
                        &&& tr.0 != f
                        &&& touches(orig.edge_at(tr.0), v)
                        &&& tr.1 == other_endpoint(orig.edge_at(tr.0), v)
                        &&& tr.2 == orig.edge_at(tr.0).edge_type
                    },
                forall|i1: int, i2: int|
                    0 <= i1 < i2 < rlen ==> recon@[i1].0.slot < recon@[i2].0.slot,
                forall|e2: EdgeIndex|
                    #[trigger] orig.edge_ok(e2) && touches(orig.edge_at(e2), v) && e2 != f
                        ==> exists|i: int| 0 <= i < rlen && recon@[i].0 == e2,
                orig.wf(),
                orig.node_ok(s),
                orig.node_ok(v),
                orig.edge_ok(f),
                joins(orig.edge_at(f), s, v),
                self.node_ok(s),
                self.node_ok(v),
                self.kind_of(s) == orig.kind_of(s),
                self.phase_of(s) == np,
                self.kind_of(v) == orig.kind_of(v),
                forall|mm: NodeIndex|
                    mm != s && mm != v ==> (self.node_ok(mm) <==> orig.node_ok(mm)),
                forall|mm: NodeIndex|
                    mm != s && mm != v && orig.node_ok(mm) ==> #[trigger] self.kind_of(mm)
                        == orig.kind_of(mm) && self.phase_of(mm) == orig.phase_of(mm),
                forall|i: int|
                    m <= i < rlen ==> self.edge_ok(#[trigger] recon@[i].0) && self.edge_at(
                        recon@[i].0,
                    ) == orig.edge_at(recon@[i].0),
                self.edge_dead_forever(f),
                forall|i: int| 0 <= i < m ==> self.edge_dead_forever(#[trigger] recon@[i].0),
                forall|e2: EdgeIndex|
                    #[trigger] orig.edge_ok(e2) && !touches(orig.edge_at(e2), v) ==> self.edge_ok(
                        e2,
                    ) && self.edge_at(e2) == orig.edge_at(e2),
                forall|e2: EdgeIndex|
                    #[trigger] self.edge_ok(e2) ==> ((orig.edge_ok(e2) && self.edge_at(e2)
                        == orig.edge_at(e2)) || (!orig.edge_ok(e2) && self.edge_at(
                        e2,
                    ).endpoints.0 == s && self.edge_at(e2).endpoints.1 != s)),
                forall|x: NodeIndex, k: EdgeType|
                    x != s && x != v ==> #[trigger] self.links(s, x, k) == orig.links(s, x, k)
                        + recon_count(recon@.take(m as int), x, k),
                forall|x: NodeIndex, k: EdgeType|
                    x != s && x != v ==> #[trigger] recon_count(rseq, x, k) == orig.links(v, x, k),
                forall|k: EdgeType| #[trigger] self.links(s, s, k) == orig.links(s, s, k),
                forall|y: NodeIndex, z: NodeIndex, k: EdgeType|
                    y != s && y != v && z != s && z != v ==> #[trigger] self.links(y, z, k)
                        == orig.links(y, z, k),
                self.input_nodes == orig.input_nodes,
                self.output_nodes == orig.output_nodes,
                self.live_nodes() == orig.live_nodes(),
                self.node_slots() == orig.node_slots(),
            decreases rlen - m,
        {
            let tr = recon[m];
            let e = tr.0;
            let other = tr.1;
            let t = tr.2;
            let ghost before = *self;
            proof {
                assert(before.edge_ok(e));
                assert(orig.edge_slot_wf(e.slot as int));
                assert(orig.node_ok(other));
            }
            let _ = self.remove_edge(e);
            let ghost mid = *self;
            if other != s {
                let _ = self.add_edge(s, other, t);
            }
            proof {
                let cur = *self;
                let ge = orig.edge_at(e);
                let q = |tr2: (EdgeIndex, NodeIndex, EdgeType)| tr2.1 == other && tr2.2 == t;
                // Per-pair link bookkeeping for this step.
                assert forall|x: NodeIndex, k: EdgeType| x != s && x != v implies
                    #[trigger] cur.links(s, x, k) == orig.links(s, x, k) + recon_count(
                    recon@.take(m + 1),
                    x,
                    k,
                ) by {
                    let qx = |tr2: (EdgeIndex, NodeIndex, EdgeType)| tr2.1 == x && tr2.2 == k;
                    lemma_count_where_take_step(rseq, qx, m as int);
                    assert(rseq[m as int] == tr);
                    assert(!joins(ge, s, x));
                    assert(mid.links(s, x, k) == before.links(s, x, k));
                    if other != s {
                        assert(cur.links(s, x, k) == mid.links(s, x, k) + (if (joins(
                            (Edge { endpoints: (s, other), edge_type: t }),
                            s,
                            x,
                        ) && k == t) {
                            1nat
                        } else {
                            0nat
                        }));
                        assert(joins((Edge { endpoints: (s, other), edge_type: t }), s, x) <==> (
                        other == x));
                    } else {
                        assert(cur == mid);
                        assert(!qx(tr));
                    }
                }
                assert forall|k: EdgeType| #[trigger] cur.links(s, s, k) == orig.links(
                    s,
                    s,
                    k,
                ) by {
                    assert(!joins(ge, s, s));
                    assert(mid.links(s, s, k) == before.links(s, s, k));
                    if other != s {
                        assert(!joins((Edge { endpoints: (s, other), edge_type: t }), s, s));
                    }
                }
                assert forall|y: NodeIndex, z: NodeIndex, k: EdgeType|
                    y != s && y != v && z != s && z != v implies #[trigger] cur.links(y, z, k)
                    == orig.links(y, z, k) by {
                    assert(!joins(ge, y, z));
                    assert(mid.links(y, z, k) == before.links(y, z, k));
                    if other != s {
                        assert(!joins((Edge { endpoints: (s, other), edge_type: t }), y, z));
                    }
                }
            }
            m = m + 1;
        }
        // The victim has nothing left but edges to the survivor made
        // from its own self-loops; removing it sweeps those away.
        let ghost cur2 = *self;
        let _ = self.remove_node(v);
        proof {
            let post = *self;
            assert forall|e2: EdgeIndex|
                orig.edge_ok(e2) && touches(orig.edge_at(e2), v) implies !post.edge_ok(e2) by {
                if e2 == f {
                    assert(cur2.edge_dead_forever(f));
                    assert(post.edge_dead_forever(f));
                } else {
                    let i = choose|i: int| 0 <= i < rlen && rseq[i].0 == e2;
                    assert(cur2.edge_dead_forever(rseq[i].0));
                    assert(post.edge_dead_forever(e2));
                }
            }
            assert forall|e2: EdgeIndex|
                orig.edge_ok(e2) && !touches(orig.edge_at(e2), v) implies post.edge_ok(e2)
                && post.edge_at(e2) == orig.edge_at(e2) by {
                assert(cur2.edge_ok(e2));
                assert(cur2.edge_at(e2) == orig.edge_at(e2));
                assert(!touches(cur2.edge_at(e2), v));
            }
            assert forall|e2: EdgeIndex|
                #[trigger] post.edge_ok(e2) && !orig.edge_ok(e2) implies post.edge_at(
                e2,
            ).endpoints.0 == s && post.edge_at(e2).endpoints.1 != s && post.edge_at(
                e2,
            ).endpoints.1 != v by {
                assert(cur2.edge_ok(e2));
                assert(!touches(cur2.edge_at(e2), v));
                assert(post.edge_at(e2) == cur2.edge_at(e2));
            }
            assert forall|x: NodeIndex, k: EdgeType| x != s && x != v implies #[trigger] post.links(
                s,
                x,
                k,
            ) == orig.links(s, x, k) + orig.links(v, x, k) by {
                assert(cur2.links(s, x, k) == orig.links(s, x, k) + recon_count(
                    rseq.take(rlen as int),
                    x,
                    k,
                ));
                assert(rseq.take(rlen as int) =~= rseq);
                assert(post.links(s, x, k) == cur2.links(s, x, k));
            }
            assert forall|k: EdgeType| #[trigger] post.links(s, s, k) == orig.links(s, s, k) by {
                assert(post.links(s, s, k) == cur2.links(s, s, k));
            }
            assert forall|y: NodeIndex, z: NodeIndex, k: EdgeType|
                y != s && y != v && z != s && z != v implies #[trigger] post.links(y, z, k)
                == orig.links(y, z, k) by {
                assert(post.links(y, z, k) == cur2.links(y, z, k));
            }
            assert(post.phase_of(s) == np);
            assert(np == normal(orig.phase_of(s) + orig.phase_of(v))) by {
                assert(sum == orig.phase_of(s) + orig.phase_of(v));
                assert(sum < 2 * FULL_TURN);
                assert(sum as i64 as int == sum as int);
            }
        }
    }

    /// Caller-directed fusion of an explicit pair across an explicit
    /// edge. All validation happens before any mutation: a dead handle,
    /// or an edge that does not join the pair, fails with
    /// `InvalidHandle`; two equal handles fail with `SelfFusion`; kinds
    /// that are not equal and fusable fail with `KindMismatch`. On
    /// success the lower-slot node survives with the normalized phase
    /// sum and the union of both nodes' remaining edges, as the fusion
    /// rule prescribes.
    pub fn fuse_spider_pair(&mut self, node1: NodeIndex, node2: NodeIndex, edge: EdgeIndex) -> (r:
        Result<(), ZXError>)
        requires
            old(self).wf(),
        ensures
            final(self).wf(),
            r is Err ==> *final(self) == *old(self),
            ({
                let ok_handles = old(self).node_ok(node1) && old(self).node_ok(node2) && old(self).edge_ok(edge) && joins(old(self).edge_at(edge), node1, node2);
                let ok_kinds = old(self).kind_of(node1) == old(self).kind_of(node2) && fusable(
                    old(self).kind_of(node1),
                );
                &&& (r == Result::<(), ZXError>::Err(ZXError::InvalidHandle) <==> !ok_handles)
                &&& (ok_handles && node1 == node2 <==> r == Result::<(), ZXError>::Err(
                    ZXError::SelfFusion,
                ))
                &&& (ok_handles && node1 != node2 && !ok_kinds <==> r == Result::<(), ZXError>::Err(
                    ZXError::KindMismatch,
                ))
                &&& (ok_handles && node1 != node2 && ok_kinds <==> r is Ok)
            }),
            r is Ok ==> ({
                let s = if node1.slot <= node2.slot {
                    node1
                } else {
                    node2
                };
                let v = if node1.slot <= node2.slot {
                    node2
                } else {
                    node1
                };
                &&& final(self).node_ok(s)
                &&& !final(self).node_ok(v)
                &&& final(self).kind_of(s) == old(self).kind_of(s)
                &&& final(self).phase_of(s) == normal(
                    old(self).phase_of(node1) + old(self).phase_of(node2),
                )
                &&& forall|m: NodeIndex|
                    m != s && m != v ==> (final(self).node_ok(m) <==> old(self).node_ok(m))
                &&& forall|m: NodeIndex|
                    m != s && m != v && old(self).node_ok(m) ==> final(self).kind_of(m) == old(self).kind_of(m) && final(self).phase_of(m) == old(self).phase_of(m)
                &&& forall|e: EdgeIndex|
                    old(self).edge_ok(e) && !touches(old(self).edge_at(e), v) ==> final(self).edge_ok(e) && final(self).edge_at(e) == old(self).edge_at(e)
                &&& forall|e: EdgeIndex|
                    old(self).edge_ok(e) && touches(old(self).edge_at(e), v) ==> !final(self).edge_ok(e)
                &&& forall|x: NodeIndex, k: EdgeType|
                    x != s && x != v ==> #[trigger] final(self).links(s, x, k) == old(self).links(
                        s,
                        x,
                        k,
                    ) + old(self).links(v, x, k)
                &&& forall|k: EdgeType|
                    #[trigger] final(self).links(s, s, k) == old(self).links(s, s, k)
                &&& forall|y: NodeIndex, k: EdgeType| #[trigger] final(self).links(v, y, k) == 0
                &&& forall|y: NodeIndex, z: NodeIndex, k: EdgeType|
                    y != s && y != v && z != s && z != v ==> #[trigger] final(self).links(y, z, k)
                        == old(self).links(y, z, k)
                &&& final(self).live_nodes() + 1 == old(self).live_nodes()
            }),
    {
        if !(self.node_valid(node1) && self.node_valid(node2) && self.edge_valid(edge)) {
            return Err(ZXError::InvalidHandle);
        }
        let ep = self.edges[edge.slot].as_ref().unwrap().endpoints;
        let joins_ok = (ep.0 == node1 && ep.1 == node2) || (ep.0 == node2 && ep.1 == node1);
        if !joins_ok {
            return Err(ZXError::InvalidHandle);
        }
        if node1 == node2 {
            return Err(ZXError::SelfFusion);
        }
        let k1 = self.nodes[node1.slot].as_ref().unwrap().spider_type;
        let k2 = self.nodes[node2.slot].as_ref().unwrap().spider_type;
        if !(k1 == k2 && (k1 == SpiderType::Z || k1 == SpiderType::X)) {
            return Err(ZXError::KindMismatch);
        }
        proof {
            if node1.slot == node2.slot {
                assert(node1 == node2);
            }
        }
        if node1.slot <= node2.slot {
            self.fuse_pair(node1, node2, edge);
        } else {
            self.fuse_pair(node2, node1, edge);
        }
        Ok(())
    }

    /// Runs spider fusion to a fixpoint: repeatedly finds the lowest-
    /// slot candidate edge and fuses across it, until no candidate
    /// remains. Returns the number of fusions performed; each fusion
    /// removes exactly one node, so for a graph of `n` nodes the count
    /// never exceeds `n - 1`, and a graph left without candidates
    /// (this call's own outcome included) yields `0` and stays
    /// untouched.
    pub fn fuse_spiders(&mut self) -> (count: usize)
        requires
            old(self).wf(),
        ensures
            final(self).wf(),
            !final(self).has_candidate(),
            fusion_reachable(*old(self), *final(self), count as nat),
            count + final(self).live_nodes() == old(self).live_nodes(),
            count == 0 <==> !old(self).has_candidate(),
            count == 0 ==> *final(self) == *old(self),
            old(self).live_nodes() > 0 ==> count <= old(self).live_nodes() - 1,
            old(self).live_nodes() == 0 ==> count == 0,
    {
        let ghost orig = *old(self);
        let nl = self.nodes.len();
        let mut fusion_count: usize = 0;
        loop
            invariant
                self.wf(),
                nl == orig.node_slots(),
                self.node_slots() == orig.node_slots(),
                fusion_count + self.live_nodes() == orig.live_nodes(),
                fusion_count == 0 ==> *self == orig,
                fusion_count > 0 ==> self.live_nodes() >= 1 && orig.has_candidate(),
                fusion_reachable(orig, *self, fusion_count as nat),
            ensures
                self.wf(),
                !self.has_candidate(),
                self.node_slots() == orig.node_slots(),
                fusion_count + self.live_nodes() == orig.live_nodes(),
                fusion_count == 0 ==> *self == orig,
                fusion_count > 0 ==> self.live_nodes() >= 1 && orig.has_candidate(),
                fusion_reachable(orig, *self, fusion_count as nat),
            decreases self.live_nodes(),
        {
            let cand = self.find_fusion_candidate();
            match cand {
                Some(t) => {
                    let n1 = t.0;
                    let n2 = t.1;
                    let eh = t.2;
                    proof {
                        assert(self.is_candidate(eh.slot as int));
                        if n1.slot == n2.slot {
                            assert(n1 == n2);
                        }
                        let lo = if n1.slot <= n2.slot {
                            n1.slot as int
                        } else {
                            n2.slot as int
                        };
                        let hi = if n1.slot <= n2.slot {
                            n2.slot as int
                        } else {
                            n1.slot as int
                        };
                        crate::graph::lemma_count_where_two(
                            self.nodes@,
                            |on: Option<Node>| on is Some,
                            lo,
                            hi,
                        );
                        crate::graph::lemma_count_where_le_len(
                            orig.nodes@,
                            |on: Option<Node>| on is Some,
                        );
                    }
                    let ghost before = *self;
                    if n1.slot <= n2.slot {
                        self.fuse_pair(n1, n2, eh);
                    } else {
                        self.fuse_pair(n2, n1, eh);
                    }
                    proof {
                        let t = (n1, n2, eh);
                        assert(before.is_candidate(t.2.slot as int));
                        let sv = if t.0.slot <= t.1.slot {
                            t.0
                        } else {
                            t.1
                        };
                        let vv = if t.0.slot <= t.1.slot {
                            t.1
                        } else {
                            t.0
                        };
                        assert(fused(before, *self, sv, vv, t.2));
                        assert(fusion_step(before, *self));
                        lemma_fusion_reachable_snoc(orig, before, *self, fusion_count as nat);
                    }
                    fusion_count = fusion_count + 1;
                },
                None => {
                    break ;
                },
            }
        }
        proof {
            crate::graph::lemma_count_where_le_len(orig.nodes@, |on: Option<Node>| on is Some);
        }
        fusion_count
    }
}

} // verus!
