//! The ZX-graph engine.
//!
//! A [`ZXGraph`] is an arena-backed multigraph: node and edge payloads
//! live in slot tables, freed slots are recycled last-in-first-out, and
//! callers address slots through generation-checked handles. A handle is
//! valid exactly while the slot it names is occupied by the occupant it
//! was issued for; once the slot is freed the handle is dead forever,
//! even if the slot is later reused.
//!
//! Adjacency is bidirectional: the edge table records each edge's two
//! endpoints, and every occupied node carries the set of edge handles
//! incident to it. Well-formedness ([`ZXGraph::wf`]) keeps the two views
//! exactly in sync and is preserved by every public operation.

use crate::phase::normalize_phase;
use crate::phase::normal;
use crate::phase::FULL_TURN;
use vstd::prelude::*;

verus! {

/// Stable handle to a node slot: the slot index paired with the
/// generation under which the slot's current occupant was created.
#[derive(Clone, Copy, PartialEq, Eq, Structural, Debug, Hash)]
pub struct NodeIndex {
    pub slot: usize,
    pub gen: u64,
}

/// Stable handle to an edge slot: the slot index paired with the
/// generation under which the slot's current occupant was created.
#[derive(Clone, Copy, PartialEq, Eq, Structural, Debug, Hash)]
pub struct EdgeIndex {
    pub slot: usize,
    pub gen: u64,
}

/// The kind of a spider node. Only `Z` and `X` spiders take part in
/// fusion; `Decorative` nodes exist for display purposes only.
#[derive(Clone, Copy, PartialEq, Eq, Structural, Debug)]
pub enum SpiderType {
    Z,
    X,
    Decorative,
}

/// The kind of an edge. Only `Regular` edges are fusion candidates.
#[derive(Clone, Copy, PartialEq, Eq, Structural, Debug)]
pub enum EdgeType {
    Regular,
    Hadamard,
}

/// A node payload: spider kind, normalized phase (in units of
/// [`FULL_TURN`] per turn), and the set of incident edge handles.
pub struct Node {
    pub spider_type: SpiderType,
    pub phase: u64,
    pub edges: Vec<EdgeIndex>,
}

/// An edge payload: the unordered pair of endpoints and the edge kind.
#[derive(Clone, Copy, Debug)]
pub struct Edge {
    pub endpoints: (NodeIndex, NodeIndex),
    pub edge_type: EdgeType,
}

/// Why an operation was refused. Every mutator either fully applies its
/// effect or returns one of these with the graph unchanged.
#[derive(Clone, Copy, PartialEq, Eq, Structural, Debug)]
pub enum ZXError {
    /// The operation referenced a freed, stale, or out-of-range handle.
    InvalidHandle,
    /// Manual fusion was requested on spiders whose kinds do not both
    /// fall in the fusable scope with equal kind.
    KindMismatch,
    /// Manual fusion was requested with two equal node handles.
    SelfFusion,
}

/// True when `e` connects `x` and `y` (in either endpoint order; for
/// `x == y` this is a self-loop test).
pub open spec fn joins(e: Edge, x: NodeIndex, y: NodeIndex) -> bool {
    (e.endpoints.0 == x && e.endpoints.1 == y) || (e.endpoints.0 == y && e.endpoints.1 == x)
}

/// True when `n` is one of `e`'s endpoints.
pub open spec fn touches(e: Edge, n: NodeIndex) -> bool {
    e.endpoints.0 == n || e.endpoints.1 == n
}

/// The endpoint of `e` other than `n`; for a self-loop on `n`, `n`
/// itself.
pub open spec fn other_endpoint(e: Edge, n: NodeIndex) -> NodeIndex {
    if e.endpoints.0 == n {
        e.endpoints.1
    } else {
        e.endpoints.0
    }
}

/// A spider kind that the fusion rule may act on.
pub open spec fn fusable(k: SpiderType) -> bool {
    k is Z || k is X
}

/// How many elements of `s` satisfy `p`.
pub open spec fn count_where<T>(s: Seq<T>, p: spec_fn(T) -> bool) -> nat
    decreases s.len(),
{
    if s.len() == 0 {
        0nat
    } else {
        count_where(s.drop_last(), p) + (if p(s.last()) {
            1nat
        } else {
            0nat
        })
    }
}

pub(crate) proof fn lemma_count_where_le_len<T>(s: Seq<T>, p: spec_fn(T) -> bool)
    ensures
        count_where(s, p) <= s.len(),
    decreases s.len(),
{
    if s.len() > 0 {
        lemma_count_where_le_len(s.drop_last(), p);
    }
}

pub(crate) proof fn lemma_count_where_take_step<T>(s: Seq<T>, p: spec_fn(T) -> bool, i: int)
    requires
        0 <= i < s.len(),
    ensures
        count_where(s.take(i + 1), p) == count_where(s.take(i), p) + (if p(s[i]) {
            1nat
        } else {
            0nat
        }),
{
    assert(s.take(i + 1).drop_last() =~= s.take(i));
    assert(s.take(i + 1).last() == s[i]);
}

pub(crate) proof fn lemma_count_where_take_all<T>(s: Seq<T>, p: spec_fn(T) -> bool)
    ensures
        count_where(s.take(s.len() as int), p) == count_where(s, p),
{
    assert(s.take(s.len() as int) =~= s);
}

pub(crate) proof fn lemma_count_where_update<T>(s: Seq<T>, p: spec_fn(T) -> bool, i: int, v: T)
    requires
        0 <= i < s.len(),
    ensures
        count_where(s.update(i, v), p) + (if p(s[i]) {
            1nat
        } else {
            0nat
        }) == count_where(s, p) + (if p(v) {
            1nat
        } else {
            0nat
        }),
    decreases s.len(),
{
    if i == s.len() - 1 {
        assert(s.update(i, v).drop_last() =~= s.drop_last());
        assert(s.update(i, v).last() == v);
    } else {
        assert(s.update(i, v).drop_last() =~= s.drop_last().update(i, v));
        assert(s.update(i, v).last() == s.last());
        lemma_count_where_update(s.drop_last(), p, i, v);
    }
}

pub(crate) proof fn lemma_count_where_push<T>(s: Seq<T>, p: spec_fn(T) -> bool, v: T)
    ensures
        count_where(s.push(v), p) == count_where(s, p) + (if p(v) {
            1nat
        } else {
            0nat
        }),
{
    assert(s.push(v).drop_last() =~= s);
    assert(s.push(v).last() == v);
}

pub(crate) proof fn lemma_count_where_one<T>(s: Seq<T>, p: spec_fn(T) -> bool, i: int)
    requires
        0 <= i < s.len(),
        p(s[i]),
    ensures
        count_where(s, p) >= 1,
    decreases s.len(),
{
    if i == s.len() - 1 {
        assert(p(s.last()));
    } else {
        assert(s.drop_last()[i] == s[i]);
        lemma_count_where_one(s.drop_last(), p, i);
    }
}

pub(crate) proof fn lemma_count_where_two<T>(s: Seq<T>, p: spec_fn(T) -> bool, i1: int, i2: int)
    requires
        0 <= i1 < i2 < s.len(),
        p(s[i1]),
        p(s[i2]),
    ensures
        count_where(s, p) >= 2,
    decreases s.len(),
{
    if i2 == s.len() - 1 {
        assert(p(s.last()));
        assert(s.drop_last()[i1] == s[i1]);
        lemma_count_where_one(s.drop_last(), p, i1);
    } else {
        assert(s.drop_last()[i1] == s[i1]);
        assert(s.drop_last()[i2] == s[i2]);
        lemma_count_where_two(s.drop_last(), p, i1, i2);
    }
}

pub(crate) proof fn lemma_count_where_zero<T>(s: Seq<T>, p: spec_fn(T) -> bool)
    requires
        forall|i: int| 0 <= i < s.len() ==> !p(#[trigger] s[i]),
    ensures
        count_where(s, p) == 0,
    decreases s.len(),
{
    if s.len() > 0 {
        assert(forall|i: int|
            0 <= i < s.drop_last().len() ==> #[trigger] s.drop_last()[i] == s[i]);
        lemma_count_where_zero(s.drop_last(), p);
        assert(!p(s[s.len() - 1]));
    }
}

/// Whether `v` holds the handle `x`.
fn contains_handle(v: &Vec<NodeIndex>, x: NodeIndex) -> (r: bool)
    ensures
        r == v@.contains(x),
{
    let mut i: usize = 0;
    while i < v.len()
        invariant
            i <= v@.len(),
            forall|k: int| 0 <= k < i ==> v@[k] != x,
        decreases v@.len() - i,
    {
        if v[i] == x {
            return true;
        }
        i = i + 1;
    }
    false
}

/// Removes the handle `x` from `v` (which holds no duplicates), if
/// present; otherwise leaves `v` unchanged.
fn remove_handle(v: &mut Vec<NodeIndex>, x: NodeIndex)
    requires
        forall|k1: int, k2: int| 0 <= k1 < k2 < old(v)@.len() ==> old(v)@[k1] != old(v)@[k2],
    ensures
        !final(v)@.contains(x),
        forall|y: NodeIndex| y != x ==> (final(v)@.contains(y) <==> old(v)@.contains(y)),
        forall|k1: int, k2: int| 0 <= k1 < k2 < final(v)@.len() ==> final(v)@[k1] != final(v)@[k2],
        forall|k: int| 0 <= k < final(v)@.len() ==> old(v)@.contains(#[trigger] final(v)@[k]),
        old(v)@.contains(x) ==> final(v)@.len() == old(v)@.len() - 1,
        !old(v)@.contains(x) ==> *final(v) == *old(v),
{
    let n = v.len();
    let mut i: usize = 0;
    while i < n
        invariant
            i <= n,
            n == v@.len(),
            *v == *old(v),
            forall|k: int| 0 <= k < i ==> v@[k] != x,
            forall|k1: int, k2: int| 0 <= k1 < k2 < v@.len() ==> v@[k1] != v@[k2],
        decreases n - i,
    {
        if v[i] == x {
            let ghost pre = v@;
            let ghost gi = i as int;
            proof {
                assert(pre == old(v)@);
                assert(pre[gi] == x);
                assert(forall|k: int| 0 <= k < gi ==> pre[k] != x);
                assert forall|k1: int, k2: int|
                    0 <= k1 < k2 < pre.len() implies pre[k1] != pre[k2] by {
                    assert(pre[k1] == old(v)@[k1]);
                    assert(pre[k2] == old(v)@[k2]);
                }
            }
            v.remove(i);
            proof {
                let post = v@;
                let i = gi;
                assert(post =~= pre.subrange(0, i) + pre.subrange(i + 1, pre.len() as int));
                assert(forall|k: int| 0 <= k < i ==> post[k] == pre[k]);
                assert(forall|k: int| i <= k < post.len() ==> post[k] == pre[k + 1]);
                assert forall|k: int| 0 <= k < post.len() implies pre.contains(
                    #[trigger] post[k],
                ) by {
                    if k < i {
                        assert(post[k] == pre[k]);
                    } else {
                        assert(post[k] == pre[k + 1]);
                    }
                }
                assert forall|k: int| 0 <= k < post.len() implies post[k] != x by {
                    if k < i {
                        assert(post[k] == pre[k]);
                    } else {
                        assert(post[k] == pre[k + 1]);
                    }
                }
                assert(!post.contains(x));
                assert forall|y: NodeIndex| y != x && pre.contains(y) implies post.contains(
                    y,
                ) by {
                    let k = choose|k: int| 0 <= k < pre.len() && pre[k] == y;
                    if k < i {
                        assert(post[k] == y);
                    } else {
                        assert(k > i);
                        assert(post[k - 1] == y);
                    }
                }
                assert forall|k1: int, k2: int|
                    0 <= k1 < k2 < post.len() implies post[k1] != post[k2] by {
                    let m1 = if k1 < i {
                        k1
                    } else {
                        k1 + 1
                    };
                    let m2 = if k2 < i {
                        k2
                    } else {
                        k2 + 1
                    };
                    assert(post[k1] == pre[m1]);
                    assert(post[k2] == pre[m2]);
                    assert(0 <= m1 < m2 < pre.len());
                    assert(pre[m1] != pre[m2]);
                }
            }
            return ;
        }
        i = i + 1;
    }
    proof {
        assert(!v@.contains(x));
    }
}

/// Removes the edge handle `x` from `v` (which holds no duplicates),
/// if present; otherwise leaves `v` unchanged.
fn remove_edge_entry(v: &mut Vec<EdgeIndex>, x: EdgeIndex)
    requires
        forall|k1: int, k2: int| 0 <= k1 < k2 < old(v)@.len() ==> old(v)@[k1] != old(v)@[k2],
    ensures
        !final(v)@.contains(x),
        forall|y: EdgeIndex| y != x ==> (final(v)@.contains(y) <==> old(v)@.contains(y)),
        forall|k1: int, k2: int| 0 <= k1 < k2 < final(v)@.len() ==> final(v)@[k1] != final(v)@[k2],
        forall|k: int| 0 <= k < final(v)@.len() ==> old(v)@.contains(#[trigger] final(v)@[k]),
        old(v)@.contains(x) ==> final(v)@.len() == old(v)@.len() - 1,
        !old(v)@.contains(x) ==> *final(v) == *old(v),
{
    let n = v.len();
    let mut i: usize = 0;
    while i < n
        invariant
            i <= n,
            n == v@.len(),
            *v == *old(v),
            forall|k: int| 0 <= k < i ==> v@[k] != x,
            forall|k1: int, k2: int| 0 <= k1 < k2 < v@.len() ==> v@[k1] != v@[k2],
        decreases n - i,
    {
        if v[i] == x {
            let ghost pre = v@;
            let ghost gi = i as int;
            proof {
                assert(pre == old(v)@);
                assert(pre[gi] == x);
                assert(forall|k: int| 0 <= k < gi ==> pre[k] != x);
                assert forall|k1: int, k2: int|
                    0 <= k1 < k2 < pre.len() implies pre[k1] != pre[k2] by {
                    assert(pre[k1] == old(v)@[k1]);
                    assert(pre[k2] == old(v)@[k2]);
                }
            }
            v.remove(i);
            proof {
                let post = v@;
                let i = gi;
                assert(post =~= pre.subrange(0, i) + pre.subrange(i + 1, pre.len() as int));
                assert(forall|k: int| 0 <= k < i ==> post[k] == pre[k]);
                assert(forall|k: int| i <= k < post.len() ==> post[k] == pre[k + 1]);
                assert forall|k: int| 0 <= k < post.len() implies pre.contains(
                    #[trigger] post[k],
                ) by {
                    if k < i {
                        assert(post[k] == pre[k]);
                    } else {
                        assert(post[k] == pre[k + 1]);
                    }
                }
                assert forall|k: int| 0 <= k < post.len() implies post[k] != x by {
                    if k < i {
                        assert(post[k] == pre[k]);
                    } else {
                        assert(post[k] == pre[k + 1]);
                    }
                }
                assert(!post.contains(x));
                assert forall|y: EdgeIndex| y != x && pre.contains(y) implies post.contains(
                    y,
                ) by {
                    let k = choose|k: int| 0 <= k < pre.len() && pre[k] == y;
                    if k < i {
                        assert(post[k] == y);
                    } else {
                        assert(k > i);
                        assert(post[k - 1] == y);
                    }
                }
                assert forall|k1: int, k2: int|
                    0 <= k1 < k2 < post.len() implies post[k1] != post[k2] by {
                    let m1 = if k1 < i {
                        k1
                    } else {
                        k1 + 1
                    };
                    let m2 = if k2 < i {
                        k2
                    } else {
                        k2 + 1
                    };
                    assert(post[k1] == pre[m1]);
                    assert(post[k2] == pre[m2]);
                    assert(0 <= m1 < m2 < pre.len());
                    assert(pre[m1] != pre[m2]);
                }
            }
            return ;
        }
        i = i + 1;
    }
    proof {
        assert(!v@.contains(x));
    }
}

/// The whole engine: node and edge slot tables with their generation
/// counters, the free-slot stacks, and the boundary sets.
pub struct ZXGraph {
    pub(crate) nodes: Vec<Option<Node>>,
    pub(crate) node_gens: Vec<u64>,
    pub(crate) edges: Vec<Option<Edge>>,
    pub(crate) edge_gens: Vec<u64>,
    pub(crate) free_nodes: Vec<usize>,
    pub(crate) free_edges: Vec<usize>,
    pub(crate) input_nodes: Vec<NodeIndex>,
    pub(crate) output_nodes: Vec<NodeIndex>,
}

impl ZXGraph {
    /// The handle under which node slot `i`'s current occupant is (or
    /// will next be) addressed.
    pub open(crate) spec fn node_handle(self, i: int) -> NodeIndex {
        NodeIndex { slot: i as usize, gen: self.node_gens@[i] }
    }

    /// The handle under which edge slot `j`'s current occupant is (or
    /// will next be) addressed.
    pub open(crate) spec fn edge_handle(self, j: int) -> EdgeIndex {
        EdgeIndex { slot: j as usize, gen: self.edge_gens@[j] }
    }

    /// `n` is a live node handle: its slot is occupied and the
    /// generation matches.
    pub open(crate) spec fn node_ok(self, n: NodeIndex) -> bool {
        &&& n.slot < self.nodes@.len()
        &&& self.nodes@[n.slot as int] is Some
        &&& self.node_gens@[n.slot as int] == n.gen
    }

    /// `e` is a live edge handle: its slot is occupied and the
    /// generation matches.
    pub open(crate) spec fn edge_ok(self, e: EdgeIndex) -> bool {
        &&& e.slot < self.edges@.len()
        &&& self.edges@[e.slot as int] is Some
        &&& self.edge_gens@[e.slot as int] == e.gen
    }

    /// The payload in node slot `i` (meaningful only for an occupied
    /// slot).
    pub open(crate) spec fn slot_node(self, i: int) -> Node {
        self.nodes@[i]->0
    }

    /// The payload of the node addressed by `n`.
    pub open(crate) spec fn node_at(self, n: NodeIndex) -> Node
        recommends
            self.node_ok(n),
    {
        self.nodes@[n.slot as int]->0
    }

    /// The payload of the edge addressed by `e`.
    pub open(crate) spec fn edge_at(self, e: EdgeIndex) -> Edge
        recommends
            self.edge_ok(e),
    {
        self.edges@[e.slot as int]->0
    }

    /// The spider kind of the node addressed by `n`.
    pub open(crate) spec fn kind_of(self, n: NodeIndex) -> SpiderType {
        self.node_at(n).spider_type
    }

    /// The normalized phase, in units, of the node addressed by `n`.
    pub open(crate) spec fn phase_of(self, n: NodeIndex) -> u64 {
        self.node_at(n).phase
    }

    /// The incident edge handles of the node addressed by `n`.
    pub open(crate) spec fn incident(self, n: NodeIndex) -> Seq<EdgeIndex> {
        self.node_at(n).edges@
    }

    /// Size of the node slot table (occupied and free slots together).
    pub open(crate) spec fn node_slots(self) -> nat {
        self.nodes@.len()
    }

    /// Size of the edge slot table (occupied and free slots together).
    pub open(crate) spec fn edge_slots(self) -> nat {
        self.edges@.len()
    }

    /// The node free list, oldest entry first; slots are reused from
    /// the back (last freed, first reused).
    pub open(crate) spec fn free_node_list(self) -> Seq<usize> {
        self.free_nodes@
    }

    /// The edge free list, oldest entry first; slots are reused from
    /// the back (last freed, first reused).
    pub open(crate) spec fn free_edge_list(self) -> Seq<usize> {
        self.free_edges@
    }

    /// The input boundary set, in registration order.
    pub open(crate) spec fn inputs(self) -> Seq<NodeIndex> {
        self.input_nodes@
    }

    /// The output boundary set, in registration order.
    pub open(crate) spec fn outputs(self) -> Seq<NodeIndex> {
        self.output_nodes@
    }

    /// `n` is marked as a circuit input.
    pub open(crate) spec fn is_input(self, n: NodeIndex) -> bool {
        self.input_nodes@.contains(n)
    }

    /// `n` is marked as a circuit output.
    pub open(crate) spec fn is_output(self, n: NodeIndex) -> bool {
        self.output_nodes@.contains(n)
    }

    /// Number of occupied node slots.
    pub open(crate) spec fn live_nodes(self) -> nat {
        count_where(self.nodes@, |on: Option<Node>| on is Some)
    }

    /// Number of occupied edge slots.
    pub open(crate) spec fn live_edges(self) -> nat {
        count_where(self.edges@, |oe: Option<Edge>| oe is Some)
    }

    /// Number of live edges of kind `k` connecting `x` and `y` (for
    /// `x == y`: self-loops on `x`), counted off the edge table.
    pub open(crate) spec fn links(self, x: NodeIndex, y: NodeIndex, k: EdgeType) -> nat {
        count_where(
            self.edges@,
            |oe: Option<Edge>| oe is Some && joins(oe->0, x, y) && oe->0.edge_type == k,
        )
    }

    /// Edge slot `j` holds the fusion candidate test: a live `Regular`
    /// edge joining two distinct nodes of equal, fusable spider kind.
    pub open(crate) spec fn is_candidate(self, j: int) -> bool {
        &&& 0 <= j < self.edges@.len()
        &&& self.edges@[j] is Some
        &&& {
            let e = self.edges@[j]->0;
            &&& e.edge_type is Regular
            &&& e.endpoints.0 != e.endpoints.1
            &&& self.node_ok(e.endpoints.0)
            &&& self.node_ok(e.endpoints.1)
            &&& self.kind_of(e.endpoints.0) == self.kind_of(e.endpoints.1)
            &&& fusable(self.kind_of(e.endpoints.0))
        }
    }

    /// Some edge slot holds a fusion candidate.
    pub open(crate) spec fn has_candidate(self) -> bool {
        exists|j: int| self.is_candidate(j)
    }

    /// Free-list entry `k` of the node free list names an in-range,
    /// unoccupied node slot.
    pub open(crate) spec fn free_node_entry_ok(self, k: int) -> bool {
        &&& self.free_nodes@[k] < self.nodes@.len()
        &&& self.nodes@[self.free_nodes@[k] as int] is None
    }

    /// Free-list entry `k` of the edge free list names an in-range,
    /// unoccupied edge slot.
    pub open(crate) spec fn free_edge_entry_ok(self, k: int) -> bool {
        &&& self.free_edges@[k] < self.edges@.len()
        &&& self.edges@[self.free_edges@[k] as int] is None
    }

    /// If node slot `i` is occupied: its phase is normalized, and its
    /// incident list holds pairwise-distinct live edge handles, each of
    /// an edge that has this node as an endpoint.
    pub open(crate) spec fn node_slot_wf(self, i: int) -> bool {
        self.nodes@[i] is Some ==> {
            let nd = self.nodes@[i]->0;
            let h = self.node_handle(i);
            &&& nd.phase < FULL_TURN
            &&& forall|k: int|
                0 <= k < nd.edges@.len() ==> self.edge_ok(#[trigger] nd.edges@[k]) && touches(
                    self.edge_at(nd.edges@[k]),
                    h,
                )
            &&& forall|k1: int, k2: int|
                0 <= k1 < k2 < nd.edges@.len() ==> #[trigger] nd.edges@[k1] != #[trigger] nd.edges@[k2]
        }
    }

    /// If edge slot `j` is occupied: both its endpoints are live node
    /// handles, and the edge's handle is registered in the incident
    /// list of each endpoint.
    pub open(crate) spec fn edge_slot_wf(self, j: int) -> bool {
        self.edges@[j] is Some ==> {
            let e = self.edges@[j]->0;
            let h = self.edge_handle(j);
            &&& self.node_ok(e.endpoints.0)
            &&& self.node_ok(e.endpoints.1)
            &&& self.incident(e.endpoints.0).contains(h)
            &&& self.incident(e.endpoints.1).contains(h)
        }
    }

    /// `h` can never again become a live edge handle: either its slot
    /// has moved past `h`'s generation, or the slot sits unoccupied at
    /// `h`'s generation without being offered for reuse.
    pub open(crate) spec fn edge_dead_forever(self, h: EdgeIndex) -> bool {
        h.slot < self.edges@.len() && (h.gen < self.edge_gens@[h.slot as int] || (h.gen
            == self.edge_gens@[h.slot as int] && self.edges@[h.slot as int] is None
            && !self.free_edges@.contains(h.slot)))
    }

    /// The table-side part of well-formedness: generation tables match
    /// the slot tables, every occupied slot satisfies its per-slot
    /// clause, and the free lists name exactly unoccupied slots, each
    /// at most once.
    pub open(crate) spec fn core_wf(self) -> bool {
        &&& self.node_gens@.len() == self.nodes@.len()
        &&& self.edge_gens@.len() == self.edges@.len()
        &&& forall|i: int| 0 <= i < self.nodes@.len() ==> #[trigger] self.node_slot_wf(i)
        &&& forall|j: int| 0 <= j < self.edges@.len() ==> #[trigger] self.edge_slot_wf(j)
        &&& forall|k: int|
            0 <= k < self.free_nodes@.len() ==> #[trigger] self.free_node_entry_ok(k)
        &&& forall|k1: int, k2: int|
            0 <= k1 < k2 < self.free_nodes@.len() ==> self.free_nodes@[k1] != self.free_nodes@[k2]
        &&& forall|k: int|
            0 <= k < self.free_edges@.len() ==> #[trigger] self.free_edge_entry_ok(k)
        &&& forall|k1: int, k2: int|
            0 <= k1 < k2 < self.free_edges@.len() ==> self.free_edges@[k1] != self.free_edges@[k2]
    }

    /// The boundary-side part of well-formedness: both boundary sets
    /// hold pairwise-distinct live node handles.
    pub open(crate) spec fn boundary_wf(self) -> bool {
        &&& forall|k: int|
            0 <= k < self.input_nodes@.len() ==> self.node_ok(#[trigger] self.input_nodes@[k])
        &&& forall|k1: int, k2: int|
            0 <= k1 < k2 < self.input_nodes@.len() ==> self.input_nodes@[k1]
                != self.input_nodes@[k2]
        &&& forall|k: int|
            0 <= k < self.output_nodes@.len() ==> self.node_ok(#[trigger] self.output_nodes@[k])
        &&& forall|k1: int, k2: int|
            0 <= k1 < k2 < self.output_nodes@.len() ==> self.output_nodes@[k1]
                != self.output_nodes@[k2]
    }

    /// Well-formedness: the bidirectional adjacency bookkeeping, the
    /// free lists, the boundary sets, and phase normalization are all
    /// in their proper states. Established by [`ZXGraph::new`] and
    /// preserved by every public operation.
    pub open(crate) spec fn wf(self) -> bool {
        self.core_wf() && self.boundary_wf()
    }

    /// The table-side part of well-formedness does not look at the
    /// boundary sets, so it transfers to any state that agrees with a
    /// well-formed one on everything else.
    proof fn lemma_core_wf_transfer(pre: ZXGraph, post: ZXGraph)
        requires
            pre.core_wf(),
            post.nodes == pre.nodes,
            post.node_gens == pre.node_gens,
            post.edges == pre.edges,
            post.edge_gens == pre.edge_gens,
            post.free_nodes == pre.free_nodes,
            post.free_edges == pre.free_edges,
        ensures
            post.core_wf(),
            forall|n: NodeIndex| post.node_ok(n) == pre.node_ok(n),
            forall|e: EdgeIndex| post.edge_ok(e) == pre.edge_ok(e),
    {
        assert forall|i: int| 0 <= i < post.nodes@.len() implies #[trigger] post.node_slot_wf(
            i,
        ) by {
            assert(pre.node_slot_wf(i));
        }
        assert forall|j: int| 0 <= j < post.edges@.len() implies #[trigger] post.edge_slot_wf(
            j,
        ) by {
            assert(pre.edge_slot_wf(j));
        }
        assert forall|k: int| 0 <= k < post.free_nodes@.len() implies
            #[trigger] post.free_node_entry_ok(k) by {
            assert(pre.free_node_entry_ok(k));
        }
        assert forall|k: int| 0 <= k < post.free_edges@.len() implies
            #[trigger] post.free_edge_entry_ok(k) by {
            assert(pre.free_edge_entry_ok(k));
        }
    }

    /// The whole edge side of the graph (table, generations, free
    /// list) is the same in `post` as in `pre`.
    pub open(crate) spec fn edges_unchanged(pre: ZXGraph, post: ZXGraph) -> bool {
        &&& post.edges == pre.edges
        &&& post.edge_gens == pre.edge_gens
        &&& post.free_edges == pre.free_edges
    }

    /// The whole node side of the graph (table, generations, free
    /// list) is the same in `post` as in `pre`.
    pub open(crate) spec fn nodes_unchanged(pre: ZXGraph, post: ZXGraph) -> bool {
        &&& post.nodes == pre.nodes
        &&& post.node_gens == pre.node_gens
        &&& post.free_nodes == pre.free_nodes
    }

    /// Both boundary sets are the same in `post` as in `pre`.
    pub open(crate) spec fn boundary_unchanged(pre: ZXGraph, post: ZXGraph) -> bool {
        &&& post.input_nodes == pre.input_nodes
        &&& post.output_nodes == pre.output_nodes
    }

    /// Builds an empty graph: no nodes, no edges, empty boundary sets.
    pub fn new() -> (g: ZXGraph)
        ensures
            g.wf(),
            g.node_slots() == 0,
            g.edge_slots() == 0,
            g.live_nodes() == 0,
            g.live_edges() == 0,
            g.inputs().len() == 0,
            g.outputs().len() == 0,
            !g.has_candidate(),
    {
        ZXGraph {
            nodes: Vec::new(),
            node_gens: Vec::new(),
            edges: Vec::new(),
            edge_gens: Vec::new(),
            free_nodes: Vec::new(),
            free_edges: Vec::new(),
            input_nodes: Vec::new(),
            output_nodes: Vec::new(),
        }
    }

    /// Whether `n` is a live node handle.
    pub(crate) fn node_valid(&self, n: NodeIndex) -> (r: bool)
        requires
            self.node_gens@.len() == self.nodes@.len(),
        ensures
            r == self.node_ok(n),
    {
        n.slot < self.nodes.len() && self.nodes[n.slot].is_some() && self.node_gens[n.slot]
            == n.gen
    }

    /// Whether `e` is a live edge handle.
    pub(crate) fn edge_valid(&self, e: EdgeIndex) -> (r: bool)
        requires
            self.edge_gens@.len() == self.edges@.len(),
        ensures
            r == self.edge_ok(e),
    {
        e.slot < self.edges.len() && self.edges[e.slot].is_some() && self.edge_gens[e.slot]
            == e.gen
    }

    /// Appends `e` to the incident list of the (occupied) node slot
    /// `i`, leaving everything else untouched.
    fn incident_push(&mut self, i: usize, e: EdgeIndex)
        requires
            i < old(self).nodes@.len(),
            old(self).nodes@[i as int] is Some,
        ensures
            final(self).nodes@.len() == old(self).nodes@.len(),
            final(self).nodes@[i as int] is Some,
            final(self).slot_node(i as int).spider_type == old(self).slot_node(
                i as int,
            ).spider_type,
            final(self).slot_node(i as int).phase == old(self).slot_node(i as int).phase,
            final(self).slot_node(i as int).edges@ == old(self).slot_node(i as int).edges@.push(e),
            forall|m: int|
                0 <= m < old(self).nodes@.len() && m != i ==> final(self).nodes@[m] == old(self).nodes@[m],
            final(self).node_gens == old(self).node_gens,
            final(self).edges == old(self).edges,
            final(self).edge_gens == old(self).edge_gens,
            final(self).free_nodes == old(self).free_nodes,
            final(self).free_edges == old(self).free_edges,
            final(self).input_nodes == old(self).input_nodes,
            final(self).output_nodes == old(self).output_nodes,
    {
        let nd = &mut self.nodes[i];
        match nd {
            Some(node) => {
                node.edges.push(e);
            },
            None => {},
        }
    }

    /// Removes `e` from the incident list of the (occupied) node slot
    /// `i`, leaving everything else untouched.
    fn incident_remove(&mut self, i: usize, e: EdgeIndex)
        requires
            i < old(self).nodes@.len(),
            old(self).nodes@[i as int] is Some,
            forall|k1: int, k2: int|
                0 <= k1 < k2 < old(self).slot_node(i as int).edges@.len() ==> old(self).slot_node(
                    i as int,
                ).edges@[k1] != old(self).slot_node(i as int).edges@[k2],
        ensures
            final(self).nodes@.len() == old(self).nodes@.len(),
            final(self).nodes@[i as int] is Some,
            final(self).slot_node(i as int).spider_type == old(self).slot_node(
                i as int,
            ).spider_type,
            final(self).slot_node(i as int).phase == old(self).slot_node(i as int).phase,
            !final(self).slot_node(i as int).edges@.contains(e),
            forall|y: EdgeIndex|
                y != e ==> (final(self).slot_node(i as int).edges@.contains(y) <==> old(self).slot_node(i as int).edges@.contains(y)),
            forall|k1: int, k2: int|
                0 <= k1 < k2 < final(self).slot_node(i as int).edges@.len() ==> final(self).slot_node(i as int).edges@[k1] != final(self).slot_node(i as int).edges@[k2],
            forall|k: int|
                0 <= k < final(self).slot_node(i as int).edges@.len() ==> old(self).slot_node(
                    i as int,
                ).edges@.contains(#[trigger] final(self).slot_node(i as int).edges@[k]),
            old(self).slot_node(i as int).edges@.contains(e) ==> final(self).slot_node(
                i as int,
            ).edges@.len() == old(self).slot_node(i as int).edges@.len() - 1,
            !old(self).slot_node(i as int).edges@.contains(e) ==> final(self).slot_node(
                i as int,
            ).edges@ == old(self).slot_node(i as int).edges@,
            forall|m: int|
                0 <= m < old(self).nodes@.len() && m != i ==> final(self).nodes@[m] == old(self).nodes@[m],
            final(self).node_gens == old(self).node_gens,
            final(self).edges == old(self).edges,
            final(self).edge_gens == old(self).edge_gens,
            final(self).free_nodes == old(self).free_nodes,
            final(self).free_edges == old(self).free_edges,
            final(self).input_nodes == old(self).input_nodes,
            final(self).output_nodes == old(self).output_nodes,
    {
        let nd = &mut self.nodes[i];
        match nd {
            Some(node) => {
                remove_edge_entry(&mut node.edges, e);
            },
            None => {},
        }
    }


    /// Inserts a spider with the given kind and (arbitrary, unit-count)
    /// phase, normalizing the phase on insertion, and returns the fresh
    /// handle. The most recently freed slot is reused in preference to
    /// growing the table.
    pub fn add_node(&mut self, spider_type: SpiderType, phase: i64) -> (h: NodeIndex)
        requires
            old(self).wf(),
        ensures
            final(self).wf(),
            final(self).node_ok(h),
            final(self).kind_of(h) == spider_type,
            final(self).phase_of(h) == normal(phase as int),
            final(self).incident(h).len() == 0,
            forall|n: NodeIndex| old(self).node_ok(n) ==> n != h,
            forall|n: NodeIndex| n != h ==> (final(self).node_ok(n) <==> old(self).node_ok(n)),
            forall|n: NodeIndex|
                n != h && old(self).node_ok(n) ==> final(self).node_at(n) == old(self).node_at(n),
            final(self).live_nodes() == old(self).live_nodes() + 1,
            ZXGraph::edges_unchanged(*old(self), *final(self)),
            ZXGraph::boundary_unchanged(*old(self), *final(self)),
            h.slot == (if old(self).free_node_list().len() > 0 {
                old(self).free_node_list().last() as int
            } else {
                old(self).node_slots() as int
            }),
            final(self).free_node_list() == (if old(self).free_node_list().len() > 0 {
                old(self).free_node_list().drop_last()
            } else {
                old(self).free_node_list()
            }),
            final(self).node_slots() == (if old(self).free_node_list().len() > 0 {
                old(self).node_slots()
            } else {
                old(self).node_slots() + 1
            }),
    {
        let p = normalize_phase(phase);
        let node = Node { spider_type, phase: p, edges: Vec::new() };
        let idx: usize;
        match self.free_nodes.pop() {
            Some(i) => {
                proof {
                    assert(old(self).free_node_entry_ok(old(self).free_nodes@.len() - 1));
                }
                idx = i;
                self.nodes[idx] = Some(node);
                proof {
                    lemma_count_where_update(
                        old(self).nodes@,
                        |on: Option<Node>| on is Some,
                        idx as int,
                        self.nodes@[idx as int],
                    );
                }
            },
            None => {
                idx = self.nodes.len();
                self.nodes.push(Some(node));
                self.node_gens.push(0);
                proof {
                    lemma_count_where_push(
                        old(self).nodes@,
                        |on: Option<Node>| on is Some,
                        self.nodes@[idx as int],
                    );
                }
            },
        }
        let h = NodeIndex { slot: idx, gen: self.node_gens[idx] };
        proof {
            let post = *self;
            let pre = *old(self);
            assert forall|i: int| 0 <= i < post.nodes@.len() implies #[trigger] post.node_slot_wf(
                i,
            ) by {
                if i != idx {
                    assert(pre.node_slot_wf(i));
                }
            }
            assert forall|j: int| 0 <= j < post.edges@.len() implies #[trigger] post.edge_slot_wf(
                j,
            ) by {
                assert(pre.edge_slot_wf(j));
                if post.edges@[j] is Some {
                    let e = post.edges@[j]->0;
                    assert(pre.node_ok(e.endpoints.0));
                    assert(pre.node_ok(e.endpoints.1));
                }
            }
            assert forall|k: int| 0 <= k < post.free_nodes@.len() implies
                #[trigger] post.free_node_entry_ok(k) by {
                assert(pre.free_node_entry_ok(k));
                if pre.free_nodes@.len() > 0 {
                    assert(pre.free_nodes@[k] != pre.free_nodes@[pre.free_nodes@.len() - 1]);
                }
            }
            assert forall|k: int| 0 <= k < post.free_edges@.len() implies
                #[trigger] post.free_edge_entry_ok(k) by {
                assert(pre.free_edge_entry_ok(k));
            }
        }
        h
    }

    /// Inserts a spider as [`ZXGraph::add_node`] does and additionally
    /// registers the fresh handle in the input boundary set.
    pub fn add_input_node(&mut self, spider_type: SpiderType, phase: i64) -> (h: NodeIndex)
        requires
            old(self).wf(),
        ensures
            final(self).wf(),
            final(self).node_ok(h),
            final(self).kind_of(h) == spider_type,
            final(self).phase_of(h) == normal(phase as int),
            final(self).incident(h).len() == 0,
            forall|n: NodeIndex| old(self).node_ok(n) ==> n != h,
            forall|n: NodeIndex| n != h ==> (final(self).node_ok(n) <==> old(self).node_ok(n)),
            forall|n: NodeIndex|
                n != h && old(self).node_ok(n) ==> final(self).node_at(n) == old(self).node_at(n),
            final(self).live_nodes() == old(self).live_nodes() + 1,
            ZXGraph::edges_unchanged(*old(self), *final(self)),
            final(self).inputs() == old(self).inputs().push(h),
            final(self).outputs() == old(self).outputs(),
            h.slot == (if old(self).free_node_list().len() > 0 {
                old(self).free_node_list().last() as int
            } else {
                old(self).node_slots() as int
            }),
    {
        let h = self.add_node(spider_type, phase);
        let ghost mid = *self;
        self.input_nodes.push(h);
        proof {
            let post = *self;
            Self::lemma_core_wf_transfer(mid, post);
            assert forall|k: int| 0 <= k < post.input_nodes@.len() implies post.node_ok(
                #[trigger] post.input_nodes@[k],
            ) by {
                let y = post.input_nodes@[k];
                if k < post.input_nodes@.len() - 1 {
                    assert(old(self).node_ok(y));
                    assert(y != h);
                    assert(mid.node_ok(y));
                } else {
                    assert(y == h);
                    assert(mid.node_ok(h));
                }
            }
            assert forall|k1: int, k2: int|
                0 <= k1 < k2 < post.input_nodes@.len() implies post.input_nodes@[k1]
                != post.input_nodes@[k2] by {
                if k2 == post.input_nodes@.len() - 1 {
                    assert(old(self).node_ok(post.input_nodes@[k1]));
                }
            }
        }
        h
    }

    /// Inserts a spider as [`ZXGraph::add_node`] does and additionally
    /// registers the fresh handle in the output boundary set.
    pub fn add_output_node(&mut self, spider_type: SpiderType, phase: i64) -> (h: NodeIndex)
        requires
            old(self).wf(),
        ensures
            final(self).wf(),
            final(self).node_ok(h),
            final(self).kind_of(h) == spider_type,
            final(self).phase_of(h) == normal(phase as int),
            final(self).incident(h).len() == 0,
            forall|n: NodeIndex| old(self).node_ok(n) ==> n != h,
            forall|n: NodeIndex| n != h ==> (final(self).node_ok(n) <==> old(self).node_ok(n)),
            forall|n: NodeIndex|
                n != h && old(self).node_ok(n) ==> final(self).node_at(n) == old(self).node_at(n),
            final(self).live_nodes() == old(self).live_nodes() + 1,
            ZXGraph::edges_unchanged(*old(self), *final(self)),
            final(self).outputs() == old(self).outputs().push(h),
            final(self).inputs() == old(self).inputs(),
            h.slot == (if old(self).free_node_list().len() > 0 {
                old(self).free_node_list().last() as int
            } else {
                old(self).node_slots() as int
            }),
    {
        let h = self.add_node(spider_type, phase);
        let ghost mid = *self;
        self.output_nodes.push(h);
        proof {
            let post = *self;
            Self::lemma_core_wf_transfer(mid, post);
            assert forall|k: int| 0 <= k < post.output_nodes@.len() implies post.node_ok(
                #[trigger] post.output_nodes@[k],
            ) by {
                let y = post.output_nodes@[k];
                if k < post.output_nodes@.len() - 1 {
                    assert(old(self).node_ok(y));
                    assert(y != h);
                    assert(mid.node_ok(y));
                } else {
                    assert(y == h);
                    assert(mid.node_ok(h));
                }
            }
            assert forall|k1: int, k2: int|
                0 <= k1 < k2 < post.output_nodes@.len() implies post.output_nodes@[k1]
                != post.output_nodes@[k2] by {
                if k2 == post.output_nodes@.len() - 1 {
                    assert(old(self).node_ok(post.output_nodes@[k1]));
                }
            }
        }
        h
    }

    /// Marks an existing node as a circuit input. Fails with
    /// `InvalidHandle`, mutating nothing, when the handle is dead.
    pub fn set_as_input(&mut self, n: NodeIndex) -> (r: Result<(), ZXError>)
        requires
            old(self).wf(),
        ensures
            final(self).wf(),
            r is Err <==> !old(self).node_ok(n),
            r is Err ==> r == Result::<(), ZXError>::Err(ZXError::InvalidHandle) && *final(self)
                == *old(self),
            r is Ok ==> {
                &&& forall|x: NodeIndex|
                    final(self).is_input(x) <==> (old(self).is_input(x) || x == n)
                &&& final(self).outputs() == old(self).outputs()
                &&& ZXGraph::nodes_unchanged(*old(self), *final(self))
                &&& ZXGraph::edges_unchanged(*old(self), *final(self))
            },
    {
        if !self.node_valid(n) {
            return Err(ZXError::InvalidHandle);
        }
        if !contains_handle(&self.input_nodes, n) {
            let ghost mid = *self;
            self.input_nodes.push(n);
            proof {
                let post = *self;
                Self::lemma_core_wf_transfer(mid, post);
                assert forall|k1: int, k2: int|
                    0 <= k1 < k2 < post.input_nodes@.len() implies post.input_nodes@[k1]
                    != post.input_nodes@[k2] by {
                    if k2 == post.input_nodes@.len() - 1 {
                        assert(old(self).input_nodes@.contains(post.input_nodes@[k1]));
                    }
                }
                assert forall|x: NodeIndex| post.is_input(x) <==> (old(self).is_input(x) || x
                    == n) by {
                    if post.is_input(x) {
                        let k = choose|k: int|
                            0 <= k < post.input_nodes@.len() && post.input_nodes@[k] == x;
                        if k < post.input_nodes@.len() - 1 {
                            assert(old(self).input_nodes@[k] == x);
                        }
                    }
                    if old(self).is_input(x) {
                        let k = choose|k: int|
                            0 <= k < old(self).input_nodes@.len() && old(self).input_nodes@[k]
                                == x;
                        assert(post.input_nodes@[k] == x);
                    }
                    if x == n {
                        assert(post.input_nodes@[post.input_nodes@.len() - 1] == n);
                    }
                }
            }
        }
        Ok(())
    }

    /// Unmarks a node as a circuit input; a handle that is not in the
    /// input set (even a dead one) is left alone.
    pub fn unset_as_input(&mut self, n: NodeIndex)
        requires
            old(self).wf(),
        ensures
            final(self).wf(),
            !final(self).is_input(n),
            forall|x: NodeIndex| x != n ==> (final(self).is_input(x) <==> old(self).is_input(x)),
            final(self).outputs() == old(self).outputs(),
            ZXGraph::nodes_unchanged(*old(self), *final(self)),
            ZXGraph::edges_unchanged(*old(self), *final(self)),
    {
        remove_handle(&mut self.input_nodes, n);
        proof {
            let post = *self;
            Self::lemma_core_wf_transfer(*old(self), post);
            assert forall|k: int| 0 <= k < post.input_nodes@.len() implies post.node_ok(
                #[trigger] post.input_nodes@[k],
            ) by {
                assert(old(self).input_nodes@.contains(post.input_nodes@[k]));
                let m = choose|m: int|
                    0 <= m < old(self).input_nodes@.len() && old(self).input_nodes@[m]
                        == post.input_nodes@[k];
                assert(old(self).node_ok(old(self).input_nodes@[m]));
            }
        }
    }

    /// Whether `n` is marked as a circuit input.
    pub fn is_input_node(&self, n: NodeIndex) -> (r: bool)
        ensures
            r == self.is_input(n),
    {
        contains_handle(&self.input_nodes, n)
    }

    /// Marks an existing node as a circuit output. Fails with
    /// `InvalidHandle`, mutating nothing, when the handle is dead.
    pub fn set_as_output(&mut self, n: NodeIndex) -> (r: Result<(), ZXError>)
        requires
            old(self).wf(),
        ensures
            final(self).wf(),
            r is Err <==> !old(self).node_ok(n),
            r is Err ==> r == Result::<(), ZXError>::Err(ZXError::InvalidHandle) && *final(self)
                == *old(self),
            r is Ok ==> {
                &&& forall|x: NodeIndex|
                    final(self).is_output(x) <==> (old(self).is_output(x) || x == n)
                &&& final(self).inputs() == old(self).inputs()
                &&& ZXGraph::nodes_unchanged(*old(self), *final(self))
                &&& ZXGraph::edges_unchanged(*old(self), *final(self))
            },
    {
        if !self.node_valid(n) {
            return Err(ZXError::InvalidHandle);
        }
        if !contains_handle(&self.output_nodes, n) {
            let ghost mid = *self;
            self.output_nodes.push(n);
            proof {
                let post = *self;
                Self::lemma_core_wf_transfer(mid, post);
                assert forall|k1: int, k2: int|
                    0 <= k1 < k2 < post.output_nodes@.len() implies post.output_nodes@[k1]
                    != post.output_nodes@[k2] by {
                    if k2 == post.output_nodes@.len() - 1 {
                        assert(old(self).output_nodes@.contains(post.output_nodes@[k1]));
                    }
                }
                assert forall|x: NodeIndex| post.is_output(x) <==> (old(self).is_output(x) || x
                    == n) by {
                    if post.is_output(x) {
                        let k = choose|k: int|
                            0 <= k < post.output_nodes@.len() && post.output_nodes@[k] == x;
                        if k < post.output_nodes@.len() - 1 {
                            assert(old(self).output_nodes@[k] == x);
                        }
                    }
                    if old(self).is_output(x) {
                        let k = choose|k: int|
                            0 <= k < old(self).output_nodes@.len() && old(self).output_nodes@[k]
                                == x;
                        assert(post.output_nodes@[k] == x);
                    }
                    if x == n {
                        assert(post.output_nodes@[post.output_nodes@.len() - 1] == n);
                    }
                }
            }
        }
        Ok(())
    }

    /// Unmarks a node as a circuit output; a handle that is not in the
    /// output set (even a dead one) is left alone.
    pub fn unset_as_output(&mut self, n: NodeIndex)
        requires
            old(self).wf(),
        ensures
            final(self).wf(),
            !final(self).is_output(n),
            forall|x: NodeIndex| x != n ==> (final(self).is_output(x) <==> old(self).is_output(x)),
            final(self).inputs() == old(self).inputs(),
            ZXGraph::nodes_unchanged(*old(self), *final(self)),
            ZXGraph::edges_unchanged(*old(self), *final(self)),
    {
        remove_handle(&mut self.output_nodes, n);
        proof {
            let post = *self;
            Self::lemma_core_wf_transfer(*old(self), post);
            assert forall|k: int| 0 <= k < post.output_nodes@.len() implies post.node_ok(
                #[trigger] post.output_nodes@[k],
            ) by {
                assert(old(self).output_nodes@.contains(post.output_nodes@[k]));
                let m = choose|m: int|
                    0 <= m < old(self).output_nodes@.len() && old(self).output_nodes@[m]
                        == post.output_nodes@[k];
                assert(old(self).node_ok(old(self).output_nodes@[m]));
            }
        }
    }

    /// Whether `n` is marked as a circuit output.
    pub fn is_output_node(&self, n: NodeIndex) -> (r: bool)
        ensures
            r == self.is_output(n),
    {
        contains_handle(&self.output_nodes, n)
    }

    /// Inserts an edge of the given kind between two existing nodes
    /// (`a == b` makes a self-loop) and registers it in both endpoints'
    /// incident lists; the most recently freed edge slot is reused in
    /// preference to growing the table. Fails with `InvalidHandle`,
    /// mutating nothing, when either handle is dead.
    pub fn add_edge(&mut self, a: NodeIndex, b: NodeIndex, edge_type: EdgeType) -> (r: Result<
        EdgeIndex,
        ZXError,
    >)
        requires
            old(self).wf(),
        ensures
            final(self).wf(),
            r is Err <==> (!old(self).node_ok(a) || !old(self).node_ok(b)),
            r is Err ==> r == Result::<EdgeIndex, ZXError>::Err(ZXError::InvalidHandle) && *final(self) == *old(self),
            r matches Ok(e) ==> {
                &&& final(self).edge_ok(e)
                &&& final(self).edge_at(e) == (Edge { endpoints: (a, b), edge_type })
                &&& forall|e2: EdgeIndex| old(self).edge_ok(e2) ==> e2 != e
                &&& forall|e2: EdgeIndex|
                    e2 != e ==> (final(self).edge_ok(e2) <==> old(self).edge_ok(e2))
                &&& forall|e2: EdgeIndex|
                    e2 != e && old(self).edge_ok(e2) ==> final(self).edge_at(e2) == old(self).edge_at(e2)
                &&& forall|n: NodeIndex| final(self).node_ok(n) <==> old(self).node_ok(n)
                &&& forall|n: NodeIndex|
                    old(self).node_ok(n) ==> final(self).kind_of(n) == old(self).kind_of(n)
                        && final(self).phase_of(n) == old(self).phase_of(n)
                &&& final(self).incident(a) == old(self).incident(a).push(e)
                &&& (b != a ==> final(self).incident(b) == old(self).incident(b).push(e))
                &&& forall|n: NodeIndex|
                    n != a && n != b && old(self).node_ok(n) ==> final(self).node_at(n) == old(self).node_at(n)
                &&& forall|x: NodeIndex, y: NodeIndex, k: EdgeType|
                    #[trigger] final(self).links(x, y, k) == old(self).links(x, y, k) + (if (joins(
                        (Edge { endpoints: (a, b), edge_type }),
                        x,
                        y,
                    ) && k == edge_type) {
                        1nat
                    } else {
                        0nat
                    })
                &&& final(self).live_edges() == old(self).live_edges() + 1
                &&& final(self).live_nodes() == old(self).live_nodes()
                &&& final(self).node_slots() == old(self).node_slots()
                &&& final(self).edge_slots() == (if old(self).free_edge_list().len() > 0 {
                    old(self).edge_slots()
                } else {
                    old(self).edge_slots() + 1
                })
                &&& ZXGraph::boundary_unchanged(*old(self), *final(self))
                &&& forall|h: EdgeIndex|
                    old(self).edge_dead_forever(h) ==> final(self).edge_dead_forever(h) && h != e
                &&& e.slot == (if old(self).free_edge_list().len() > 0 {
                    old(self).free_edge_list().last() as int
                } else {
                    old(self).edge_slots() as int
                })
            },
    {
        if !self.node_valid(a) || !self.node_valid(b) {
            return Err(ZXError::InvalidHandle);
        }
        let edge = Edge { endpoints: (a, b), edge_type };
        let idx: usize;
        match self.free_edges.pop() {
            Some(i) => {
                proof {
                    assert(old(self).free_edge_entry_ok(old(self).free_edges@.len() - 1));
                }
                idx = i;
                self.edges[idx] = Some(edge);
                proof {
                    lemma_count_where_update(
                        old(self).edges@,
                        |oe: Option<Edge>| oe is Some,
                        idx as int,
                        Some(edge),
                    );
                }
            },
            None => {
                idx = self.edges.len();
                self.edges.push(Some(edge));
                self.edge_gens.push(0);
                proof {
                    lemma_count_where_push(
                        old(self).edges@,
                        |oe: Option<Edge>| oe is Some,
                        Some(edge),
                    );
                }
            },
        }
        let eh = EdgeIndex { slot: idx, gen: self.edge_gens[idx] };
        let ghost mid = *self;
        proof {
            assert(forall|e2: EdgeIndex| old(self).edge_ok(e2) ==> e2.slot != idx);
            assert(forall|e2: EdgeIndex| old(self).edge_ok(e2) ==> e2 != eh);
            assert(mid.edge_ok(eh));
        }
        self.incident_push(a.slot, eh);
        if b.slot != a.slot {
            self.incident_push(b.slot, eh);
        }
        proof {
            let pre = *old(self);
            let post = *self;
            assert(a.slot == b.slot ==> a == b);
            // The edge table after the insertion, seen from the final state.
            assert(post.edges == mid.edges);
            assert(post.edge_gens == mid.edge_gens);
            assert(post.edges@ =~= pre.edges@.update(idx as int, Some(edge)) || post.edges@
                =~= pre.edges@.push(Some(edge)));
            // Handle bookkeeping facts.
            assert(post.edge_ok(eh));
            assert(post.edge_at(eh) == edge);
            assert(forall|e2: EdgeIndex| e2 != eh ==> (post.edge_ok(e2) <==> pre.edge_ok(e2)));
            assert(forall|e2: EdgeIndex|
                e2 != eh && pre.edge_ok(e2) ==> post.edge_at(e2) == pre.edge_at(e2));
            assert(forall|n: NodeIndex| post.node_ok(n) <==> pre.node_ok(n));
            // Incident lists.
            assert(post.incident(a) == pre.incident(a).push(eh));
            assert(b != a ==> post.incident(b) == pre.incident(b).push(eh));
            // Links bookkeeping.
            assert forall|x: NodeIndex, y: NodeIndex, k: EdgeType|
                #[trigger] post.links(x, y, k) == pre.links(x, y, k) + (if (joins(edge, x, y) && k
                    == edge_type) {
                    1nat
                } else {
                    0nat
                }) by {
                let p = |oe: Option<Edge>| oe is Some && joins(oe->0, x, y) && oe->0.edge_type
                    == k;
                if pre.free_edge_list().len() > 0 {
                    lemma_count_where_update(pre.edges@, p, idx as int, Some(edge));
                } else {
                    lemma_count_where_push(pre.edges@, p, Some(edge));
                }
            }
            // Well-formedness.
            assert forall|i: int| 0 <= i < post.nodes@.len() implies #[trigger] post.node_slot_wf(
                i,
            ) by {
                assert(pre.node_slot_wf(i));
                if post.nodes@[i] is Some {
                    let nd = post.nodes@[i]->0;
                    let h = post.node_handle(i);
                    assert forall|k: int| 0 <= k < nd.edges@.len() implies post.edge_ok(
                        #[trigger] nd.edges@[k],
                    ) && touches(post.edge_at(nd.edges@[k]), h) by {
                        if i == a.slot || i == b.slot {
                            if k == nd.edges@.len() - 1 {
                                assert(nd.edges@[k] == eh);
                                assert(touches(edge, h));
                            } else {
                                assert(nd.edges@[k] == pre.slot_node(i).edges@[k]);
                                assert(pre.edge_ok(nd.edges@[k]));
                                assert(nd.edges@[k] != eh);
                            }
                        } else {
                            assert(nd.edges@[k] == pre.slot_node(i).edges@[k]);
                            assert(pre.edge_ok(nd.edges@[k]));
                            assert(nd.edges@[k] != eh);
                        }
                    }
                    assert forall|k1: int, k2: int|
                        0 <= k1 < k2 < nd.edges@.len() implies nd.edges@[k1] != nd.edges@[k2] by {
                        if i == a.slot || i == b.slot {
                            if k2 == nd.edges@.len() - 1 {
                                assert(pre.edge_ok(pre.slot_node(i).edges@[k1]));
                                assert(nd.edges@[k1] != eh);
                            } else {
                                assert(nd.edges@[k1] == pre.slot_node(i).edges@[k1]);
                                assert(nd.edges@[k2] == pre.slot_node(i).edges@[k2]);
                            }
                        }
                    }
                }
            }
            assert forall|j: int| 0 <= j < post.edges@.len() implies #[trigger] post.edge_slot_wf(
                j,
            ) by {
                if post.edges@[j] is Some {
                    let e = post.edges@[j]->0;
                    let h = post.edge_handle(j);
                    if j == idx {
                        assert(e == edge);
                        assert(h == eh);
                        assert(post.incident(a).last() == eh);
                        assert(post.incident(a).contains(eh));
                        if b != a {
                            assert(post.incident(b).last() == eh);
                            assert(post.incident(b).contains(eh));
                        }
                        assert(post.node_ok(a) && post.node_ok(b));
                    } else {
                        assert(pre.edge_slot_wf(j));
                        assert(pre.edges@[j] is Some);
                        assert(h == pre.edge_handle(j));
                        assert(pre.incident(e.endpoints.0).contains(h));
                        assert(pre.incident(e.endpoints.1).contains(h));
                        assert forall|n: NodeIndex| pre.node_ok(n) && pre.incident(n).contains(
                            h,
                        ) implies post.incident(n).contains(h) by {
                            let k = choose|k: int|
                                0 <= k < pre.incident(n).len() && pre.incident(n)[k] == h;
                            assert(post.incident(n)[k] == h);
                        }
                    }
                }
            }
            assert forall|k: int| 0 <= k < post.free_edges@.len() implies
                #[trigger] post.free_edge_entry_ok(k) by {
                assert(pre.free_edge_entry_ok(k));
                if pre.free_edges@.len() > 0 {
                    assert(pre.free_edges@[k] != pre.free_edges@[pre.free_edges@.len() - 1]);
                }
            }
            assert forall|k: int| 0 <= k < post.free_nodes@.len() implies
                #[trigger] post.free_node_entry_ok(k) by {
                assert(pre.free_node_entry_ok(k));
            }
            assert forall|k: int| 0 <= k < post.input_nodes@.len() implies post.node_ok(
                #[trigger] post.input_nodes@[k],
            ) by {
                assert(pre.node_ok(pre.input_nodes@[k]));
            }
            assert forall|k: int| 0 <= k < post.output_nodes@.len() implies post.node_ok(
                #[trigger] post.output_nodes@[k],
            ) by {
                assert(pre.node_ok(pre.output_nodes@[k]));
            }
            // Occupied-node count is untouched by incident-list edits.
            assert(post.live_nodes() == pre.live_nodes()) by {
                let q = |on: Option<Node>| on is Some;
                if a.slot != b.slot {
                    lemma_count_where_update(
                        pre.nodes@,
                        q,
                        a.slot as int,
                        post.nodes@[a.slot as int],
                    );
                    lemma_count_where_update(
                        pre.nodes@.update(a.slot as int, post.nodes@[a.slot as int]),
                        q,
                        b.slot as int,
                        post.nodes@[b.slot as int],
                    );
                    assert(post.nodes@ =~= pre.nodes@.update(
                        a.slot as int,
                        post.nodes@[a.slot as int],
                    ).update(b.slot as int, post.nodes@[b.slot as int]));
                } else {
                    lemma_count_where_update(
                        pre.nodes@,
                        q,
                        a.slot as int,
                        post.nodes@[a.slot as int],
                    );
                    assert(post.nodes@ =~= pre.nodes@.update(
                        a.slot as int,
                        post.nodes@[a.slot as int],
                    ));
                }
            }
        }
        Ok(eh)
    }

    /// Removes the edge addressed by `e`: unregisters it from both
    /// endpoints' incident lists and frees its slot for reuse. Fails
    /// with `InvalidHandle`, mutating nothing, when the handle is dead
    /// (so removing an edge twice fails the second time).
    pub fn remove_edge(&mut self, e: EdgeIndex) -> (r: Result<(), ZXError>)
        requires
            old(self).wf(),
        ensures
            final(self).wf(),
            r is Err <==> !old(self).edge_ok(e),
            r is Err ==> r == Result::<(), ZXError>::Err(ZXError::InvalidHandle) && *final(self)
                == *old(self),
            r is Ok ==> {
                let ge = old(self).edge_at(e);
                &&& !final(self).edge_ok(e)
                &&& forall|e2: EdgeIndex|
                    e2 != e ==> (final(self).edge_ok(e2) <==> old(self).edge_ok(e2))
                &&& forall|e2: EdgeIndex|
                    e2 != e && old(self).edge_ok(e2) ==> final(self).edge_at(e2) == old(self).edge_at(e2)
                &&& forall|n: NodeIndex| final(self).node_ok(n) <==> old(self).node_ok(n)
                &&& forall|n: NodeIndex|
                    old(self).node_ok(n) ==> final(self).kind_of(n) == old(self).kind_of(n)
                        && final(self).phase_of(n) == old(self).phase_of(n)
                &&& forall|n: NodeIndex|
                    old(self).node_ok(n) ==> !final(self).incident(n).contains(e)
                &&& forall|n: NodeIndex, y: EdgeIndex|
                    old(self).node_ok(n) && y != e ==> (#[trigger] final(self).incident(
                        n,
                    ).contains(y) <==> old(self).incident(n).contains(y))
                &&& forall|n: NodeIndex|
                    old(self).node_ok(n) && n != ge.endpoints.0 && n != ge.endpoints.1 ==> final(self).node_at(n) == old(self).node_at(n)
                &&& forall|x: NodeIndex, y: NodeIndex, k: EdgeType|
                    #[trigger] old(self).links(x, y, k) == final(self).links(x, y, k) + (if (joins(
                        ge,
                        x,
                        y,
                    ) && ge.edge_type == k) {
                        1nat
                    } else {
                        0nat
                    })
                &&& old(self).live_edges() == final(self).live_edges() + 1
                &&& final(self).live_nodes() == old(self).live_nodes()
                &&& final(self).node_slots() == old(self).node_slots()
                &&& final(self).edge_slots() == old(self).edge_slots()
                &&& final(self).edge_dead_forever(e)
                &&& forall|h: EdgeIndex|
                    old(self).edge_dead_forever(h) ==> final(self).edge_dead_forever(h)
                &&& ZXGraph::boundary_unchanged(*old(self), *final(self))
            },
    {
        if !self.edge_valid(e) {
            return Err(ZXError::InvalidHandle);
        }
        proof {
            assert(old(self).edge_slot_wf(e.slot as int));
        }
        let edge = *self.edges[e.slot].as_ref().unwrap();
        let a0 = edge.endpoints.0;
        let b0 = edge.endpoints.1;
        self.edges[e.slot] = None;
        let g = self.edge_gens[e.slot];
        if g < u64::MAX {
            self.edge_gens[e.slot] = g + 1;
            self.free_edges.push(e.slot);
        }
        proof {
            assert(old(self).node_slot_wf(a0.slot as int));
            assert(old(self).node_slot_wf(b0.slot as int));
            lemma_count_where_update(
                old(self).edges@,
                |oe: Option<Edge>| oe is Some,
                e.slot as int,
                None,
            );
        }
        self.incident_remove(a0.slot, e);
        if b0.slot != a0.slot {
            self.incident_remove(b0.slot, e);
        }
        let nlen = self.nodes.len();
        let elen = self.edges.len();
        proof {
            let pre = *old(self);
            let post = *self;
            assert(nlen == post.nodes@.len() && elen == post.edges@.len());
            assert(post.edges@ =~= pre.edges@.update(e.slot as int, None));
            assert(a0.slot == b0.slot ==> a0 == b0);
            assert(forall|e2: EdgeIndex| e2 != e ==> (post.edge_ok(e2) <==> pre.edge_ok(e2)));
            assert(forall|e2: EdgeIndex|
                e2 != e && pre.edge_ok(e2) ==> post.edge_at(e2) == pre.edge_at(e2));
            assert(forall|n: NodeIndex| post.node_ok(n) <==> pre.node_ok(n));
            // Only the two endpoints' incident lists were touched, and
            // only the entry for `e` was dropped from each.
            assert forall|n: NodeIndex|
                pre.node_ok(n) implies !post.incident(n).contains(e) by {
                if n != a0 && n != b0 {
                    assert(pre.node_slot_wf(n.slot as int));
                    if pre.incident(n).contains(e) {
                        let k = choose|k: int|
                            0 <= k < pre.incident(n).len() && pre.incident(n)[k] == e;
                        assert(touches(pre.edge_at(e), pre.node_handle(n.slot as int)));
                        assert(false);
                    }
                }
            }
            assert forall|x: NodeIndex, y: NodeIndex, k: EdgeType|
                #[trigger] pre.links(x, y, k) == post.links(x, y, k) + (if (joins(edge, x, y)
                    && edge.edge_type == k) {
                    1nat
                } else {
                    0nat
                }) by {
                let p = |oe: Option<Edge>| oe is Some && joins(oe->0, x, y) && oe->0.edge_type
                    == k;
                lemma_count_where_update(pre.edges@, p, e.slot as int, None);
            }
            // Well-formedness.
            assert forall|i: int| 0 <= i < post.nodes@.len() implies #[trigger] post.node_slot_wf(
                i,
            ) by {
                assert(pre.node_slot_wf(i));
                if post.nodes@[i] is Some {
                    let nd = post.nodes@[i]->0;
                    let h = post.node_handle(i);
                    assert forall|k: int| 0 <= k < nd.edges@.len() implies post.edge_ok(
                        #[trigger] nd.edges@[k],
                    ) && touches(post.edge_at(nd.edges@[k]), h) by {
                        let y = nd.edges@[k];
                        if i == a0.slot || i == b0.slot {
                            assert(pre.slot_node(i).edges@.contains(y));
                            let m = choose|m: int|
                                0 <= m < pre.slot_node(i).edges@.len() && pre.slot_node(
                                    i,
                                ).edges@[m] == y;
                            assert(pre.edge_ok(y));
                            assert(y != e);
                        } else {
                            assert(pre.edge_ok(y));
                            assert(touches(pre.edge_at(y), pre.node_handle(i)));
                            if y == e {
                                assert(pre.edge_at(e) == edge);
                                assert(pre.node_handle(i) == a0 || pre.node_handle(i) == b0);
                                assert(pre.node_handle(i).slot == i as usize);
                                assert(i as usize == a0.slot || i as usize == b0.slot);
                                assert(false);
                            }
                        }
                    }
                }
            }
            assert forall|j: int| 0 <= j < post.edges@.len() implies #[trigger] post.edge_slot_wf(
                j,
            ) by {
                assert(pre.edge_slot_wf(j));
                if post.edges@[j] is Some {
                    let e2 = post.edges@[j]->0;
                    let h = post.edge_handle(j);
                    assert(j != e.slot);
                    assert(h == pre.edge_handle(j));
                    assert(h.slot == j as usize);
                    assert(j as usize != e.slot);
                    assert(h != e);
                    assert(pre.node_ok(e2.endpoints.0));
                    assert(pre.node_ok(e2.endpoints.1));
                    assert(pre.incident(e2.endpoints.0).contains(h));
                    assert(pre.incident(e2.endpoints.1).contains(h));
                    assert(post.incident(e2.endpoints.0).contains(h));
                    assert(post.incident(e2.endpoints.1).contains(h));
                }
            }
            assert forall|k: int| 0 <= k < post.free_edges@.len() implies
                #[trigger] post.free_edge_entry_ok(k) by {
                if k < pre.free_edges@.len() {
                    assert(pre.free_edge_entry_ok(k));
                }
            }
            assert forall|k1: int, k2: int|
                0 <= k1 < k2 < post.free_edges@.len() implies post.free_edges@[k1]
                != post.free_edges@[k2] by {
                if k2 == post.free_edges@.len() - 1 && post.free_edges@.len() > pre.free_edges@.len() {
                    assert(pre.free_edge_entry_ok(k1));
                }
            }
            assert forall|k: int| 0 <= k < post.free_nodes@.len() implies
                #[trigger] post.free_node_entry_ok(k) by {
                assert(pre.free_node_entry_ok(k));
            }
            assert forall|k: int| 0 <= k < post.input_nodes@.len() implies post.node_ok(
                #[trigger] post.input_nodes@[k],
            ) by {
                assert(pre.node_ok(pre.input_nodes@[k]));
            }
            assert forall|k: int| 0 <= k < post.output_nodes@.len() implies post.node_ok(
                #[trigger] post.output_nodes@[k],
            ) by {
                assert(pre.node_ok(pre.output_nodes@[k]));
            }
            // The freed handle is retired for good.
            assert(post.edge_dead_forever(e)) by {
                if pre.edge_gens@[e.slot as int] == u64::MAX {
                    if pre.free_edges@.contains(e.slot) {
                        let k = choose|k: int|
                            0 <= k < pre.free_edges@.len() && pre.free_edges@[k] == e.slot;
                        assert(pre.free_edge_entry_ok(k));
                        assert(false);
                    }
                    assert(post.free_edges == pre.free_edges);
                }
            }
            assert forall|h: EdgeIndex| pre.edge_dead_forever(h) implies post.edge_dead_forever(
                h,
            ) by {
                if h.gen == pre.edge_gens@[h.slot as int] && pre.edges@[h.slot as int] is None {
                    assert(h.slot != e.slot);
                    if post.free_edges@.len() > pre.free_edges@.len() {
                        assert(post.free_edges@ == pre.free_edges@.push(e.slot));
                        if post.free_edges@.contains(h.slot) {
                            let k = choose|k: int|
                                0 <= k < post.free_edges@.len() && post.free_edges@[k] == h.slot;
                            if k < pre.free_edges@.len() {
                                assert(pre.free_edges@[k] == h.slot);
                            } else {
                                assert(post.free_edges@[k] == e.slot);
                            }
                            assert(false);
                        }
                    }
                }
            }
            // Occupied-node count is untouched by incident-list edits.
            assert(post.live_nodes() == pre.live_nodes()) by {
                let q = |on: Option<Node>| on is Some;
                if a0.slot != b0.slot {
                    lemma_count_where_update(
                        pre.nodes@,
                        q,
                        a0.slot as int,
                        post.nodes@[a0.slot as int],
                    );
                    lemma_count_where_update(
                        pre.nodes@.update(a0.slot as int, post.nodes@[a0.slot as int]),
                        q,
                        b0.slot as int,
                        post.nodes@[b0.slot as int],
                    );
                    assert(post.nodes@ =~= pre.nodes@.update(
                        a0.slot as int,
                        post.nodes@[a0.slot as int],
                    ).update(b0.slot as int, post.nodes@[b0.slot as int]));
                } else {
                    lemma_count_where_update(
                        pre.nodes@,
                        q,
                        a0.slot as int,
                        post.nodes@[a0.slot as int],
                    );
                    assert(post.nodes@ =~= pre.nodes@.update(
                        a0.slot as int,
                        post.nodes@[a0.slot as int],
                    ));
                }
            }
        }
        Ok(())
    }

    /// Removes the node addressed by `n`: removes every edge incident
    /// to it, frees its slot for reuse, and purges it from both
    /// boundary sets. Fails with `InvalidHandle`, mutating nothing,
    /// when the handle is dead (so removing a node twice fails the
    /// second time).
    pub fn remove_node(&mut self, n: NodeIndex) -> (r: Result<(), ZXError>)
        requires
            old(self).wf(),
        ensures
            final(self).wf(),
            r is Err <==> !old(self).node_ok(n),
            r is Err ==> r == Result::<(), ZXError>::Err(ZXError::InvalidHandle) && *final(self)
                == *old(self),
            r is Ok ==> {
                &&& !final(self).node_ok(n)
                &&& forall|m: NodeIndex| m != n ==> (final(self).node_ok(m) <==> old(self).node_ok(m))
                &&& forall|m: NodeIndex|
                    m != n && old(self).node_ok(m) ==> final(self).kind_of(m) == old(self).kind_of(
                        m,
                    ) && final(self).phase_of(m) == old(self).phase_of(m)
                &&& forall|e: EdgeIndex|
                    final(self).edge_ok(e) <==> (old(self).edge_ok(e) && !touches(
                        old(self).edge_at(e),
                        n,
                    ))
                &&& forall|e: EdgeIndex|
                    final(self).edge_ok(e) ==> final(self).edge_at(e) == old(self).edge_at(e)
                &&& forall|m: NodeIndex, y: EdgeIndex|
                    m != n && old(self).node_ok(m) ==> (#[trigger] final(self).incident(
                        m,
                    ).contains(y) <==> (old(self).incident(m).contains(y) && !(old(self).edge_ok(y)
                        && touches(old(self).edge_at(y), n))))
                &&& forall|x: NodeIndex, y: NodeIndex, k: EdgeType|
                    x != n && y != n ==> #[trigger] final(self).links(x, y, k) == old(self).links(
                        x,
                        y,
                        k,
                    )
                &&& forall|y: NodeIndex, k: EdgeType| #[trigger] final(self).links(n, y, k) == 0
                &&& !final(self).is_input(n)
                &&& !final(self).is_output(n)
                &&& forall|m: NodeIndex|
                    m != n ==> (final(self).is_input(m) <==> old(self).is_input(m)) && (final(self).is_output(m) <==> old(self).is_output(m))
                &&& final(self).live_nodes() + 1 == old(self).live_nodes()
                &&& final(self).node_slots() == old(self).node_slots()
                &&& final(self).edge_slots() == old(self).edge_slots()
                &&& forall|h: EdgeIndex|
                    old(self).edge_dead_forever(h) ==> final(self).edge_dead_forever(h)
            },
    {
        if !self.node_valid(n) {
            return Err(ZXError::InvalidHandle);
        }
        let ghost orig = *old(self);
        proof {
            assert forall|m: NodeIndex, y: EdgeIndex|
                m != n && orig.node_ok(m) && #[trigger] orig.incident(m).contains(y) implies
                orig.edge_ok(y) by {
                assert(orig.node_slot_wf(m.slot as int));
                let k = choose|k: int| 0 <= k < orig.incident(m).len() && orig.incident(m)[k] == y;
                assert(orig.slot_node(m.slot as int).edges@[k] == y);
            }
        }
        let elen = self.edges.len();
        let mut j: usize = 0;
        while j < elen
            invariant
                self.wf(),
                orig.wf(),
                orig.node_ok(n),
                self.node_ok(n),
                self.kind_of(n) == orig.kind_of(n),
                self.phase_of(n) == orig.phase_of(n),
                j <= elen,
                elen == self.edges@.len(),
                elen == orig.edges@.len(),
                self.nodes@.len() == orig.nodes@.len(),
                forall|jj: int|
                    0 <= jj < j ==> !(self.edges@[jj] is Some && touches(
                        #[trigger] self.edges@[jj]->0,
                        n,
                    )),
                forall|e2: EdgeIndex|
                    #[trigger] self.edge_ok(e2) ==> orig.edge_ok(e2) && self.edge_at(e2)
                        == orig.edge_at(e2),
                forall|e2: EdgeIndex|
                    orig.edge_ok(e2) && !touches(orig.edge_at(e2), n) ==> #[trigger] self.edge_ok(
                        e2,
                    ),
                forall|m: NodeIndex| #[trigger] self.node_ok(m) <==> orig.node_ok(m),
                forall|m: NodeIndex|
                    orig.node_ok(m) ==> #[trigger] self.kind_of(m) == orig.kind_of(m)
                        && self.phase_of(m) == orig.phase_of(m),
                forall|m: NodeIndex, y: EdgeIndex|
                    m != n && orig.node_ok(m) ==> (#[trigger] self.incident(m).contains(y) <==> (
                    orig.incident(m).contains(y) && self.edge_ok(y))),
                forall|x: NodeIndex, y: NodeIndex, k: EdgeType|
                    x != n && y != n ==> #[trigger] self.links(x, y, k) == orig.links(x, y, k),
                self.live_nodes() == orig.live_nodes(),
                self.input_nodes == orig.input_nodes,
                self.output_nodes == orig.output_nodes,
                forall|h: EdgeIndex|
                    orig.edge_dead_forever(h) ==> #[trigger] self.edge_dead_forever(h),
            decreases elen - j,
        {
            let touch: bool = match &self.edges[j] {
                Some(ed) => ed.endpoints.0 == n || ed.endpoints.1 == n,
                None => false,
            };
            if touch {
                let eh = EdgeIndex { slot: j, gen: self.edge_gens[j] };
                let ghost before = *self;
                proof {
                    assert(before.edge_ok(eh));
                }
                let _ = self.remove_edge(eh);
                proof {
                    let ge = Ghost(before.edge_at(eh));
                    assert(touches(ge@, n));
                    assert forall|jj: int|
                        0 <= jj < j + 1 implies !(self.edges@[jj] is Some && touches(
                        #[trigger] self.edges@[jj]->0,
                        n,
                    )) by {
                        if self.edges@[jj] is Some {
                            let h2 = self.edge_handle(jj);
                            assert(h2 != eh ==> (self.edge_ok(h2) <==> before.edge_ok(h2)));
                            assert(self.edge_ok(h2));
                            assert(before.edge_ok(h2));
                            assert(self.edge_at(h2) == before.edge_at(h2));
                            if jj < j {
                                assert(before.edges@[jj] is Some);
                                assert(!(touches(before.edges@[jj]->0, n)));
                            } else {
                                assert(h2 != eh);
                                assert(false);
                            }
                        }
                    }
                    assert forall|x: NodeIndex, y: NodeIndex, k: EdgeType|
                        x != n && y != n implies #[trigger] self.links(x, y, k) == orig.links(
                        x,
                        y,
                        k,
                    ) by {
                        assert(before.links(x, y, k) == self.links(x, y, k) + (if (joins(
                            ge@,
                            x,
                            y,
                        ) && ge@.edge_type == k) {
                            1nat
                        } else {
                            0nat
                        }));
                        assert(!joins(ge@, x, y));
                    }
                    assert forall|e2: EdgeIndex|
                        orig.edge_ok(e2) && !touches(orig.edge_at(e2), n) implies
                        #[trigger] self.edge_ok(e2) by {
                        assert(before.edge_ok(e2));
                        assert(e2 != eh);
                    }
                    assert forall|m: NodeIndex, y: EdgeIndex|
                        m != n && orig.node_ok(m) implies (#[trigger] self.incident(m).contains(y)
                        <==> (orig.incident(m).contains(y) && self.edge_ok(y))) by {
                        assert(before.node_ok(m));
                        if y == eh {
                            assert(!self.edge_ok(eh));
                            assert(!self.incident(m).contains(eh));
                        } else {
                            assert(self.incident(m).contains(y) <==> before.incident(m).contains(
                                y,
                            ));
                            assert(self.edge_ok(y) <==> before.edge_ok(y));
                        }
                    }
                }
            }
            j = j + 1;
        }
        // Every surviving edge now avoids `n`; free its slot and purge
        // it from the boundary sets.
        let ghost after_loop = *self;
        self.nodes[n.slot] = None;
        let g = self.node_gens[n.slot];
        if g < u64::MAX {
            self.node_gens[n.slot] = g + 1;
            self.free_nodes.push(n.slot);
        }
        proof {
            lemma_count_where_update(
                after_loop.nodes@,
                |on: Option<Node>| on is Some,
                n.slot as int,
                None,
            );
            assert(after_loop.node_slot_wf(n.slot as int));
        }
        remove_handle(&mut self.input_nodes, n);
        remove_handle(&mut self.output_nodes, n);
        proof {
            let post = *self;
            assert(post.nodes@ =~= after_loop.nodes@.update(n.slot as int, None));
            // Handle-level facts.
            assert(!post.node_ok(n));
            assert forall|m: NodeIndex| m != n implies (post.node_ok(m) <==> orig.node_ok(m)) by {
                if m.slot != n.slot {
                    assert(post.node_ok(m) <==> after_loop.node_ok(m));
                } else {
                    assert(!post.node_ok(m));
                    if orig.node_ok(m) {
                        assert(m == n);
                    }
                }
            }
            assert forall|m: NodeIndex| m != n && orig.node_ok(m) implies post.kind_of(m)
                == orig.kind_of(m) && post.phase_of(m) == orig.phase_of(m) by {
                if m.slot == n.slot {
                    assert(m == n);
                } else {
                    assert(post.nodes@[m.slot as int] == after_loop.nodes@[m.slot as int]);
                    assert(after_loop.kind_of(m) == orig.kind_of(m));
                    assert(after_loop.phase_of(m) == orig.phase_of(m));
                }
            }
            assert forall|e2: EdgeIndex|
                post.edge_ok(e2) <==> (orig.edge_ok(e2) && !touches(orig.edge_at(e2), n)) by {
                assert(post.edge_ok(e2) <==> after_loop.edge_ok(e2));
                if after_loop.edge_ok(e2) {
                    assert(after_loop.edges@[e2.slot as int] is Some);
                    assert(!touches(after_loop.edges@[e2.slot as int]->0, n));
                    assert(after_loop.edge_at(e2) == orig.edge_at(e2));
                }
            }
            assert forall|e2: EdgeIndex| post.edge_ok(e2) implies post.edge_at(e2) == orig.edge_at(
                e2,
            ) by {
                assert(after_loop.edge_ok(e2));
                assert(post.edge_at(e2) == after_loop.edge_at(e2));
                assert(after_loop.edge_at(e2) == orig.edge_at(e2));
            }
            assert forall|m: NodeIndex, y: EdgeIndex| m != n && orig.node_ok(m) implies (
            #[trigger] post.incident(m).contains(y) <==> (orig.incident(m).contains(y) && !(
            orig.edge_ok(y) && touches(orig.edge_at(y), n)))) by {
                assert(m.slot != n.slot) by {
                    if m.slot == n.slot {
                        assert(m == n);
                    }
                }
                assert(post.incident(m) == after_loop.incident(m));
                assert(after_loop.incident(m).contains(y) <==> (orig.incident(m).contains(y)
                    && after_loop.edge_ok(y)));
                if orig.incident(m).contains(y) {
                    assert(orig.node_slot_wf(m.slot as int));
                    let k = choose|k: int|
                        0 <= k < orig.incident(m).len() && orig.incident(m)[k] == y;
                    assert(orig.slot_node(m.slot as int).edges@[k] == y);
                    assert(orig.edge_ok(y));
                    if touches(orig.edge_at(y), n) {
                        if after_loop.edge_ok(y) {
                            assert(after_loop.edge_at(y) == orig.edge_at(y));
                            assert(after_loop.edges@[y.slot as int] is Some);
                            assert(!touches(after_loop.edges@[y.slot as int]->0, n));
                            assert(false);
                        }
                    } else {
                        assert(after_loop.edge_ok(y));
                    }
                }
            }
            // Links involving `n` are all gone.
            assert forall|y: NodeIndex, k: EdgeType| #[trigger] post.links(n, y, k) == 0 by {
                let p = |oe: Option<Edge>| oe is Some && joins(oe->0, n, y) && oe->0.edge_type
                    == k;
                assert forall|jj: int| 0 <= jj < post.edges@.len() implies !p(
                    #[trigger] post.edges@[jj],
                ) by {
                    if post.edges@[jj] is Some {
                        assert(post.edges@[jj] == after_loop.edges@[jj]);
                        assert(!touches(after_loop.edges@[jj]->0, n));
                    }
                }
                lemma_count_where_zero(post.edges@, p);
            }
            assert forall|x: NodeIndex, y: NodeIndex, k: EdgeType| x != n && y != n implies
                #[trigger] post.links(x, y, k) == orig.links(x, y, k) by {
                assert(post.links(x, y, k) == after_loop.links(x, y, k));
            }
            // Well-formedness of the final state.
            assert forall|i: int| 0 <= i < post.nodes@.len() implies #[trigger] post.node_slot_wf(
                i,
            ) by {
                assert(after_loop.node_slot_wf(i));
                if post.nodes@[i] is Some {
                    let nd = post.nodes@[i]->0;
                    let h = post.node_handle(i);
                    assert(i != n.slot);
                    assert(post.nodes@[i] == after_loop.nodes@[i]);
                    assert(h == after_loop.node_handle(i));
                    assert forall|k: int| 0 <= k < nd.edges@.len() implies post.edge_ok(
                        #[trigger] nd.edges@[k],
                    ) && touches(post.edge_at(nd.edges@[k]), h) by {
                        assert(after_loop.edge_ok(nd.edges@[k]));
                        assert(touches(after_loop.edge_at(nd.edges@[k]), h));
                        let y = nd.edges@[k];
                        assert(after_loop.edges@[y.slot as int] is Some);
                        assert(!touches(after_loop.edges@[y.slot as int]->0, n));
                        assert(y.slot != n.slot || after_loop.edges@[y.slot as int] is Some);
                        assert(post.edges@ == after_loop.edges@);
                        assert(post.edge_gens@ == after_loop.edge_gens@);
                        assert(post.edge_ok(y));
                    }
                }
            }
            assert forall|j2: int| 0 <= j2 < post.edges@.len() implies #[trigger] post.edge_slot_wf(
                j2,
            ) by {
                assert(after_loop.edge_slot_wf(j2));
                if post.edges@[j2] is Some {
                    let e2 = post.edges@[j2]->0;
                    let h = post.edge_handle(j2);
                    assert(!touches(e2, n));
                    assert(h == after_loop.edge_handle(j2));
                    assert(after_loop.node_ok(e2.endpoints.0));
                    assert(after_loop.node_ok(e2.endpoints.1));
                    assert(e2.endpoints.0 != n && e2.endpoints.1 != n);
                    assert(e2.endpoints.0.slot != n.slot) by {
                        if e2.endpoints.0.slot == n.slot {
                            assert(after_loop.node_ok(n));
                            assert(e2.endpoints.0 == n);
                        }
                    }
                    assert(e2.endpoints.1.slot != n.slot) by {
                        if e2.endpoints.1.slot == n.slot {
                            assert(after_loop.node_ok(n));
                            assert(e2.endpoints.1 == n);
                        }
                    }
                    assert(post.node_ok(e2.endpoints.0));
                    assert(post.node_ok(e2.endpoints.1));
                    assert(post.incident(e2.endpoints.0) == after_loop.incident(e2.endpoints.0));
                    assert(post.incident(e2.endpoints.1) == after_loop.incident(e2.endpoints.1));
                    assert(after_loop.incident(e2.endpoints.0).contains(h));
                    assert(after_loop.incident(e2.endpoints.1).contains(h));
                }
            }
            assert forall|k: int| 0 <= k < post.free_nodes@.len() implies
                #[trigger] post.free_node_entry_ok(k) by {
                if k < after_loop.free_nodes@.len() {
                    assert(after_loop.free_node_entry_ok(k));
                    assert(after_loop.free_nodes@[k] != n.slot);
                }
            }
            assert forall|k1: int, k2: int|
                0 <= k1 < k2 < post.free_nodes@.len() implies post.free_nodes@[k1]
                != post.free_nodes@[k2] by {
                if k2 == post.free_nodes@.len() - 1 && post.free_nodes@.len()
                    > after_loop.free_nodes@.len() {
                    assert(after_loop.free_node_entry_ok(k1));
                }
            }
            assert forall|k: int| 0 <= k < post.free_edges@.len() implies
                #[trigger] post.free_edge_entry_ok(k) by {
                assert(after_loop.free_edge_entry_ok(k));
            }
            assert forall|h: EdgeIndex| orig.edge_dead_forever(h) implies post.edge_dead_forever(
                h,
            ) by {
                assert(after_loop.edge_dead_forever(h));
                assert(post.edges == after_loop.edges);
                assert(post.edge_gens == after_loop.edge_gens);
                assert(post.free_edges == after_loop.free_edges);
            }
            // Boundary sets: `n` was purged, everything else kept.
            assert forall|k: int| 0 <= k < post.input_nodes@.len() implies post.node_ok(
                #[trigger] post.input_nodes@[k],
            ) by {
                let y = post.input_nodes@[k];
                assert(orig.input_nodes@.contains(y));
                let m = choose|m: int|
                    0 <= m < orig.input_nodes@.len() && orig.input_nodes@[m] == y;
                assert(orig.node_ok(y));
                assert(y != n);
            }
            assert forall|k: int| 0 <= k < post.output_nodes@.len() implies post.node_ok(
                #[trigger] post.output_nodes@[k],
            ) by {
                let y = post.output_nodes@[k];
                assert(orig.output_nodes@.contains(y));
                let m = choose|m: int|
                    0 <= m < orig.output_nodes@.len() && orig.output_nodes@[m] == y;
                assert(orig.node_ok(y));
                assert(y != n);
            }
        }
        Ok(())
    }

    /// The spider kind and normalized phase of the node addressed by
    /// `n`, or `None` when the handle is dead.
    pub fn node_data(&self, n: NodeIndex) -> (r: Option<(SpiderType, u64)>)
        requires
            self.wf(),
        ensures
            r is None <==> !self.node_ok(n),
            r matches Some(d) ==> d.0 == self.kind_of(n) && d.1 == self.phase_of(n),
    {
        if !self.node_valid(n) {
            return None;
        }
        let node = self.nodes[n.slot].as_ref().unwrap();
        Some((node.spider_type, node.phase))
    }

    /// The kind of the edge addressed by `e`, or `None` when the
    /// handle is dead.
    pub fn edge_data(&self, e: EdgeIndex) -> (r: Option<EdgeType>)
        requires
            self.wf(),
        ensures
            r is None <==> !self.edge_ok(e),
            r matches Some(k) ==> k == self.edge_at(e).edge_type,
    {
        if !self.edge_valid(e) {
            return None;
        }
        let edge = self.edges[e.slot].as_ref().unwrap();
        Some(edge.edge_type)
    }

    /// The endpoint pair of the edge addressed by `e`, or `None` when
    /// the handle is dead.
    pub fn edge_endpoints(&self, e: EdgeIndex) -> (r: Option<(NodeIndex, NodeIndex)>)
        requires
            self.wf(),
        ensures
            r is None <==> !self.edge_ok(e),
            r matches Some(p) ==> p == self.edge_at(e).endpoints,
    {
        if !self.edge_valid(e) {
            return None;
        }
        let edge = self.edges[e.slot].as_ref().unwrap();
        Some(edge.endpoints)
    }

    /// For each edge incident to `n`, in incident-list order, the other
    /// endpoint (for a self-loop, `n` itself). The order is a pure
    /// function of the current graph state. Fails with `InvalidHandle`
    /// when the handle is dead.
    pub fn neighbors(&self, n: NodeIndex) -> (r: Result<Vec<NodeIndex>, ZXError>)
        requires
            self.wf(),
        ensures
            r is Err <==> !self.node_ok(n),
            r is Err ==> r == Result::<Vec<NodeIndex>, ZXError>::Err(ZXError::InvalidHandle),
            r matches Ok(v) ==> {
                &&& v@.len() == self.incident(n).len()
                &&& forall|k: int|
                    0 <= k < v@.len() ==> v@[k] == other_endpoint(
                        self.edge_at(self.incident(n)[k]),
                        n,
                    )
            },
    {
        if !self.node_valid(n) {
            return Err(ZXError::InvalidHandle);
        }
        let mut result: Vec<NodeIndex> = Vec::new();
        let node = self.nodes[n.slot].as_ref().unwrap();
        let mut k: usize = 0;
        while k < node.edges.len()
            invariant
                self.wf(),
                self.node_ok(n),
                *node == self.node_at(n),
                k <= node.edges@.len(),
                result@.len() == k,
                forall|kk: int|
                    0 <= kk < k ==> result@[kk] == other_endpoint(
                        self.edge_at(#[trigger] node.edges@[kk]),
                        n,
                    ),
            decreases node.edges@.len() - k,
        {
            proof {
                assert(self.node_slot_wf(n.slot as int));
                assert(self.edge_ok(node.edges@[k as int]));
            }
            let e = node.edges[k];
            let ed = self.edges[e.slot].as_ref().unwrap();
            let other = if ed.endpoints.0 == n {
                ed.endpoints.1
            } else {
                ed.endpoints.0
            };
            result.push(other);
            k = k + 1;
        }
        Ok(result)
    }

    /// The handles of all occupied node slots, in ascending slot
    /// order.
    pub fn node_handles(&self) -> (r: Vec<NodeIndex>)
        requires
            self.wf(),
        ensures
            r@.len() == self.live_nodes(),
            forall|k: int| 0 <= k < r@.len() ==> self.node_ok(#[trigger] r@[k]),
            forall|m: NodeIndex| self.node_ok(m) ==> r@.contains(m),
            forall|k1: int, k2: int| 0 <= k1 < k2 < r@.len() ==> r@[k1].slot < r@[k2].slot,
    {
        let mut result: Vec<NodeIndex> = Vec::new();
        let mut i: usize = 0;
        let nlen = self.nodes.len();
        proof {
            assert(count_where(self.nodes@.take(0), |on: Option<Node>| on is Some) == 0);
        }
        while i < nlen
            invariant
                self.wf(),
                i <= nlen,
                nlen == self.nodes@.len(),
                result@.len() == count_where(
                    self.nodes@.take(i as int),
                    |on: Option<Node>| on is Some,
                ),
                forall|k: int|
                    0 <= k < result@.len() ==> self.node_ok(#[trigger] result@[k])
                        && result@[k].slot < i,
                forall|m: NodeIndex| self.node_ok(m) && m.slot < i ==> result@.contains(m),
                forall|k1: int, k2: int|
                    0 <= k1 < k2 < result@.len() ==> result@[k1].slot < result@[k2].slot,
            decreases nlen - i,
        {
            let ghost prev = result@;
            proof {
                lemma_count_where_take_step(self.nodes@, |on: Option<Node>| on is Some, i as int);
            }
            if self.nodes[i].is_some() {
                let h = NodeIndex { slot: i, gen: self.node_gens[i] };
                result.push(h);
                proof {
                    assert forall|m: NodeIndex| self.node_ok(m) && m.slot < i + 1 implies
                        result@.contains(m) by {
                        if m.slot < i {
                            let kk = choose|kk: int| 0 <= kk < prev.len() && prev[kk] == m;
                            assert(result@[kk] == m);
                        } else {
                            assert(m == h);
                            assert(result@[result@.len() - 1] == m);
                        }
                    }
                }
            }
            i = i + 1;
        }
        proof {
            lemma_count_where_take_all(self.nodes@, |on: Option<Node>| on is Some);
        }
        result
    }

    /// The handles of all occupied edge slots, in ascending slot
    /// order.
    pub fn edge_handles(&self) -> (r: Vec<EdgeIndex>)
        requires
            self.wf(),
        ensures
            r@.len() == self.live_edges(),
            forall|k: int| 0 <= k < r@.len() ==> self.edge_ok(#[trigger] r@[k]),
            forall|e: EdgeIndex| self.edge_ok(e) ==> r@.contains(e),
            forall|k1: int, k2: int| 0 <= k1 < k2 < r@.len() ==> r@[k1].slot < r@[k2].slot,
    {
        let mut result: Vec<EdgeIndex> = Vec::new();
        let mut i: usize = 0;
        let elen = self.edges.len();
        proof {
            assert(count_where(self.edges@.take(0), |oe: Option<Edge>| oe is Some) == 0);
        }
        while i < elen
            invariant
                self.wf(),
                i <= elen,
                elen == self.edges@.len(),
                result@.len() == count_where(
                    self.edges@.take(i as int),
                    |oe: Option<Edge>| oe is Some,
                ),
                forall|k: int|
                    0 <= k < result@.len() ==> self.edge_ok(#[trigger] result@[k])
                        && result@[k].slot < i,
                forall|e: EdgeIndex| self.edge_ok(e) && e.slot < i ==> result@.contains(e),
                forall|k1: int, k2: int|
                    0 <= k1 < k2 < result@.len() ==> result@[k1].slot < result@[k2].slot,
            decreases elen - i,
        {
            let ghost prev = result@;
            proof {
                lemma_count_where_take_step(self.edges@, |oe: Option<Edge>| oe is Some, i as int);
            }
            if self.edges[i].is_some() {
                let h = EdgeIndex { slot: i, gen: self.edge_gens[i] };
                result.push(h);
                proof {
                    assert forall|e: EdgeIndex| self.edge_ok(e) && e.slot < i + 1 implies
                        result@.contains(e) by {
                        if e.slot < i {
                            let kk = choose|kk: int| 0 <= kk < prev.len() && prev[kk] == e;
                            assert(result@[kk] == e);
                        } else {
                            assert(e == h);
                            assert(result@[result@.len() - 1] == e);
                        }
                    }
                }
            }
            i = i + 1;
        }
        proof {
            lemma_count_where_take_all(self.edges@, |oe: Option<Edge>| oe is Some);
        }
        result
    }

    /// Overwrites the phase of the node addressed by `n` with an
    /// already-normalized value, leaving everything else untouched.
    pub(crate) fn set_phase(&mut self, n: NodeIndex, p: u64)
        requires
            old(self).wf(),
            old(self).node_ok(n),
            p < FULL_TURN,
        ensures
            final(self).wf(),
            forall|m: NodeIndex| final(self).node_ok(m) <==> old(self).node_ok(m),
            final(self).phase_of(n) == p,
            final(self).kind_of(n) == old(self).kind_of(n),
            final(self).incident(n) == old(self).incident(n),
            forall|m: NodeIndex|
                m != n && old(self).node_ok(m) ==> final(self).node_at(m) == old(self).node_at(m),
            ZXGraph::edges_unchanged(*old(self), *final(self)),
            ZXGraph::boundary_unchanged(*old(self), *final(self)),
            final(self).node_gens == old(self).node_gens,
            final(self).free_nodes == old(self).free_nodes,
            final(self).live_nodes() == old(self).live_nodes(),
            final(self).node_slots() == old(self).node_slots(),
    {
        let nd = &mut self.nodes[n.slot];
        match nd {
            Some(node) => {
                node.phase = p;
            },
            None => {},
        }
        proof {
            let pre = *old(self);
            let post = *self;
            assert(post.nodes@ =~= pre.nodes@.update(n.slot as int, post.nodes@[n.slot as int]));
            assert forall|i: int| 0 <= i < post.nodes@.len() implies #[trigger] post.node_slot_wf(
                i,
            ) by {
                assert(pre.node_slot_wf(i));
                if i == n.slot && post.nodes@[i] is Some {
                    assert(post.slot_node(i).edges@ == pre.slot_node(i).edges@);
                }
            }
            assert forall|j: int| 0 <= j < post.edges@.len() implies #[trigger] post.edge_slot_wf(
                j,
            ) by {
                assert(pre.edge_slot_wf(j));
                if post.edges@[j] is Some {
                    let e2 = post.edges@[j]->0;
                    assert(post.incident(e2.endpoints.0) == pre.incident(e2.endpoints.0));
                    assert(post.incident(e2.endpoints.1) == pre.incident(e2.endpoints.1));
                }
            }
            assert forall|k: int| 0 <= k < post.free_nodes@.len() implies
                #[trigger] post.free_node_entry_ok(k) by {
                assert(pre.free_node_entry_ok(k));
            }
            assert forall|k: int| 0 <= k < post.free_edges@.len() implies
                #[trigger] post.free_edge_entry_ok(k) by {
                assert(pre.free_edge_entry_ok(k));
            }
            assert(post.live_nodes() == pre.live_nodes()) by {
                lemma_count_where_update(
                    pre.nodes@,
                    |on: Option<Node>| on is Some,
                    n.slot as int,
                    post.nodes@[n.slot as int],
                );
            }
        }
    }

    /// A copy of the input boundary set, in registration order.
    pub fn input_set(&self) -> (r: Vec<NodeIndex>)
        ensures
            r@ == self.inputs(),
    {
        let mut result: Vec<NodeIndex> = Vec::new();
        let mut i: usize = 0;
        while i < self.input_nodes.len()
            invariant
                i <= self.input_nodes@.len(),
                result@ == self.input_nodes@.take(i as int),
            decreases self.input_nodes@.len() - i,
        {
            result.push(self.input_nodes[i]);
            i = i + 1;
        }
        proof {
            assert(self.input_nodes@.take(self.input_nodes@.len() as int) == self.input_nodes@);
        }
        result
    }

    /// A copy of the output boundary set, in registration order.
    pub fn output_set(&self) -> (r: Vec<NodeIndex>)
        ensures
            r@ == self.outputs(),
    {
        let mut result: Vec<NodeIndex> = Vec::new();
        let mut i: usize = 0;
        while i < self.output_nodes.len()
            invariant
                i <= self.output_nodes@.len(),
                result@ == self.output_nodes@.take(i as int),
            decreases self.output_nodes@.len() - i,
        {
            result.push(self.output_nodes[i]);
            i = i + 1;
        }
        proof {
            assert(self.output_nodes@.take(self.output_nodes@.len() as int) == self.output_nodes@);
        }
        result
    }
}

/// An edge handle stands in a node's incident list exactly when it is
/// a live edge with that node among its endpoints: the two directions
/// of the adjacency bookkeeping never desynchronize.
pub proof fn lemma_incident_iff_endpoint(g: ZXGraph, n: NodeIndex, e: EdgeIndex)
    requires
        g.wf(),
        g.node_ok(n),
    ensures
        g.incident(n).contains(e) <==> (g.edge_ok(e) && touches(g.edge_at(e), n)),
{
    if g.incident(n).contains(e) {
        assert(g.node_slot_wf(n.slot as int));
        let k = choose|k: int| 0 <= k < g.incident(n).len() && g.incident(n)[k] == e;
        assert(g.slot_node(n.slot as int).edges@[k] == e);
        assert(g.edge_ok(e) && touches(g.edge_at(e), g.node_handle(n.slot as int)));
    }
    if g.edge_ok(e) && touches(g.edge_at(e), n) {
        assert(g.edge_slot_wf(e.slot as int));
        assert(g.edge_handle(e.slot as int) == e);
    }
}

/// Both endpoints of every live edge are live nodes.
pub proof fn lemma_edge_endpoints_live(g: ZXGraph, e: EdgeIndex)
    requires
        g.wf(),
        g.edge_ok(e),
    ensures
        g.node_ok(g.edge_at(e).endpoints.0),
        g.node_ok(g.edge_at(e).endpoints.1),
{
    assert(g.edge_slot_wf(e.slot as int));
}

/// A dead node handle is referenced nowhere: no live edge has it as an
/// endpoint, and it stands in neither boundary set.
pub proof fn lemma_dead_node_unreferenced(g: ZXGraph, n: NodeIndex)
    requires
        g.wf(),
        !g.node_ok(n),
    ensures
        forall|e: EdgeIndex| g.edge_ok(e) ==> !touches(#[trigger] g.edge_at(e), n),
        !g.is_input(n),
        !g.is_output(n),
{
    assert forall|e: EdgeIndex| g.edge_ok(e) implies !touches(#[trigger] g.edge_at(e), n) by {
        assert(g.edge_slot_wf(e.slot as int));
    }
    if g.is_input(n) {
        let k = choose|k: int| 0 <= k < g.input_nodes@.len() && g.input_nodes@[k] == n;
        assert(g.node_ok(g.input_nodes@[k]));
    }
    if g.is_output(n) {
        let k = choose|k: int| 0 <= k < g.output_nodes@.len() && g.output_nodes@[k] == n;
        assert(g.node_ok(g.output_nodes@[k]));
    }
}

/// Every live node's stored phase is normalized.
pub proof fn lemma_phase_normalized(g: ZXGraph, n: NodeIndex)
    requires
        g.wf(),
        g.node_ok(n),
    ensures
        g.phase_of(n) < FULL_TURN,
{
    assert(g.node_slot_wf(n.slot as int));
}

/// How many edges of kind `k` join `x` and `y` does not depend on the
/// order in which the two endpoints are named.
pub proof fn lemma_links_symmetric(g: ZXGraph, x: NodeIndex, y: NodeIndex, k: EdgeType)
    ensures
        g.links(x, y, k) == g.links(y, x, k),
{
    let p1 = |oe: Option<Edge>| oe is Some && joins(oe->0, x, y) && oe->0.edge_type == k;
    let p2 = |oe: Option<Edge>| oe is Some && joins(oe->0, y, x) && oe->0.edge_type == k;
    assert forall|oe: Option<Edge>| #[trigger] p1(oe) == p2(oe) by {}
    assert(p1 =~= p2);
}

/// Handles never alias while live: two live node handles that name the
/// same slot are one and the same handle, so at any moment each
/// occupied slot has exactly one live handle referring to it.
pub proof fn lemma_node_handle_unique(g: ZXGraph, h1: NodeIndex, h2: NodeIndex)
    requires
        g.wf(),
        g.node_ok(h1),
        g.node_ok(h2),
        h1.slot == h2.slot,
    ensures
        h1 == h2,
{
}

/// Handles never alias while live: two live edge handles that name the
/// same slot are one and the same handle, so at any moment each
/// occupied slot has exactly one live handle referring to it.
pub proof fn lemma_edge_handle_unique(g: ZXGraph, h1: EdgeIndex, h2: EdgeIndex)
    requires
        g.wf(),
        g.edge_ok(h1),
        g.edge_ok(h2),
        h1.slot == h2.slot,
    ensures
        h1 == h2,
{
}

} // verus!
