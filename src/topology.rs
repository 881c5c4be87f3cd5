use vstd::prelude::*;

use crate::network::{NodeId, NodeType, SourceRoutingHeader};

verus! {

/// Number of distinct node ids.
pub const N_NODES: usize = 256;

/// Number of cells of the weight matrix.
pub const N_CELLS: usize = 65536;

/// Lowest weight an edge can have.
pub const WEIGHT_MIN: u32 = 1;

/// Weight of an edge when it is first seen.
pub const WEIGHT_INIT: u32 = 10;

/// Highest weight an edge can have.
pub const WEIGHT_MAX: u32 = 1000;

/// Added to every edge a delivered packet went through.
pub const CONGESTION_PENALTY: u32 = 1;

/// Taken from every edge on the path of an acknowledged packet.
pub const ACK_REWARD: u32 = 1;

/// Added to every edge at a node that dropped a fragment.
pub const NACK_PENALTY: u32 = 10;

/// Position of edge `a -> b` in the weight matrix.
pub open spec fn cell(a: NodeId, b: NodeId) -> int {
    a as int * 256 + b as int
}

pub proof fn lemma_cell(a: NodeId, b: NodeId)
    ensures
        0 <= cell(a, b) < N_CELLS,
        forall|c: NodeId, d: NodeId| #[trigger] cell(c, d) == cell(a, b) ==> c == a && d == b,
{
    assert forall|c: NodeId, d: NodeId| #[trigger] cell(c, d) == cell(a, b) implies c == a && d == b by {
        assert(c as int * 256 + d as int == a as int * 256 + b as int);
        assert(c == a && d == b) by (nonlinear_arith)
            requires
                c as int * 256 + d as int == a as int * 256 + b as int,
                0 <= b < 256,
                0 <= d < 256,
        ;
    }
    assert(0 <= cell(a, b) < N_CELLS) by (nonlinear_arith)
        requires
            0 <= a < 256,
            0 <= b < 256,
    ;
}

fn cell_of(a: NodeId, b: NodeId) -> (r: usize)
    ensures
        r == cell(a, b),
        r < N_CELLS,
{
    proof {
        lemma_cell(a, b);
    }
    a as usize * 256 + b as usize
}

pub open spec fn weight_ok(w: u32) -> bool {
    w == 0 || WEIGHT_MIN <= w <= WEIGHT_MAX
}

/// Number of times `a -> b` is a step of `hops`.
pub open spec fn step_count(hops: Seq<NodeId>, a: NodeId, b: NodeId) -> nat
    decreases hops.len(),
{
    if hops.len() < 2 {
        0
    } else {
        step_count(hops.drop_last(), a, b) + if hops[hops.len() - 2] == a && hops.last() == b {
            1nat
        } else {
            0nat
        }
    }
}

pub open spec fn sat_add(w: u32, k: int) -> u32 {
    if w as int + k >= WEIGHT_MAX {
        WEIGHT_MAX
    } else {
        (w as int + k) as u32
    }
}

pub open spec fn sat_sub(w: u32, k: int) -> u32 {
    if w as int - k <= WEIGHT_MIN {
        WEIGHT_MIN
    } else {
        (w as int - k) as u32
    }
}

/// Weight `w` of edge `a -> b` once a packet went through `hops`.
pub open spec fn congested_weight(w: u32, hops: Seq<NodeId>, a: NodeId, b: NodeId) -> u32 {
    if w == 0 {
        0
    } else {
        sat_add(w, CONGESTION_PENALTY * step_count(hops, a, b))
    }
}

/// Weight `w` of edge `a -> b` once an acknowledgement came back along `hops`.
pub open spec fn acked_weight(w: u32, hops: Seq<NodeId>, a: NodeId, b: NodeId) -> u32 {
    if w == 0 {
        0
    } else {
        sat_sub(w, ACK_REWARD * step_count(hops, b, a))
    }
}

/// `a -> b` is a consecutive pair of the trace.
pub open spec fn trace_step(t: Seq<(NodeId, NodeType)>, a: NodeId, b: NodeId) -> bool {
    exists|i: int| 0 <= i < t.len() - 1 && t[i].0 == a && #[trigger] t[i + 1].0 == b
}

/// `a -> b` is one of the first `n` consecutive pairs of the trace.
pub open spec fn step_upto(t: Seq<(NodeId, NodeType)>, n: int, a: NodeId, b: NodeId) -> bool {
    exists|k: int| 0 <= k < n && t[k].0 == a && #[trigger] t[k + 1].0 == b
}

/// Weight of `a -> b` once the first `n` pairs of the trace are merged into `w`.
pub open spec fn merged_upto(w: Seq<u32>, t: Seq<(NodeId, NodeType)>, n: int, a: NodeId, b: NodeId) -> u32 {
    if w[cell(a, b)] == 0 && step_upto(t, n, a, b) {
        WEIGHT_INIT
    } else {
        w[cell(a, b)]
    }
}

pub open spec fn count_false(s: Seq<bool>) -> nat
    decreases s.len(),
{
    if s.len() == 0 {
        0
    } else {
        count_false(s.drop_last()) + if s.last() {
            0nat
        } else {
            1nat
        }
    }
}

proof fn lemma_count_false_all(s: Seq<bool>)
    requires
        forall|i: int| 0 <= i < s.len() ==> !s[i],
    ensures
        count_false(s) == s.len(),
    decreases s.len(),
{
    if s.len() > 0 {
        lemma_count_false_all(s.drop_last());
    }
}

proof fn lemma_count_false_update(s: Seq<bool>, i: int)
    requires
        0 <= i < s.len(),
        !s[i],
    ensures
        count_false(s.update(i, true)) + 1 == count_false(s),
    decreases s.len(),
{
    let t = s.update(i, true);
    if i == s.len() - 1 {
        assert(t.drop_last() =~= s.drop_last());
    } else {
        lemma_count_false_update(s.drop_last(), i);
        assert(t.drop_last() =~= s.drop_last().update(i, true));
    }
}

/// Weighted directed graph over all node ids, stored as a matrix; 0 means no edge.
pub struct RoutingHandler {
    weights: Vec<u32>,
}

impl View for RoutingHandler {
    type V = Seq<u32>;

    closed spec fn view(&self) -> Seq<u32> {
        self.weights@
    }
}

impl RoutingHandler {
    pub open spec fn wf(&self) -> bool {
        &&& self@.len() == N_CELLS
        &&& forall|i: int| 0 <= i < N_CELLS ==> weight_ok(#[trigger] self@[i])
    }

    /// Weight of `a -> b`; 0 when there is no such edge.
    pub open spec fn weight(&self, a: NodeId, b: NodeId) -> u32 {
        self@[cell(a, b)]
    }

    pub open spec fn has_edge(&self, a: NodeId, b: NodeId) -> bool {
        self.weight(a, b) > 0
    }

    /// `p` is a route from `src` to `dst` over edges of the graph.
    pub open spec fn is_path(&self, p: Seq<NodeId>, src: NodeId, dst: NodeId) -> bool {
        &&& p.len() >= 1
        &&& p[0] == src
        &&& p.last() == dst
        &&& forall|i: int| 0 <= i < p.len() - 1 ==> #[trigger] self.has_edge(p[i], p[i + 1])
    }

    pub open spec fn reachable(&self, src: NodeId, dst: NodeId) -> bool {
        exists|p: Seq<NodeId>| self.is_path(p, src, dst)
    }

    /// Total weight of the steps of `p`.
    pub open spec fn path_cost(&self, p: Seq<NodeId>) -> nat
        decreases p.len(),
    {
        if p.len() < 2 {
            0
        } else {
            self.path_cost(p.drop_last()) + self.weight(p[p.len() - 2], p.last()) as nat
        }
    }

    /// `h` is a loop-free route from `src` to `dst` that no other route undercuts.
    pub open spec fn is_best_route(&self, h: Seq<NodeId>, src: NodeId, dst: NodeId) -> bool {
        &&& self.is_path(h, src, dst)
        &&& h.no_duplicates()
        &&& forall|p: Seq<NodeId>| #[trigger] self.is_path(p, src, dst) ==> self.path_cost(h) <= self.path_cost(p)
    }

    /// Some route from `src` to `v` costs exactly `d`.
    pub open spec fn has_route_of_cost(&self, src: NodeId, v: NodeId, d: int) -> bool {
        exists|p: Seq<NodeId>| #[trigger] self.is_path(p, src, v) && self.path_cost(p) == d
    }

    /// `d` is the cost of a cheapest route from `src` to `v`.
    pub open spec fn is_opt(&self, src: NodeId, v: NodeId, d: int) -> bool {
        self.has_route_of_cost(src, v, d) && self.no_cheaper(src, v, d)
    }

    /// Edge `u -> v` lies on a cheapest route from `src` to `v`.
    pub open spec fn tight(&self, src: NodeId, u: NodeId, v: NodeId) -> bool {
        self.has_edge(u, v) && exists|du: int, dv: int| #[trigger] self.is_opt(src, u, du) && #[trigger] self.is_opt(
            src,
            v,
            dv,
        ) && du + self.weight(u, v) == dv
    }

    /// The route `best_path` picks: every step is on a cheapest route, and each
    /// hop is the smallest node id that can precede the next one on a cheapest route.
    pub open spec fn is_chosen_route(&self, h: Seq<NodeId>, src: NodeId, dst: NodeId) -> bool {
        &&& self.is_path(h, src, dst)
        &&& forall|j: int| 1 <= j < h.len() ==> #[trigger] self.tight(src, h[j - 1], h[j])
        &&& forall|j: int, u: NodeId| 1 <= j < h.len() && u < h[j - 1] ==> !#[trigger] self.tight(src, u, h[j])
    }

    /// The route from `src` to `dst` that `best_path` returns when one exists.
    pub open spec fn chosen_route(&self, src: NodeId, dst: NodeId) -> Seq<NodeId> {
        choose|h: Seq<NodeId>| self.is_chosen_route(h, src, dst)
    }

    /// No route from `src` to `v` costs less than `d`.
    pub open spec fn no_cheaper(&self, src: NodeId, v: NodeId, d: int) -> bool {
        forall|p: Seq<NodeId>| #[trigger] self.is_path(p, src, v) ==> self.path_cost(p) >= d
    }

    /// A set of nodes closed under the edges that contains the start of a path
    /// contains its end.
    proof fn lemma_closed_set(&self, settled: Seq<bool>, p: Seq<NodeId>, src: NodeId, dst: NodeId)
        requires
            settled.len() == N_NODES,
            settled[src as int],
            self.is_path(p, src, dst),
            forall|u: NodeId, v: NodeId| settled[u as int] && #[trigger] self.has_edge(u, v) ==> settled[v as int],
        ensures
            settled[dst as int],
        decreases p.len(),
    {
        if p.len() > 1 {
            let q = p.drop_last();
            let mid = p[p.len() - 2];
            assert forall|i: int| 0 <= i < q.len() - 1 implies #[trigger] self.has_edge(q[i], q[i + 1]) by {
                assert(self.has_edge(p[i], p[i + 1]));
            }
            self.lemma_closed_set(settled, q, src, mid);
            let i = p.len() - 2;
            assert(self.has_edge(p[i], p[i + 1]));
        }
    }

    /// A graph with no edges.
    pub fn new() -> (r: Self)
        ensures
            r.wf(),
            forall|a: NodeId, b: NodeId| !#[trigger] r.has_edge(a, b),
    {
        let mut weights: Vec<u32> = Vec::new();
        let mut i: usize = 0;
        while i < N_CELLS
            invariant
                i <= N_CELLS,
                weights@.len() == i,
                forall|j: int| 0 <= j < i ==> weights@[j] == 0,
            decreases N_CELLS - i,
        {
            weights.push(0);
            i = i + 1;
        }
        let r = RoutingHandler { weights };
        assert forall|a: NodeId, b: NodeId| !#[trigger] r.has_edge(a, b) by {
            lemma_cell(a, b);
        }
        r
    }

    /// Weight of `a -> b`; 0 when there is no such edge.
    pub fn edge_weight(&self, a: NodeId, b: NodeId) -> (r: u32)
        requires
            self.wf(),
        ensures
            r == self.weight(a, b),
    {
        self.weights[cell_of(a, b)]
    }

    /// Merges a flood trace: every consecutive pair becomes an edge with the initial
    /// weight unless it is already known; known edges keep their weight. Returns the
    /// ids that the trace marks as servers, in trace order.
    pub fn update_graph(&mut self, trace: &Vec<(NodeId, NodeType)>) -> (servers: Vec<NodeId>)
        requires
            old(self).wf(),
        ensures
            final(self).wf(),
            forall|a: NodeId, b: NodeId| #[trigger] final(self).weight(a, b) == (
                if old(self).weight(a, b) == 0 && trace_step(trace@, a, b) {
                    WEIGHT_INIT
                } else {
                    old(self).weight(a, b)
                }),
            forall|i: int| 0 <= i < servers@.len() ==> trace@.contains((#[trigger] servers@[i], NodeType::Server)),
            forall|j: int| 0 <= j < trace@.len() && #[trigger] trace@[j].1 == NodeType::Server
                ==> servers@.contains(trace@[j].0),
    {
        let ghost w0 = self@;
        let mut i: usize = 0;
        while i + 1 < trace.len()
            invariant
                self.wf(),
                w0.len() == N_CELLS,
                i + 1 <= trace.len() || i == 0,
                forall|a: NodeId, b: NodeId| #[trigger] self@[cell(a, b)] == merged_upto(w0, trace@, i as int, a, b),
            decreases trace.len() - i,
        {
            let a = trace[i].0;
            let b = trace[i + 1].0;
            let c = cell_of(a, b);
            let ghost before = self@;
            if self.weights[c] == 0 {
                self.weights.set(c, WEIGHT_INIT);
            }
            proof {
                lemma_cell(a, b);
                assert forall|x: NodeId, y: NodeId| #[trigger] self@[cell(x, y)] == merged_upto(w0, trace@, i + 1, x, y) by {
                    lemma_cell(x, y);
                    assert(before[cell(x, y)] == merged_upto(w0, trace@, i as int, x, y));
                    if x == a && y == b {
                        assert(trace@[i as int].0 == x && trace@[i + 1].0 == y);
                    } else {
                        if step_upto(trace@, i + 1, x, y) {
                            let k = choose|k: int| 0 <= k < i + 1 && trace@[k].0 == x && #[trigger] trace@[k + 1].0 == y;
                            assert(k != i);
                            assert(0 <= k < i && trace@[k].0 == x && trace@[k + 1].0 == y);
                        }
                    }
                }
            }
            i = i + 1;
        }
        proof {
            assert forall|a: NodeId, b: NodeId| #[trigger] self.weight(a, b) == (
                if old(self).weight(a, b) == 0 && trace_step(trace@, a, b) {
                    WEIGHT_INIT
                } else {
                    old(self).weight(a, b)
                }) by {
                assert(self@[cell(a, b)] == merged_upto(w0, trace@, i as int, a, b));
                if trace_step(trace@, a, b) {
                    let k = choose|k: int| 0 <= k < trace@.len() - 1 && trace@[k].0 == a && #[trigger] trace@[k + 1].0 == b;
                    assert(0 <= k < i && trace@[k].0 == a && trace@[k + 1].0 == b);
                }
                if step_upto(trace@, i as int, a, b) {
                    let k = choose|k: int| 0 <= k < i && trace@[k].0 == a && #[trigger] trace@[k + 1].0 == b;
                    assert(0 <= k < trace@.len() - 1 && trace@[k].0 == a && trace@[k + 1].0 == b);
                }
            }
        }
        let mut servers: Vec<NodeId> = Vec::new();
        let mut j: usize = 0;
        while j < trace.len()
            invariant
                j <= trace.len(),
                forall|x: int| 0 <= x < servers@.len() ==> trace@.contains((#[trigger] servers@[x], NodeType::Server)),
                forall|y: int| 0 <= y < j && #[trigger] trace@[y].1 == NodeType::Server
                    ==> servers@.contains(trace@[y].0),
            decreases trace.len() - j,
        {
            let (id, ty) = trace[j];
            let ghost prev = servers@;
            if ty == NodeType::Server {
                servers.push(id);
                assert forall|v: NodeId| prev.contains(v) implies servers@.contains(v) by {
                    let k = choose|k: int| 0 <= k < prev.len() && prev[k] == v;
                    assert(servers@[k] == v);
                }
                assert(trace@[j as int] == (servers@[servers@.len() - 1], NodeType::Server));
            }
            j = j + 1;
        }
        servers
    }

    /// Raises edge `a -> b` by `k`, up to the maximum; a missing edge stays missing.
    fn raise(&mut self, a: NodeId, b: NodeId, k: u32)
        requires
            old(self).wf(),
            k <= WEIGHT_MAX,
        ensures
            final(self).wf(),
            final(self)@ == old(self)@.update(cell(a, b), if old(self).weight(a, b) == 0 {
                0u32
            } else {
                sat_add(old(self).weight(a, b), k as int)
            }),
    {
        let c = cell_of(a, b);
        let w = self.weights[c];
        if w > 0 {
            let nw = if w + k >= WEIGHT_MAX { WEIGHT_MAX } else { w + k };
            self.weights.set(c, nw);
        } else {
            assert(self@ =~= self@.update(cell(a, b), 0u32));
        }
    }

    /// Lowers edge `a -> b` by `k`, down to the minimum; a missing edge stays missing.
    fn lower(&mut self, a: NodeId, b: NodeId, k: u32)
        requires
            old(self).wf(),
        ensures
            final(self).wf(),
            final(self)@ == old(self)@.update(cell(a, b), if old(self).weight(a, b) == 0 {
                0u32
            } else {
                sat_sub(old(self).weight(a, b), k as int)
            }),
    {
        let c = cell_of(a, b);
        let w = self.weights[c];
        if w > 0 {
            let nw = if w <= k || w - k <= WEIGHT_MIN { WEIGHT_MIN } else { w - k };
            self.weights.set(c, nw);
        } else {
            assert(self@ =~= self@.update(cell(a, b), 0u32));
        }
    }

    /// Every edge the route went through gets the congestion penalty once per step.
    pub fn nodes_congestion(&mut self, route: &SourceRoutingHeader)
        requires
            old(self).wf(),
        ensures
            final(self).wf(),
            forall|a: NodeId, b: NodeId| #[trigger] final(self).weight(a, b)
                == congested_weight(old(self).weight(a, b), route.hops@, a, b),
    {
        let hops = &route.hops;
        if hops.len() == 0 {
            assert forall|a: NodeId, b: NodeId| #[trigger] self.weight(a, b) == (if self.weight(a, b) == 0 {
                0u32
            } else {
                sat_add(self.weight(a, b), CONGESTION_PENALTY * step_count(route.hops@, a, b))
            }) by {
                lemma_cell(a, b);
                assert(weight_ok(self@[cell(a, b)]));
            }
            return;
        }
        let ghost w0 = self@;
        proof {
            assert forall|a: NodeId, b: NodeId| #[trigger] self@[cell(a, b)] == (if w0[cell(a, b)] == 0 {
                0u32
            } else {
                sat_add(w0[cell(a, b)], CONGESTION_PENALTY * step_count(hops@.subrange(0, 1), a, b))
            }) by {
                lemma_cell(a, b);
                assert(weight_ok(self@[cell(a, b)]));
            }
        }
        let mut i: usize = 0;
        while i + 1 < hops.len()
            invariant
                self.wf(),
                w0.len() == N_CELLS,
                forall|j: int| 0 <= j < N_CELLS ==> weight_ok(#[trigger] w0[j]),
                i + 1 <= hops.len(),
                forall|a: NodeId, b: NodeId| #[trigger] self@[cell(a, b)] == (if w0[cell(a, b)] == 0 {
                    0u32
                } else {
                    sat_add(w0[cell(a, b)], CONGESTION_PENALTY * step_count(hops@.subrange(0, i + 1), a, b))
                }),
            decreases hops.len() - i,
        {
            let a = hops[i];
            let b = hops[i + 1];
            let ghost before = self@;
            self.raise(a, b, CONGESTION_PENALTY);
            proof {
                let at1 = hops@.subrange(0, i + 1);
                let at2 = hops@.subrange(0, i + 2);
                assert(at2.drop_last() =~= at1);
                lemma_cell(a, b);
                assert forall|x: NodeId, y: NodeId| #[trigger] self@[cell(x, y)] == (if w0[cell(x, y)] == 0 {
                    0u32
                } else {
                    sat_add(w0[cell(x, y)], CONGESTION_PENALTY * step_count(at2, x, y))
                }) by {
                    lemma_cell(x, y);
                    assert(before[cell(x, y)] == (if w0[cell(x, y)] == 0 {
                        0u32
                    } else {
                        sat_add(w0[cell(x, y)], CONGESTION_PENALTY * step_count(at1, x, y))
                    }));
                    assert(weight_ok(w0[cell(x, y)]));
                }
            }
            i = i + 1;
        }
        assert(hops@.subrange(0, i + 1) =~= hops@);
    }

    /// The edges back along the route of an acknowledgement (the way the data went)
    /// get the ack reward once per step.
    pub fn nodes_ack(&mut self, route: &SourceRoutingHeader)
        requires
            old(self).wf(),
        ensures
            final(self).wf(),
            forall|a: NodeId, b: NodeId| #[trigger] final(self).weight(a, b)
                == acked_weight(old(self).weight(a, b), route.hops@, a, b),
    {
        let hops = &route.hops;
        if hops.len() == 0 {
            assert forall|a: NodeId, b: NodeId| #[trigger] self.weight(a, b) == (if self.weight(a, b) == 0 {
                0u32
            } else {
                sat_sub(self.weight(a, b), ACK_REWARD * step_count(route.hops@, b, a))
            }) by {
                lemma_cell(a, b);
                assert(weight_ok(self@[cell(a, b)]));
            }
            return;
        }
        let ghost w0 = self@;
        proof {
            assert forall|a: NodeId, b: NodeId| #[trigger] self@[cell(a, b)] == (if w0[cell(a, b)] == 0 {
                0u32
            } else {
                sat_sub(w0[cell(a, b)], ACK_REWARD * step_count(hops@.subrange(0, 1), b, a))
            }) by {
                lemma_cell(a, b);
                assert(weight_ok(self@[cell(a, b)]));
            }
        }
        let mut i: usize = 0;
        while i + 1 < hops.len()
            invariant
                self.wf(),
                w0.len() == N_CELLS,
                forall|j: int| 0 <= j < N_CELLS ==> weight_ok(#[trigger] w0[j]),
                i + 1 <= hops.len(),
                forall|a: NodeId, b: NodeId| #[trigger] self@[cell(a, b)] == (if w0[cell(a, b)] == 0 {
                    0u32
                } else {
                    sat_sub(w0[cell(a, b)], ACK_REWARD * step_count(hops@.subrange(0, i + 1), b, a))
                }),
            decreases hops.len() - i,
        {
            let a = hops[i];
            let b = hops[i + 1];
            let ghost before = self@;
            self.lower(b, a, ACK_REWARD);
            proof {
                let at1 = hops@.subrange(0, i + 1);
                let at2 = hops@.subrange(0, i + 2);
                assert(at2.drop_last() =~= at1);
                lemma_cell(b, a);
                assert forall|x: NodeId, y: NodeId| #[trigger] self@[cell(x, y)] == (if w0[cell(x, y)] == 0 {
                    0u32
                } else {
                    sat_sub(w0[cell(x, y)], ACK_REWARD * step_count(at2, y, x))
                }) by {
                    lemma_cell(x, y);
                    assert(before[cell(x, y)] == (if w0[cell(x, y)] == 0 {
                        0u32
                    } else {
                        sat_sub(w0[cell(x, y)], ACK_REWARD * step_count(at1, y, x))
                    }));
                    assert(weight_ok(w0[cell(x, y)]));
                }
            }
            i = i + 1;
        }
        assert(hops@.subrange(0, i + 1) =~= hops@);
    }

    /// Every edge into or out of `n` gets the nack penalty once.
    pub fn node_nack(&mut self, n: NodeId)
        requires
            old(self).wf(),
        ensures
            final(self).wf(),
            forall|a: NodeId, b: NodeId| #[trigger] final(self).weight(a, b) == (
                if old(self).weight(a, b) == 0 || (a != n && b != n) {
                    old(self).weight(a, b)
                } else {
                    sat_add(old(self).weight(a, b), NACK_PENALTY as int)
                }),
    {
        let ghost w0 = self@;
        let mut j: u16 = 0;
        while j < 256
            invariant
                self.wf(),
                w0.len() == N_CELLS,
                j <= 256,
                forall|a: NodeId, b: NodeId| #[trigger] self@[cell(a, b)] == (
                    if w0[cell(a, b)] == 0 || !((a == n && (b as int) < j) || (b == n && (a as int) < j)) {
                        w0[cell(a, b)]
                    } else {
                        sat_add(w0[cell(a, b)], NACK_PENALTY as int)
                    }),
            decreases 256 - j,
        {
            let m = j as u8;
            let ghost before = self@;
            self.raise(n, m, NACK_PENALTY);
            let ghost mid = self@;
            if m != n {
                self.raise(m, n, NACK_PENALTY);
            }
            proof {
                lemma_cell(n, m);
                lemma_cell(m, n);
                assert forall|a: NodeId, b: NodeId| #[trigger] self@[cell(a, b)] == (
                    if w0[cell(a, b)] == 0 || !((a == n && (b as int) < j + 1) || (b == n && (a as int) < j + 1)) {
                        w0[cell(a, b)]
                    } else {
                        sat_add(w0[cell(a, b)], NACK_PENALTY as int)
                    }) by {
                    lemma_cell(a, b);
                    assert(before[cell(a, b)] == (
                        if w0[cell(a, b)] == 0 || !((a == n && (b as int) < j) || (b == n && (a as int) < j)) {
                            w0[cell(a, b)]
                        } else {
                            sat_add(w0[cell(a, b)], NACK_PENALTY as int)
                        }));
                }
            }
            j = j + 1;
        }
    }

    /// What the search keeps true of its tables after `rounds` nodes are settled:
    /// settled nodes have a distance, distances are bounded, and every reached node
    /// other than `src` hangs off a settled predecessor over an edge, strictly closer.
    pub open spec fn search_ok(&self, dist: Seq<u64>, prev: Seq<NodeId>, settled: Seq<bool>, src: NodeId, rounds: int) -> bool {
        &&& dist.len() == N_NODES
        &&& prev.len() == N_NODES
        &&& settled.len() == N_NODES
        &&& dist[src as int] == 0
        &&& 0 <= rounds <= N_NODES
        &&& forall|v: NodeId| #[trigger] settled[v as int] ==> dist[v as int] < u64::MAX
        &&& forall|v: NodeId| #[trigger] dist[v as int] < u64::MAX ==> dist[v as int] <= 1000 * rounds
        &&& forall|v: NodeId| v != src && #[trigger] dist[v as int] < u64::MAX ==> {
            &&& settled[prev[v as int] as int]
            &&& self.has_edge(prev[v as int], v)
            &&& dist[prev[v as int] as int] < dist[v as int]
            &&& dist[prev[v as int] as int] + self.weight(prev[v as int], v) == dist[v as int]
        }
    }

    /// Every edge out of a settled node other than `skip` is relaxed: its end is
    /// no farther than the start plus the edge.
    pub open spec fn relaxed_but(&self, dist: Seq<u64>, settled: Seq<bool>, skip: int) -> bool {
        forall|a: NodeId, b: NodeId| a as int != skip && settled[a as int] && #[trigger] self.has_edge(a, b)
            ==> dist[b as int] <= dist[a as int] + self.weight(a, b)
    }

    /// Every reached node has a route of exactly its distance.
    pub open spec fn witnessed(&self, dist: Seq<u64>, src: NodeId) -> bool {
        forall|v: NodeId| #[trigger] dist[v as int] < u64::MAX ==> self.has_route_of_cost(src, v, dist[v as int] as int)
    }

    /// Settled nodes are no farther than unsettled ones.
    pub open spec fn settled_first(dist: Seq<u64>, settled: Seq<bool>) -> bool {
        forall|x: NodeId, y: NodeId| #[trigger] settled[x as int] && !#[trigger] settled[y as int]
            ==> dist[x as int] <= dist[y as int]
    }

    /// The distance of every settled node is the cost of a cheapest route to it.
    pub open spec fn settled_optimal(&self, dist: Seq<u64>, settled: Seq<bool>, src: NodeId) -> bool {
        forall|v: NodeId| #[trigger] settled[v as int] ==> self.no_cheaper(src, v, dist[v as int] as int)
    }

    /// Any route from `src` to an unsettled node costs at least the smallest
    /// distance `dist[u]` among unsettled nodes.
    proof fn lemma_unsettled_cost(&self, dist: Seq<u64>, settled: Seq<bool>, src: NodeId, u: NodeId, t: NodeId, p: Seq<NodeId>)
        requires
            dist.len() == N_NODES,
            settled.len() == N_NODES,
            !settled[t as int],
            self.is_path(p, src, t),
            forall|v: int| 0 <= v < N_NODES && !settled[v] ==> dist[v] >= dist[u as int],
            dist[src as int] == 0,
            self.relaxed_but(dist, settled, -1),
            self.settled_optimal(dist, settled, src),
        ensures
            self.path_cost(p) >= dist[u as int],
        decreases p.len(),
    {
        if p.len() > 1 {
            let q = p.drop_last();
            let y = p[p.len() - 2];
            let i = p.len() - 2;
            assert(self.has_edge(p[i], p[i + 1]));
            assert forall|k: int| 0 <= k < q.len() - 1 implies #[trigger] self.has_edge(q[k], q[k + 1]) by {
                assert(self.has_edge(p[k], p[k + 1]));
            }
            assert(self.is_path(q, src, y));
            if settled[y as int] {
                assert(self.no_cheaper(src, y, dist[y as int] as int));
                assert(self.path_cost(q) >= dist[y as int]);
                assert(dist[t as int] <= dist[y as int] + self.weight(y, t));
            } else {
                self.lemma_unsettled_cost(dist, settled, src, u, y, q);
            }
        }
    }

    /// Every edge out of a settled node other than `skip` leads to a reached node.
    pub open spec fn closed_but(&self, dist: Seq<u64>, settled: Seq<bool>, skip: int) -> bool {
        forall|a: NodeId, b: NodeId| a as int != skip && settled[a as int] && #[trigger] self.has_edge(a, b)
            ==> dist[b as int] < u64::MAX
    }

    /// The unsettled node with the smallest finite distance, the smallest id among
    /// equals; `N_NODES` when there is none.
    fn select(dist: &Vec<u64>, settled: &Vec<bool>) -> (best: usize)
        requires
            dist@.len() == N_NODES,
            settled@.len() == N_NODES,
        ensures
            best == N_NODES ==> forall|v: int| 0 <= v < N_NODES ==> settled@[v] || dist@[v] == u64::MAX,
            best < N_NODES ==> !settled@[best as int] && dist@[best as int] < u64::MAX,
            best < N_NODES ==> forall|v: int| 0 <= v < N_NODES && !settled@[v] ==> dist@[v] >= dist@[best as int],
            best <= N_NODES,
    {
        let mut best: usize = N_NODES;
        let mut best_d: u64 = u64::MAX;
        let mut j: usize = 0;
        while j < N_NODES
            invariant
                j <= N_NODES,
                dist@.len() == N_NODES,
                settled@.len() == N_NODES,
                best == N_NODES ==> best_d == u64::MAX,
                best < N_NODES ==> !settled@[best as int] && dist@[best as int] == best_d && best_d < u64::MAX,
                best <= N_NODES,
                forall|v: int| 0 <= v < j && !settled@[v] ==> dist@[v] >= best_d,
            decreases N_NODES - j,
        {
            if !settled[j] && dist[j] < best_d {
                best = j;
                best_d = dist[j];
            }
            j = j + 1;
        }
        best
    }

    /// Relaxes every edge out of the freshly settled node `u`.
    fn relax(&self, dist: &mut Vec<u64>, prev: &mut Vec<NodeId>, settled: &Vec<bool>, u: NodeId, src: NodeId, rounds: u64)
        requires
            self.wf(),
            self.search_ok(old(dist)@, old(prev)@, settled@, src, rounds as int),
            settled@[u as int],
            old(dist)@[u as int] <= 1000 * (rounds - 1),
            self.closed_but(old(dist)@, settled@, u as int),
            self.relaxed_but(old(dist)@, settled@, u as int),
            Self::settled_first(old(dist)@, settled@),
            self.settled_optimal(old(dist)@, settled@, src),
            forall|x: NodeId| #[trigger] settled@[x as int] ==> old(dist)@[x as int] <= old(dist)@[u as int],
            self.witnessed(old(dist)@, src),
        ensures
            self.witnessed(final(dist)@, src),
            self.search_ok(final(dist)@, final(prev)@, settled@, src, rounds as int),
            self.closed_but(final(dist)@, settled@, -1),
            self.relaxed_but(final(dist)@, settled@, -1),
            Self::settled_first(final(dist)@, settled@),
            self.settled_optimal(final(dist)@, settled@, src),
    {
        let du = dist[u as usize];
        let mut v: usize = 0;
        while v < N_NODES
            invariant
                self.wf(),
                v <= N_NODES,
                settled@[u as int],
                du == dist@[u as int],
                du <= 1000 * (rounds - 1),
                self.search_ok(dist@, prev@, settled@, src, rounds as int),
                self.closed_but(dist@, settled@, u as int),
                forall|b: NodeId| (b as int) < v && #[trigger] self.has_edge(u, b) ==> dist@[b as int] < u64::MAX,
                self.relaxed_but(dist@, settled@, u as int),
                forall|b: NodeId| (b as int) < v && #[trigger] self.has_edge(u, b) ==> dist@[b as int] <= du + self.weight(u, b),
                Self::settled_first(dist@, settled@),
                forall|x: NodeId| #[trigger] settled@[x as int] ==> dist@[x as int] <= du,
                forall|x: NodeId| #[trigger] settled@[x as int] ==> dist@[x as int] == old(dist)@[x as int],
                self.settled_optimal(old(dist)@, settled@, src),
                self.witnessed(dist@, src),
                dist@[u as int] < u64::MAX,
            decreases N_NODES - v,
        {
            let x = v as NodeId;
            let c = cell_of(u, x);
            let w = self.weights[c];
            proof {
                assert(weight_ok(self@[cell(u, x)]));
            }
            let ghost before = dist@;
            if w > 0 && !settled[v] && x != src && du + (w as u64) < dist[v] {
                dist.set(v, du + w as u64);
                prev.set(v, u);
                proof {
                    assert(before[u as int] < u64::MAX);
                    assert(self.has_route_of_cost(src, u, du as int));
                    let pu = choose|pu: Seq<NodeId>| #[trigger] self.is_path(pu, src, u) && self.path_cost(pu) == du;
                    let pv = pu.push(x);
                    assert(pv.drop_last() =~= pu);
                    assert forall|k: int| 0 <= k < pv.len() - 1 implies #[trigger] self.has_edge(pv[k], pv[k + 1]) by {
                        if k < pu.len() - 1 {
                            assert(self.has_edge(pu[k], pu[k + 1]));
                        }
                    }
                    assert(self.is_path(pv, src, x));
                    assert(self.path_cost(pv) == du + w);
                    assert forall|y: NodeId| #[trigger] dist@[y as int] < u64::MAX implies self.has_route_of_cost(
                        src,
                        y,
                        dist@[y as int] as int,
                    ) by {
                        if y != x {
                            assert(before[y as int] < u64::MAX);
                        }
                    }
                }
            }
            proof {
                assert(self.has_edge(u, x) ==> dist@[x as int] < u64::MAX);
                assert(self.has_edge(u, x) ==> dist@[x as int] <= du + self.weight(u, x));
            }
            v = v + 1;
        }
        proof {
            assert forall|x: NodeId| #[trigger] settled@[x as int] implies self.no_cheaper(src, x, dist@[x as int] as int) by {
                assert(self.no_cheaper(src, x, old(dist)@[x as int] as int));
            }
        }
    }

    /// A cheapest route from `src` to `dst`, with hop index 0: Dijkstra finds the
    /// distances, then the route is walked back from `dst`, each time to the
    /// smallest node id that precedes the current hop on a cheapest route (so ties
    /// go to the smaller id; see `chosen_route`). A node reaches itself by the
    /// one-hop route. `None` exactly when `dst` cannot be reached.
    pub fn best_path(&self, src: NodeId, dst: NodeId) -> (r: Option<SourceRoutingHeader>)
        requires
            self.wf(),
        ensures
            r.is_some() <==> self.reachable(src, dst),
            r matches Some(h) ==> h.hop_index == 0 && self.is_best_route(h.hops@, src, dst)
                && h.hops@ == self.chosen_route(src, dst),
            src == dst ==> (r matches Some(h) && h.hops@ == seq![src]),
    {
        if src == dst {
            let hops = vec![src];
            let h = SourceRoutingHeader { hop_index: 0, hops };
            assert(self.is_path(h.hops@, src, dst));
            assert(h.hops@ =~= seq![src]);
            proof {
                assert(self.is_chosen_route(h.hops@, src, dst));
                self.lemma_chosen_unique(h.hops@, self.chosen_route(src, dst), src, dst);
            }
            return Some(h);
        }
        let mut dist: Vec<u64> = Vec::new();
        let mut prev: Vec<NodeId> = Vec::new();
        let mut settled: Vec<bool> = Vec::new();
        let mut k: usize = 0;
        while k < N_NODES
            invariant
                k <= N_NODES,
                dist@.len() == k,
                prev@.len() == k,
                settled@.len() == k,
                forall|v: int| 0 <= v < k ==> dist@[v] == u64::MAX && !settled@[v],
            decreases N_NODES - k,
        {
            dist.push(u64::MAX);
            prev.push(0);
            settled.push(false);
            k = k + 1;
        }
        dist.set(src as usize, 0);
        proof {
            lemma_count_false_all(settled@);
            assert forall|y: NodeId| #[trigger] dist@[y as int] < u64::MAX implies self.has_route_of_cost(
                src,
                y,
                dist@[y as int] as int,
            ) by {
                assert(y == src);
                assert(self.is_path(seq![src], src, src));
                assert(self.path_cost(seq![src]) == 0);
            }
        }
        let mut rounds: u64 = 0;
        loop
            invariant
                self.wf(),
                src != dst,
                self.search_ok(dist@, prev@, settled@, src, rounds as int),
                !settled@[dst as int],
                rounds + count_false(settled@) == N_NODES,
                self.closed_but(dist@, settled@, -1),
                self.relaxed_but(dist@, settled@, -1),
                Self::settled_first(dist@, settled@),
                self.settled_optimal(dist@, settled@, src),
                self.witnessed(dist@, src),
            decreases count_false(settled@),
        {
            let best = Self::select(&dist, &settled);
            if best == N_NODES {
                proof {
                    let fin = settled@;
                    assert forall|u: NodeId, v: NodeId| fin[u as int] && #[trigger] self.has_edge(u, v) implies fin[v as int] by {
                        assert(dist@[v as int] < u64::MAX);
                    }
                    assert(fin[src as int]);
                    if self.reachable(src, dst) {
                        let p = choose|p: Seq<NodeId>| self.is_path(p, src, dst);
                        self.lemma_closed_set(fin, p, src, dst);
                    }
                }
                return None;
            }
            let u = best as NodeId;
            let ghost before = settled@;
            proof {
                lemma_count_false_update(settled@, u as int);
                assert(dist@[u as int] < u64::MAX);
                assert forall|p: Seq<NodeId>| #[trigger] self.is_path(p, src, u) implies self.path_cost(p) >= dist@[u as int] by {
                    self.lemma_unsettled_cost(dist@, settled@, src, u, u, p);
                }
            }
            settled.set(best, true);
            proof {
                assert forall|x: NodeId| #[trigger] settled@[x as int] implies dist@[x as int] <= dist@[u as int] by {
                    if x != u {
                        assert(before[x as int]);
                    }
                }
                assert forall|x: NodeId, y: NodeId| #[trigger] settled@[x as int] && !#[trigger] settled@[y as int]
                    implies dist@[x as int] <= dist@[y as int] by {
                    assert(!before[y as int]);
                    if x != u {
                        assert(before[x as int]);
                    }
                }
                assert forall|v: NodeId| #[trigger] settled@[v as int] implies self.no_cheaper(src, v, dist@[v as int] as int) by {
                    if v != u {
                        assert(before[v as int]);
                    }
                }
                assert forall|a: NodeId, b: NodeId| a != u && settled@[a as int] && #[trigger] self.has_edge(a, b)
                    implies dist@[b as int] <= dist@[a as int] + self.weight(a, b) by {
                    assert(before[a as int]);
                }
                assert forall|a: NodeId, b: NodeId| a != u && settled@[a as int] && #[trigger] self.has_edge(a, b)
                    implies dist@[b as int] < u64::MAX by {
                    assert(before[a as int]);
                }
            }
            rounds = rounds + 1;
            if u == dst {
                proof {
                    assert forall|t: NodeId| !#[trigger] settled@[t as int] implies self.no_cheaper(
                        src,
                        t,
                        dist@[dst as int] as int,
                    ) by {
                        assert(!before[t as int]);
                        assert forall|p: Seq<NodeId>| #[trigger] self.is_path(p, src, t) implies self.path_cost(p)
                            >= dist@[dst as int] by {
                            self.lemma_unsettled_cost(dist@, before, src, u, t, p);
                        }
                    }
                }
                let h = self.trace_back(&dist, &prev, &settled, src, dst);
                proof {
                    assert(self.no_cheaper(src, dst, dist@[dst as int] as int));
                    self.lemma_chosen_unique(h.hops@, self.chosen_route(src, dst), src, dst);
                }
                return Some(h);
            }
            self.relax(&mut dist, &mut prev, &settled, u, src, rounds);
        }
    }

    /// Walks back from `dst` to `src`, each time to the smallest node id that
    /// precedes the current one on a cheapest route.
    #[verifier::spinoff_prover]
    fn walk_back(&self, dist: &Vec<u64>, prev: &Vec<NodeId>, settled: &Vec<bool>, src: NodeId, dst: NodeId) -> (rev: Vec<NodeId>)
        requires
            self.wf(),
            dist@.len() == N_NODES,
            prev@.len() == N_NODES,
            settled@.len() == N_NODES,
            settled@[dst as int],
            dist@[src as int] == 0,
            forall|y: NodeId| #[trigger] settled@[y as int] ==> dist@[y as int] < u64::MAX,
            forall|x: NodeId| x != src && #[trigger] dist@[x as int] < u64::MAX ==> {
                &&& settled@[prev@[x as int] as int]
                &&& self.has_edge(prev@[x as int], x)
                &&& dist@[prev@[x as int] as int] < dist@[x as int]
                &&& dist@[prev@[x as int] as int] + self.weight(prev@[x as int], x) == dist@[x as int]
            },
            self.settled_optimal(dist@, settled@, src),
            self.witnessed(dist@, src),
            forall|t: NodeId| !#[trigger] settled@[t as int] ==> self.no_cheaper(src, t, dist@[dst as int] as int),
        ensures
            rev@.len() >= 1,
            rev@[0] == dst,
            rev@.last() == src,
            forall|k: int| 0 <= k < rev@.len() - 1 ==> #[trigger] self.has_edge(rev@[k + 1], rev@[k]),
            forall|i: int, j: int| 0 <= i < j < rev@.len() ==> dist@[#[trigger] rev@[i] as int] > dist@[#[trigger] rev@[j] as int],
            forall|k: int| 0 <= k < rev@.len() - 1 ==> dist@[rev@[k + 1] as int] + self.weight(#[trigger] rev@[k + 1], rev@[k])
                == dist@[rev@[k] as int],
            forall|k: int| 0 <= k < rev@.len() - 1 ==> #[trigger] self.tight(src, rev@[k + 1], rev@[k]),
            forall|k: int, u: NodeId| 0 <= k < rev@.len() - 1 && u < rev@[k + 1] ==> !#[trigger] self.tight(src, u, rev@[k]),
    {
        let mut rev: Vec<NodeId> = vec![dst];
        let mut cur = dst;
        while cur != src
            invariant
                self.wf(),
                dist@.len() == N_NODES,
                prev@.len() == N_NODES,
                settled@.len() == N_NODES,
                dist@[src as int] == 0,
                forall|y: NodeId| #[trigger] settled@[y as int] ==> dist@[y as int] < u64::MAX,
                forall|x: NodeId| x != src && #[trigger] dist@[x as int] < u64::MAX ==> {
                    &&& settled@[prev@[x as int] as int]
                    &&& self.has_edge(prev@[x as int], x)
                    &&& dist@[prev@[x as int] as int] < dist@[x as int]
                    &&& dist@[prev@[x as int] as int] + self.weight(prev@[x as int], x) == dist@[x as int]
                },
                self.settled_optimal(dist@, settled@, src),
                self.witnessed(dist@, src),
                forall|t: NodeId| !#[trigger] settled@[t as int] ==> self.no_cheaper(src, t, dist@[dst as int] as int),
                rev@.len() >= 1,
                rev@[0] == dst,
                rev@.last() == cur,
                settled@[cur as int],
                dist@[cur as int] <= dist@[dst as int],
                forall|k: int| 0 <= k < rev@.len() - 1 ==> {
                    &&& #[trigger] self.has_edge(rev@[k + 1], rev@[k])
                    &&& dist@[rev@[k] as int] > dist@[rev@[k + 1] as int]
                    &&& dist@[rev@[k + 1] as int] + self.weight(rev@[k + 1], rev@[k]) == dist@[rev@[k] as int]
                    &&& self.tight(src, rev@[k + 1], rev@[k])
                },
                forall|k: int, u: NodeId| 0 <= k < rev@.len() - 1 && u < rev@[k + 1] ==> !#[trigger] self.tight(src, u, rev@[k]),
            decreases dist@[cur as int],
        {
            let mut x: usize = 0;
            let mut found: bool = false;
            while !found && x < N_NODES
                invariant
                    self.wf(),
                    dist@.len() == N_NODES,
                    settled@.len() == N_NODES,
                    x <= N_NODES,
                    found ==> x < N_NODES && settled@[x as int] && self.has_edge(x as NodeId, cur) && dist@[x as int]
                        + self.weight(x as NodeId, cur) == dist@[cur as int],
                    forall|y: NodeId| (y as int) < x && !found ==> !(settled@[y as int] && self.has_edge(y, cur)
                        && dist@[y as int] + self.weight(y, cur) == dist@[cur as int]),
                    found ==> forall|y: NodeId| (y as int) < x ==> !(settled@[y as int] && self.has_edge(y, cur)
                        && dist@[y as int] + self.weight(y, cur) == dist@[cur as int]),
                decreases N_NODES - x + if found { 0int } else { 1int },
            {
                let c = cell_of(x as NodeId, cur);
                let w = self.weights[c];
                proof {
                    lemma_cell(x as NodeId, cur);
                    assert(weight_ok(self@[cell(x as NodeId, cur)]));
                }
                if settled[x] && w > 0 && dist[x] <= dist[cur as usize] && dist[cur as usize] - dist[x] == w as u64 {
                    found = true;
                } else {
                    x = x + 1;
                }
            }
            proof {
                if !found {
                    let pc = prev@[cur as int];
                    assert(dist@[cur as int] < u64::MAX);
                    assert(settled@[pc as int] && self.has_edge(pc, cur));
                }
            }
            let u = x as NodeId;
            proof {
                self.lemma_check_tight(dist@, settled@, src, dst, u, cur);
                assert forall|y: NodeId| y < u implies !#[trigger] self.tight(src, y, cur) by {
                    self.lemma_check_tight(dist@, settled@, src, dst, y, cur);
                }
                lemma_cell(u, cur);
                assert(weight_ok(self@[cell(u, cur)]));
            }
            let ghost old_rev = rev@;
            rev.push(u);
            proof {
                assert forall|k: int| 0 <= k < rev@.len() - 1 implies {
                    &&& #[trigger] self.has_edge(rev@[k + 1], rev@[k])
                    &&& dist@[rev@[k] as int] > dist@[rev@[k + 1] as int]
                    &&& dist@[rev@[k + 1] as int] + self.weight(rev@[k + 1], rev@[k]) == dist@[rev@[k] as int]
                    &&& self.tight(src, rev@[k + 1], rev@[k])
                } by {
                    if k < old_rev.len() - 1 {
                        assert(rev@[k] == old_rev[k] && rev@[k + 1] == old_rev[k + 1]);
                        assert(self.has_edge(old_rev[k + 1], old_rev[k]));
                    } else {
                        assert(rev@[k] == cur && rev@[k + 1] == u);
                    }
                }
                assert forall|k: int, y: NodeId| 0 <= k < rev@.len() - 1 && y < rev@[k + 1] implies !#[trigger] self.tight(
                    src,
                    y,
                    rev@[k],
                ) by {
                    if k < old_rev.len() - 1 {
                        assert(rev@[k] == old_rev[k] && rev@[k + 1] == old_rev[k + 1]);
                    } else {
                        assert(rev@[k] == cur && rev@[k + 1] == u);
                    }
                }
            }
            cur = u;
        }
        proof {
            assert forall|k: int| 0 <= k < rev@.len() - 1 implies dist@[#[trigger] rev@[k] as int] > dist@[rev@[k + 1] as int] by {
                assert(self.has_edge(rev@[k + 1], rev@[k]));
            }
            lemma_descending(dist@, rev@);
            assert forall|k: int| 0 <= k < rev@.len() - 1 implies dist@[rev@[k + 1] as int] + self.weight(
                #[trigger] rev@[k + 1],
                rev@[k],
            ) == dist@[rev@[k] as int] by {
                assert(self.has_edge(rev@[k + 1], rev@[k]));
            }
            assert forall|k: int| 0 <= k < rev@.len() - 1 implies #[trigger] self.tight(src, rev@[k + 1], rev@[k]) by {
                assert(self.has_edge(rev@[k + 1], rev@[k]));
            }
        }
        rev
    }

    /// Along a route whose every step adds exactly its weight to the distance, the
    /// cost of each prefix is the distance of its last node.
    proof fn lemma_prefix_cost(&self, hops: Seq<NodeId>, dist: Seq<u64>, src: NodeId, j: int)
        requires
            0 <= j < hops.len(),
            hops[0] == src,
            dist.len() == N_NODES,
            dist[src as int] == 0,
            forall|k: int| 0 <= k < hops.len() - 1 ==> dist[hops[k] as int] + self.weight(hops[k], #[trigger] hops[k + 1])
                == dist[hops[k + 1] as int],
        ensures
            self.path_cost(hops.subrange(0, j + 1)) == dist[hops[j] as int],
        decreases j,
    {
        if j > 0 {
            self.lemma_prefix_cost(hops, dist, src, j - 1);
            let a = hops.subrange(0, j + 1);
            assert(a.drop_last() =~= hops.subrange(0, j));
            let k = j - 1;
            assert(dist[hops[k] as int] + self.weight(hops[k], hops[k + 1]) == dist[hops[k + 1] as int]);
        }
    }

    /// At most one route satisfies the choice rule.
    pub proof fn lemma_chosen_unique(&self, h1: Seq<NodeId>, h2: Seq<NodeId>, src: NodeId, dst: NodeId)
        requires
            self.wf(),
            self.is_chosen_route(h1, src, dst),
            self.is_chosen_route(h2, src, dst),
        ensures
            h1 == h2,
        decreases h1.len() + h2.len(),
    {
        if h1.len() == 1 && h2.len() == 1 {
            assert(h1 =~= h2);
        } else if h1.len() == 1 || h2.len() == 1 {
            let h = if h1.len() == 1 { h2 } else { h1 };
            let j = h.len() - 1;
            assert(self.tight(src, h[j - 1], h[j]));
            assert(dst == src);
            let (du, dv) = choose|du: int, dv: int| #[trigger] self.is_opt(src, h[j - 1], du) && #[trigger] self.is_opt(
                src,
                h[j],
                dv,
            ) && du + self.weight(h[j - 1], h[j]) == dv;
            assert(self.is_path(seq![src], src, src));
            assert(self.path_cost(seq![src]) == 0);
            assert(self.no_cheaper(src, src, dv));
            assert(du >= 0) by {
                let p = choose|p: Seq<NodeId>| #[trigger] self.is_path(p, src, h[j - 1]) && self.path_cost(p) == du;
            }
            lemma_cell(h[j - 1], h[j]);
            assert(weight_ok(self@[cell(h[j - 1], h[j])]));
        } else {
            let n1 = h1.len();
            let n2 = h2.len();
            let a = h1[n1 - 2];
            let b = h2[n2 - 2];
            assert(self.tight(src, h1[n1 - 1 - 1], h1[n1 - 1]));
            assert(self.tight(src, h2[n2 - 1 - 1], h2[n2 - 1]));
            if a < b {
                assert(!self.tight(src, a, h2[n2 - 1]));
            }
            if b < a {
                assert(!self.tight(src, b, h1[n1 - 1]));
            }
            assert(a == b);
            let q1 = h1.drop_last();
            let q2 = h2.drop_last();
            assert forall|i: int| 0 <= i < q1.len() - 1 implies #[trigger] self.has_edge(q1[i], q1[i + 1]) by {
                assert(self.has_edge(h1[i], h1[i + 1]));
            }
            assert forall|i: int| 0 <= i < q2.len() - 1 implies #[trigger] self.has_edge(q2[i], q2[i + 1]) by {
                assert(self.has_edge(h2[i], h2[i + 1]));
            }
            assert forall|j: int| 1 <= j < q1.len() implies #[trigger] self.tight(src, q1[j - 1], q1[j]) by {
                assert(self.tight(src, h1[j - 1], h1[j]));
            }
            assert forall|j: int| 1 <= j < q2.len() implies #[trigger] self.tight(src, q2[j - 1], q2[j]) by {
                assert(self.tight(src, h2[j - 1], h2[j]));
            }
            assert forall|j: int, u: NodeId| 1 <= j < q1.len() && u < q1[j - 1] implies !#[trigger] self.tight(src, u, q1[j]) by {
                assert(h1[j - 1] == q1[j - 1] && h1[j] == q1[j]);
            }
            assert forall|j: int, u: NodeId| 1 <= j < q2.len() && u < q2[j - 1] implies !#[trigger] self.tight(src, u, q2[j]) by {
                assert(h2[j - 1] == q2[j - 1] && h2[j] == q2[j]);
            }
            self.lemma_chosen_unique(q1, q2, src, a);
            assert(h1 =~= q1.push(dst));
            assert(h2 =~= q2.push(dst));
        }
    }

    pub proof fn lemma_opt_unique(&self, src: NodeId, v: NodeId, d1: int, d2: int)
        requires
            self.is_opt(src, v, d1),
            self.is_opt(src, v, d2),
        ensures
            d1 == d2,
    {
        let p1 = choose|p: Seq<NodeId>| #[trigger] self.is_path(p, src, v) && self.path_cost(p) == d1;
        let p2 = choose|p: Seq<NodeId>| #[trigger] self.is_path(p, src, v) && self.path_cost(p) == d2;
        assert(self.is_path(p1, src, v));
        assert(self.is_path(p2, src, v));
    }

    /// Whether the search's tables show `x -> v` as tight is exactly whether it is.
    proof fn lemma_check_tight(&self, dist: Seq<u64>, settled: Seq<bool>, src: NodeId, dst: NodeId, x: NodeId, v: NodeId)
        requires
            self.wf(),
            dist.len() == N_NODES,
            settled.len() == N_NODES,
            settled[v as int],
            dist[v as int] <= dist[dst as int],
            forall|y: NodeId| #[trigger] settled[y as int] ==> dist[y as int] < u64::MAX,
            self.settled_optimal(dist, settled, src),
            self.witnessed(dist, src),
            forall|t: NodeId| !#[trigger] settled[t as int] ==> self.no_cheaper(src, t, dist[dst as int] as int),
        ensures
            (settled[x as int] && self.has_edge(x, v) && dist[x as int] + self.weight(x, v) == dist[v as int])
                <==> self.tight(src, x, v),
    {
        assert(dist[v as int] < u64::MAX);
        assert(self.is_opt(src, v, dist[v as int] as int));
        if settled[x as int] && self.has_edge(x, v) && dist[x as int] + self.weight(x, v) == dist[v as int] {
            assert(dist[x as int] < u64::MAX);
            assert(self.is_opt(src, x, dist[x as int] as int));
            assert(self.tight(src, x, v));
        }
        if self.tight(src, x, v) {
            let (du, dv) = choose|du: int, dv: int| #[trigger] self.is_opt(src, x, du) && #[trigger] self.is_opt(src, v, dv)
                && du + self.weight(x, v) == dv;
            self.lemma_opt_unique(src, v, dv, dist[v as int] as int);
            lemma_cell(x, v);
            assert(weight_ok(self@[cell(x, v)]));
            assert(du < dist[dst as int]);
            if !settled[x as int] {
                assert(self.no_cheaper(src, x, dist[dst as int] as int));
                let p = choose|p: Seq<NodeId>| #[trigger] self.is_path(p, src, x) && self.path_cost(p) == du;
                assert(self.is_path(p, src, x));
            }
            assert(dist[x as int] < u64::MAX);
            assert(self.is_opt(src, x, dist[x as int] as int));
            self.lemma_opt_unique(src, x, du, dist[x as int] as int);
        }
    }

    /// The route `best_path` returns once `dst` is settled, in forward order.
    #[verifier::spinoff_prover]
    fn trace_back(&self, dist: &Vec<u64>, prev: &Vec<NodeId>, settled: &Vec<bool>, src: NodeId, dst: NodeId) -> (h: SourceRoutingHeader)
        requires
            self.wf(),
            dist@.len() == N_NODES,
            prev@.len() == N_NODES,
            settled@.len() == N_NODES,
            settled@[dst as int],
            dist@[src as int] == 0,
            forall|y: NodeId| #[trigger] settled@[y as int] ==> dist@[y as int] < u64::MAX,
            forall|x: NodeId| x != src && #[trigger] dist@[x as int] < u64::MAX ==> {
                &&& settled@[prev@[x as int] as int]
                &&& self.has_edge(prev@[x as int], x)
                &&& dist@[prev@[x as int] as int] < dist@[x as int]
                &&& dist@[prev@[x as int] as int] + self.weight(prev@[x as int], x) == dist@[x as int]
            },
            self.settled_optimal(dist@, settled@, src),
            self.witnessed(dist@, src),
            forall|t: NodeId| !#[trigger] settled@[t as int] ==> self.no_cheaper(src, t, dist@[dst as int] as int),
        ensures
            h.hop_index == 0,
            self.is_path(h.hops@, src, dst),
            h.hops@.no_duplicates(),
            self.path_cost(h.hops@) == dist@[dst as int],
            self.is_chosen_route(h.hops@, src, dst),
    {
        let rev = self.walk_back(dist, prev, settled, src, dst);
        let n = rev.len();
        let mut hops: Vec<NodeId> = Vec::new();
        let mut i: usize = n;
        while i > 0
            invariant
                i <= n,
                n == rev@.len(),
                hops@.len() == n - i,
                forall|j: int| 0 <= j < n - i ==> hops@[j] == rev@[n - 1 - j],
            decreases i,
        {
            i = i - 1;
            hops.push(rev[i]);
        }
        let h = SourceRoutingHeader { hop_index: 0, hops };
        proof {
            let hs = h.hops@;
            assert forall|k: int| 0 <= k < hs.len() - 1 implies #[trigger] self.has_edge(hs[k], hs[k + 1]) by {
                let m = n - 2 - k;
                assert(self.has_edge(rev@[m + 1], rev@[m]));
            }
            assert forall|a: int, b: int| 0 <= a < hs.len() && 0 <= b < hs.len() && a != b implies hs[a] != hs[b] by {
                let ia = n - 1 - a;
                let ib = n - 1 - b;
                if ia < ib {
                    assert(dist@[rev@[ia] as int] > dist@[rev@[ib] as int]);
                } else {
                    assert(dist@[rev@[ib] as int] > dist@[rev@[ia] as int]);
                }
            }
            assert forall|k: int| 0 <= k < hs.len() - 1 implies dist@[hs[k] as int] + self.weight(hs[k], #[trigger] hs[k + 1])
                == dist@[hs[k + 1] as int] by {
                let m = n - 2 - k;
                assert(dist@[rev@[m + 1] as int] + self.weight(rev@[m + 1], rev@[m]) == dist@[rev@[m] as int]);
            }
            self.lemma_prefix_cost(hs, dist@, src, hs.len() - 1);
            assert(hs.subrange(0, hs.len() as int) =~= hs);
            assert forall|j: int| 1 <= j < hs.len() implies #[trigger] self.tight(src, hs[j - 1], hs[j]) by {
                let m = n - 1 - j;
                assert(self.tight(src, rev@[m + 1], rev@[m]));
            }
            assert forall|j: int, u: NodeId| 1 <= j < hs.len() && u < hs[j - 1] implies !#[trigger] self.tight(src, u, hs[j]) by {
                let m = n - 1 - j;
                assert(hs[j - 1] == rev@[m + 1] && hs[j] == rev@[m]);
            }
        }
        h
    }
}

/// Strictly falling along consecutive entries means strictly falling between any two.
proof fn lemma_descending(d: Seq<u64>, r: Seq<NodeId>)
    requires
        forall|k: int| 0 <= k < r.len() - 1 ==> d[#[trigger] r[k] as int] > d[r[k + 1] as int],
    ensures
        forall|i: int, j: int| 0 <= i < j < r.len() ==> d[#[trigger] r[i] as int] > d[#[trigger] r[j] as int],
    decreases r.len(),
{
    if r.len() > 1 {
        let q = r.drop_last();
        assert forall|k: int| 0 <= k < q.len() - 1 implies d[#[trigger] q[k] as int] > d[q[k + 1] as int] by {
            assert(d[r[k] as int] > d[r[k + 1] as int]);
        }
        lemma_descending(d, q);
        assert forall|i: int, j: int| 0 <= i < j < r.len() implies d[#[trigger] r[i] as int] > d[#[trigger] r[j] as int] by {
            if j < r.len() - 1 {
                assert(d[q[i] as int] > d[q[j] as int]);
            } else {
                let m = r.len() - 2;
                assert(d[r[m] as int] > d[r[m + 1] as int]);
                if i < m {
                    assert(d[q[i] as int] > d[q[m] as int]);
                }
            }
        }
    }
}

} // verus!
