//! The keyed graph itself.
//!
//! Nodes live in slots of a `petgraph` stable graph, which keeps the shape;
//! the keys and payloads are kept beside it, node entries by slot and edge
//! payloads by edge id. A key is found by walking the node entries, a slot's
//! key by looking at its entry.
//!
//! Inserting under a key that is already in use replaces the node: the old
//! node leaves the graph together with its edges, and the key then names a
//! fresh node with the new payload. No slot is ever left without a key.

pub mod batch;
pub mod neighbours;
pub mod parts;
pub mod render;

use crate::error::NodeGraphError;
use crate::key::NodeKey;
use crate::lemmas::count_below;
use crate::lemmas::distinct_ids;
use crate::lemmas::from_others;
use crate::lemmas::lemma_count_all;
use crate::lemmas::lemma_detach_distinct;
use crate::lemmas::lemma_detach_members;
use crate::lemmas::lemma_fan_members;
use crate::lemmas::lemma_incoming;
use crate::lemmas::lemma_outgoing;
use crate::lemmas::lemma_sever_absent;
use crate::lemmas::lemma_sever_detach;
use crate::model::GraphModel;
use crate::model::anchored;
use crate::model::has_edge;
use crate::model::incoming;
use crate::model::is_latest;
use crate::model::is_route;
use crate::model::reachable;
use crate::model::outgoing;
use crate::model::sever;
use crate::topology::add_link;
use crate::topology::as_ints;
use crate::topology::detach;
use crate::topology::drop_link;
use crate::topology::drop_slot;
use crate::topology::empty_topology;
use crate::topology::entering;
use crate::topology::fan_in;
use crate::topology::fan_out;
use crate::topology::find_link;
use crate::topology::grow_slot;
use crate::topology::has_link;
use crate::topology::is_newest;
use crate::topology::is_path;
use crate::topology::reaches;
use crate::topology::joined;
use crate::topology::leaving;
use crate::topology::link_total;
use crate::topology::links;
use crate::topology::slot_total;
use crate::topology::slots;
use petgraph::Directed;
use petgraph::stable_graph::StableGraph;
use vstd::prelude::*;

verus! {

/// A directed graph with payloads on nodes and edges, whose nodes are named
/// by keys of the caller's choosing.
#[derive(Debug)]
pub struct NodeGraph<Node, Edge, NodeData> {
    graph: StableGraph<(), (), Directed, usize>,
    nodes: Vec<Option<(Node, NodeData)>>,
    edges: Vec<Option<Edge>>,
}

impl<Node: NodeKey, Edge, NodeData> View for NodeGraph<Node, Edge, NodeData> {
    type V = GraphModel<Node::V, Edge, NodeData>;

    closed spec fn view(&self) -> Self::V {
        GraphModel {
            nodes: Map::new(
                |k: Node::V| self.has_key(k),
                |k: Node::V| self.data_at(self.slot_of(k)),
            ),
            edges: links(self.graph).map_values(self.edge_fn()),
        }
    }
}

impl<Node: NodeKey, Edge, NodeData> Default for NodeGraph<Node, Edge, NodeData> {
    fn default() -> (g: Self)
        ensures
            g.wf(),
            g@.nodes == Map::<Node::V, NodeData>::empty(),
            g@.edges == Seq::<(Node::V, Node::V, Edge)>::empty(),
    {
        NodeGraph::new()
    }
}

impl<Node: NodeKey, Edge, NodeData> NodeGraph<Node, Edge, NodeData> {
    /// Whether slot `s` holds a node.
    pub closed spec fn live(&self, s: int) -> bool {
        0 <= s < self.nodes@.len() && self.nodes@[s].is_some()
    }

    /// The key of the node in slot `s`.
    pub closed spec fn key_at(&self, s: int) -> Node::V {
        self.nodes@[s].unwrap().0@
    }

    spec fn data_at(&self, s: int) -> NodeData {
        self.nodes@[s].unwrap().1
    }

    /// Whether some node goes by the key `k`.
    pub closed spec fn has_key(&self, k: Node::V) -> bool {
        exists|s: int| self.live(s) && self.key_at(s) == k
    }

    /// The slot of the node that goes by the key `k`.
    pub closed spec fn slot_of(&self, k: Node::V) -> int {
        choose|s: int| self.live(s) && self.key_at(s) == k
    }

    /// The edges as the underlying graph sees them: `(id, from, to)` over
    /// slots, the oldest first.
    pub closed spec fn topology(&self) -> Seq<(int, int, int)> {
        links(self.graph)
    }

    spec fn edge_of(&self, l: (int, int, int)) -> (Node::V, Node::V, Edge) {
        (self.key_at(l.1), self.key_at(l.2), self.edges@[l.0].unwrap())
    }

    spec fn key_fn(&self) -> spec_fn(int) -> Node::V {
        |s: int| self.key_at(s)
    }

    spec fn slot_fn(&self) -> spec_fn(Node::V) -> int {
        |k: Node::V| self.slot_of(k)
    }

    spec fn edge_fn(&self) -> spec_fn((int, int, int)) -> (Node::V, Node::V, Edge) {
        |l: (int, int, int)| self.edge_of(l)
    }

    spec fn link_ok(&self, l: (int, int, int)) -> bool {
        &&& 0 <= l.0 < self.edges@.len()
        &&& self.edges@[l.0].is_some()
        &&& self.live(l.1)
        &&& self.live(l.2)
    }

    /// The invariant of the graph: the node entries and the underlying graph
    /// agree on which slots are in use, no two nodes share a key, every edge
    /// joins two nodes and has a payload, and no two edges share an id.
    pub closed spec fn wf(&self) -> bool {
        &&& slots(self.graph).finite()
        &&& forall|s: int| slots(self.graph).contains(s) <==> self.live(s)
        &&& forall|s: int, t: int|
            self.live(s) && self.live(t) && #[trigger] self.key_at(s) == #[trigger] self.key_at(t)
                ==> s == t
        &&& forall|i: int|
            0 <= i < links(self.graph).len() ==> self.link_ok(#[trigger] links(self.graph)[i])
        &&& distinct_ids(links(self.graph))
        &&& self@.nodes.dom().finite()
        &&& self@.nodes.dom().len() == slots(self.graph).len()
    }

    /// A slot in use is the slot of its key, and holds the payload that the
    /// view gives for that key.
    proof fn lemma_slot(&self, s: int)
        requires
            self.wf(),
            self.live(s),
        ensures
            self.has_key(self.key_at(s)),
            self.slot_of(self.key_at(s)) == s,
            self@.nodes.contains_key(self.key_at(s)),
            self@.nodes[self.key_at(s)] == self.data_at(s),
    {
    }

    /// A key in use is the key of its slot.
    proof fn lemma_key(&self, k: Node::V)
        requires
            self.wf(),
            self.has_key(k),
        ensures
            self.live(self.slot_of(k)),
            self.key_at(self.slot_of(k)) == k,
    {
    }

    /// Slots and keys name the same nodes, and the topology is the edge
    /// sequence of the view with slots in place of keys.
    pub proof fn lemma_slots_and_keys(&self)
        requires
            self.wf(),
        ensures
            anchored(self@),
            forall|k: Node::V| #[trigger]
                self@.nodes.contains_key(k) <==> self.has_key(k),
            forall|k: Node::V|
                self.has_key(k) ==> self.live(#[trigger] self.slot_of(k)) && self.key_at(
                    self.slot_of(k),
                ) == k,
            forall|s: int|
                self.live(s) ==> self.has_key(#[trigger] self.key_at(s)) && self.slot_of(
                    self.key_at(s),
                ) == s,
            self.topology().len() == self@.edges.len(),
            forall|i: int|
                0 <= i < self.topology().len() ==> self.live((#[trigger] self.topology()[i]).1)
                    && self.live(self.topology()[i].2) && self@.edges[i].0 == self.key_at(
                    self.topology()[i].1,
                ) && self@.edges[i].1 == self.key_at(self.topology()[i].2),
    {
        assert forall|s: int| self.live(s) implies self.has_key(#[trigger] self.key_at(s))
            && self.slot_of(self.key_at(s)) == s by {
            self.lemma_slot(s);
        }
        assert forall|i: int| 0 <= i < self.topology().len() implies self.live(
            (#[trigger] self.topology()[i]).1,
        ) && self.live(self.topology()[i].2) && self@.edges[i].0 == self.key_at(
            self.topology()[i].1,
        ) && self@.edges[i].1 == self.key_at(self.topology()[i].2) by {
            assert(self.link_ok(links(self.graph)[i]));
        }
        assert forall|i: int| 0 <= i < self@.edges.len() implies self@.nodes.contains_key(
            (#[trigger] self@.edges[i]).0,
        ) && self@.nodes.contains_key(self@.edges[i].1) by {
            let l = links(self.graph)[i];
            assert(self.link_ok(l));
            self.lemma_slot(l.1);
            self.lemma_slot(l.2);
        }
    }

    /// How the links and the edges of the view correspond at one slot.
    proof fn lemma_ends(&self, s: int)
        requires
            self.wf(),
            self.live(s),
        ensures
            forall|i: int|
                0 <= i < links(self.graph).len() ==> ((#[trigger] links(self.graph)[i]).1 == s) == (
                (self.edge_fn())(links(self.graph)[i]).0 == self.key_at(s)) && (links(
                    self.graph,
                )[i].2 == s) == ((self.edge_fn())(links(self.graph)[i]).1 == self.key_at(s)),
    {
        assert forall|i: int| 0 <= i < links(self.graph).len() implies ((#[trigger] links(
            self.graph,
        )[i]).1 == s) == ((self.edge_fn())(links(self.graph)[i]).0 == self.key_at(s)) && (links(
            self.graph,
        )[i].2 == s) == ((self.edge_fn())(links(self.graph)[i]).1 == self.key_at(s)) by {
            assert(self.link_ok(links(self.graph)[i]));
        }
    }

    /// Links and edges between two given nodes are the same thing.
    proof fn lemma_pair(&self, a: int, b: int)
        requires
            self.wf(),
            self.live(a),
            self.live(b),
        ensures
            joined(links(self.graph), a, b) == has_edge(
                self@.edges,
                self.key_at(a),
                self.key_at(b),
            ),
            forall|i: int|
                is_newest(links(self.graph), i, a, b) == is_latest(
                    self@.edges,
                    i,
                    self.key_at(a),
                    self.key_at(b),
                ),
    {
        let ls = links(self.graph);
        let es = self@.edges;
        let (ka, kb) = (self.key_at(a), self.key_at(b));
        self.lemma_ends(a);
        self.lemma_ends(b);
        assert forall|i: int| 0 <= i < ls.len() implies ((#[trigger] ls[i]).1 == a && ls[i].2 == b)
            == (es[i].0 == ka && es[i].1 == kb) by {
            assert(es[i] == (self.edge_fn())(ls[i]));
        }
        if joined(ls, a, b) {
            let i = choose|i: int| 0 <= i < ls.len() && (#[trigger] ls[i]).1 == a && ls[i].2 == b;
            assert(es[i].0 == ka && es[i].1 == kb);
        }
        if has_edge(es, ka, kb) {
            let i = choose|i: int| 0 <= i < es.len() && (#[trigger] es[i]).0 == ka && es[i].1 == kb;
            assert(ls[i].1 == a && ls[i].2 == b);
        }
        assert forall|i: int| is_newest(ls, i, a, b) == is_latest(es, i, ka, kb) by {
            if is_newest(ls, i, a, b) {
                assert forall|j: int| i < j < es.len() implies !((#[trigger] es[j]).0 == ka
                    && es[j].1 == kb) by {
                    assert(!(ls[j].1 == a && ls[j].2 == b));
                }
            }
            if is_latest(es, i, ka, kb) {
                assert(ls[i].1 == a && ls[i].2 == b);
                assert forall|j: int| i < j < ls.len() implies !((#[trigger] ls[j]).1 == a
                    && ls[j].2 == b) by {
                    assert(!(es[j].0 == ka && es[j].1 == kb));
                }
            }
        }
    }

    /// A walk along links from a slot in use stays in slots in use, and its
    /// keys are a walk along edges.
    proof fn lemma_path_to_route(&self, a: int, p: Seq<int>)
        requires
            self.wf(),
            self.live(a),
            is_path(links(self.graph), p),
            p.first() == a,
        ensures
            forall|j: int| 0 <= j < p.len() ==> self.live(#[trigger] p[j]),
            is_route(self@.edges, p.map_values(self.key_fn())),
    {
        let ls = links(self.graph);
        let q = p.map_values(self.key_fn());
        assert forall|j: int| 0 <= j < p.len() implies self.live(#[trigger] p[j]) by {
            if j > 0 {
                assert(joined(ls, p[j - 1], p[j - 1 + 1]));
                let i = choose|i: int|
                    0 <= i < ls.len() && (#[trigger] ls[i]).1 == p[j - 1] && ls[i].2 == p[j];
                assert(self.link_ok(ls[i]));
            }
        }
        assert forall|j: int| 0 <= j < q.len() - 1 implies has_edge(
            self@.edges,
            #[trigger] q[j],
            q[j + 1],
        ) by {
            assert(joined(ls, p[j], p[j + 1]));
            assert(self.live(p[j]) && self.live(p[j + 1]));
            self.lemma_pair(p[j], p[j + 1]);
        }
    }

    /// A walk along edges from a key in use stays in keys in use, and its
    /// slots are a walk along links.
    proof fn lemma_route_to_path(&self, k: Node::V, q: Seq<Node::V>)
        requires
            self.wf(),
            self.has_key(k),
            is_route(self@.edges, q),
            q.first() == k,
        ensures
            forall|j: int| 0 <= j < q.len() ==> self.has_key(#[trigger] q[j]),
            is_path(links(self.graph), q.map_values(self.slot_fn())),
    {
        let ls = links(self.graph);
        let es = self@.edges;
        let p = q.map_values(self.slot_fn());
        self.lemma_slots_and_keys();
        assert forall|j: int| 0 <= j < q.len() implies self.has_key(#[trigger] q[j]) by {
            if j > 0 {
                assert(has_edge(es, q[j - 1], q[j - 1 + 1]));
                let i = choose|i: int|
                    0 <= i < es.len() && (#[trigger] es[i]).0 == q[j - 1] && es[i].1 == q[j];
                assert(self@.nodes.contains_key(es[i].1));
            }
        }
        assert forall|j: int| 0 <= j < p.len() - 1 implies joined(ls, #[trigger] p[j], p[j + 1]) by {
            assert(has_edge(es, q[j], q[j + 1]));
            assert(self.has_key(q[j]) && self.has_key(q[j + 1]));
            self.lemma_key(q[j]);
            self.lemma_key(q[j + 1]);
            self.lemma_pair(p[j], p[j + 1]);
        }
    }

    /// A slot that links lead to from a node is in use, and edges lead to
    /// its key.
    proof fn lemma_reach_key(&self, a: int, s: int)
        requires
            self.wf(),
            self.live(a),
            reaches(links(self.graph), a, s),
        ensures
            self.live(s),
            reachable(self@.edges, self.key_at(a), self.key_at(s)),
    {
        let p = choose|p: Seq<int>| #[trigger]
            is_path(links(self.graph), p) && p.first() == a && p.last() == s;
        self.lemma_path_to_route(a, p);
        let q = p.map_values(self.key_fn());
        assert(self.live(p[p.len() - 1]));
        assert(q.first() == self.key_at(a) && q.last() == self.key_at(s));
        assert(is_route(self@.edges, q));
    }

    /// A key that edges lead to from a node is in use, and links lead to its
    /// slot.
    proof fn lemma_reach_slot(&self, a: int, k: Node::V)
        requires
            self.wf(),
            self.live(a),
            reachable(self@.edges, self.key_at(a), k),
        ensures
            self.has_key(k),
            reaches(links(self.graph), a, self.slot_of(k)),
    {
        let q = choose|q: Seq<Node::V>| #[trigger]
            is_route(self@.edges, q) && q.first() == self.key_at(a) && q.last() == k;
        self.lemma_slot(a);
        self.lemma_route_to_path(self.key_at(a), q);
        let p = q.map_values(self.slot_fn());
        assert(self.has_key(q[q.len() - 1]));
        assert(p.first() == a && p.last() == self.slot_of(k));
        assert(is_path(links(self.graph), p));
    }

    /// No edge touches a key that is not in use.
    proof fn lemma_missing(&self, k: Node::V)
        requires
            self.wf(),
            !self.has_key(k),
        ensures
            forall|i: int|
                0 <= i < self@.edges.len() ==> (#[trigger] self@.edges[i]).0 != k
                    && self@.edges[i].1 != k,
            sever(self@.edges, k) == self@.edges,
    {
        assert forall|i: int| 0 <= i < self@.edges.len() implies (#[trigger] self@.edges[i]).0 != k
            && self@.edges[i].1 != k by {
            let l = links(self.graph)[i];
            assert(self.link_ok(l));
            self.lemma_slot(l.1);
            self.lemma_slot(l.2);
        }
        lemma_sever_absent(self@.edges, k);
    }

    /// The state after a node was put into a free slot under a new key.
    proof fn lemma_inserted(o: &Self, n: &Self, s: int, k: Node::V, d: NodeData)
        requires
            o.wf(),
            !o.live(s),
            !o.has_key(k),
            n.live(s),
            n.key_at(s) == k,
            n.data_at(s) == d,
            forall|t: int| t != s ==> n.live(t) == o.live(t),
            forall|t: int| t != s && o.live(t) ==> n.nodes@[t] == o.nodes@[t],
            n.edges@ == o.edges@,
            slots(n.graph) == slots(o.graph).insert(s),
            links(n.graph) == links(o.graph),
        ensures
            n.wf(),
            n@.nodes == o@.nodes.insert(k, d),
            n@.edges == o@.edges,
    {
        let ls = links(o.graph);
        assert forall|a: int, b: int|
            n.live(a) && n.live(b) && n.key_at(a) == n.key_at(b) implies a == b by {
            if a != s && b != s {
                assert(o.live(a) && o.live(b) && o.key_at(a) == o.key_at(b));
            } else if a != s {
                assert(o.live(a) && o.key_at(a) == k);
            } else if b != s {
                assert(o.live(b) && o.key_at(b) == k);
            }
        }
        assert forall|i: int| 0 <= i < ls.len() implies n.link_ok(#[trigger] ls[i]) && n.edge_of(
            ls[i],
        ) == o.edge_of(ls[i]) by {
            assert(o.link_ok(ls[i]));
        }
        assert(n@.edges =~= o@.edges);
        assert forall|q: Node::V| n.has_key(q) == (o.has_key(q) || q == k) by {
            if o.has_key(q) {
                let t = o.slot_of(q);
                assert(n.live(t) && n.key_at(t) == q);
            }
            if n.has_key(q) && q != k {
                let t = n.slot_of(q);
                assert(o.live(t) && o.key_at(t) == q);
            }
        }
        assert forall|q: Node::V| n.has_key(q) implies n.data_at(n.slot_of(q)) == (if q == k {
            d
        } else {
            o.data_at(o.slot_of(q))
        }) by {
            let t = n.slot_of(q);
            if q != k {
                assert(o.live(t) && o.key_at(t) == q);
                assert(o.slot_of(q) == t);
            }
        }
        assert(n@.nodes =~= o@.nodes.insert(k, d));
        assert(!o@.nodes.dom().contains(k));
        assert(n@.nodes.dom() =~= o@.nodes.dom().insert(k));
    }

    /// The state after the node in slot `s` was taken out.
    proof fn lemma_removed(o: &Self, n: &Self, s: int)
        requires
            o.wf(),
            o.live(s),
            !n.live(s),
            forall|t: int| t != s ==> n.live(t) == o.live(t),
            forall|t: int| t != s && o.live(t) ==> n.nodes@[t] == o.nodes@[t],
            n.edges@.len() == o.edges@.len(),
            forall|i: int|
                0 <= i < links(o.graph).len() && (#[trigger] links(o.graph)[i]).1 != s && links(
                    o.graph,
                )[i].2 != s ==> n.edges@[links(o.graph)[i].0] == o.edges@[links(o.graph)[i].0],
            slots(n.graph) == slots(o.graph).remove(s),
            links(n.graph) == detach(links(o.graph), s),
        ensures
            n.wf(),
            n@.nodes == o@.nodes.remove(o.key_at(s)),
            n@.edges == sever(o@.edges, o.key_at(s)),
            !n@.nodes.contains_key(o.key_at(s)),
    {
        let lo = links(o.graph);
        let ln = links(n.graph);
        let k = o.key_at(s);
        lemma_detach_members(lo, s);
        lemma_detach_distinct(lo, s);
        assert forall|a: int, b: int|
            n.live(a) && n.live(b) && n.key_at(a) == n.key_at(b) implies a == b by {
            assert(o.live(a) && o.live(b) && o.key_at(a) == o.key_at(b));
        }
        assert forall|j: int| 0 <= j < ln.len() implies n.link_ok(#[trigger] ln[j]) && n.edge_of(
            ln[j],
        ) == o.edge_of(ln[j]) by {
            let x = ln[j];
            assert(lo.contains(x));
            let i = choose|i: int| 0 <= i < lo.len() && lo[i] == x;
            assert(o.link_ok(lo[i]));
        }
        o.lemma_ends(s);
        lemma_sever_detach(lo, o.edge_fn(), s, k);
        assert(ln.map_values(n.edge_fn()) =~= ln.map_values(o.edge_fn()));
        assert forall|q: Node::V| n.has_key(q) == (o.has_key(q) && q != k) by {
            if o.has_key(q) && q != k {
                let t = o.slot_of(q);
                assert(n.live(t) && n.key_at(t) == q);
            }
            if n.has_key(q) {
                let t = n.slot_of(q);
                assert(o.live(t) && o.key_at(t) == q);
            }
        }
        assert forall|q: Node::V| n.has_key(q) implies n.data_at(n.slot_of(q)) == o.data_at(
            o.slot_of(q),
        ) by {
            let t = n.slot_of(q);
            assert(o.live(t) && o.key_at(t) == q);
            assert(o.slot_of(q) == t);
        }
        assert(n@.nodes =~= o@.nodes.remove(k));
        o.lemma_slot(s);
        assert(n@.nodes.dom() =~= o@.nodes.dom().remove(k));
    }

    /// The state after a link from `a` to `b` was added under the id `e`.
    proof fn lemma_linked(o: &Self, n: &Self, e: int, a: int, b: int, w: Edge)
        requires
            o.wf(),
            o.live(a),
            o.live(b),
            n.nodes@ == o.nodes@,
            0 <= e < n.edges@.len(),
            n.edges@[e] == Some(w),
            forall|t: int| 0 <= t < o.edges@.len() && t != e ==> 0 <= t < n.edges@.len()
                && n.edges@[t] == o.edges@[t],
            forall|i: int| 0 <= i < links(o.graph).len() ==> (#[trigger] links(o.graph)[i]).0 != e,
            links(n.graph) == links(o.graph).push((e, a, b)),
            slots(n.graph) == slots(o.graph),
        ensures
            n.wf(),
            n@.nodes == o@.nodes,
            n@.edges == o@.edges.push((o.key_at(a), o.key_at(b), w)),
    {
        let lo = links(o.graph);
        let ln = links(n.graph);
        assert forall|s: int| n.live(s) == o.live(s) by {}
        assert forall|s: int, t: int|
            n.live(s) && n.live(t) && #[trigger] n.key_at(s) == #[trigger] n.key_at(
                t,
            ) implies s == t by {
            assert(o.key_at(s) == o.key_at(t));
        }
        assert forall|q: Node::V| n.has_key(q) == o.has_key(q) by {
            if o.has_key(q) {
                let t = o.slot_of(q);
                assert(n.live(t) && n.key_at(t) == q);
            }
            if n.has_key(q) {
                let t = n.slot_of(q);
                assert(o.live(t) && o.key_at(t) == q);
            }
        }
        assert forall|q: Node::V| n.has_key(q) implies n.data_at(n.slot_of(q)) == o.data_at(
            o.slot_of(q),
        ) by {
            let t = n.slot_of(q);
            assert(o.live(t) && o.key_at(t) == q);
            assert(o.slot_of(q) == t);
        }
        assert(n@.nodes =~= o@.nodes);
        assert forall|i: int| 0 <= i < ln.len() implies n.link_ok(#[trigger] ln[i]) by {
            if i < lo.len() {
                assert(ln[i] == lo[i]);
                assert(o.link_ok(lo[i]));
            }
        }
        assert forall|i: int, j: int| 0 <= i < j < ln.len() implies (#[trigger] ln[i]).0 != (
        #[trigger] ln[j]).0 by {
            assert(ln[i] == lo[i]);
            if j < lo.len() {
                assert(ln[j] == lo[j]);
            }
        }
        assert forall|i: int| 0 <= i < lo.len() implies n.edge_of(#[trigger] lo[i]) == o.edge_of(
            lo[i],
        ) by {
            assert(o.link_ok(lo[i]));
        }
        assert(n@.edges =~= o@.edges.push((o.key_at(a), o.key_at(b), w))) by {
            assert forall|i: int| 0 <= i < ln.len() implies n@.edges[i] == o@.edges.push(
                (o.key_at(a), o.key_at(b), w),
            )[i] by {
                if i < lo.len() {
                    assert(ln[i] == lo[i]);
                    assert(n.edge_of(lo[i]) == o.edge_of(lo[i]));
                }
            }
        }
    }

    /// The state after the link at place `i` was taken out.
    proof fn lemma_unlinked(o: &Self, n: &Self, i: int)
        requires
            o.wf(),
            0 <= i < links(o.graph).len(),
            n.nodes@ == o.nodes@,
            n.edges@ == o.edges@.update(links(o.graph)[i].0, None),
            links(n.graph) == links(o.graph).remove(i),
            slots(n.graph) == slots(o.graph),
        ensures
            n.wf(),
            n@.nodes == o@.nodes,
            n@.edges == o@.edges.remove(i),
    {
        let lo = links(o.graph);
        let ln = links(n.graph);
        assert forall|s: int| n.live(s) == o.live(s) by {}
        assert forall|s: int, t: int|
            n.live(s) && n.live(t) && #[trigger] n.key_at(s) == #[trigger] n.key_at(
                t,
            ) implies s == t by {
            assert(o.key_at(s) == o.key_at(t));
        }
        assert forall|q: Node::V| n.has_key(q) == o.has_key(q) by {
            if o.has_key(q) {
                let t = o.slot_of(q);
                assert(n.live(t) && n.key_at(t) == q);
            }
            if n.has_key(q) {
                let t = n.slot_of(q);
                assert(o.live(t) && o.key_at(t) == q);
            }
        }
        assert forall|q: Node::V| n.has_key(q) implies n.data_at(n.slot_of(q)) == o.data_at(
            o.slot_of(q),
        ) by {
            let t = n.slot_of(q);
            assert(o.live(t) && o.key_at(t) == q);
            assert(o.slot_of(q) == t);
        }
        assert(n@.nodes =~= o@.nodes);
        assert(o.link_ok(lo[i]));
        assert forall|j: int| 0 <= j < ln.len() implies n.link_ok(#[trigger] ln[j]) && n.edge_of(
            ln[j],
        ) == o.edge_of(ln[j]) && ln[j] == lo[if j < i { j } else { j + 1 }] by {
            let p = if j < i { j } else { j + 1 };
            assert(ln[j] == lo[p]);
            assert(o.link_ok(lo[p]));
            assert(lo[p].0 != lo[i].0);
        }
        assert forall|j: int, m: int| 0 <= j < m < ln.len() implies (#[trigger] ln[j]).0 != (
        #[trigger] ln[m]).0 by {
            let p = if j < i { j } else { j + 1 };
            let q = if m < i { m } else { m + 1 };
            assert(ln[j] == lo[p] && ln[m] == lo[q]);
        }
        assert(n@.edges =~= o@.edges.remove(i));
    }

    spec fn live_below(&self, n: int) -> Set<int> {
        Set::new(|t: int| 0 <= t < n && self.live(t))
    }

    /// Counting the slots in use one by one.
    proof fn lemma_live_step(&self, s: int)
        requires
            0 <= s,
            self.live_below(s).finite(),
        ensures
            self.live_below(s + 1).finite(),
            self.live_below(s + 1).len() == self.live_below(s).len() + (if self.live(s) {
                1int
            } else {
                0int
            }),
    {
        if self.live(s) {
            assert(self.live_below(s + 1) =~= self.live_below(s).insert(s));
        } else {
            assert(self.live_below(s + 1) =~= self.live_below(s));
        }
    }

    /// Counted up to the end, the slots in use are as many as the keys.
    proof fn lemma_counted_slots(&self)
        requires
            self.wf(),
        ensures
            self.live_below(0).finite(),
            self.live_below(0).len() == 0,
            self.live_below(self.nodes@.len() as int) == slots(self.graph),
            slots(self.graph).len() == self@.nodes.dom().len(),
    {
        assert(self.live_below(0) =~= Set::<int>::empty());
        assert(self.live_below(self.nodes@.len() as int) =~= slots(self.graph));
    }

    /// Counted up to the end, the links that leave slots in use are as many
    /// as the edges.
    proof fn lemma_counted_links(&self)
        requires
            self.wf(),
        ensures
            count_below(links(self.graph), 0) == 0,
            count_below(links(self.graph), self.nodes@.len() as int) == self@.edges.len(),
    {
        assert forall|i: int| 0 <= i < links(self.graph).len() implies 0 <= (#[trigger] links(
            self.graph,
        )[i]).1 < self.nodes@.len() by {
            assert(self.link_ok(links(self.graph)[i]));
        }
        lemma_count_all(links(self.graph), self.nodes@.len() as int);
    }

    /// No link leaves a slot that holds no node.
    proof fn lemma_no_fan(&self, s: int)
        requires
            self.wf(),
            !self.live(s),
        ensures
            fan_out(links(self.graph), s).len() == 0,
    {
        let ls = links(self.graph);
        lemma_fan_members(ls, s);
        if fan_out(ls, s).len() > 0 {
            let p = fan_out(ls, s)[0];
            assert(ls.contains((p.0, s, p.1)));
            let i = choose|i: int| 0 <= i < ls.len() && ls[i] == (p.0, s, p.1);
            assert(self.link_ok(ls[i]));
        }
    }

    /// A graph without nodes or edges.
    pub fn new() -> (g: Self)
        ensures
            g.wf(),
            g@.nodes == Map::<Node::V, NodeData>::empty(),
            g@.edges == Seq::<(Node::V, Node::V, Edge)>::empty(),
    {
        let g = NodeGraph { graph: empty_topology(), nodes: Vec::new(), edges: Vec::new() };
        proof {
            assert(g@.nodes =~= Map::<Node::V, NodeData>::empty());
            assert(g@.edges =~= Seq::<(Node::V, Node::V, Edge)>::empty());
        }
        g
    }

    /// The slot of the node that goes by `id`, if there is one.
    fn slot_for(&self, id: &Node) -> (r: Option<usize>)
        requires
            self.wf(),
        ensures
            match r {
                Some(s) => self.live(s as int) && self.key_at(s as int) == id@ && self.has_key(id@)
                    && self.slot_of(id@) == s,
                None => !self.has_key(id@),
            },
            r.is_some() == self@.nodes.contains_key(id@),
    {
        let mut i: usize = 0;
        while i < self.nodes.len()
            invariant
                self.wf(),
                i <= self.nodes@.len(),
                forall|s: int| 0 <= s < i && self.live(s) ==> self.key_at(s) != id@,
            decreases self.nodes@.len() - i,
        {
            match &self.nodes[i] {
                Some(entry) => {
                    if entry.0.same(id) {
                        proof {
                            self.lemma_slot(i as int);
                        }
                        return Some(i);
                    }
                },
                None => {},
            }
            i += 1;
        }
        None
    }

    /// Whether a node goes by `id`.
    pub fn contains_node(&self, id: &Node) -> (r: bool)
        requires
            self.wf(),
        ensures
            r == self@.nodes.contains_key(id@),
    {
        self.slot_for(id).is_some()
    }

    /// The payload of the node that goes by `id`, if there is one.
    pub fn node_data(&self, id: &Node) -> (r: Option<&NodeData>)
        requires
            self.wf(),
        ensures
            match r {
                Some(d) => self@.nodes.contains_key(id@) && *d == self@.nodes[id@],
                None => !self@.nodes.contains_key(id@),
            },
    {
        match self.slot_for(id) {
            Some(s) => {
                match &self.nodes[s] {
                    Some(entry) => Some(&entry.1),
                    None => None,
                }
            },
            None => None,
        }
    }

    /// Drops the payloads kept under the edge ids of `pairs`: each place of
    /// the payload list that one of the ids names is emptied, and the other
    /// places stay as they are.
    fn forget(&mut self, pairs: &Vec<(usize, usize)>)
        ensures
            final(self).graph == old(self).graph,
            final(self).nodes == old(self).nodes,
            final(self).edges@.len() == old(self).edges@.len(),
            forall|j: int|
                0 <= j < pairs@.len() && (#[trigger] pairs@[j]).0 < old(self).edges@.len()
                    ==> final(self).edges@[pairs@[j].0 as int].is_none(),
            forall|t: int|
                0 <= t < old(self).edges@.len() && (forall|j: int|
                    0 <= j < pairs@.len() ==> (#[trigger] pairs@[j]).0 != t)
                    ==> final(self).edges@[t] == old(self).edges@[t],
    {
        let mut j: usize = 0;
        while j < pairs.len()
            invariant
                j <= pairs@.len(),
                self.graph == old(self).graph,
                self.nodes == old(self).nodes,
                self.edges@.len() == old(self).edges@.len(),
                forall|i: int|
                    0 <= i < j && (#[trigger] pairs@[i]).0 < self.edges@.len()
                        ==> self.edges@[pairs@[i].0 as int].is_none(),
                forall|t: int|
                    0 <= t < old(self).edges@.len() && (forall|j: int|
                        0 <= j < pairs@.len() ==> (#[trigger] pairs@[j]).0 != t)
                        ==> self.edges@[t] == old(self).edges@[t],
            decreases pairs@.len() - j,
        {
            let e = pairs[j].0;
            if e < self.edges.len() {
                self.edges.set(e, None);
            }
            j += 1;
        }
    }

    /// Takes the node in slot `s` out of the graph, with every edge at it.
    fn evict(&mut self, s: usize) -> (d: NodeData)
        requires
            old(self).wf(),
            old(self).live(s as int),
        ensures
            final(self).wf(),
            d == old(self)@.nodes[old(self).key_at(s as int)],
            final(self)@.nodes == old(self)@.nodes.remove(old(self).key_at(s as int)),
            final(self)@.edges == sever(old(self)@.edges, old(self).key_at(s as int)),
            !final(self)@.nodes.contains_key(old(self).key_at(s as int)),
    {
        let ghost o = *self;
        let out = leaving(&self.graph, s);
        let inc = entering(&self.graph, s);
        let was = drop_slot(&mut self.graph, s);
        let mut cell: Option<(Node, NodeData)> = None;
        self.nodes.set_and_swap(s, &mut cell);
        self.forget(&out);
        self.forget(&inc);
        proof {
            let lo = links(o.graph);
            lemma_fan_members(lo, s as int);
            assert forall|i: int|
                0 <= i < lo.len() && (#[trigger] lo[i]).1 != s && lo[i].2 != s implies self.edges@[lo[i].0]
                == o.edges@[lo[i].0] by {
                assert(o.link_ok(lo[i]));
                assert forall|j: int| 0 <= j < out@.len() implies (#[trigger] out@[j]).0 != lo[i].0 by {
                    assert(as_ints(out@)[j] == (out@[j].0 as int, out@[j].1 as int));
                    let p = fan_out(lo, s as int)[j];
                    assert(lo.contains((p.0, s as int, p.1)));
                    let m = choose|m: int| 0 <= m < lo.len() && lo[m] == (p.0, s as int, p.1);
                    assert(m != i);
                }
                assert forall|j: int| 0 <= j < inc@.len() implies (#[trigger] inc@[j]).0 != lo[i].0 by {
                    assert(as_ints(inc@)[j] == (inc@[j].0 as int, inc@[j].1 as int));
                    let p = fan_in(lo, s as int)[j];
                    assert(lo.contains((p.0, p.1, s as int)));
                    let m = choose|m: int| 0 <= m < lo.len() && lo[m] == (p.0, p.1, s as int);
                    assert(m != i);
                }
            }
            o.lemma_slot(s as int);
            Self::lemma_removed(&o, self, s as int);
        }
        cell.unwrap().1
    }

    /// Puts a node with the payload `data` under the key `id` and hands the
    /// key back. Where the key was in use, the node that went by it is
    /// replaced: it leaves the graph with all its edges first.
    pub fn add_node(&mut self, id: Node, data: NodeData) -> (r: Node)
        requires
            old(self).wf(),
        ensures
            final(self).wf(),
            r == id,
            final(self)@.nodes == old(self)@.nodes.insert(id@, data),
            final(self)@.nodes.contains_key(id@),
            final(self)@.nodes[id@] == data,
            final(self)@.edges == sever(old(self)@.edges, id@),
            !old(self)@.nodes.contains_key(id@) ==> final(self)@.edges == old(self)@.edges,
    {
        let ghost d = data;
        match self.slot_for(&id) {
            Some(s) => {
                let _ = self.evict(s);
            },
            None => {
                proof {
                    self.lemma_missing(id@);
                }
            },
        }
        let ghost mid = *self;
        assert(mid@.nodes =~= old(self)@.nodes.remove(id@));
        let s = grow_slot(&mut self.graph);
        let ghost grown = self.graph;
        while self.nodes.len() <= s
            invariant
                self.graph == grown,
                self.edges == mid.edges,
                self.nodes@.len() >= mid.nodes@.len(),
                forall|t: int| 0 <= t < mid.nodes@.len() ==> self.nodes@[t] == mid.nodes@[t],
                forall|t: int| mid.nodes@.len() <= t < self.nodes@.len() ==> self.nodes@[t].is_none(),
            decreases s + 1 - self.nodes@.len(),
        {
            self.nodes.push(None);
        }
        let key = id.duplicate();
        self.nodes.set(s, Some((key, data)));
        proof {
            Self::lemma_inserted(&mid, self, s as int, id@, d);
            assert(self@.nodes =~= old(self)@.nodes.insert(id@, d));
        }
        id
    }

    /// Takes the node that goes by `id` out of the graph, with every edge at
    /// it, and hands its payload back. Where no node goes by `id`, nothing
    /// changes.
    pub fn remove_node(&mut self, id: Node) -> (r: Option<NodeData>)
        requires
            old(self).wf(),
        ensures
            final(self).wf(),
            !final(self)@.nodes.contains_key(id@),
            forall|i: int|
                0 <= i < final(self)@.edges.len() ==> (#[trigger] final(self)@.edges[i]).0 != id@
                    && final(self)@.edges[i].1 != id@,
            match r {
                Some(d) => old(self)@.nodes.contains_key(id@) && d == old(self)@.nodes[id@]
                    && final(self)@.nodes == old(self)@.nodes.remove(id@) && final(self)@.edges
                    == sever(old(self)@.edges, id@),
                None => !old(self)@.nodes.contains_key(id@) && final(self)@ == old(self)@,
            },
    {
        let r = match self.slot_for(&id) {
            Some(s) => Some(self.evict(s)),
            None => None,
        };
        proof {
            self.lemma_missing(id@);
        }
        r
    }

    /// Adds an edge from the node `from` to the node `to`, as the newest
    /// edge. Where either key is not in use, nothing changes and the answer
    /// is `NodeNotFound`.
    pub fn add_edge(&mut self, from: Node, to: Node, value: Edge) -> (r: Result<(), NodeGraphError>)
        requires
            old(self).wf(),
        ensures
            final(self).wf(),
            final(self)@.nodes == old(self)@.nodes,
            match r {
                Ok(_) => old(self)@.nodes.contains_key(from@) && old(self)@.nodes.contains_key(to@)
                    && final(self)@.edges == old(self)@.edges.push((from@, to@, value)),
                Err(e) => !(old(self)@.nodes.contains_key(from@) && old(self)@.nodes.contains_key(
                    to@,
                )) && e == NodeGraphError::NodeNotFound && final(self)@.edges == old(self)@.edges,
            },
    {
        let a = match self.slot_for(&from) {
            Some(a) => a,
            None => {
                return Err(NodeGraphError::NodeNotFound);
            },
        };
        let b = match self.slot_for(&to) {
            Some(b) => b,
            None => {
                return Err(NodeGraphError::NodeNotFound);
            },
        };
        let ghost o = *self;
        let ghost w = value;
        let e = add_link(&mut self.graph, a, b);
        let ghost grown = self.graph;
        while self.edges.len() <= e
            invariant
                self.graph == grown,
                self.nodes == o.nodes,
                self.edges@.len() >= o.edges@.len(),
                forall|t: int| 0 <= t < o.edges@.len() ==> self.edges@[t] == o.edges@[t],
            decreases e + 1 - self.edges@.len(),
        {
            self.edges.push(None);
        }
        self.edges.set(e, Some(value));
        proof {
            Self::lemma_linked(&o, self, e as int, a as int, b as int, w);
        }
        Ok(())
    }

    /// Takes the newest edge from `from` to `to` out of the graph and hands
    /// its payload back. Where there is no such edge, nothing changes.
    pub fn remove_edge(&mut self, from: Node, to: Node) -> (r: Option<Edge>)
        requires
            old(self).wf(),
        ensures
            final(self).wf(),
            final(self)@.nodes == old(self)@.nodes,
            match r {
                Some(w) => exists|i: int| #[trigger]
                    is_latest(old(self)@.edges, i, from@, to@) && w == old(self)@.edges[i].2
                        && final(self)@.edges == old(self)@.edges.remove(i),
                None => !has_edge(old(self)@.edges, from@, to@) && final(self)@.edges == old(
                    self,
                )@.edges,
            },
    {
        let a = match self.slot_for(&from) {
            Some(a) => a,
            None => {
                proof {
                    self.lemma_missing(from@);
                }
                return None;
            },
        };
        let b = match self.slot_for(&to) {
            Some(b) => b,
            None => {
                proof {
                    self.lemma_missing(to@);
                }
                return None;
            },
        };
        proof {
            self.lemma_pair(a as int, b as int);
        }
        match find_link(&self.graph, a, b) {
            Some(e) => {
                let ghost o = *self;
                let ghost lo = links(o.graph);
                let ghost i = choose|i: int| #[trigger]
                    is_newest(lo, i, a as int, b as int) && lo[i].0 == e;
                assert(o.link_ok(lo[i]));
                let was = drop_link(&mut self.graph, e);
                let mut cell: Option<Edge> = None;
                self.edges.set_and_swap(e, &mut cell);
                proof {
                    assert(was);
                    let m = choose|m: int|
                        0 <= m < lo.len() && (#[trigger] lo[m]).0 == e && links(self.graph)
                            == lo.remove(m);
                    assert(m == i);
                    Self::lemma_unlinked(&o, self, i);
                    assert(is_latest(o@.edges, i, from@, to@));
                }
                cell
            },
            None => None,
        }
    }

    /// Whether an edge runs from the node `from` to the node `to`.
    pub fn contains_edge(&self, from: &Node, to: &Node) -> (r: bool)
        requires
            self.wf(),
        ensures
            r == has_edge(self@.edges, from@, to@),
    {
        let a = match self.slot_for(from) {
            Some(a) => a,
            None => {
                proof {
                    self.lemma_missing(from@);
                }
                return false;
            },
        };
        let b = match self.slot_for(to) {
            Some(b) => b,
            None => {
                proof {
                    self.lemma_missing(to@);
                }
                return false;
            },
        };
        proof {
            self.lemma_pair(a as int, b as int);
        }
        has_link(&self.graph, a, b)
    }

    /// Whether the graph holds no node.
    pub fn is_empty(&self) -> (r: bool)
        requires
            self.wf(),
        ensures
            r == (self@.nodes.dom().len() == 0),
            r == (self@.nodes == Map::<Node::V, NodeData>::empty()),
    {
        proof {
            if self@.nodes.dom().len() == 0 {
                assert(self@.nodes =~= Map::<Node::V, NodeData>::empty());
            }
        }
        slot_total(&self.graph) == 0
    }

    /// How many nodes the graph holds.
    pub fn node_count(&self) -> (n: usize)
        requires
            self.wf(),
        ensures
            n == self@.nodes.dom().len(),
    {
        slot_total(&self.graph)
    }

    /// How many edges the graph holds.
    pub fn edge_count(&self) -> (n: usize)
        requires
            self.wf(),
        ensures
            n == self@.edges.len(),
    {
        link_total(&self.graph)
    }
}

impl<Node: NodeKey, Edge, NodeData> NodeGraph<Node, Edge, NodeData> {
    /// What holds of the index pairs that the fans of a node give.
    proof fn lemma_fans(&self, a: int, pairs: Seq<(usize, usize)>, outward: bool)
        requires
            self.wf(),
            self.live(a),
            outward ==> as_ints(pairs) == fan_out(links(self.graph), a),
            !outward ==> as_ints(pairs) == fan_in(links(self.graph), a),
        ensures
            forall|j: int|
                0 <= j < pairs.len() ==> (#[trigger] pairs[j]).0 < self.edges@.len()
                    && self.edges@[pairs[j].0 as int].is_some() && self.live(pairs[j].1 as int),
    {
        let ls = links(self.graph);
        lemma_fan_members(ls, a);
        assert forall|j: int|
            0 <= j < pairs.len() implies (#[trigger] pairs[j]).0 < self.edges@.len()
            && self.edges@[pairs[j].0 as int].is_some() && self.live(pairs[j].1 as int) by {
            assert(as_ints(pairs)[j] == (pairs[j].0 as int, pairs[j].1 as int));
            if outward {
                let p = fan_out(ls, a)[j];
                assert(ls.contains((p.0, a, p.1)));
                let i = choose|i: int| 0 <= i < ls.len() && ls[i] == (p.0, a, p.1);
                assert(self.link_ok(ls[i]));
            } else {
                let p = fan_in(ls, a)[j];
                assert(ls.contains((p.0, p.1, a)));
                let i = choose|i: int| 0 <= i < ls.len() && ls[i] == (p.0, p.1, a);
                assert(self.link_ok(ls[i]));
            }
        }
    }

    /// The outgoing edges of a node, read off the fan-out of its slot.
    proof fn lemma_out_view(&self, a: int)
        requires
            self.wf(),
            self.live(a),
        ensures
            outgoing(self@.edges, self.key_at(a)).len() == fan_out(links(self.graph), a).len(),
            forall|j: int|
                0 <= j < fan_out(links(self.graph), a).len() ==> (#[trigger] outgoing(
                    self@.edges,
                    self.key_at(a),
                )[j]) == (
                    self.key_at(fan_out(links(self.graph), a)[j].1),
                    self.edges@[fan_out(links(self.graph), a)[j].0].unwrap(),
                ),
    {
        let ls = links(self.graph);
        self.lemma_ends(a);
        lemma_outgoing(ls, self.edge_fn(), a, self.key_at(a));
        assert forall|j: int| 0 <= j < fan_out(ls, a).len() implies (#[trigger] outgoing(
            self@.edges,
            self.key_at(a),
        )[j]) == (self.key_at(fan_out(ls, a)[j].1), self.edges@[fan_out(ls, a)[j].0].unwrap()) by {
            let p = fan_out(ls, a)[j];
            assert((self.edge_fn())((p.0, a, p.1)) == self.edge_of((p.0, a, p.1)));
        }
    }

    /// The incoming edges of a node, read off the fan-in of its slot.
    proof fn lemma_in_view(&self, a: int)
        requires
            self.wf(),
            self.live(a),
        ensures
            incoming(self@.edges, self.key_at(a)).len() == from_others(
                fan_in(links(self.graph), a),
                a,
            ).len(),
            forall|j: int|
                0 <= j < from_others(fan_in(links(self.graph), a), a).len() ==> (
                #[trigger] incoming(self@.edges, self.key_at(a))[j]) == (
                    self.key_at(from_others(fan_in(links(self.graph), a), a)[j].1),
                    self.edges@[from_others(fan_in(links(self.graph), a), a)[j].0].unwrap(),
                ),
    {
        let ls = links(self.graph);
        self.lemma_ends(a);
        lemma_incoming(ls, self.edge_fn(), a, self.key_at(a));
        let kept = from_others(fan_in(ls, a), a);
        assert forall|j: int| 0 <= j < kept.len() implies (#[trigger] incoming(
            self@.edges,
            self.key_at(a),
        )[j]) == (self.key_at(kept[j].1), self.edges@[kept[j].0].unwrap()) by {
            let p = kept[j];
            assert((self.edge_fn())((p.0, p.1, a)) == self.edge_of((p.0, p.1, a)));
        }
    }

}

} // verus!
