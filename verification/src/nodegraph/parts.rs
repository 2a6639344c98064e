//! The graph as plain lists of nodes and edges, and back: the form in which
//! a graph is stored or sent.

use crate::error::NodeGraphError;
use crate::key::NodeKey;
use crate::lemmas::count_below;
use crate::lemmas::lemma_count_step;
use crate::lemmas::lemma_fan_members;
use crate::lemmas::lemma_fan_out_complete;
use crate::model::GraphModel;
use crate::model::anchored;
use crate::model::empty_model;
use crate::model::has_edge;
use crate::model::lemma_put_all_fresh;
use crate::model::put_all;
use crate::nodegraph::NodeGraph;
use crate::nodegraph::batch::ends_known;
use crate::nodegraph::batch::keys_of;
use crate::nodegraph::batch::payloads_cloned;
use crate::topology::as_ints;
use crate::topology::fan_out;
use crate::topology::leaving;
use crate::topology::links;
use vstd::prelude::*;

verus! {

/// Whether a list names every node of `nodes` once, each with a clone of its
/// payload.
pub open spec fn lists_nodes<Node: NodeKey, NodeData: Clone>(
    nodes: Map<Node::V, NodeData>,
    list: Seq<(Node, NodeData)>,
) -> bool {
    &&& forall|j: int|
        0 <= j < list.len() ==> nodes.contains_key((#[trigger] list[j]).0@) && cloned(
            nodes[list[j].0@],
            list[j].1,
        )
    &&& forall|i: int, j: int|
        0 <= i < j < list.len() ==> (#[trigger] list[i]).0@ != (#[trigger] list[j]).0@
    &&& forall|k: Node::V|
        nodes.contains_key(k) ==> exists|j: int| 0 <= j < list.len() && (#[trigger] list[j]).0@ == k
}

/// Whether an entry of a list stands for an edge: the same ends, and a clone
/// of its payload.
pub open spec fn edge_listed<Node: NodeKey, Edge: Clone>(
    edge: (Node::V, Node::V, Edge),
    entry: (Node, Node, Edge),
) -> bool {
    edge.0 == entry.0@ && edge.1 == entry.1@ && cloned(edge.2, entry.2)
}

/// Whether an entry of a list stands for some edge of `edges`.
pub open spec fn entry_is_edge<Node: NodeKey, Edge: Clone>(
    edges: Seq<(Node::V, Node::V, Edge)>,
    entry: (Node, Node, Edge),
) -> bool {
    exists|i: int| 0 <= i < edges.len() && #[trigger] edge_listed(edges[i], entry)
}

/// Whether some entry of a list stands for an edge.
pub open spec fn edge_has_entry<Node: NodeKey, Edge: Clone>(
    edge: (Node::V, Node::V, Edge),
    list: Seq<(Node, Node, Edge)>,
) -> bool {
    exists|j: int| 0 <= j < list.len() && #[trigger] edge_listed(edge, list[j])
}

/// Whether every entry of a list stands for an edge of `edges`, and every
/// edge has an entry.
pub open spec fn lists_edges<Node: NodeKey, Edge: Clone>(
    edges: Seq<(Node::V, Node::V, Edge)>,
    list: Seq<(Node, Node, Edge)>,
) -> bool {
    &&& forall|j: int| 0 <= j < list.len() ==> entry_is_edge(edges, #[trigger] list[j])
    &&& forall|i: int| 0 <= i < edges.len() ==> edge_has_entry(#[trigger] edges[i], list)
}

/// Whether a key is the key of some entry of a list of nodes.
pub open spec fn key_listed<Node: NodeKey, NodeData>(list: Seq<(Node, NodeData)>, k: Node::V) -> bool {
    exists|j: int| 0 <= j < list.len() && (#[trigger] list[j]).0@ == k
}

/// Whether `m` is what a list of nodes and a list of edges give when they
/// are loaded into an empty graph: the keys of the list, each with a clone
/// of the payload of its last entry, and the edges of the list in its order,
/// each with a clone of its payload.
pub open spec fn loaded<Node: NodeKey, Edge: Clone, NodeData: Clone>(
    nodes: Seq<(Node, NodeData)>,
    edges: Seq<(Node, Node, Edge)>,
    m: GraphModel<Node::V, Edge, NodeData>,
) -> bool {
    &&& forall|k: Node::V| m.nodes.contains_key(k) <==> key_listed(nodes, k)
    &&& forall|j: int|
        0 <= j < nodes.len() && (forall|l: int| j < l < nodes.len() ==> nodes[l].0@ != nodes[j].0@)
            ==> cloned((#[trigger] nodes[j]).1, m.nodes[nodes[j].0@])
    &&& m.edges.len() == edges.len()
    &&& forall|i: int|
        0 <= i < edges.len() ==> (#[trigger] m.edges[i]).0 == edges[i].0@ && m.edges[i].1
            == edges[i].1@ && cloned(edges[i].2, m.edges[i].2)
}

/// A graph that was taken apart into lists and loaded again has the same
/// keys, under each key a clone of a clone of the payload, and an edge
/// between two keys exactly where the graph had one.
pub proof fn lemma_parts_round_trip<Node: NodeKey, Edge: Clone, NodeData: Clone>(
    before: GraphModel<Node::V, Edge, NodeData>,
    nodes: Seq<(Node, NodeData)>,
    edges: Seq<(Node, Node, Edge)>,
    after: GraphModel<Node::V, Edge, NodeData>,
)
    requires
        lists_nodes(before.nodes, nodes),
        lists_edges(before.edges, edges),
        loaded(nodes, edges, after),
    ensures
        forall|k: Node::V| after.nodes.contains_key(k) == before.nodes.contains_key(k),
        forall|k: Node::V|
            before.nodes.contains_key(k) ==> exists|d: NodeData|
                cloned(before.nodes[k], d) && #[trigger] cloned(d, after.nodes[k]),
        forall|a: Node::V, b: Node::V| has_edge(after.edges, a, b) == has_edge(before.edges, a, b),
{
    assert forall|k: Node::V| after.nodes.contains_key(k) == before.nodes.contains_key(k) by {
        if key_listed(nodes, k) {
            let j = choose|j: int| 0 <= j < nodes.len() && (#[trigger] nodes[j]).0@ == k;
            assert(before.nodes.contains_key(nodes[j].0@));
        }
    }
    assert forall|k: Node::V| before.nodes.contains_key(k) implies exists|d: NodeData|
        cloned(before.nodes[k], d) && #[trigger] cloned(d, after.nodes[k]) by {
        let j = choose|j: int| 0 <= j < nodes.len() && (#[trigger] nodes[j]).0@ == k;
        assert forall|l: int| j < l < nodes.len() implies nodes[l].0@ != nodes[j].0@ by {}
        assert(cloned(before.nodes[k], nodes[j].1));
        assert(cloned(nodes[j].1, after.nodes[k]));
    }
    assert forall|a: Node::V, b: Node::V|
        has_edge(after.edges, a, b) == has_edge(before.edges, a, b) by {
        if has_edge(after.edges, a, b) {
            let j = choose|j: int|
                0 <= j < after.edges.len() && (#[trigger] after.edges[j]).0 == a && after.edges[j].1
                    == b;
            assert(entry_is_edge(before.edges, edges[j]));
            let i = choose|i: int|
                0 <= i < before.edges.len() && #[trigger] edge_listed(before.edges[i], edges[j]);
            assert(before.edges[i].0 == a && before.edges[i].1 == b);
        }
        if has_edge(before.edges, a, b) {
            let i = choose|i: int|
                0 <= i < before.edges.len() && (#[trigger] before.edges[i]).0 == a
                    && before.edges[i].1 == b;
            assert(edge_has_entry(before.edges[i], edges));
            let j = choose|j: int|
                0 <= j < edges.len() && #[trigger] edge_listed(before.edges[i], edges[j]);
            assert(after.edges[j].0 == a && after.edges[j].1 == b);
        }
    }
}

/// The lists that a graph is taken apart into can be loaded: both ends of
/// every listed edge are listed keys.
pub proof fn lemma_parts_load<Node: NodeKey, Edge: Clone, NodeData: Clone>(
    before: GraphModel<Node::V, Edge, NodeData>,
    nodes: Seq<(Node, NodeData)>,
    edges: Seq<(Node, Node, Edge)>,
)
    requires
        anchored(before),
        lists_nodes(before.nodes, nodes),
        lists_edges(before.edges, edges),
    ensures
        forall|j: int|
            0 <= j < edges.len() ==> key_listed(nodes, (#[trigger] edges[j]).0@) && key_listed(
                nodes,
                edges[j].1@,
            ),
{
    assert forall|j: int| 0 <= j < edges.len() implies key_listed(nodes, (#[trigger] edges[j]).0@)
        && key_listed(nodes, edges[j].1@) by {
        assert(entry_is_edge(before.edges, edges[j]));
        let i = choose|i: int|
            0 <= i < before.edges.len() && #[trigger] edge_listed(before.edges[i], edges[j]);
        assert(before.nodes.contains_key(before.edges[i].0));
        assert(before.nodes.contains_key(before.edges[i].1));
    }
}

impl<Node: NodeKey, Edge: Clone, NodeData: Clone> NodeGraph<Node, Edge, NodeData> {
    spec fn link_listed(&self, l: (int, int, int), entry: (Node, Node, Edge)) -> bool {
        entry.0@ == self.key_at(l.1) && entry.1@ == self.key_at(l.2) && cloned(
            self.edges@[l.0].unwrap(),
            entry.2,
        )
    }

    spec fn entry_is_link(&self, entry: (Node, Node, Edge)) -> bool {
        exists|i: int|
            0 <= i < links(self.graph).len() && #[trigger] self.link_listed(
                links(self.graph)[i],
                entry,
            )
    }

    spec fn link_has_entry(&self, l: (int, int, int), list: Seq<(Node, Node, Edge)>) -> bool {
        exists|j: int| 0 <= j < list.len() && #[trigger] self.link_listed(l, list[j])
    }

    proof fn lemma_entry_stays(
        &self,
        l: (int, int, int),
        list: Seq<(Node, Node, Edge)>,
        entry: (Node, Node, Edge),
    )
        requires
            self.link_has_entry(l, list),
        ensures
            self.link_has_entry(l, list.push(entry)),
    {
        let j = choose|j: int| 0 <= j < list.len() && #[trigger] self.link_listed(l, list[j]);
        assert(self.link_listed(l, list.push(entry)[j]));
    }

    /// The edges that leave the node in slot `s`, if there is one, added to
    /// `edges`.
    fn list_edges_from(&self, s: usize, edges: &mut Vec<(Node, Node, Edge)>)
        requires
            self.wf(),
            s < self.nodes@.len(),
            forall|j: int| 0 <= j < old(edges)@.len() ==> self.entry_is_link(#[trigger] old(edges)@[j]),
            forall|i: int|
                0 <= i < links(self.graph).len() && links(self.graph)[i].1 < s
                    ==> self.link_has_entry(#[trigger] links(self.graph)[i], old(edges)@),
        ensures
            final(edges)@.len() == old(edges)@.len() + fan_out(links(self.graph), s as int).len(),
            forall|j: int|
                0 <= j < final(edges)@.len() ==> self.entry_is_link(#[trigger] final(edges)@[j]),
            forall|i: int|
                0 <= i < links(self.graph).len() && links(self.graph)[i].1 < s + 1
                    ==> self.link_has_entry(#[trigger] links(self.graph)[i], final(edges)@),
    {
        let ghost ls = links(self.graph);
        if self.nodes[s].is_none() {
            proof {
                self.lemma_no_fan(s as int);
                assert forall|i: int| 0 <= i < ls.len() && ls[i].1 < s + 1 implies self.link_has_entry(
                    #[trigger] ls[i],
                    edges@,
                ) by {
                    assert(self.link_ok(ls[i]));
                }
            }
            return ;
        }
        let pairs = leaving(&self.graph, s);
        proof {
            self.lemma_fans(s as int, pairs@, true);
            lemma_fan_members(ls, s as int);
        }
        let mut m: usize = 0;
        while m < pairs.len()
            invariant
                m <= pairs@.len(),
                self.wf(),
                self.live(s as int),
                ls == links(self.graph),
                edges@.len() == old(edges)@.len() + m,
                pairs@.len() == fan_out(ls, s as int).len(),
                as_ints(pairs@) == fan_out(ls, s as int),
                forall|j: int|
                    0 <= j < fan_out(ls, s as int).len() ==> ls.contains(
                        ((#[trigger] fan_out(ls, s as int)[j]).0, s as int, fan_out(
                            ls,
                            s as int,
                        )[j].1),
                    ),
                forall|j: int|
                    0 <= j < pairs@.len() ==> (#[trigger] pairs@[j]).0 < self.edges@.len()
                        && self.edges@[pairs@[j].0 as int].is_some() && self.live(
                        pairs@[j].1 as int,
                    ),
                forall|j: int| 0 <= j < edges@.len() ==> self.entry_is_link(#[trigger] edges@[j]),
                forall|i: int|
                    0 <= i < ls.len() && ls[i].1 < s ==> self.link_has_entry(
                        #[trigger] ls[i],
                        edges@,
                    ),
                forall|p: int|
                    0 <= p < m ==> self.link_has_entry(
                        ((#[trigger] pairs@[p]).0 as int, s as int, pairs@[p].1 as int),
                        edges@,
                    ),
            decreases pairs@.len() - m,
        {
            let (e, t) = pairs[m];
            match (&self.nodes[s], &self.nodes[t], &self.edges[e]) {
                (Some(entry), Some(other), Some(w)) => {
                    let ghost listed = edges@;
                    let ghost n = listed.len() as int;
                    edges.push((entry.0.duplicate(), other.0.duplicate(), w.clone()));
                    proof {
                        let l = (e as int, s as int, t as int);
                        let added = edges@[n];
                        assert(edges@ == listed.push(added));
                        assert(as_ints(pairs@)[m as int] == (e as int, t as int));
                        assert(ls.contains(l));
                        let i0 = choose|i: int| 0 <= i < ls.len() && ls[i] == l;
                        assert(self.link_listed(ls[i0], added));
                        assert forall|j: int| 0 <= j < edges@.len() implies self.entry_is_link(
                            #[trigger] edges@[j],
                        ) by {
                            if j < n {
                                assert(edges@[j] == listed[j]);
                            }
                        }
                        assert forall|i: int| 0 <= i < ls.len() && ls[i].1 < s implies self.link_has_entry(
                            #[trigger] ls[i],
                            edges@,
                        ) by {
                            self.lemma_entry_stays(ls[i], listed, added);
                        }
                        assert forall|p: int| 0 <= p < m + 1 implies self.link_has_entry(
                            ((#[trigger] pairs@[p]).0 as int, s as int, pairs@[p].1 as int),
                            edges@,
                        ) by {
                            let lp = (pairs@[p].0 as int, s as int, pairs@[p].1 as int);
                            if p < m {
                                self.lemma_entry_stays(lp, listed, added);
                            } else {
                                assert(self.link_listed(lp, edges@[n]));
                            }
                        }
                    }
                },
                _ => {
                    assert(false);
                },
            }
            m += 1;
        }
        proof {
            lemma_fan_out_complete(ls, s as int);
            assert forall|i: int| 0 <= i < ls.len() && ls[i].1 < s + 1 implies self.link_has_entry(
                #[trigger] ls[i],
                edges@,
            ) by {
                if ls[i].1 == s {
                    let x = (ls[i].0, ls[i].2);
                    assert(fan_out(ls, s as int).contains(x));
                    let p = choose|p: int|
                        0 <= p < fan_out(ls, s as int).len() && fan_out(ls, s as int)[p] == x;
                    assert(as_ints(pairs@)[p] == x);
                    assert(self.link_has_entry(
                        (pairs@[p].0 as int, s as int, pairs@[p].1 as int),
                        edges@,
                    ));
                }
            }
        }
    }

    spec fn slot_is_listed(&self, t: int, from: Seq<int>) -> bool {
        self.live(t) ==> exists|j: int| 0 <= j < from.len() && #[trigger] from[j] == t
    }

    /// The nodes of the graph, each once, in the order of their slots.
    fn list_nodes(&self) -> (nodes: Vec<(Node, NodeData)>)
        requires
            self.wf(),
        ensures
            lists_nodes(self@.nodes, nodes@),
            nodes@.len() == self@.nodes.dom().len(),
    {
        let mut nodes: Vec<(Node, NodeData)> = Vec::new();
        let ghost from: Seq<int> = Seq::empty();
        let mut s: usize = 0;
        proof {
            self.lemma_counted_slots();
        }
        while s < self.nodes.len()
            invariant
                s <= self.nodes@.len(),
                from.len() == nodes@.len(),
                self.live_below(s as int).finite(),
                nodes@.len() == self.live_below(s as int).len(),
                forall|j: int|
                    0 <= j < nodes@.len() ==> 0 <= #[trigger] from[j] < s && self.live(from[j])
                        && nodes@[j].0@ == self.key_at(from[j]) && cloned(
                        self.data_at(from[j]),
                        nodes@[j].1,
                    ),
                forall|i: int, j: int| 0 <= i < j < from.len() ==> from[i] < from[j],
                forall|t: int| 0 <= t < s ==> #[trigger] self.slot_is_listed(t, from),
            decreases self.nodes@.len() - s,
        {
            proof {
                self.lemma_live_step(s as int);
            }
            match &self.nodes[s] {
                Some(entry) => {
                    let ghost before = from;
                    nodes.push((entry.0.duplicate(), entry.1.clone()));
                    proof {
                        from = from.push(s as int);
                        assert forall|t: int| 0 <= t < s + 1 implies #[trigger] self.slot_is_listed(
                            t,
                            from,
                        ) by {
                            if t < s {
                                assert(self.slot_is_listed(t, before));
                                if self.live(t) {
                                    let j = choose|j: int|
                                        0 <= j < before.len() && #[trigger] before[j] == t;
                                    assert(from[j] == t);
                                }
                            } else {
                                assert(from[before.len() as int] == t);
                            }
                        }
                    }
                },
                None => {},
            }
            s += 1;
        }
        proof {
            self.lemma_counted_slots();
            self.lemma_nodes_listed(nodes@, from);
        }
        nodes
    }

    /// What the list of nodes holds once every slot was looked at.
    proof fn lemma_nodes_listed(&self, nodes: Seq<(Node, NodeData)>, from: Seq<int>)
        requires
            self.wf(),
            from.len() == nodes.len(),
            forall|j: int|
                0 <= j < nodes.len() ==> self.live(#[trigger] from[j]) && nodes[j].0@
                    == self.key_at(from[j]) && cloned(self.data_at(from[j]), nodes[j].1),
            forall|i: int, j: int| 0 <= i < j < from.len() ==> from[i] < from[j],
            forall|t: int| 0 <= t < self.nodes@.len() ==> #[trigger] self.slot_is_listed(t, from),
        ensures
            lists_nodes(self@.nodes, nodes),
    {
        assert forall|j: int| 0 <= j < nodes.len() implies self@.nodes.contains_key(
            (#[trigger] nodes[j]).0@,
        ) && cloned(self@.nodes[nodes[j].0@], nodes[j].1) by {
            self.lemma_slot(from[j]);
        }
        assert forall|i: int, j: int| 0 <= i < j < nodes.len() implies (#[trigger] nodes[i]).0@ != (
        #[trigger] nodes[j]).0@ by {
            assert(from[i] < from[j]);
            assert(self.live(from[i]) && self.live(from[j]));
        }
        assert forall|k: Node::V| self@.nodes.contains_key(k) implies exists|j: int|
            0 <= j < nodes.len() && (#[trigger] nodes[j]).0@ == k by {
            self.lemma_key(k);
            let t = self.slot_of(k);
            assert(self.slot_is_listed(t, from));
            let j = choose|j: int| 0 <= j < from.len() && #[trigger] from[j] == t;
            assert(nodes[j].0@ == k);
        }
    }

    /// The edges of the graph, grouped by the slot of the node they leave.
    fn list_edges(&self) -> (edges: Vec<(Node, Node, Edge)>)
        requires
            self.wf(),
        ensures
            lists_edges(self@.edges, edges@),
            edges@.len() == self@.edges.len(),
    {
        let ghost ls = links(self.graph);
        let mut edges: Vec<(Node, Node, Edge)> = Vec::new();
        let mut s: usize = 0;
        proof {
            self.lemma_counted_links();
        }
        while s < self.nodes.len()
            invariant
                s <= self.nodes@.len(),
                self.wf(),
                ls == links(self.graph),
                edges@.len() == count_below(ls, s as int),
                forall|j: int| 0 <= j < edges@.len() ==> self.entry_is_link(#[trigger] edges@[j]),
                forall|i: int|
                    0 <= i < ls.len() && ls[i].1 < s ==> self.link_has_entry(
                        #[trigger] ls[i],
                        edges@,
                    ),
            decreases self.nodes@.len() - s,
        {
            proof {
                lemma_count_step(ls, s as int);
            }
            self.list_edges_from(s, &mut edges);
            s += 1;
        }
        proof {
            self.lemma_counted_links();
            self.lemma_edges_listed(edges@);
        }
        edges
    }

    /// What the list of edges holds once every slot was looked at.
    proof fn lemma_edges_listed(&self, edges: Seq<(Node, Node, Edge)>)
        requires
            self.wf(),
            forall|j: int| 0 <= j < edges.len() ==> self.entry_is_link(#[trigger] edges[j]),
            forall|i: int|
                0 <= i < links(self.graph).len() && links(self.graph)[i].1 < self.nodes@.len()
                    ==> self.link_has_entry(#[trigger] links(self.graph)[i], edges),
        ensures
            lists_edges(self@.edges, edges),
    {
        let ls = links(self.graph);
        let es = self@.edges;
        assert forall|j: int| 0 <= j < edges.len() implies entry_is_edge(es, #[trigger] edges[j]) by {
            assert(self.entry_is_link(edges[j]));
            let i = choose|i: int| 0 <= i < ls.len() && #[trigger] self.link_listed(ls[i], edges[j]);
            assert(es[i] == self.edge_of(ls[i]));
            assert(edge_listed(es[i], edges[j]));
        }
        assert forall|i: int| 0 <= i < es.len() implies edge_has_entry(#[trigger] es[i], edges) by {
            assert(self.link_ok(ls[i]));
            assert(self.link_has_entry(ls[i], edges));
            let j = choose|j: int|
                0 <= j < edges.len() && #[trigger] self.link_listed(ls[i], edges[j]);
            assert(es[i] == self.edge_of(ls[i]));
            assert(edge_listed(es[i], edges[j]));
        }
    }

    /// The graph as two plain lists: its nodes, each once, as key and
    /// payload, and its edges as the keys at their ends and their payload.
    /// The payloads are clones. The lists are in no particular order.
    pub fn to_parts(&self) -> (parts: (Vec<(Node, NodeData)>, Vec<(Node, Node, Edge)>))
        requires
            self.wf(),
        ensures
            lists_nodes(self@.nodes, parts.0@),
            lists_edges(self@.edges, parts.1@),
            parts.0@.len() == self@.nodes.dom().len(),
            parts.1@.len() == self@.edges.len(),
    {
        (self.list_nodes(), self.list_edges())
    }

    /// The graph that holds the nodes of `nodes` and then the edges of
    /// `edges`, put in as `add_nodes` and `add_edges` do. Where an edge of
    /// the list has an end that is no key of `nodes`, there is no graph and
    /// the answer is `NodeNotFound`.
    pub fn from_parts(nodes: &[(Node, NodeData)], edges: &[(Node, Node, Edge)]) -> (r: Result<
        Self,
        NodeGraphError,
    >)
        ensures
            r.is_ok() == (forall|i: int|
                0 <= i < edges@.len() ==> key_listed(nodes@, (#[trigger] edges@[i]).0@)
                    && key_listed(nodes@, edges@[i].1@)),
            match r {
                Ok(g) => g.wf() && loaded(nodes@, edges@, g@),
                Err(e) => e == NodeGraphError::NodeNotFound,
            },
    {
        let mut graph: Self = NodeGraph::new();
        graph.add_nodes(nodes);
        proof {
            let copies = choose|copies: Seq<NodeData>|
                payloads_cloned(nodes@, copies) && graph@ == #[trigger] put_all(
                    empty_model::<Node::V, Edge, NodeData>(),
                    keys_of(nodes@),
                    copies,
                );
            lemma_put_all_fresh::<Node::V, Edge, NodeData>(keys_of(nodes@), copies);
            assert forall|k: Node::V| graph@.nodes.contains_key(k) <==> key_listed(nodes@, k) by {
                if keys_of(nodes@).contains(k) {
                    let j = choose|j: int|
                        0 <= j < keys_of(nodes@).len() && keys_of(nodes@)[j] == k;
                    assert(nodes@[j].0@ == k);
                }
                if key_listed(nodes@, k) {
                    let j = choose|j: int| 0 <= j < nodes@.len() && (#[trigger] nodes@[j]).0@ == k;
                    assert(keys_of(nodes@)[j] == k);
                }
            }
            assert forall|j: int|
                0 <= j < nodes@.len() && (forall|l: int|
                    j < l < nodes@.len() ==> nodes@[l].0@ != nodes@[j].0@) implies cloned(
                (#[trigger] nodes@[j]).1,
                graph@.nodes[nodes@[j].0@],
            ) by {
                assert forall|l: int| j < l < keys_of(nodes@).len() implies keys_of(nodes@)[l]
                    != keys_of(nodes@)[j] by {
                    assert(nodes@[l].0@ != nodes@[j].0@);
                }
                assert(graph@.nodes[keys_of(nodes@)[j]] == copies[j]);
            }
        }
        let ghost mid = graph@;
        match graph.add_edges(edges) {
            Ok(_) => {
                proof {
                    assert(graph@.edges.len() == edges@.len());
                    assert forall|i: int| 0 <= i < edges@.len() implies (#[trigger] graph@.edges[i]).0
                        == edges@[i].0@ && graph@.edges[i].1 == edges@[i].1@ && cloned(
                        edges@[i].2,
                        graph@.edges[i].2,
                    ) by {
                        assert(ends_known(mid.nodes, edges@[i]));
                    }
                    assert forall|i: int| 0 <= i < edges@.len() implies key_listed(
                        nodes@,
                        (#[trigger] edges@[i]).0@,
                    ) && key_listed(nodes@, edges@[i].1@) by {
                        assert(ends_known(mid.nodes, edges@[i]));
                    }
                }
                Ok(graph)
            },
            Err(e) => {
                proof {
                    let n = graph@.edges.len() as int;
                    assert(!ends_known(mid.nodes, edges@[n]));
                }
                Err(e)
            },
        }
    }
}

} // verus!
