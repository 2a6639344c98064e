//! Putting in many nodes or edges with one call.

use crate::error::NodeGraphError;
use crate::key::NodeKey;
use crate::model::put_all;
use crate::nodegraph::NodeGraph;
use vstd::prelude::*;

verus! {

/// The keys of a list of nodes, as mathematical values.
pub open spec fn keys_of<Node: NodeKey, NodeData>(list: Seq<(Node, NodeData)>) -> Seq<Node::V> {
    list.map_values(|p: (Node, NodeData)| p.0@)
}

/// Whether `copies` holds, place by place, a clone of each payload of `list`.
pub open spec fn payloads_cloned<Node, NodeData: Clone>(
    list: Seq<(Node, NodeData)>,
    copies: Seq<NodeData>,
) -> bool {
    &&& copies.len() == list.len()
    &&& forall|i: int| 0 <= i < list.len() ==> cloned(list[i].1, #[trigger] copies[i])
}

/// Whether the model knows both ends of a wanted edge.
pub open spec fn ends_known<Node: NodeKey, Edge, NodeData>(
    nodes: Map<Node::V, NodeData>,
    wanted: (Node, Node, Edge),
) -> bool {
    nodes.contains_key(wanted.0@) && nodes.contains_key(wanted.1@)
}

impl<Node: NodeKey, Edge, NodeData: Clone> NodeGraph<Node, Edge, NodeData> {
    /// Puts the nodes of `nodes` into the graph in their order, as
    /// `add_node` does, each with a clone of its payload.
    pub fn add_nodes(&mut self, nodes: &[(Node, NodeData)])
        requires
            old(self).wf(),
        ensures
            final(self).wf(),
            exists|copies: Seq<NodeData>|
                payloads_cloned(nodes@, copies) && final(self)@ == #[trigger] put_all(
                    old(self)@,
                    keys_of(nodes@),
                    copies,
                ),
    {
        let ghost copies: Seq<NodeData> = Seq::empty();
        let mut j: usize = 0;
        proof {
            assert(keys_of(nodes@).take(0) =~= Seq::<Node::V>::empty());
            assert(self@ =~= put_all(old(self)@, keys_of(nodes@).take(0), copies));
        }
        while j < nodes.len()
            invariant
                j <= nodes@.len(),
                self.wf(),
                copies.len() == j,
                forall|i: int| 0 <= i < j ==> cloned(nodes@[i].1, #[trigger] copies[i]),
                self@ == put_all(old(self)@, keys_of(nodes@).take(j as int), copies),
            decreases nodes@.len() - j,
        {
            let ghost mid = self@;
            let key = nodes[j].0.duplicate();
            let data = nodes[j].1.clone();
            let ghost d = data;
            self.add_node(key, data);
            proof {
                let upto = keys_of(nodes@).take(j + 1);
                let more = copies.push(d);
                assert(upto.drop_last() =~= keys_of(nodes@).take(j as int));
                assert(upto.last() == nodes@[j as int].0@);
                assert(more.drop_last() =~= copies);
                assert(self@ =~= put_all(old(self)@, upto, more));
                copies = more;
            }
            j += 1;
        }
        proof {
            assert(keys_of(nodes@).take(nodes@.len() as int) =~= keys_of(nodes@));
        }
    }
}

impl<Node: NodeKey, Edge: Clone, NodeData> NodeGraph<Node, Edge, NodeData> {
    /// Adds the edges of `edges` in their order, as `add_edge` does, each
    /// with a clone of its payload, and stops at the first one with an end
    /// that is no node: that one gives `NodeNotFound`, and the edges before
    /// it stay in the graph.
    pub fn add_edges(&mut self, edges: &[(Node, Node, Edge)]) -> (r: Result<(), NodeGraphError>)
        requires
            old(self).wf(),
        ensures
            final(self).wf(),
            final(self)@.nodes == old(self)@.nodes,
            final(self)@.edges.len() >= old(self)@.edges.len(),
            final(self)@.edges.take(old(self)@.edges.len() as int) == old(self)@.edges,
            ({
                let base = old(self)@.edges.len() as int;
                let after = final(self)@.edges;
                let n = after.len() - base;
                &&& n <= edges@.len()
                &&& forall|i: int|
                    0 <= i < n ==> ends_known(old(self)@.nodes, #[trigger] edges@[i]) && after[base
                        + i].0 == edges@[i].0@ && after[base + i].1 == edges@[i].1@ && cloned(
                        edges@[i].2,
                        after[base + i].2,
                    )
                &&& match r {
                    Ok(_) => n == edges@.len(),
                    Err(e) => e == NodeGraphError::NodeNotFound && n < edges@.len() && !ends_known(
                        old(self)@.nodes,
                        edges@[n],
                    ),
                }
            }),
    {
        let ghost base = self@.edges.len();
        let mut j: usize = 0;
        proof {
            assert(self@.edges.take(base as int) =~= self@.edges);
        }
        while j < edges.len()
            invariant
                j <= edges@.len(),
                self.wf(),
                base == old(self)@.edges.len(),
                self@.nodes == old(self)@.nodes,
                self@.edges.len() == base + j,
                self@.edges.take(base as int) == old(self)@.edges,
                forall|i: int|
                    0 <= i < j ==> ends_known(old(self)@.nodes, #[trigger] edges@[i])
                        && self@.edges[base + i].0 == edges@[i].0@ && self@.edges[base + i].1
                        == edges@[i].1@ && cloned(edges@[i].2, self@.edges[base + i].2),
            decreases edges@.len() - j,
        {
            let ghost before = self@.edges;
            let from = edges[j].0.duplicate();
            let to = edges[j].1.duplicate();
            let value = edges[j].2.clone();
            match self.add_edge(from, to, value) {
                Ok(_) => {},
                Err(e) => {
                    return Err(e);
                },
            }
            proof {
                assert(self@.edges.take(base as int) =~= before.take(base as int));
                assert forall|i: int| 0 <= i < j + 1 implies ends_known(
                    old(self)@.nodes,
                    #[trigger] edges@[i],
                ) && self@.edges[base + i].0 == edges@[i].0@ && self@.edges[base + i].1
                    == edges@[i].1@ && cloned(edges@[i].2, self@.edges[base + i].2) by {
                    if i < j {
                        assert(self@.edges[base + i] == before[base + i]);
                    }
                }
            }
            j += 1;
        }
        Ok(())
    }
}

} // verus!
