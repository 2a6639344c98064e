//! Walking the graph: the edges at a node, and the nodes that a walk from
//! a node reaches.

use crate::key::NodeKey;
use crate::lemmas::from_others;
use crate::model::connected;
use crate::model::incoming;
use crate::model::outgoing;
use crate::model::reachable;
use crate::nodegraph::NodeGraph;
use crate::topology::as_ints;
use crate::topology::depth_first;
use crate::topology::dfs_order;
use crate::topology::entering;
use crate::topology::leaving;
use crate::topology::links;
use crate::topology::reaches;
use crate::topology::slots;
use vstd::prelude::*;

verus! {

/// Whether a list of neighbours holds, place by place, the keys of `want`
/// and clones of its payloads.
pub open spec fn adjacent_match<Node: NodeKey, Edge: Clone>(
    got: Seq<(Node, Edge)>,
    want: Seq<(Node::V, Edge)>,
) -> bool {
    &&& got.len() == want.len()
    &&& forall|j: int|
        0 <= j < got.len() ==> (#[trigger] got[j]).0@ == want[j].0 && cloned(want[j].1, got[j].1)
}

impl<Node: NodeKey, Edge, NodeData> NodeGraph<Node, Edge, NodeData> {
    /// The keys of the nodes in the slots of `walk` that hold one, in the
    /// order of `walk`.
    pub closed spec fn keys_along(&self, walk: Seq<int>) -> Seq<Node::V>
        decreases walk.len(),
    {
        if walk.len() == 0 {
            Seq::empty()
        } else if self.live(walk.last()) {
            self.keys_along(walk.drop_last()).push(self.key_at(walk.last()))
        } else {
            self.keys_along(walk.drop_last())
        }
    }

    /// Along a walk through slots that all hold a node, the keys are those
    /// of the slots, place by place.
    pub proof fn lemma_keys_along(&self, walk: Seq<int>)
        requires
            forall|i: int| 0 <= i < walk.len() ==> self.live(#[trigger] walk[i]),
        ensures
            self.keys_along(walk).len() == walk.len(),
            forall|i: int|
                0 <= i < walk.len() ==> (#[trigger] self.keys_along(walk)[i]) == self.key_at(
                    walk[i],
                ),
        decreases walk.len(),
    {
        if walk.len() > 0 {
            let init = walk.drop_last();
            assert forall|i: int| 0 <= i < init.len() implies self.live(#[trigger] init[i]) by {
                assert(init[i] == walk[i]);
            }
            self.lemma_keys_along(init);
            assert(walk[walk.len() - 1] == walk.last());
        }
    }

    /// The keys of the nodes in the slots of `walk`, in its order. A slot
    /// that holds no node gives no key.
    pub fn keys_of_walk(&self, walk: &Vec<usize>) -> (r: Vec<Node>)
        ensures
            r@.map_values(|k: Node| k@) == self.keys_along(walk@.map_values(|s: usize| s as int)),
    {
        let ghost slots_walked = walk@.map_values(|s: usize| s as int);
        let mut keys: Vec<Node> = Vec::new();
        let mut j: usize = 0;
        while j < walk.len()
            invariant
                j <= walk@.len(),
                slots_walked == walk@.map_values(|s: usize| s as int),
                keys@.map_values(|k: Node| k@) == self.keys_along(slots_walked.take(j as int)),
            decreases walk@.len() - j,
        {
            let s = walk[j];
            proof {
                assert(slots_walked.take(j + 1).drop_last() =~= slots_walked.take(j as int));
                assert(slots_walked.take(j + 1).last() == s as int);
            }
            let ghost before = keys@;
            if s < self.nodes.len() {
                match &self.nodes[s] {
                    Some(entry) => {
                        let key = entry.0.duplicate();
                        keys.push(key);
                        proof {
                            assert(keys@.map_values(|k: Node| k@) =~= before.map_values(
                                |k: Node| k@,
                            ).push(self.key_at(s as int)));
                        }
                    },
                    None => {},
                }
            }
            j += 1;
        }
        proof {
            assert(slots_walked.take(walk@.len() as int) =~= slots_walked);
        }
        keys
    }

    /// The keys of the nodes that a depth-first walk from the node `start_id`
    /// reaches, in the order in which the walk comes to them: `start_id`
    /// first, no key twice, and exactly the keys that can be reached from
    /// `start_id` along edges. Where no node goes by `start_id`, there is no
    /// walk.
    pub fn traverse_dfs(&self, start_id: &Node) -> (r: Option<Vec<Node>>)
        requires
            self.wf(),
        ensures
            match r {
                Some(v) => {
                    &&& self@.nodes.contains_key(start_id@)
                    &&& v@.map_values(|k: Node| k@) == self.keys_along(
                        dfs_order(self.topology(), self.slot_of(start_id@)),
                    )
                    &&& v@.len() > 0 && v@[0]@ == start_id@
                    &&& forall|i: int|
                        0 <= i < v@.len() ==> self@.nodes.contains_key((#[trigger] v@[i])@)
                    &&& forall|i: int, j: int|
                        0 <= i < j < v@.len() ==> (#[trigger] v@[i])@ != (#[trigger] v@[j])@
                    &&& forall|k: Node::V|
                        #[trigger] reachable(self@.edges, start_id@, k) <==> exists|i: int|
                            0 <= i < v@.len() && (#[trigger] v@[i])@ == k
                },
                None => !self@.nodes.contains_key(start_id@),
            },
    {
        let start = match self.slot_for(start_id) {
            Some(s) => s,
            None => {
                return None;
            },
        };
        let walk = depth_first(&self.graph, start);
        let keys = self.keys_of_walk(&walk);
        proof {
            let order = walk@.map_values(|s: usize| s as int);
            let views = keys@.map_values(|k: Node| k@);
            self.lemma_keys_along(order);
            assert(views.len() == keys@.len());
            assert forall|i: int| 0 <= i < keys@.len() implies (#[trigger] keys@[i])@
                == self.key_at(walk@[i] as int) by {
                assert(views[i] == keys@[i]@);
                assert(order[i] == walk@[i] as int);
            }
            assert forall|i: int| 0 <= i < keys@.len() implies self@.nodes.contains_key(
                (#[trigger] keys@[i])@,
            ) by {
                self.lemma_slot(walk@[i] as int);
            }
            assert forall|k: Node::V| #[trigger]
                reachable(self@.edges, start_id@, k) <==> exists|i: int|
                    0 <= i < keys@.len() && (#[trigger] keys@[i])@ == k by {
                if reachable(self@.edges, start_id@, k) {
                    let s = self.slot_of(k);
                    self.lemma_reach_slot(start as int, k);
                    self.lemma_key(k);
                    assert(reaches(links(self.graph), start as int, s));
                    let i = choose|i: int| 0 <= i < walk@.len() && walk@[i] == s;
                    assert(keys@[i]@ == k);
                }
                if exists|i: int| 0 <= i < keys@.len() && (#[trigger] keys@[i])@ == k {
                    let i = choose|i: int| 0 <= i < keys@.len() && (#[trigger] keys@[i])@ == k;
                    assert(reaches(links(self.graph), start as int, walk@[i] as int));
                    self.lemma_reach_key(start as int, walk@[i] as int);
                }
            }
        }
        Some(keys)
    }
}

impl<Node: NodeKey, Edge: Clone, NodeData> NodeGraph<Node, Edge, NodeData> {
    /// The neighbours behind index pairs `(edge id, slot)`: for each pair
    /// the key of the slot and a clone of the edge's payload, added to
    /// `out`. With `apart`, pairs whose slot is `a` are passed over.
    fn gather(&self, pairs: &Vec<(usize, usize)>, a: usize, apart: bool, out: &mut Vec<(Node, Edge)>)
        requires
            forall|j: int|
                0 <= j < pairs@.len() ==> (#[trigger] pairs@[j]).0 < self.edges@.len()
                    && self.edges@[pairs@[j].0 as int].is_some() && self.live(pairs@[j].1 as int),
        ensures
            ({
                let kept = if apart {
                    from_others(as_ints(pairs@), a as int)
                } else {
                    as_ints(pairs@)
                };
                &&& final(out)@.len() == old(out)@.len() + kept.len()
                &&& final(out)@.take(old(out)@.len() as int) == old(out)@
                &&& forall|m: int|
                    0 <= m < kept.len() ==> (#[trigger] final(out)@[old(out)@.len() + m]).0@
                        == self.key_at(kept[m].1) && cloned(
                        self.edges@[kept[m].0].unwrap(),
                        final(out)@[old(out)@.len() + m].1,
                    )
            }),
    {
        let ghost all = as_ints(pairs@);
        let ghost kept = if apart {
            from_others(all, a as int)
        } else {
            all
        };
        let ghost base = out@.len();
        let ghost done: Seq<(int, int)> = Seq::empty();
        let mut j: usize = 0;
        proof {
            assert(all.skip(0) =~= all);
            assert(done + kept =~= kept);
        }
        while j < pairs.len()
            invariant
                j <= pairs@.len(),
                all == as_ints(pairs@),
                base == old(out)@.len(),
                kept == (if apart {
                    from_others(all, a as int)
                } else {
                    all
                }),
                kept == done + (if apart {
                    from_others(all.skip(j as int), a as int)
                } else {
                    all.skip(j as int)
                }),
                out@.len() == base + done.len(),
                out@.take(base as int) == old(out)@,
                forall|m: int|
                    0 <= m < done.len() ==> (#[trigger] out@[base + m]).0@ == self.key_at(done[m].1)
                        && cloned(self.edges@[done[m].0].unwrap(), out@[base + m].1),
                forall|j: int|
                    0 <= j < pairs@.len() ==> (#[trigger] pairs@[j]).0 < self.edges@.len()
                        && self.edges@[pairs@[j].0 as int].is_some() && self.live(
                        pairs@[j].1 as int,
                    ),
            decreases pairs@.len() - j,
        {
            let (e, t) = pairs[j];
            let ghost rest = all.skip(j as int);
            let ghost x = (e as int, t as int);
            proof {
                assert(rest.first() == x);
                assert(rest.drop_first() =~= all.skip(j + 1));
                assert(rest =~= seq![x] + all.skip(j + 1));
            }
            if !(apart && t == a) {
                match (&self.nodes[t], &self.edges[e]) {
                    (Some(entry), Some(w)) => {
                        let ghost before = out@;
                        let key = entry.0.duplicate();
                        let payload = w.clone();
                        out.push((key, payload));
                        proof {
                            let tail = if apart {
                                from_others(all.skip(j + 1), a as int)
                            } else {
                                all.skip(j + 1)
                            };
                            assert(done.push(x) + tail =~= done + (seq![x] + tail));
                            done = done.push(x);
                            assert(out@.take(base as int) =~= before.take(base as int));
                        }
                    },
                    _ => {
                        assert(false);
                    },
                }
            }
            j += 1;
        }
        proof {
            assert(all.skip(pairs@.len() as int) =~= Seq::<(int, int)>::empty());
            assert(done + Seq::<(int, int)>::empty() =~= done);
        }
    }

}

impl<Node: NodeKey, Edge: Clone, NodeData> NodeGraph<Node, Edge, NodeData> {
    /// The edges that leave the node `id`, the newest first, each as the key
    /// of the node it enters and a clone of its payload.
    pub fn get_edges_from(&self, id: &Node) -> (r: Option<Vec<(Node, Edge)>>)
        requires
            self.wf(),
        ensures
            match r {
                Some(v) => self@.nodes.contains_key(id@) && adjacent_match(
                    v@,
                    outgoing(self@.edges, id@),
                ),
                None => !self@.nodes.contains_key(id@),
            },
    {
        let a = match self.slot_for(id) {
            Some(a) => a,
            None => {
                return None;
            },
        };
        let pairs = leaving(&self.graph, a);
        let mut found: Vec<(Node, Edge)> = Vec::new();
        proof {
            self.lemma_fans(a as int, pairs@, true);
            self.lemma_out_view(a as int);
        }
        self.gather(&pairs, a, false, &mut found);
        proof {
            let want = outgoing(self@.edges, id@);
            assert forall|j: int| 0 <= j < found@.len() implies (#[trigger] found@[j]).0@
                == want[j].0 && cloned(want[j].1, found@[j].1) by {
                assert(found@[j] == found@[0 + j]);
            }
        }
        Some(found)
    }

    /// The edges with the node `id` at one end, seen from that node: first
    /// those that leave it, then those that enter it from another node, each
    /// group the newest first, each edge as the key at its other end and a
    /// clone of its payload.
    pub fn get_edges_connected_to_node(&self, id: &Node) -> (r: Option<Vec<(Node, Edge)>>)
        requires
            self.wf(),
        ensures
            match r {
                Some(v) => self@.nodes.contains_key(id@) && adjacent_match(
                    v@,
                    connected(self@.edges, id@),
                ),
                None => !self@.nodes.contains_key(id@),
            },
    {
        let a = match self.slot_for(id) {
            Some(a) => a,
            None => {
                return None;
            },
        };
        let out = leaving(&self.graph, a);
        let inc = entering(&self.graph, a);
        let mut found: Vec<(Node, Edge)> = Vec::new();
        proof {
            self.lemma_fans(a as int, out@, true);
            self.lemma_fans(a as int, inc@, false);
            self.lemma_out_view(a as int);
            self.lemma_in_view(a as int);
        }
        self.gather(&out, a, false, &mut found);
        let ghost first = found@;
        self.gather(&inc, a, true, &mut found);
        proof {
            let ls = links(self.graph);
            let want = connected(self@.edges, id@);
            let n = outgoing(self@.edges, id@).len() as int;
            assert(first.len() == n);
            assert forall|j: int| 0 <= j < found@.len() implies (#[trigger] found@[j]).0@
                == want[j].0 && cloned(want[j].1, found@[j].1) by {
                if j < n {
                    assert(found@[j] == found@.take(n)[j]);
                    assert(first[j] == first[0 + j]);
                    assert(want[j] == outgoing(self@.edges, id@)[j]);
                } else {
                    assert(found@[j] == found@[n + (j - n)]);
                    assert(want[j] == incoming(self@.edges, id@)[j - n]);
                }
            }
        }
        Some(found)
    }
}

} // verus!
