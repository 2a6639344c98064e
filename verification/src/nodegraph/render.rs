//! The graph as text in the DOT language.

use crate::dot::arrow_views;
use crate::dot::arrows_fit;
use crate::dot::debug_text;
use crate::dot::dot_body;
use crate::dot::dot_of;
use crate::dot::label_views;
use crate::key::NodeKey;
use crate::lemmas::count_below;
use crate::lemmas::lemma_count_step;
use crate::nodegraph::NodeGraph;
use crate::topology::fan_out;
use crate::topology::leaving;
use crate::topology::links;
use crate::topology::slots;
use std::fmt::Debug;
use vstd::prelude::*;

verus! {

impl<Node: NodeKey, Edge: Debug, NodeData: Debug> NodeGraph<Node, Edge, NodeData> {
    /// The graph as the body of a DOT `digraph` block, without the block
    /// around it: one statement for each node, numbered from zero in the
    /// order of their slots, then one for each edge. The labels are what the
    /// `Debug` formatting of the payloads prints.
    pub fn to_dot(&self) -> (text: String)
        requires
            self.wf(),
        ensures
            exists|labels: Seq<String>, arrows: Seq<(usize, usize, String)>|
                labels.len() == self@.nodes.dom().len() && arrows.len() == self@.edges.len()
                    && arrows_fit(arrows, labels.len()) && text@ == #[trigger] dot_body(
                    label_views(labels),
                    arrow_views(arrows),
                ),
    {
        let ghost ls = links(self.graph);
        let mut place: Vec<usize> = Vec::new();
        let mut labels: Vec<String> = Vec::new();
        let mut s: usize = 0;
        proof {
            self.lemma_counted_slots();
            self.lemma_counted_links();
        }
        while s < self.nodes.len()
            invariant
                s <= self.nodes@.len(),
                place@.len() == s,
                self.live_below(s as int).finite(),
                labels@.len() == self.live_below(s as int).len(),
                forall|t: int| 0 <= t < s && self.live(t) ==> #[trigger] place@[t] < labels@.len(),
            decreases self.nodes@.len() - s,
        {
            proof {
                self.lemma_live_step(s as int);
            }
            match &self.nodes[s] {
                Some(entry) => {
                    place.push(labels.len());
                    labels.push(debug_text(&entry.1));
                },
                None => {
                    place.push(0);
                },
            }
            s += 1;
        }
        let mut arrows: Vec<(usize, usize, String)> = Vec::new();
        let mut a: usize = 0;
        while a < self.nodes.len()
            invariant
                a <= self.nodes@.len(),
                self.wf(),
                ls == links(self.graph),
                place@.len() == self.nodes@.len(),
                forall|t: int| self.live(t) ==> #[trigger] place@[t] < labels@.len(),
                arrows_fit(arrows@, labels@.len()),
                arrows@.len() == count_below(ls, a as int),
            decreases self.nodes@.len() - a,
        {
            proof {
                lemma_count_step(ls, a as int);
            }
            if self.nodes[a].is_some() {
                let pairs = leaving(&self.graph, a);
                let ghost start = arrows@.len();
                proof {
                    self.lemma_fans(a as int, pairs@, true);
                }
                let mut j: usize = 0;
                while j < pairs.len()
                    invariant
                        j <= pairs@.len(),
                        arrows@.len() == start + j,
                        pairs@.len() == fan_out(ls, a as int).len(),
                        self.wf(),
                        a < self.nodes@.len(),
                        self.live(a as int),
                        place@.len() == self.nodes@.len(),
                        forall|t: int| self.live(t) ==> #[trigger] place@[t] < labels@.len(),
                        arrows_fit(arrows@, labels@.len()),
                        forall|j: int|
                            0 <= j < pairs@.len() ==> (#[trigger] pairs@[j]).0 < self.edges@.len()
                                && self.edges@[pairs@[j].0 as int].is_some() && self.live(
                                pairs@[j].1 as int,
                            ),
                    decreases pairs@.len() - j,
                {
                    let (e, t) = pairs[j];
                    match &self.edges[e] {
                        Some(w) => {
                            arrows.push((place[a], place[t], debug_text(w)));
                        },
                        None => {
                            assert(false);
                        },
                    }
                    j += 1;
                }
            } else {
                proof {
                    self.lemma_no_fan(a as int);
                }
            }
            a += 1;
        }
        proof {
            self.lemma_counted_slots();
            self.lemma_counted_links();
        }
        dot_of(&labels, &arrows)
    }
}

} // verus!
