//! The shape of the graph: which slots exist and which links join them. The
//! storage is `petgraph`'s `StableGraph` with unit weights and `usize`
//! indices; everything said about it here is taken on trust from its source.
//!
//! A slot is the index of a node, a link is a triple `(id, from, to)` of an
//! edge index and the slots it leaves and enters.

use petgraph::stable_graph::EdgeIndex;
use petgraph::stable_graph::NodeIndex;
use petgraph::stable_graph::StableGraph;
use petgraph::visit::Dfs;
use petgraph::visit::EdgeRef;
use petgraph::visit::Walker;
use petgraph::Directed;
use petgraph::Direction;
use vstd::prelude::*;

verus! {

#[verifier::external_type_specification]
#[verifier::external_body]
#[verifier::reject_recursive_types(N)]
#[verifier::reject_recursive_types(E)]
#[verifier::reject_recursive_types(Ty)]
#[verifier::reject_recursive_types(Ix)]
pub struct ExStableGraph<N, E, Ty, Ix>(StableGraph<N, E, Ty, Ix>);

#[verifier::external_type_specification]
#[verifier::external_body]
pub struct ExDirected(Directed);

/// The indices of the nodes that a stable graph currently holds.
pub uninterp spec fn slots(g: StableGraph<(), (), Directed, usize>) -> Set<int>;

/// The edges that a stable graph currently holds, each as `(id, from, to)`,
/// in the order in which they were added. Every adjacency list of the graph
/// runs through its edges from the newest to the oldest, so this one
/// sequence fixes all of them.
pub uninterp spec fn links(g: StableGraph<(), (), Directed, usize>) -> Seq<(int, int, int)>;

/// The slots that a depth-first walk over `links` yields from `start`, in the
/// order in which it yields them.
pub uninterp spec fn dfs_order(links: Seq<(int, int, int)>, start: int) -> Seq<int>;

/// The links of `ls` that neither leave nor enter slot `s`, in their order.
pub open spec fn detach(ls: Seq<(int, int, int)>, s: int) -> Seq<(int, int, int)>
    decreases ls.len(),
{
    if ls.len() == 0 {
        ls
    } else if ls.last().1 == s || ls.last().2 == s {
        detach(ls.drop_last(), s)
    } else {
        detach(ls.drop_last(), s).push(ls.last())
    }
}

/// Whether some link of `ls` runs from `a` to `b`.
pub open spec fn joined(ls: Seq<(int, int, int)>, a: int, b: int) -> bool {
    exists|i: int| 0 <= i < ls.len() && (#[trigger] ls[i]).1 == a && ls[i].2 == b
}

/// Whether `p` is a walk along links: each slot of `p` but the last has a
/// link to the slot behind it.
pub open spec fn is_path(ls: Seq<(int, int, int)>, p: Seq<int>) -> bool {
    &&& p.len() > 0
    &&& forall|j: int| 0 <= j < p.len() - 1 ==> joined(ls, #[trigger] p[j], p[j + 1])
}

/// Whether slot `b` can be reached from slot `a` along links; a slot
/// reaches itself.
pub open spec fn reaches(ls: Seq<(int, int, int)>, a: int, b: int) -> bool {
    exists|p: Seq<int>| #[trigger] is_path(ls, p) && p.first() == a && p.last() == b
}

/// Whether `i` is the place in `ls` of the newest link from `a` to `b`.
pub open spec fn is_newest(ls: Seq<(int, int, int)>, i: int, a: int, b: int) -> bool {
    &&& 0 <= i < ls.len()
    &&& ls[i].1 == a
    &&& ls[i].2 == b
    &&& forall|j: int| i < j < ls.len() ==> !((#[trigger] ls[j]).1 == a && ls[j].2 == b)
}

/// The links of `ls` that leave `a`, the newest first, each as `(id, to)`.
pub open spec fn fan_out(ls: Seq<(int, int, int)>, a: int) -> Seq<(int, int)>
    decreases ls.len(),
{
    if ls.len() == 0 {
        Seq::empty()
    } else if ls.last().1 == a {
        seq![(ls.last().0, ls.last().2)] + fan_out(ls.drop_last(), a)
    } else {
        fan_out(ls.drop_last(), a)
    }
}

/// The links of `ls` that enter `a`, the newest first, each as `(id, from)`.
pub open spec fn fan_in(ls: Seq<(int, int, int)>, a: int) -> Seq<(int, int)>
    decreases ls.len(),
{
    if ls.len() == 0 {
        Seq::empty()
    } else if ls.last().2 == a {
        seq![(ls.last().0, ls.last().1)] + fan_in(ls.drop_last(), a)
    } else {
        fan_in(ls.drop_last(), a)
    }
}

/// Index pairs as pairs of integers.
pub open spec fn as_ints(pairs: Seq<(usize, usize)>) -> Seq<(int, int)> {
    pairs.map_values(|p: (usize, usize)| (p.0 as int, p.1 as int))
}

/// `StableGraph::default`: a graph without nodes or edges.
#[verifier::external_body]
pub(crate) fn empty_topology() -> (g: StableGraph<(), (), Directed, usize>)
    ensures
        slots(g) == Set::<int>::empty(),
        links(g) == Seq::<(int, int, int)>::empty(),
{
    StableGraph::default()
}

/// `StableGraph::add_node`: adds a node at an index that no node holds, a
/// vacated one or the next new one, and leaves nodes and edges as they were.
#[verifier::external_body]
pub(crate) fn grow_slot(g: &mut StableGraph<(), (), Directed, usize>) -> (s: usize)
    ensures
        !slots(*old(g)).contains(s as int),
        slots(*final(g)) == slots(*old(g)).insert(s as int),
        links(*final(g)) == links(*old(g)),
{
    g.add_node(()).index()
}

/// `StableGraph::remove_node`: removes the node at `s`, if there is one,
/// together with every edge that leaves or enters it; the other edges keep
/// their indices and their order. Says whether a node was there.
#[verifier::external_body]
pub(crate) fn drop_slot(g: &mut StableGraph<(), (), Directed, usize>, s: usize) -> (was: bool)
    ensures
        was == slots(*old(g)).contains(s as int),
        slots(*final(g)) == slots(*old(g)).remove(s as int),
        was ==> links(*final(g)) == detach(links(*old(g)), s as int),
        !was ==> links(*final(g)) == links(*old(g)),
{
    g.remove_node(NodeIndex::new(s)).is_some()
}

/// `StableGraph::add_edge`: adds an edge from `a` to `b` at an index that no
/// edge holds; it becomes the newest edge. The call panics where an endpoint
/// is no node, which the precondition rules out.
#[verifier::external_body]
pub(crate) fn add_link(g: &mut StableGraph<(), (), Directed, usize>, a: usize, b: usize) -> (e:
    usize)
    requires
        slots(*old(g)).contains(a as int),
        slots(*old(g)).contains(b as int),
    ensures
        forall|i: int| 0 <= i < links(*old(g)).len() ==> (#[trigger] links(*old(g))[i]).0 != e,
        links(*final(g)) == links(*old(g)).push((e as int, a as int, b as int)),
        slots(*final(g)) == slots(*old(g)),
{
    g.add_edge(NodeIndex::new(a), NodeIndex::new(b), ()).index()
}

/// `StableGraph::find_edge`: the first edge to `b` in the list of edges that
/// leave `a`, which is the newest such edge.
#[verifier::external_body]
pub(crate) fn find_link(g: &StableGraph<(), (), Directed, usize>, a: usize, b: usize) -> (r: Option<
    usize,
>)
    ensures
        match r {
            Some(e) => exists|i: int| #[trigger]
                is_newest(links(*g), i, a as int, b as int) && links(*g)[i].0 == e,
            None => !joined(links(*g), a as int, b as int),
        },
{
    g.find_edge(NodeIndex::new(a), NodeIndex::new(b)).map(|e| e.index())
}

/// `StableGraph::contains_edge`: whether any edge runs from `a` to `b`.
#[verifier::external_body]
pub(crate) fn has_link(g: &StableGraph<(), (), Directed, usize>, a: usize, b: usize) -> (r: bool)
    ensures
        r == joined(links(*g), a as int, b as int),
{
    g.contains_edge(NodeIndex::new(a), NodeIndex::new(b))
}

/// `StableGraph::remove_edge`: removes the edge at index `e`, if there is
/// one; nodes and the other edges stay, in their order. Says whether an edge
/// was there.
#[verifier::external_body]
pub(crate) fn drop_link(g: &mut StableGraph<(), (), Directed, usize>, e: usize) -> (was: bool)
    ensures
        slots(*final(g)) == slots(*old(g)),
        was ==> exists|i: int|
            0 <= i < links(*old(g)).len() && (#[trigger] links(*old(g))[i]).0 == e && links(
                *final(g),
            ) == links(*old(g)).remove(i),
        !was ==> links(*final(g)) == links(*old(g)) && forall|i: int|
            0 <= i < links(*old(g)).len() ==> (#[trigger] links(*old(g))[i]).0 != e,
{
    g.remove_edge(EdgeIndex::new(e)).is_some()
}

/// `StableGraph::edges`, which on a directed graph gives the edges that
/// leave `a`: the newest first, each as its index and the node it enters.
#[verifier::external_body]
pub(crate) fn leaving(g: &StableGraph<(), (), Directed, usize>, a: usize) -> (r: Vec<(usize, usize)>)
    ensures
        as_ints(r@) == fan_out(links(*g), a as int),
{
    g.edges(NodeIndex::new(a)).map(|e| (e.id().index(), e.target().index())).collect()
}

/// `StableGraph::edges_directed` with `Direction::Incoming`: the edges that
/// enter `a`, the newest first, each as its index and the node it leaves.
#[verifier::external_body]
pub(crate) fn entering(g: &StableGraph<(), (), Directed, usize>, a: usize) -> (r: Vec<(usize, usize)>)
    ensures
        as_ints(r@) == fan_in(links(*g), a as int),
{
    g.edges_directed(NodeIndex::new(a), Direction::Incoming).map(
        |e| (e.id().index(), e.source().index()),
    ).collect()
}

/// `StableGraph::node_count`: how many nodes the graph holds.
#[verifier::external_body]
pub(crate) fn slot_total(g: &StableGraph<(), (), Directed, usize>) -> (n: usize)
    ensures
        n == slots(*g).len(),
{
    g.node_count()
}

/// `StableGraph::edge_count`: how many edges the graph holds.
#[verifier::external_body]
pub(crate) fn link_total(g: &StableGraph<(), (), Directed, usize>) -> (n: usize)
    ensures
        n == links(*g).len(),
{
    g.edge_count()
}

/// `Dfs::new` and its walk to the end: the nodes reached from `start`, in the
/// order in which the walk yields them. It yields `start` first, only nodes
/// of the graph, none of them twice, and exactly those that can be reached
/// from `start` along edges. The walk panics where `start` lies beyond the
/// last node, which the precondition rules out.
#[verifier::external_body]
pub(crate) fn depth_first(g: &StableGraph<(), (), Directed, usize>, start: usize) -> (r: Vec<usize>)
    requires
        slots(*g).contains(start as int),
    ensures
        r@.map_values(|s: usize| s as int) == dfs_order(links(*g), start as int),
        r@.len() > 0 && r@[0] == start,
        forall|i: int| 0 <= i < r@.len() ==> slots(*g).contains(#[trigger] r@[i] as int),
        forall|i: int, j: int| 0 <= i < j < r@.len() ==> r@[i] != r@[j],
        forall|s: int|
            #[trigger] reaches(links(*g), start as int, s) <==> exists|i: int|
                0 <= i < r@.len() && r@[i] == s,
{
    Dfs::new(g, NodeIndex::new(start)).iter(g).map(|n| n.index()).collect()
}

} // verus!
