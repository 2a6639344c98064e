//! The mathematical picture of a node graph, and the functions over it in
//! which the operations of the graph are described.

use vstd::prelude::*;

verus! {

/// What a node graph holds: a payload for each key in use, and the edges as
/// `(from, to, payload)`, the oldest first. Several edges may join the same
/// pair of keys.
#[verifier::ext_equal]
#[verifier::reject_recursive_types(K)]
pub struct GraphModel<K, E, D> {
    pub nodes: Map<K, D>,
    pub edges: Seq<(K, K, E)>,
}

/// The edges that neither leave nor enter `k`, in their order.
pub open spec fn sever<K, E>(edges: Seq<(K, K, E)>, k: K) -> Seq<(K, K, E)>
    decreases edges.len(),
{
    if edges.len() == 0 {
        edges
    } else if edges.last().0 == k || edges.last().1 == k {
        sever(edges.drop_last(), k)
    } else {
        sever(edges.drop_last(), k).push(edges.last())
    }
}

/// Whether some edge runs from `a` to `b`.
pub open spec fn has_edge<K, E>(edges: Seq<(K, K, E)>, a: K, b: K) -> bool {
    exists|i: int| 0 <= i < edges.len() && (#[trigger] edges[i]).0 == a && edges[i].1 == b
}

/// Whether `p` is a walk along edges: each key of `p` but the last has an
/// edge to the key behind it.
pub open spec fn is_route<K, E>(edges: Seq<(K, K, E)>, p: Seq<K>) -> bool {
    &&& p.len() > 0
    &&& forall|j: int| 0 <= j < p.len() - 1 ==> has_edge(edges, #[trigger] p[j], p[j + 1])
}

/// Whether the key `b` can be reached from the key `a` along edges; a key
/// reaches itself.
pub open spec fn reachable<K, E>(edges: Seq<(K, K, E)>, a: K, b: K) -> bool {
    exists|p: Seq<K>| #[trigger] is_route(edges, p) && p.first() == a && p.last() == b
}

/// Whether `i` is the place of the newest edge from `a` to `b`.
pub open spec fn is_latest<K, E>(edges: Seq<(K, K, E)>, i: int, a: K, b: K) -> bool {
    &&& 0 <= i < edges.len()
    &&& edges[i].0 == a
    &&& edges[i].1 == b
    &&& forall|j: int| i < j < edges.len() ==> !((#[trigger] edges[j]).0 == a && edges[j].1 == b)
}

/// The edges that leave `k`, the newest first, each as the key it enters and
/// its payload.
pub open spec fn outgoing<K, E>(edges: Seq<(K, K, E)>, k: K) -> Seq<(K, E)>
    decreases edges.len(),
{
    if edges.len() == 0 {
        Seq::empty()
    } else if edges.last().0 == k {
        seq![(edges.last().1, edges.last().2)] + outgoing(edges.drop_last(), k)
    } else {
        outgoing(edges.drop_last(), k)
    }
}

/// The edges that enter `k` from another node, the newest first, each as the
/// key it leaves and its payload.
pub open spec fn incoming<K, E>(edges: Seq<(K, K, E)>, k: K) -> Seq<(K, E)>
    decreases edges.len(),
{
    if edges.len() == 0 {
        Seq::empty()
    } else if edges.last().1 == k && edges.last().0 != k {
        seq![(edges.last().0, edges.last().2)] + incoming(edges.drop_last(), k)
    } else {
        incoming(edges.drop_last(), k)
    }
}

/// Every edge with `k` at one end, seen from `k`: first those that leave it,
/// then those that enter it from another node. An edge from `k` to itself is
/// listed once, among those that leave.
pub open spec fn connected<K, E>(edges: Seq<(K, K, E)>, k: K) -> Seq<(K, E)> {
    outgoing(edges, k) + incoming(edges, k)
}

/// The model after nodes were put in one by one under `keys`, with the
/// payloads `data`: each put sets the payload of its key and, where the key
/// was in use, takes away every edge at the node that went by it.
pub open spec fn put_all<K, E, D>(before: GraphModel<K, E, D>, keys: Seq<K>, data: Seq<D>) -> GraphModel<
    K,
    E,
    D,
>
    decreases keys.len(),
{
    if keys.len() == 0 {
        before
    } else {
        let mid = put_all(before, keys.drop_last(), data.drop_last());
        GraphModel {
            nodes: mid.nodes.insert(keys.last(), data.last()),
            edges: sever(mid.edges, keys.last()),
        }
    }
}

/// Whether both ends of every edge are keys in use.
pub open spec fn anchored<K, E, D>(m: GraphModel<K, E, D>) -> bool {
    forall|i: int|
        0 <= i < m.edges.len() ==> m.nodes.contains_key((#[trigger] m.edges[i]).0)
            && m.nodes.contains_key(m.edges[i].1)
}

/// Severing a key leaves only edges that were there and do not touch it.
pub proof fn lemma_sever_members<K, E>(edges: Seq<(K, K, E)>, k: K)
    ensures
        forall|j: int|
            0 <= j < sever(edges, k).len() ==> edges.contains(#[trigger] sever(edges, k)[j])
                && sever(edges, k)[j].0 != k && sever(edges, k)[j].1 != k,
    decreases edges.len(),
{
    if edges.len() > 0 {
        let init = edges.drop_last();
        lemma_sever_members(init, k);
        assert forall|j: int| 0 <= j < sever(edges, k).len() implies edges.contains(
            #[trigger] sever(edges, k)[j],
        ) && sever(edges, k)[j].0 != k && sever(edges, k)[j].1 != k by {
            if j < sever(init, k).len() {
                let x = sever(init, k)[j];
                assert(init.contains(x));
                let i = choose|i: int| 0 <= i < init.len() && init[i] == x;
                assert(edges[i] == x);
            } else {
                assert(edges[edges.len() - 1] == edges.last());
            }
        }
    }
}

/// A node that was put in is there, with the payload it was given, and the
/// other nodes are as they were.
pub proof fn lemma_put_then_get<K, D>(nodes: Map<K, D>, k: K, d: D)
    ensures
        nodes.insert(k, d).contains_key(k),
        nodes.insert(k, d)[k] == d,
        forall|q: K| q != k && nodes.contains_key(q) ==> nodes.insert(k, d).contains_key(q)
            && nodes.insert(k, d)[q] == nodes[q],
{
}

/// After a node was taken out, its key is free and no edge touches it.
pub proof fn lemma_take_clears<K, E, D>(m: GraphModel<K, E, D>, k: K)
    ensures
        !m.nodes.remove(k).contains_key(k),
        forall|x: K| !has_edge(sever(m.edges, k), k, x) && !has_edge(sever(m.edges, k), x, k),
{
    lemma_sever_members(m.edges, k);
}

/// An edge that was added is found; it is the newest between its ends, so it
/// is the one that removal takes; and taking it out gives back the edges as
/// they were.
pub proof fn lemma_edge_added<K, E>(edges: Seq<(K, K, E)>, a: K, b: K, w: E)
    ensures
        has_edge(edges.push((a, b, w)), a, b),
        is_latest(edges.push((a, b, w)), edges.len() as int, a, b),
        edges.push((a, b, w))[edges.len() as int].2 == w,
        edges.push((a, b, w)).remove(edges.len() as int) == edges,
{
    let more = edges.push((a, b, w));
    assert(more[edges.len() as int] == (a, b, w));
    assert(more.remove(edges.len() as int) =~= edges);
}

/// Only one place holds the newest edge between two keys.
pub proof fn lemma_latest_is_one<K, E>(edges: Seq<(K, K, E)>, i: int, j: int, a: K, b: K)
    requires
        is_latest(edges, i, a, b),
        is_latest(edges, j, a, b),
    ensures
        i == j,
{
}

/// Between two keys that no edge joined, adding an edge and taking it out
/// again leaves them unjoined.
pub proof fn lemma_edge_round_trip<K, E>(edges: Seq<(K, K, E)>, a: K, b: K, w: E)
    requires
        !has_edge(edges, a, b),
    ensures
        !has_edge(edges.push((a, b, w)).remove(edges.len() as int), a, b),
{
    lemma_edge_added(edges, a, b, w);
}

/// The model without nodes or edges.
pub open spec fn empty_model<K, E, D>() -> GraphModel<K, E, D> {
    GraphModel { nodes: Map::empty(), edges: Seq::empty() }
}

/// Putting nodes into the empty model gives no edges and exactly the given
/// keys, each with the payload of its last entry.
pub proof fn lemma_put_all_fresh<K, E, D>(keys: Seq<K>, data: Seq<D>)
    requires
        data.len() == keys.len(),
    ensures
        put_all(empty_model::<K, E, D>(), keys, data).edges == Seq::<(K, K, E)>::empty(),
        forall|k: K|
            put_all(empty_model::<K, E, D>(), keys, data).nodes.contains_key(k) <==> keys.contains(
                k,
            ),
        forall|j: int|
            0 <= j < keys.len() && (forall|l: int| j < l < keys.len() ==> keys[l] != keys[j])
                ==> put_all(empty_model::<K, E, D>(), keys, data).nodes[#[trigger] keys[j]]
                == data[j],
    decreases keys.len(),
{
    let whole = put_all(empty_model::<K, E, D>(), keys, data);
    if keys.len() > 0 {
        let init = keys.drop_last();
        let mid = put_all(empty_model::<K, E, D>(), init, data.drop_last());
        lemma_put_all_fresh::<K, E, D>(init, data.drop_last());
        assert(sever(mid.edges, keys.last()) =~= Seq::<(K, K, E)>::empty());
        assert forall|k: K| whole.nodes.contains_key(k) <==> keys.contains(k) by {
            if keys.contains(k) {
                let i = choose|i: int| 0 <= i < keys.len() && keys[i] == k;
                if i < init.len() {
                    assert(init[i] == k);
                }
            }
            if init.contains(k) {
                let i = choose|i: int| 0 <= i < init.len() && init[i] == k;
                assert(keys[i] == k);
            }
            assert(keys[keys.len() - 1] == keys.last());
        }
        assert forall|j: int|
            0 <= j < keys.len() && (forall|l: int|
                j < l < keys.len() ==> keys[l] != keys[j]) implies whole.nodes[#[trigger] keys[j]]
            == data[j] by {
            if j < init.len() {
                assert(init[j] == keys[j]);
                assert(keys[keys.len() - 1] != keys[j]);
                assert forall|l: int| j < l < init.len() implies init[l] != init[j] by {
                    assert(init[l] == keys[l]);
                }
                assert(data.drop_last()[j] == data[j]);
            }
        }
    } else {
        assert forall|k: K| !keys.contains(k) by {}
    }
}

} // verus!
