//! Facts about the sequence functions of the topology and of the model, and
//! how the two sides correspond under a map from links to edges.

use crate::model::incoming;
use crate::model::outgoing;
use crate::model::sever;
use crate::topology::detach;
use crate::topology::fan_in;
use crate::topology::fan_out;
use vstd::prelude::*;

verus! {

/// Whether no two links of `ls` share an id.
pub open spec fn distinct_ids(ls: Seq<(int, int, int)>) -> bool {
    forall|i: int, j: int| 0 <= i < j < ls.len() ==> (#[trigger] ls[i]).0 != (#[trigger] ls[j]).0
}

/// Detaching a slot keeps only links that were there and do not touch it.
pub proof fn lemma_detach_members(ls: Seq<(int, int, int)>, s: int)
    ensures
        forall|j: int|
            0 <= j < detach(ls, s).len() ==> ls.contains(#[trigger] detach(ls, s)[j]) && detach(
                ls,
                s,
            )[j].1 != s && detach(ls, s)[j].2 != s,
    decreases ls.len(),
{
    if ls.len() > 0 {
        let init = ls.drop_last();
        lemma_detach_members(init, s);
        assert forall|j: int| 0 <= j < detach(ls, s).len() implies ls.contains(
            #[trigger] detach(ls, s)[j],
        ) && detach(ls, s)[j].1 != s && detach(ls, s)[j].2 != s by {
            if j < detach(init, s).len() {
                let x = detach(init, s)[j];
                assert(init.contains(x));
                let i = choose|i: int| 0 <= i < init.len() && init[i] == x;
                assert(ls[i] == x);
            } else {
                assert(ls[ls.len() - 1] == ls.last());
            }
        }
    }
}

/// Detaching a slot keeps ids distinct.
pub proof fn lemma_detach_distinct(ls: Seq<(int, int, int)>, s: int)
    requires
        distinct_ids(ls),
    ensures
        distinct_ids(detach(ls, s)),
    decreases ls.len(),
{
    if ls.len() > 0 {
        let init = ls.drop_last();
        assert(distinct_ids(init)) by {
            assert forall|i: int, j: int| 0 <= i < j < init.len() implies (#[trigger] init[i]).0 != (
            #[trigger] init[j]).0 by {
                assert(init[i] == ls[i] && init[j] == ls[j]);
            }
        }
        lemma_detach_distinct(init, s);
        lemma_detach_members(init, s);
        let d = detach(ls, s);
        assert forall|i: int, j: int| 0 <= i < j < d.len() implies (#[trigger] d[i]).0 != (
        #[trigger] d[j]).0 by {
            if j >= detach(init, s).len() {
                let x = detach(init, s)[i];
                assert(init.contains(x));
                let p = choose|p: int| 0 <= p < init.len() && init[p] == x;
                assert(ls[p] == x);
                assert(ls[ls.len() - 1] == d[j]);
            } else {
                assert(d[i] == detach(init, s)[i] && d[j] == detach(init, s)[j]);
            }
        }
    }
}

/// Where a map `f` from links to edges sends the links that touch slot `s`
/// to exactly the edges that touch key `k`, detaching `s` on the one side is
/// severing `k` on the other.
pub proof fn lemma_sever_detach<K, E>(
    ls: Seq<(int, int, int)>,
    f: spec_fn((int, int, int)) -> (K, K, E),
    s: int,
    k: K,
)
    requires
        forall|i: int|
            0 <= i < ls.len() ==> ((#[trigger] ls[i]).1 == s) == (f(ls[i]).0 == k) && (ls[i].2 == s)
                == (f(ls[i]).1 == k),
    ensures
        detach(ls, s).map_values(f) == sever(ls.map_values(f), k),
    decreases ls.len(),
{
    if ls.len() > 0 {
        let init = ls.drop_last();
        assert forall|i: int| 0 <= i < init.len() implies ((#[trigger] init[i]).1 == s) == (f(
            init[i],
        ).0 == k) && (init[i].2 == s) == (f(init[i]).1 == k) by {
            assert(init[i] == ls[i]);
        }
        lemma_sever_detach(init, f, s, k);
        assert(ls.map_values(f).drop_last() =~= init.map_values(f));
        assert(ls.map_values(f).last() == f(ls.last()));
        assert(ls[ls.len() - 1] == ls.last());
        if ls.last().1 == s || ls.last().2 == s {
        } else {
            assert(detach(ls, s).map_values(f) =~= detach(init, s).map_values(f).push(
                f(ls.last()),
            ));
        }
    } else {
        assert(detach(ls, s).map_values(f) =~= sever(ls.map_values(f), k));
    }
}

/// Severing a key that no edge touches changes nothing.
pub proof fn lemma_sever_absent<K, E>(edges: Seq<(K, K, E)>, k: K)
    requires
        forall|i: int| 0 <= i < edges.len() ==> (#[trigger] edges[i]).0 != k && edges[i].1 != k,
    ensures
        sever(edges, k) == edges,
    decreases edges.len(),
{
    if edges.len() > 0 {
        let init = edges.drop_last();
        assert forall|i: int| 0 <= i < init.len() implies (#[trigger] init[i]).0 != k && init[i].1
            != k by {
            assert(init[i] == edges[i]);
        }
        lemma_sever_absent(init, k);
        assert(edges[edges.len() - 1] == edges.last());
        assert(init.push(edges.last()) =~= edges);
    }
}

/// Each entry of the fans of a slot comes from a link at that slot.
pub proof fn lemma_fan_members(ls: Seq<(int, int, int)>, a: int)
    ensures
        forall|j: int|
            0 <= j < fan_out(ls, a).len() ==> ls.contains(
                ((#[trigger] fan_out(ls, a)[j]).0, a, fan_out(ls, a)[j].1),
            ),
        forall|j: int|
            0 <= j < fan_in(ls, a).len() ==> ls.contains(
                ((#[trigger] fan_in(ls, a)[j]).0, fan_in(ls, a)[j].1, a),
            ),
    decreases ls.len(),
{
    if ls.len() > 0 {
        let init = ls.drop_last();
        lemma_fan_members(init, a);
        assert(ls[ls.len() - 1] == ls.last());
        assert forall|j: int| 0 <= j < fan_out(ls, a).len() implies ls.contains(
            ((#[trigger] fan_out(ls, a)[j]).0, a, fan_out(ls, a)[j].1),
        ) by {
            let shift: int = if ls.last().1 == a { 1 } else { 0 };
            if j >= shift {
                let p = fan_out(init, a)[j - shift];
                assert(init.contains((p.0, a, p.1)));
                let i = choose|i: int| 0 <= i < init.len() && init[i] == (p.0, a, p.1);
                assert(ls[i] == init[i]);
            }
        }
        assert forall|j: int| 0 <= j < fan_in(ls, a).len() implies ls.contains(
            ((#[trigger] fan_in(ls, a)[j]).0, fan_in(ls, a)[j].1, a),
        ) by {
            let shift: int = if ls.last().2 == a { 1 } else { 0 };
            if j >= shift {
                let p = fan_in(init, a)[j - shift];
                assert(init.contains((p.0, p.1, a)));
                let i = choose|i: int| 0 <= i < init.len() && init[i] == (p.0, p.1, a);
                assert(ls[i] == init[i]);
            }
        }
    }
}

/// Each link that leaves a slot is in the fan-out of that slot.
pub proof fn lemma_fan_out_complete(ls: Seq<(int, int, int)>, a: int)
    ensures
        forall|i: int|
            0 <= i < ls.len() && (#[trigger] ls[i]).1 == a ==> fan_out(ls, a).contains(
                (ls[i].0, ls[i].2),
            ),
    decreases ls.len(),
{
    if ls.len() > 0 {
        let init = ls.drop_last();
        lemma_fan_out_complete(init, a);
        let whole = fan_out(ls, a);
        let rest = fan_out(init, a);
        assert forall|i: int| 0 <= i < ls.len() && (#[trigger] ls[i]).1 == a implies whole.contains(
            (ls[i].0, ls[i].2),
        ) by {
            if i < init.len() {
                assert(init[i] == ls[i]);
                let x = (ls[i].0, ls[i].2);
                assert(rest.contains(x));
                let m = choose|m: int| 0 <= m < rest.len() && rest[m] == x;
                if ls.last().1 == a {
                    assert(whole[m + 1] == x);
                } else {
                    assert(whole[m] == x);
                }
            } else {
                assert(ls[i] == ls.last());
                assert(whole[0] == (ls[i].0, ls[i].2));
            }
        }
    }
}

/// Where `f` sends the links that leave slot `a` to exactly the edges that
/// leave key `k`, the outgoing edges of `k` are the images of the fan-out of
/// `a`, place by place.
pub proof fn lemma_outgoing<K, E>(
    ls: Seq<(int, int, int)>,
    f: spec_fn((int, int, int)) -> (K, K, E),
    a: int,
    k: K,
)
    requires
        forall|i: int| 0 <= i < ls.len() ==> ((#[trigger] ls[i]).1 == a) == (f(ls[i]).0 == k),
    ensures
        outgoing(ls.map_values(f), k).len() == fan_out(ls, a).len(),
        forall|j: int|
            0 <= j < fan_out(ls, a).len() ==> (#[trigger] outgoing(ls.map_values(f), k)[j]) == (
                f((fan_out(ls, a)[j].0, a, fan_out(ls, a)[j].1)).1,
                f((fan_out(ls, a)[j].0, a, fan_out(ls, a)[j].1)).2,
            ),
    decreases ls.len(),
{
    if ls.len() > 0 {
        let init = ls.drop_last();
        assert forall|i: int| 0 <= i < init.len() implies ((#[trigger] init[i]).1 == a) == (f(
            init[i],
        ).0 == k) by {
            assert(init[i] == ls[i]);
        }
        lemma_outgoing(init, f, a, k);
        assert(ls.map_values(f).drop_last() =~= init.map_values(f));
        assert(ls.map_values(f).last() == f(ls.last()));
        assert(ls[ls.len() - 1] == ls.last());
    }
}

/// The entries of a fan-in that come from another slot.
pub open spec fn from_others(pairs: Seq<(int, int)>, a: int) -> Seq<(int, int)>
    decreases pairs.len(),
{
    if pairs.len() == 0 {
        pairs
    } else if pairs.first().1 == a {
        from_others(pairs.drop_first(), a)
    } else {
        seq![pairs.first()] + from_others(pairs.drop_first(), a)
    }
}

/// Where `f` sends the links that enter slot `a` to exactly the edges that
/// enter key `k`, and those that leave `a` to those that leave `k`, the
/// incoming edges of `k` are the images of the fan-in of `a` without the
/// links from `a` to itself, place by place.
pub proof fn lemma_incoming<K, E>(
    ls: Seq<(int, int, int)>,
    f: spec_fn((int, int, int)) -> (K, K, E),
    a: int,
    k: K,
)
    requires
        forall|i: int|
            0 <= i < ls.len() ==> ((#[trigger] ls[i]).1 == a) == (f(ls[i]).0 == k) && (ls[i].2 == a)
                == (f(ls[i]).1 == k),
    ensures
        incoming(ls.map_values(f), k).len() == from_others(fan_in(ls, a), a).len(),
        forall|j: int|
            0 <= j < from_others(fan_in(ls, a), a).len() ==> (#[trigger] incoming(
                ls.map_values(f),
                k,
            )[j]) == (
                f((from_others(fan_in(ls, a), a)[j].0, from_others(fan_in(ls, a), a)[j].1, a)).0,
                f((from_others(fan_in(ls, a), a)[j].0, from_others(fan_in(ls, a), a)[j].1, a)).2,
            ),
    decreases ls.len(),
{
    if ls.len() > 0 {
        let init = ls.drop_last();
        assert forall|i: int| 0 <= i < init.len() implies ((#[trigger] init[i]).1 == a) == (f(
            init[i],
        ).0 == k) && (init[i].2 == a) == (f(init[i]).1 == k) by {
            assert(init[i] == ls[i]);
        }
        lemma_incoming(init, f, a, k);
        assert(ls.map_values(f).drop_last() =~= init.map_values(f));
        assert(ls.map_values(f).last() == f(ls.last()));
        assert(ls[ls.len() - 1] == ls.last());
        if ls.last().2 == a {
            let head = (ls.last().0, ls.last().1);
            let whole = fan_in(ls, a);
            assert(whole == seq![head] + fan_in(init, a));
            assert(whole.first() == head);
            assert(whole.drop_first() =~= fan_in(init, a));
        }
    }
}

/// How many links of `ls` leave a slot below `n`.
pub open spec fn count_below(ls: Seq<(int, int, int)>, n: int) -> nat
    decreases ls.len(),
{
    if ls.len() == 0 {
        0
    } else if ls.last().1 < n {
        count_below(ls.drop_last(), n) + 1
    } else {
        count_below(ls.drop_last(), n)
    }
}

/// The links that leave a slot below `a + 1` are those that leave a slot
/// below `a` and those that leave `a`.
pub proof fn lemma_count_step(ls: Seq<(int, int, int)>, a: int)
    ensures
        count_below(ls, a + 1) == count_below(ls, a) + fan_out(ls, a).len(),
    decreases ls.len(),
{
    if ls.len() > 0 {
        lemma_count_step(ls.drop_last(), a);
    }
}

/// Where every link leaves a slot from zero up to `n`, none leaves a slot
/// below zero and all leave a slot below `n`.
pub proof fn lemma_count_all(ls: Seq<(int, int, int)>, n: int)
    requires
        forall|i: int| 0 <= i < ls.len() ==> 0 <= (#[trigger] ls[i]).1 < n,
    ensures
        count_below(ls, 0) == 0,
        count_below(ls, n) == ls.len(),
    decreases ls.len(),
{
    if ls.len() > 0 {
        let init = ls.drop_last();
        assert forall|i: int| 0 <= i < init.len() implies 0 <= (#[trigger] init[i]).1 < n by {
            assert(init[i] == ls[i]);
        }
        lemma_count_all(init, n);
        assert(ls[ls.len() - 1] == ls.last());
    }
}

} // verus!
