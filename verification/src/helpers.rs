//! Exact nearest neighbours and recall, the yardstick of the approximate
//! search.
use vstd::prelude::*;

use crate::graph::dist_total;
use crate::link::{distinct_targets, insert_asc, lemma_insert_fresh, link_le, links_to, sorted_asc, Link};

verus! {

/// `top` lists the `min(k, base.len())` vectors of `base` nearest to `q`,
/// nearest first, as links carrying their distances: ties in distance go to
/// the smaller index, and every vector left out is, for some distance that
/// `dist` may give it, no nearer than any listed one.
pub open spec fn nearest_first<V, Q, F: Fn(&Q, &V) -> u32>(
    top: Seq<Link>,
    base: Seq<V>,
    q: &Q,
    k: usize,
    dist: &F,
) -> bool {
    &&& top.len() == if k < base.len() {
        k as nat
    } else {
        base.len()
    }
    &&& sorted_asc(top)
    &&& distinct_targets(top)
    &&& forall|j: int|
        0 <= j < top.len() ==> {
            &&& #[trigger] top[j].node_index < base.len()
            &&& dist.ensures((q, &base[top[j].node_index as int]), top[j].distance)
        }
    &&& forall|id: usize|
        id < base.len() ==> links_to(top, id) || exists|d: u32|
            {
                &&& #[trigger] dist.ensures((q, &base[id as int]), d)
                &&& forall|j: int| 0 <= j < top.len() ==> link_le(top[j], Link { node_index: id, distance: d })
            }
}

/// `ids` are the indices of the vectors listed by some `top` that
/// `nearest_first` accepts.
pub open spec fn top_k_ids<V, Q, F: Fn(&Q, &V) -> u32>(
    ids: Seq<usize>,
    base: Seq<V>,
    q: &Q,
    k: usize,
    dist: &F,
) -> bool {
    exists|top: Seq<Link>|
        nearest_first(top, base, q, k, dist) && ids == top.map_values(|l: Link| l.node_index)
}

/// The `k` vectors of `base` nearest to `query`, nearest first, with ties
/// in distance going to the smaller index.
pub fn exact_top_k<V, Q, F: Fn(&Q, &V) -> u32>(base: &Vec<V>, query: &Q, k: usize, dist: &F) -> (res: Vec<usize>)
    requires
        dist_total(dist),
    ensures
        top_k_ids(res@, base@, query, k, dist),
{
    let top = nearest_links(base, query, k, dist);
    let mut res: Vec<usize> = Vec::with_capacity(top.len());
    let mut i: usize = 0;
    while i < top.len()
        invariant
            i <= top@.len(),
            res@ == top@.subrange(0, i as int).map_values(|l: Link| l.node_index),
        decreases top@.len() - i,
    {
        res.push(top[i].node_index);
        i = i + 1;
        assert(res@ =~= top@.subrange(0, i as int).map_values(|l: Link| l.node_index));
    }
    assert(res@ =~= top@.map_values(|l: Link| l.node_index));
    assert(nearest_first(top@, base@, query, k, dist));
    res
}

/// The links to the `k` vectors of `base` nearest to `query`, nearest first.
pub fn nearest_links<V, Q, F: Fn(&Q, &V) -> u32>(base: &Vec<V>, query: &Q, k: usize, dist: &F) -> (res: Vec<Link>)
    requires
        dist_total(dist),
    ensures
        nearest_first(res@, base@, query, k, dist),
{
    let mut top: Vec<Link> = Vec::with_capacity(k);
    let mut i: usize = 0;
    while i < base.len()
        invariant
            dist_total(dist),
            i <= base@.len(),
            top@.len() == if k < i {
                k as int
            } else {
                i as int
            },
            sorted_asc(top@),
            distinct_targets(top@),
            i <= k ==> forall|id: usize| id < i ==> links_to(top@, id),
            forall|j: int|
                0 <= j < top@.len() ==> {
                    &&& #[trigger] top@[j].node_index < i
                    &&& dist.ensures((query, &base@[top@[j].node_index as int]), top@[j].distance)
                },
            forall|id: usize|
                id < i ==> links_to(top@, id) || exists|d: u32|
                    {
                        &&& #[trigger] dist.ensures((query, &base@[id as int]), d)
                        &&& forall|j: int|
                            0 <= j < top@.len() ==> link_le(top@[j], Link { node_index: id, distance: d })
                    },
        decreases base@.len() - i,
    {
        let d = dist(query, &base[i]);
        let link = Link { node_index: i, distance: d };
        let ghost old_top = top@;
        if top.len() < k {
            let pos = insert_asc(&mut top, link);
            proof {
                lemma_insert_fresh(old_top, pos as int, link);
            }
            assert forall|j: int|
                0 <= j < top@.len() implies {
                    &&& #[trigger] top@[j].node_index < i + 1
                    &&& dist.ensures((query, &base@[top@[j].node_index as int]), top@[j].distance)
                } by {
                if j < pos {
                    assert(top@[j] == old_top[j]);
                } else if j > pos {
                    assert(top@[j] == old_top[j - 1]);
                }
            }
            assert forall|id: usize|
                id < i + 1 implies links_to(top@, id) || exists|d2: u32|
                    {
                        &&& #[trigger] dist.ensures((query, &base@[id as int]), d2)
                        &&& forall|j: int|
                            0 <= j < top@.len() ==> link_le(top@[j], Link { node_index: id, distance: d2 })
                    } by {
                if id == i {
                    assert(top@[pos as int].node_index == id);
                } else if links_to(old_top, id) {
                    let j = choose|j: int| 0 <= j < old_top.len() && old_top[j].node_index == id;
                    if j < pos {
                        assert(top@[j] == old_top[j]);
                    } else {
                        assert(top@[j + 1] == old_top[j]);
                    }
                }
            }
            assert forall|id: usize| id < i + 1 implies links_to(top@, id) by {
                if id == i {
                    assert(top@[pos as int].node_index == id);
                } else {
                    assert(i <= k);
                    assert(links_to(old_top, id));
                    let j = choose|j: int| 0 <= j < old_top.len() && old_top[j].node_index == id;
                    if j < pos {
                        assert(top@[j] == old_top[j]);
                    } else {
                        assert(top@[j + 1] == old_top[j]);
                    }
                }
            }
        } else if top.len() > 0 && top[top.len() - 1].distance > d {
            let ghost last = top@[top@.len() - 1];
            top.pop();
            let ghost popped = top@;
            let pos = insert_asc(&mut top, link);
            assert(popped == old_top.subrange(0, old_top.len() - 1));
            proof {
                lemma_insert_fresh(popped, pos as int, link);
            }
            assert forall|j: int| 0 <= j < top@.len() implies link_le(#[trigger] top@[j], last) && top@[j]
                != last by {
                if j < pos {
                    assert(top@[j] == popped[j]);
                    assert(link_le(old_top[j], last));
                    assert(old_top[j].node_index != last.node_index);
                } else if j > pos {
                    assert(top@[j] == popped[j - 1]);
                    assert(link_le(old_top[j - 1], last));
                    assert(old_top[j - 1].node_index != last.node_index);
                }
            }
            assert forall|j: int|
                0 <= j < top@.len() implies {
                    &&& #[trigger] top@[j].node_index < i + 1
                    &&& dist.ensures((query, &base@[top@[j].node_index as int]), top@[j].distance)
                } by {
                if j < pos {
                    assert(top@[j] == popped[j]);
                } else if j > pos {
                    assert(top@[j] == popped[j - 1]);
                }
            }
            assert forall|a: int, b: int|
                0 <= a < top@.len() && 0 <= b < top@.len() && a != b implies top@[a].node_index
                != top@[b].node_index by {
                if a != pos && b != pos {
                    let a0 = if a < pos { a } else { a - 1 };
                    let b0 = if b < pos { b } else { b - 1 };
                    assert(top@[a] == popped[a0]);
                    assert(top@[b] == popped[b0]);
                } else if a == pos {
                    let b0 = if b < pos { b } else { b - 1 };
                    assert(top@[b] == popped[b0]);
                } else {
                    let a0 = if a < pos { a } else { a - 1 };
                    assert(top@[a] == popped[a0]);
                }
            }
            assert forall|id: usize|
                id < i + 1 implies links_to(top@, id) || exists|d2: u32|
                    {
                        &&& #[trigger] dist.ensures((query, &base@[id as int]), d2)
                        &&& forall|j: int|
                            0 <= j < top@.len() ==> link_le(top@[j], Link { node_index: id, distance: d2 })
                    } by {
                if id == i {
                    assert(top@[pos as int].node_index == id);
                } else if id == last.node_index {
                    assert(dist.ensures((query, &base@[id as int]), last.distance));
                    assert(last == Link { node_index: id, distance: last.distance });
                } else if links_to(old_top, id) {
                    let j = choose|j: int| 0 <= j < old_top.len() && old_top[j].node_index == id;
                    assert(j < old_top.len() - 1);
                    if j < pos {
                        assert(top@[j] == old_top[j]);
                    } else {
                        assert(top@[j + 1] == old_top[j]);
                    }
                } else {
                    let d2 = choose|d2: u32|
                        {
                            &&& #[trigger] dist.ensures((query, &base@[id as int]), d2)
                            &&& forall|j: int|
                                0 <= j < old_top.len() ==> link_le(old_top[j], Link { node_index: id, distance: d2 })
                        };
                    assert(link_le(last, Link { node_index: id, distance: d2 }));
                    assert forall|j: int| 0 <= j < top@.len() implies link_le(top@[j], Link { node_index: id, distance: d2 }) by {
                        assert(link_le(top@[j], last));
                    }
                }
            }
        } else {
            assert forall|id: usize|
                id < i + 1 implies links_to(top@, id) || exists|d2: u32|
                    {
                        &&& #[trigger] dist.ensures((query, &base@[id as int]), d2)
                        &&& forall|j: int|
                            0 <= j < top@.len() ==> link_le(top@[j], Link { node_index: id, distance: d2 })
                    } by {
                if id == i {
                    assert forall|j: int| 0 <= j < top@.len() implies link_le(top@[j], link) by {
                        let last = top@[top@.len() - 1];
                        assert(link_le(top@[j], last));
                        assert(last.node_index < i);
                    }
                    assert(dist.ensures((query, &base@[id as int]), d));
                }
            }
        }
        i = i + 1;
    }
    top
}

/// The exact nearest neighbours of each query, as `exact_top_k` finds them.
pub fn compute_ground_truth<V, Q, F: Fn(&Q, &V) -> u32>(
    base: &Vec<V>,
    queries: &Vec<Q>,
    k: usize,
    dist: &F,
) -> (res: Vec<Vec<usize>>)
    requires
        dist_total(dist),
    ensures
        res@.len() == queries@.len(),
        forall|r: int|
            0 <= r < queries@.len() ==> top_k_ids((#[trigger] res@[r])@, base@, &queries@[r], k, dist),
{
    let mut res: Vec<Vec<usize>> = Vec::with_capacity(queries.len());
    let mut r: usize = 0;
    while r < queries.len()
        invariant
            dist_total(dist),
            r <= queries@.len(),
            res@.len() == r,
            forall|i: int|
                0 <= i < r ==> top_k_ids((#[trigger] res@[i])@, base@, &queries@[i], k, dist),
        decreases queries@.len() - r,
    {
        let row = exact_top_k(base, &queries[r], k, dist);
        res.push(row);
        r = r + 1;
    }
    res
}

/// How many entries of `expected` occur in `actual`.
pub open spec fn hits(expected: Seq<usize>, actual: Seq<usize>) -> nat
    decreases expected.len(),
{
    if expected.len() == 0 {
        0
    } else {
        hits(expected.drop_last(), actual) + if actual.contains(expected.last()) {
            1nat
        } else {
            0nat
        }
    }
}

/// How many of the expected neighbours a search returned; recall is this
/// count over the number expected.
pub fn recall_hits(expected: &[usize], actual: &[usize]) -> (res: usize)
    ensures
        res == hits(expected@, actual@),
{
    let mut count: usize = 0;
    let mut i: usize = 0;
    while i < expected.len()
        invariant
            i <= expected@.len(),
            count == hits(expected@.subrange(0, i as int), actual@),
            count <= i,
        decreases expected@.len() - i,
    {
        let id = expected[i];
        let mut found = false;
        let mut j: usize = 0;
        while j < actual.len()
            invariant
                j <= actual@.len(),
                found == exists|a: int| 0 <= a < j && actual@[a] == id,
            decreases actual@.len() - j,
        {
            if actual[j] == id {
                found = true;
            }
            j = j + 1;
        }
        assert(expected@.subrange(0, i + 1).drop_last() =~= expected@.subrange(0, i as int));
        assert(found == actual@.contains(id));
        if found {
            count = count + 1;
        }
        i = i + 1;
    }
    assert(expected@.subrange(0, expected@.len() as int) =~= expected@);
    count
}

} // verus!
