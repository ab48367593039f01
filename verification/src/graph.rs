//! The layered proximity graph and its search and insertion procedures.
use vstd::prelude::*;

use crate::context::{InsertContext, SearchContext, SelectContext};
use crate::link::{
    covers, disjoint_targets, distinct_targets, insert_asc, lemma_insert_fresh, insert_desc, link_le, links_to, sorted_asc, sorted_desc, with_asc, with_desc, Link,
};
use crate::node::{nodes_view, Node};

verus! {

broadcast use vstd::set::group_set_axioms;

/// A distance function that can be called on any pair of vectors.
pub open spec fn dist_total<A, B, F: Fn(&A, &B) -> u32>(dist: &F) -> bool {
    forall|a: &A, b: &B| dist.requires((a, b))
}

/// The target of `later` is nearer to the point `later` was chosen for (its
/// `distance`) than to the target of `earlier`.
pub open spec fn kept_apart<V, F: Fn(&V, &V) -> u32>(data: Seq<V>, dist: &F, earlier: Link, later: Link) -> bool {
    exists|d: u32|
        #[trigger] dist.ensures((&data[later.node_index as int], &data[earlier.node_index as int]), d)
            && later.distance < d
}

/// Every link of `s` is kept apart from every earlier link.
pub open spec fn diverse_links<V, F: Fn(&V, &V) -> u32>(data: Seq<V>, dist: &F, s: Seq<Link>) -> bool {
    forall|a: int, b: int| 0 <= a < b < s.len() ==> #[trigger] kept_apart(data, dist, s[a], s[b])
}

/// `dist` gives one result for each pair of arguments.
pub open spec fn dist_deterministic<A, B, F: Fn(&A, &B) -> u32>(dist: &F) -> bool {
    forall|a: &A, b: &B, x: u32, y: u32| dist.ensures((a, b), x) && dist.ensures((a, b), y) ==> x == y
}

/// `dist` gives the same results with its two arguments swapped.
pub open spec fn dist_symmetric<V, F: Fn(&V, &V) -> u32>(dist: &F) -> bool {
    forall|a: &V, b: &V, d: u32| #[trigger] dist.ensures((a, b), d) ==> dist.ensures((b, a), d)
}

/// The result that a deterministic `dist` gives for `(a, b)`.
pub open spec fn dist_value<A, B, F: Fn(&A, &B) -> u32>(dist: &F, a: &A, b: &B) -> u32 {
    choose|d: u32| dist.ensures((a, b), d)
}

/// Where a beam search stands: the nodes still to expand (nearest last),
/// the nearest nodes found (nearest first), the nodes seen, and whether it
/// has stopped.
pub struct BeamState {
    pub frontier: Seq<Link>,
    pub best: Seq<Link>,
    pub visited: Set<usize>,
    pub stopped: bool,
}

/// `l` is `cands[i]` for some `i < n` whose target no earlier candidate names.
pub open spec fn first_before(cands: Seq<Link>, n: int, l: Link) -> bool {
    exists|i: int|
        0 <= i < n && cands[i] == l && forall|j: int| 0 <= j < i ==> #[trigger] cands[j].node_index != l.node_index
}

/// `l` is the first candidate naming its target.
pub open spec fn first_link(cands: Seq<Link>, l: Link) -> bool {
    first_before(cands, cands.len() as int, l)
}

/// The candidates with every later repeat of a target left out, as a set.
pub open spec fn first_links(cands: Seq<Link>) -> Set<Link> {
    Set::new(|l: Link| first_link(cands, l))
}

/// The target of `c` is at least as near to the target of `kept` as to the
/// point `c` was measured from.
pub open spec fn too_close<V, F: Fn(&V, &V) -> u32>(data: Seq<V>, dist: &F, kept: Link, c: Link) -> bool {
    exists|d: u32|
        #[trigger] dist.ensures((&data[c.node_index as int], &data[kept.node_index as int]), d)
            && c.distance >= d
}

/// `res` is what the greedy rule keeps of the candidates: taken nearest
/// first, a candidate is kept when it is kept apart from every link kept
/// before it, until `max` are kept. So `res` is ascending, made of first
/// candidates, diverse, and a first candidate is left out only when some
/// nearer kept link is too close to it, or when `max` nearer links were kept.
pub open spec fn greedy_selection<V, F: Fn(&V, &V) -> u32>(
    data: Seq<V>,
    dist: &F,
    cands: Seq<Link>,
    max: nat,
    res: Seq<Link>,
) -> bool {
    &&& sorted_asc(res)
    &&& res.len() <= max
    &&& forall|i: int| 0 <= i < res.len() ==> #[trigger] first_link(cands, res[i])
    &&& diverse_links(data, dist, res)
    &&& forall|c: Link|
        #[trigger] first_link(cands, c) && !res.contains(c) ==> (exists|i: int|
            0 <= i < res.len() && link_le(res[i], c) && #[trigger] too_close(data, dist, res[i], c)) || (
        res.len() == max && link_le(res[res.len() - 1], c))
}

/// `res` is a greedy selection `res[..m]` followed by the candidates it
/// left out, nearest first: ascending, every first candidate left out of
/// `res` at least as far as each of them, and every first candidate kept
/// when fewer than `max` links come back.
pub open spec fn refilled_at<V, F: Fn(&V, &V) -> u32>(
    data: Seq<V>,
    dist: &F,
    cands: Seq<Link>,
    max: nat,
    res: Seq<Link>,
    m: int,
) -> bool {
    &&& 0 <= m <= res.len()
    &&& greedy_selection(data, dist, cands, max, res.subrange(0, m))
    &&& forall|i: int| m <= i < res.len() ==> #[trigger] first_link(cands, res[i])
    &&& forall|i: int, j: int| m <= i < j < res.len() ==> link_le(#[trigger] res[i], #[trigger] res[j])
    &&& forall|c: Link, i: int|
        #![trigger first_link(cands, c), res[i]]
        first_link(cands, c) && !res.contains(c) && m <= i < res.len() ==> link_le(res[i], c)
    &&& res.len() < max ==> forall|c: Link| #[trigger] first_link(cands, c) ==> res.contains(c)
}

/// `res` is a greedy selection refilled with the pruned candidates,
/// nearest first.
pub open spec fn refill_selection<V, F: Fn(&V, &V) -> u32>(
    data: Seq<V>,
    dist: &F,
    cands: Seq<Link>,
    max: nat,
    res: Seq<Link>,
) -> bool {
    exists|m: int| #[trigger] refilled_at(data, dist, cands, max, res, m)
}

/// A list with distinct targets holding exactly the first candidates has
/// as many links as there are first candidates.
proof fn lemma_first_count(pq: Seq<Link>, cands: Seq<Link>)
    requires
        distinct_targets(pq),
        forall|l: Link| #[trigger] pq.contains(l) ==> first_link(cands, l),
        forall|l: Link| #[trigger] first_link(cands, l) ==> pq.contains(l),
    ensures
        pq.len() == first_links(cands).len(),
        first_links(cands).finite(),
{
    assert(pq.no_duplicates()) by {
        assert forall|a: int, b: int| 0 <= a < pq.len() && 0 <= b < pq.len() && a != b implies pq[a] != pq[b] by {
            assert(pq[a].node_index != pq[b].node_index);
        }
    }
    pq.unique_seq_to_set();
    assert(pq.to_set() =~= first_links(cands)) by {
        assert forall|l: Link| first_links(cands).contains(l) implies pq.to_set().contains(l) by {
            assert(first_link(cands, l));
            assert(pq.contains(l));
        }
    }
}

/// A link kept apart from every link of a diverse list extends it
/// diversely.
proof fn lemma_diverse_push<V, F: Fn(&V, &V) -> u32>(data: Seq<V>, dist: &F, s: Seq<Link>, l: Link)
    requires
        diverse_links(data, dist, s),
        forall|a: int| 0 <= a < s.len() ==> #[trigger] kept_apart(data, dist, s[a], l),
    ensures
        diverse_links(data, dist, s.push(l)),
{
    let t = s.push(l);
    assert forall|a: int, b: int| 0 <= a < b < t.len() implies #[trigger] kept_apart(data, dist, t[a], t[b]) by {
        assert(t[a] == s[a]);
        if b < s.len() {
            assert(t[b] == s[b]);
        } else {
            assert(kept_apart(data, dist, s[a], l));
        }
    }
}

/// The nodes below `n`.
pub open spec fn below(n: nat) -> Set<usize> {
    Set::new(|k: usize| k < n)
}

proof fn lemma_below(n: nat)
    requires
        n <= usize::MAX,
    ensures
        below(n).finite(),
        below(n).len() == n,
    decreases n,
{
    if n == 0 {
        assert(below(0) =~= Set::<usize>::empty());
    } else {
        lemma_below((n - 1) as nat);
        assert(below(n) =~= below((n - 1) as nat).insert((n - 1) as usize));
    }
}

/// A set of nodes below `n` has at most `n` members.
proof fn lemma_bounded_len(s: Set<usize>, n: nat)
    requires
        n <= usize::MAX,
        forall|k: usize| s.contains(k) ==> k < n,
    ensures
        s.finite(),
        s.len() <= n,
{
    lemma_below(n);
    vstd::set_lib::lemma_len_subset(s, below(n));
}

/// The abstract state of an index: its parameters, its vectors, the
/// neighbour lists of every node on every layer, and its entry point.
pub struct HnswView<V> {
    pub m: usize,
    pub m0: usize,
    pub ef_construction: usize,
    pub data: Seq<V>,
    pub layers: Seq<Seq<Seq<Link>>>,
    pub entry_point: usize,
    pub max_layer: usize,
}

impl<V> HnswView<V> {
    /// The number of nodes.
    pub open spec fn len(self) -> nat {
        self.layers.len()
    }

    /// How many neighbours a node may keep on layer `lyr`.
    pub open spec fn max_connections(self, lyr: int) -> nat {
        if lyr == 0 {
            self.m0 as nat
        } else {
            self.m as nat
        }
    }

    /// Node `i` exists and reaches up to layer `l`.
    pub open spec fn has_layer(self, i: int, l: int) -> bool {
        0 <= i < self.layers.len() && 0 <= l < self.layers[i].len()
    }

    /// The neighbour list of node `i` on layer `l`.
    pub open spec fn links(self, i: int, l: int) -> Seq<Link> {
        self.layers[i][l]
    }

    /// The entry point is node 0 of an empty graph, and otherwise a node
    /// that reaches the top layer.
    pub open spec fn entry_ok(self) -> bool {
        if self.len() == 0 {
            self.entry_point == 0 && self.max_layer == 0
        } else {
            &&& self.entry_point < self.len()
            &&& self.layers[self.entry_point as int].len() == self.max_layer + 1
        }
    }

    /// The neighbour list of node `i` on layer `l` has at most
    /// `max_connections(l)` links, never twice the same target, never `i`
    /// itself, and only targets that reach layer `l`.
    pub open spec fn links_ok(self, i: int, l: int) -> bool {
        &&& self.links(i, l).len() <= self.max_connections(l)
        &&& distinct_targets(self.links(i, l))
        &&& forall|j: int|
            0 <= j < self.links(i, l).len() ==> {
                let t = #[trigger] self.links(i, l)[j].node_index;
                t != i && self.has_layer(t as int, l)
            }
    }

    pub open spec fn well_formed(self) -> bool {
        &&& self.m > 1
        &&& self.m0 > 0
        &&& self.ef_construction > 0
        &&& self.data.len() == self.layers.len()
        &&& self.layers.len() < usize::MAX
        &&& self.entry_ok()
        &&& forall|i: int|
            0 <= i < self.len() ==> 1 <= #[trigger] self.layers[i].len() <= self.max_layer + 1
        &&& forall|i: int, l: int| self.has_layer(i, l) ==> #[trigger] self.links_ok(i, l)
    }

    /// Every link of `s` names a node reaching layer `lyr`, and carries the
    /// distance from `q` to that node's vector.
    pub open spec fn measured<Q, F: Fn(&Q, &V) -> u32>(
        self,
        q: &Q,
        lyr: int,
        dist: &F,
        s: Seq<Link>,
    ) -> bool {
        forall|j: int|
            0 <= j < s.len() ==> {
                &&& self.has_layer(#[trigger] s[j].node_index as int, lyr)
                &&& dist.ensures((q, &self.data[s[j].node_index as int]), s[j].distance)
            }
    }
}

impl<V> HnswView<V> {
    /// Every link of `s` names a node of the graph that some candidate names.
    pub open spec fn all_selectable(self, cands: Seq<Link>, s: Seq<Link>) -> bool {
        forall|j: int|
            0 <= j < s.len() ==> {
                &&& links_to(cands, #[trigger] s[j].node_index)
                &&& s[j].node_index < self.len()
            }
    }

    /// Every link of `s` names a node reaching layer `lyr`.
    pub open spec fn reach_layer(self, lyr: int, s: Seq<Link>) -> bool {
        forall|j: int| 0 <= j < s.len() ==> self.has_layer(#[trigger] s[j].node_index as int, lyr)
    }

    /// Every link of `s` carries the distance from `q` to its target's vector.
    pub open spec fn dist_measured<Q, F: Fn(&Q, &V) -> u32>(self, q: &Q, dist: &F, s: Seq<Link>) -> bool {
        forall|j: int|
            0 <= j < s.len() ==> dist.ensures((q, &self.data[(#[trigger] s[j].node_index) as int]), s[j].distance)
    }
}

impl<V> HnswView<V> {
    /// Every stored link carries the distance from the vector of the node
    /// that owns the list to the vector of its target.
    pub open spec fn links_measured<F: Fn(&V, &V) -> u32>(self, dist: &F) -> bool {
        forall|i: int, l: int|
            self.has_layer(i, l) ==> self.dist_measured(&self.data[i], dist, #[trigger] self.links(i, l))
    }
}

impl<V> HnswView<V> {
    /// `res` is an acceptable answer to a search for the `k` nearest nodes to
    /// `q`: at most `k` pairs of node index and distance, one per node,
    /// ordered by distance and then by index, each naming a node of the graph
    /// with the distance from `q` to its vector; none when the graph is
    /// empty, and at least one when it is not and `k > 0`.
    pub open spec fn search_answer<Q, F: Fn(&Q, &V) -> u32>(
        self,
        q: &Q,
        k: usize,
        dist: &F,
        res: Seq<(usize, u32)>,
    ) -> bool {
        &&& res.len() <= k
        &&& self.len() == 0 ==> res.len() == 0
        &&& (self.len() > 0 && k > 0) ==> res.len() >= 1
        &&& forall|a: int, b: int|
            0 <= a < b < res.len() ==> {
                ||| res[a].1 < res[b].1
                ||| (res[a].1 == res[b].1 && res[a].0 <= res[b].0)
            }
        &&& forall|a: int, b: int| 0 <= a < res.len() && 0 <= b < res.len() && a != b ==> res[a].0 != res[b].0
        &&& forall|a: int|
            0 <= a < res.len() ==> {
                &&& #[trigger] res[a].0 < self.len()
                &&& dist.ensures((q, &self.data[res[a].0 as int]), res[a].1)
            }
    }
}

impl<V> HnswView<V> {
    /// Node `x` is named by `res`, or is at least as far from `q` as the
    /// last link of `res`.
    pub open spec fn no_nearer_left<Q, F: Fn(&Q, &V) -> u32>(self, q: &Q, dist: &F, res: Seq<Link>, x: usize) -> bool {
        ||| links_to(res, x)
        ||| exists|d: u32| #[trigger] dist.ensures((q, &self.data[x as int]), d) && d >= res[res.len() - 1].distance
    }

    /// Node `x` is still queued in `frontier`, or all its neighbours on layer
    /// `lyr` are in `vis`.
    pub open spec fn pending_or_closed(self, lyr: int, frontier: Seq<Link>, vis: Set<usize>, x: usize) -> bool {
        links_to(frontier, x) || self.closed_at(lyr, vis, x)
    }
}

/// With one beam width `ef`, the answer for a smaller `k` is the first
/// `k` pairs of the answer for a larger one: for `k1 <= k2 <= ef`,
/// `search_result(q, k1, ef)` is the prefix of `search_result(q, k2, ef)`
/// of length `min(k1, its length)`.
pub proof fn law_search_prefix<V, Q, F: Fn(&Q, &V) -> u32>(
    g: HnswView<V>,
    q: &Q,
    k1: usize,
    k2: usize,
    ef: usize,
    dist: &F,
)
    requires
        k1 <= k2 <= ef,
    ensures
        ({
            let r1 = g.search_result(q, k1, ef, dist);
            let r2 = g.search_result(q, k2, ef, dist);
            r1 == r2.take(if (k1 as int) < r2.len() { k1 as int } else { r2.len() as int })
        }),
{
    let r1 = g.search_result(q, k1, ef, dist);
    let r2 = g.search_result(q, k2, ef, dist);
    assert(r1 =~= r2.take(if (k1 as int) < r2.len() { k1 as int } else { r2.len() as int }));
}

/// A deterministic distance gives `dist_value` for every pair it is known
/// to give `d` for.
proof fn lemma_dist_value<A, B, F: Fn(&A, &B) -> u32>(dist: &F, a: &A, b: &B, d: u32)
    requires
        dist_deterministic(dist),
        dist.ensures((a, b), d),
    ensures
        dist_value(dist, a, b) == d,
{
    let e = dist_value(dist, a, b);
    assert(dist.ensures((a, b), e));
}

/// A beam search that has stopped, or has nothing left to expand, stays
/// where it is.
proof fn lemma_beam_run_rests<V, Q, F: Fn(&Q, &V) -> u32>(
    g: HnswView<V>,
    q: &Q,
    lyr: int,
    ef: usize,
    dist: &F,
    st: BeamState,
    fuel: nat,
)
    requires
        st.stopped || st.frontier.len() == 0,
    ensures
        g.beam_run(q, lyr, ef, dist, st, fuel) == st,
    decreases fuel,
{
    reveal(HnswView::beam_run);
    reveal(HnswView::beam_step);
    if fuel > 0 {
        lemma_beam_run_rests(g, q, lyr, ef, dist, st, (fuel - 1) as nat);
    }
}

/// Replacing one list by a list whose links are measured from its owner
/// keeps every stored link measured from its owner.
proof fn lemma_replace_keeps_measured<V, F: Fn(&V, &V) -> u32>(
    gb: HnswView<V>,
    ga: HnswView<V>,
    at: int,
    lyr: int,
    dist: &F,
)
    requires
        gb.links_measured(dist),
        gb.has_layer(at, lyr),
        ga == (HnswView { layers: gb.layers.update(at, gb.layers[at].update(lyr, ga.links(at, lyr))), ..gb }),
        gb.dist_measured(&gb.data[at], dist, ga.links(at, lyr)),
    ensures
        ga.links_measured(dist),
{
    assert forall|i: int, l: int| ga.has_layer(i, l) implies ga.dist_measured(&ga.data[i], dist, #[trigger] ga.links(i, l)) by {
        if i != at || l != lyr {
            assert(gb.has_layer(i, l));
            assert(ga.links(i, l) == gb.links(i, l));
            assert(gb.dist_measured(&gb.data[i], dist, gb.links(i, l)));
        }
    }
}

/// Adding a node whose lists are measured from its vector keeps every
/// stored link measured from its owner.
proof fn lemma_new_node_keeps_measured<V, F: Fn(&V, &V) -> u32>(
    g0: HnswView<V>,
    g1: HnswView<V>,
    v: &V,
    lists: Seq<Seq<Link>>,
    dist: &F,
)
    requires
        g0.links_measured(dist),
        g0.layers.len() == g0.data.len(),
        forall|i: int, l: int| g0.has_layer(i, l) ==> #[trigger] g0.links_ok(i, l),
        forall|l: int| 0 <= l < lists.len() ==> g0.measured(v, l, dist, #[trigger] lists[l]),
        g1.layers == g0.layers.push(lists),
        g1.data == g0.data.push(*v),
    ensures
        g1.links_measured(dist),
{
    let n = g0.layers.len() as int;
    assert forall|i: int, l: int| g1.has_layer(i, l) implies g1.dist_measured(&g1.data[i], dist, #[trigger] g1.links(i, l)) by {
        if i < n {
            assert(g0.has_layer(i, l));
            assert(g0.links_ok(i, l));
            assert(g1.links(i, l) == g0.links(i, l));
            assert(g0.dist_measured(&g0.data[i], dist, g0.links(i, l)));
            assert forall|j: int| 0 <= j < g1.links(i, l).len() implies dist.ensures(
                (&g1.data[i], &g1.data[(#[trigger] g1.links(i, l)[j].node_index) as int]),
                g1.links(i, l)[j].distance,
            ) by {
                assert(g0.has_layer(g0.links(i, l)[j].node_index as int, l));
            }
        } else {
            assert(g1.links(i, l) == lists[l]);
            assert(g0.measured(v, l, dist, lists[l]));
            assert forall|j: int| 0 <= j < g1.links(i, l).len() implies dist.ensures(
                (&g1.data[i], &g1.data[(#[trigger] g1.links(i, l)[j].node_index) as int]),
                g1.links(i, l)[j].distance,
            ) by {
                assert(g0.has_layer(lists[l][j].node_index as int, l));
            }
        }
    }
}

/// What neighbour selection keeps depends on a graph only through its
/// vectors, its limits and which layers its nodes reach.
proof fn lemma_chosen_from_same_shape<V, F: Fn(&V, &V) -> u32>(
    ga: HnswView<V>,
    gb: HnswView<V>,
    qv: &V,
    lyr: int,
    dist: &F,
    cands: Seq<Link>,
    res: Seq<Link>,
)
    requires
        ga.chosen_from(qv, lyr, dist, cands, res),
        ga.data == gb.data,
        ga.m == gb.m,
        ga.m0 == gb.m0,
        ga.layers.len() == gb.layers.len(),
        forall|i: int| 0 <= i < ga.layers.len() ==> #[trigger] ga.layers[i].len() == gb.layers[i].len(),
    ensures
        gb.chosen_from(qv, lyr, dist, cands, res),
{
    assert forall|i: int| ga.has_layer(i, lyr) <==> #[trigger] gb.has_layer(i, lyr) by {
        if 0 <= i < ga.layers.len() {
            assert(ga.layers[i].len() == gb.layers[i].len());
        }
    }
    if gb.reach_layer(lyr, cands) {
        assert(ga.reach_layer(lyr, cands));
        assert(ga.reach_layer(lyr, res));
    }
}

/// A node whose neighbours all lie in a set has them all in a larger set too.
proof fn lemma_closed_grow<V>(g: HnswView<V>, l: int, v1: Set<usize>, v2: Set<usize>, x: usize)
    requires
        g.closed_at(l, v1, x),
        forall|k: usize| v1.contains(k) ==> v2.contains(k),
    ensures
        g.closed_at(l, v2, x),
{
    assert forall|j: int| 0 <= j < g.links(x as int, l).len() implies v2.contains(
        #[trigger] g.links(x as int, l)[j].node_index,
    ) by {
        assert(v1.contains(g.links(x as int, l)[j].node_index));
    }
}

impl<V> HnswView<V> {
    /// `res` is an outcome of a beam search of width `ef` for `q` on layer
    /// `lyr` started at `ep`: between one and `ef` links to distinct nodes
    /// reachable from `ep`, ascending, each with its distance from `q`, the
    /// first no farther than `ep`; every node reachable from `ep` when
    /// fewer than `ef` links come back or `ef` covers the whole graph; and no
    /// neighbour of a returned node that is left out is nearer to `q` than
    /// the last link, so that a search of width 1 ends at a local minimum.
    pub open spec fn beam_result<Q, F: Fn(&Q, &V) -> u32>(
        self,
        q: &Q,
        ep: usize,
        lyr: int,
        ef: usize,
        dist: &F,
        res: Seq<Link>,
    ) -> bool {
        &&& 1 <= res.len() <= ef
        &&& sorted_asc(res)
        &&& distinct_targets(res)
        &&& self.measured(q, lyr, dist, res)
        &&& ef >= self.len() ==> forall|t: usize| #[trigger] self.reaches(lyr, ep, t) ==> links_to(res, t)
        &&& res.len() < ef ==> forall|t: usize| #[trigger] self.reaches(lyr, ep, t) ==> links_to(res, t)
        &&& forall|j: int| 0 <= j < res.len() ==> self.reaches(lyr, ep, #[trigger] res[j].node_index)
        &&& exists|e: u32| #[trigger] dist.ensures((q, &self.data[ep as int]), e) && res[0].distance <= e
        &&& forall|j: int, x: usize|
            0 <= j < res.len() && #[trigger] links_to(self.links(res[j].node_index as int, lyr), x)
                ==> self.no_nearer_left(q, dist, res, x)
    }

    /// A greedy descent for `q` from `ep` on layer `lyr` down to layer
    /// `stop` ends at `end`: on each layer above `stop` a beam search of
    /// width 1 from the current node gives the node the next layer starts
    /// from.
    pub open spec fn descends<Q, F: Fn(&Q, &V) -> u32>(
        self,
        q: &Q,
        dist: &F,
        ep: usize,
        lyr: nat,
        stop: nat,
        end: usize,
    ) -> bool
        decreases lyr,
    {
        if lyr <= stop {
            end == ep
        } else {
            exists|r: Seq<Link>|
                #[trigger] self.beam_result(q, ep, lyr as int, 1, dist, r) && self.descends(
                    q,
                    dist,
                    r[0].node_index,
                    (lyr - 1) as nat,
                    stop,
                    end,
                )
        }
    }

    /// `res` is, as pairs of node index and distance, the first `k` links of
    /// a beam search of width `ef` on layer 0 started where a greedy descent
    /// from the entry point ends.
    pub open spec fn searched_from<Q, F: Fn(&Q, &V) -> u32>(
        self,
        q: &Q,
        k: usize,
        ef: usize,
        dist: &F,
        res: Seq<(usize, u32)>,
    ) -> bool {
        exists|ep0: usize, r: Seq<Link>|
            {
                &&& #[trigger] self.beam_result(q, ep0, 0, ef, dist, r)
                &&& self.descends(q, dist, self.entry_point, self.max_layer as nat, 0, ep0)
                &&& res == Seq::new(
                    if k < r.len() { k as nat } else { r.len() },
                    |j: int| (r[j].node_index, r[j].distance),
                )
            }
    }

    /// A beam search of width `ef` for `q` takes node `t`, a neighbour of
    /// the node it expands, into account: an unseen node is marked seen and,
    /// when it is nearer than the furthest of a full list or the list is not
    /// full, it enters the list (the furthest leaving a full one) and the
    /// nodes to expand.
    #[verifier::opaque]
    pub open spec fn beam_visit<Q, F: Fn(&Q, &V) -> u32>(
        self,
        q: &Q,
        ef: usize,
        dist: &F,
        st: BeamState,
        t: usize,
    ) -> BeamState {
        if st.visited.contains(t) {
            st
        } else {
            let d = dist_value(dist, q, &self.data[t as int]);
            let best = if st.best.len() == ef && st.best.last().distance > d {
                st.best.drop_last()
            } else {
                st.best
            };
            let l = Link { node_index: t, distance: d };
            if best.len() < ef {
                BeamState {
                    frontier: with_desc(st.frontier, l),
                    best: with_asc(best, l),
                    visited: st.visited.insert(t),
                    stopped: st.stopped,
                }
            } else {
                BeamState { frontier: st.frontier, best, visited: st.visited.insert(t), stopped: st.stopped }
            }
        }
    }

    /// The beam search after taking the links `nbrs[j..]` into account in
    /// order.
    #[verifier::opaque]
    pub open spec fn beam_scan<Q, F: Fn(&Q, &V) -> u32>(
        self,
        q: &Q,
        ef: usize,
        dist: &F,
        st: BeamState,
        nbrs: Seq<Link>,
        j: int,
    ) -> BeamState
        decreases nbrs.len() - j,
    {
        if j < 0 || j >= nbrs.len() {
            st
        } else {
            self.beam_scan(q, ef, dist, self.beam_visit(q, ef, dist, st, nbrs[j].node_index), nbrs, j + 1)
        }
    }

    /// One step of a beam search on layer `lyr`: unless it has stopped or
    /// has nothing left to expand, it takes the nearest node to expand; it
    /// stops when that node is further than the furthest found, and
    /// otherwise takes each of its neighbours into account.
    #[verifier::opaque]
    pub open spec fn beam_step<Q, F: Fn(&Q, &V) -> u32>(
        self,
        q: &Q,
        lyr: int,
        ef: usize,
        dist: &F,
        st: BeamState,
    ) -> BeamState {
        if st.stopped || st.frontier.len() == 0 {
            st
        } else {
            let c = st.frontier.last();
            let popped = BeamState { frontier: st.frontier.drop_last(), ..st };
            if c.distance > st.best.last().distance {
                BeamState { stopped: true, ..popped }
            } else {
                self.beam_scan(q, ef, dist, popped, self.links(c.node_index as int, lyr), 0)
            }
        }
    }

    /// `fuel` steps of a beam search.
    #[verifier::opaque]
    pub open spec fn beam_run<Q, F: Fn(&Q, &V) -> u32>(
        self,
        q: &Q,
        lyr: int,
        ef: usize,
        dist: &F,
        st: BeamState,
        fuel: nat,
    ) -> BeamState
        decreases fuel,
    {
        if fuel == 0 {
            st
        } else {
            self.beam_run(q, lyr, ef, dist, self.beam_step(q, lyr, ef, dist, st), (fuel - 1) as nat)
        }
    }

    /// The nearest nodes, nearest first, that a beam search of width `ef`
    /// for `q` on layer `lyr` started at `ep` ends with; `2 * len + 2` steps
    /// are more than any such search takes.
    pub open spec fn beam<Q, F: Fn(&Q, &V) -> u32>(self, q: &Q, ep: usize, lyr: int, ef: usize, dist: &F) -> Seq<
        Link,
    > {
        let l = Link { node_index: ep, distance: dist_value(dist, q, &self.data[ep as int]) };
        let init = BeamState { frontier: seq![l], best: seq![l], visited: Set::empty().insert(ep), stopped: false };
        self.beam_run(q, lyr, ef, dist, init, (2 * self.len() + 2) as nat).best
    }

    /// Where the greedy descent for `q` from `ep` on layer `lyr` ends on
    /// layer 0: on each layer above, the nearest node of a beam search of
    /// width 1.
    pub open spec fn descent_end<Q, F: Fn(&Q, &V) -> u32>(self, q: &Q, dist: &F, ep: usize, lyr: nat) -> usize
        decreases lyr,
    {
        if lyr == 0 {
            ep
        } else {
            self.descent_end(q, dist, self.beam(q, ep, lyr as int, 1, dist)[0].node_index, (lyr - 1) as nat)
        }
    }

    /// The answer of a search for the `k` nearest nodes to `q` with beam
    /// width `ef`: the first `k` links, as pairs of node index and distance,
    /// of a beam search of width `max(ef, k)` on layer 0 from where the
    /// greedy descent from the entry point ends; nothing on an empty graph.
    pub open spec fn search_result<Q, F: Fn(&Q, &V) -> u32>(
        self,
        q: &Q,
        k: usize,
        ef: usize,
        dist: &F,
    ) -> Seq<(usize, u32)> {
        if self.len() == 0 {
            Seq::empty()
        } else {
            let r = self.beam(
                q,
                self.descent_end(q, dist, self.entry_point, self.max_layer as nat),
                0,
                if ef > k { ef } else { k },
                dist,
            );
            Seq::new(if k < r.len() { k as nat } else { r.len() }, |j: int| (r[j].node_index, r[j].distance))
        }
    }

    /// The list `s` of node `fw[i].node_index` on layer `l` was chosen
    /// again, as seen from that node, among its list `before` and the link
    /// back to node `n` carried by the `i`-th link of `n`'s list `fw`.
    pub open spec fn backlink_rechosen<F: Fn(&V, &V) -> u32>(
        self,
        dist: &F,
        fw: Seq<Link>,
        i: int,
        n: usize,
        before: Seq<Link>,
        l: int,
        s: Seq<Link>,
    ) -> bool {
        self.chosen_from(
            &self.data[fw[i].node_index as int],
            l,
            dist,
            before.push(Link { node_index: n, distance: fw[i].distance }),
            s,
        )
    }

    /// `res` is what neighbour selection without extension or refill keeps
    /// of `cands` for the vector `qv` on layer `lyr`: at most
    /// `max_connections(lyr)` distinct candidate targets, none when there is
    /// no candidate; every first candidate, ascending, when they fit;
    /// otherwise a diverse list, which for a deterministic distance and
    /// measured candidates is the greedy selection.
    pub open spec fn chosen_from<F: Fn(&V, &V) -> u32>(
        self,
        qv: &V,
        lyr: int,
        dist: &F,
        cands: Seq<Link>,
        res: Seq<Link>,
    ) -> bool {
        &&& res.len() <= self.max_connections(lyr)
        &&& distinct_targets(res)
        &&& self.all_selectable(cands, res)
        &&& self.reach_layer(lyr, cands) ==> self.reach_layer(lyr, res)
        &&& self.dist_measured(qv, dist, cands) ==> self.dist_measured(qv, dist, res)
        &&& cands.len() > 0 ==> res.len() > 0
        &&& first_links(cands).len() <= self.max_connections(lyr) ==> {
            &&& sorted_asc(res)
            &&& forall|l: Link|
                #![trigger res.contains(l)]
                #![trigger first_link(cands, l)]
                res.contains(l) <==> first_link(cands, l)
        }
        &&& distinct_targets(cands) && cands.len() > self.max_connections(lyr) ==> diverse_links(
            self.data,
            dist,
            res,
        )
        &&& first_links(cands).len() > self.max_connections(lyr) && self.dist_measured(qv, dist, cands)
            && dist_deterministic(dist) ==> greedy_selection(self.data, dist, cands, self.max_connections(lyr), res)
    }

    /// `s` is what neighbour selection keeps on layer `lyr` for `qv` of the
    /// outcome of a beam search of width `ef_construction` started at `e`.
    pub open spec fn layer_built<F: Fn(&V, &V) -> u32>(self, qv: &V, dist: &F, e: usize, lyr: int, s: Seq<Link>) -> bool {
        exists|c: Seq<Link>|
            {
                &&& #[trigger] self.beam_result(qv, e, lyr, self.ef_construction, dist, c)
                &&& self.chosen_from(qv, lyr, dist, c, s)
            }
    }

    /// Where the search on layer `k` of an insertion whose lists are `lists`
    /// starts: at `start` on the top layer `top`, and below it at the first
    /// node selected on the layer above.
    pub open spec fn layer_start(start: usize, top: int, lists: Seq<Seq<Link>>, k: int) -> usize {
        if k == top {
            start
        } else {
            lists[k + 1][0].node_index
        }
    }

    /// The lists `lists[0..=top]` of a node inserted for `qv` were built
    /// layer by layer from `top` down, each from a search that starts where
    /// `layer_start` says.
    pub open spec fn built_along<F: Fn(&V, &V) -> u32>(
        self,
        qv: &V,
        dist: &F,
        start: usize,
        top: int,
        lists: Seq<Seq<Link>>,
    ) -> bool {
        forall|k: int|
            0 <= k <= top ==> #[trigger] self.layer_built(qv, dist, Self::layer_start(start, top, lists, k), k, lists[k])
    }

    /// The lists of a node inserted for `qv` on layers `0..=top` come from a
    /// greedy descent from the entry point down to layer `top`, followed by
    /// the layer-by-layer construction of `built_along` from where the
    /// descent ends.
    pub open spec fn inserted_by_search<F: Fn(&V, &V) -> u32>(
        self,
        qv: &V,
        dist: &F,
        top: nat,
        lists: Seq<Seq<Link>>,
    ) -> bool {
        exists|start: usize|
            #[trigger] self.descends(qv, dist, self.entry_point, self.max_layer as nat, top, start)
                && self.built_along(qv, dist, start, top as int, lists)
    }
}

impl<V> HnswView<V> {
    /// `res` names node `x`.
    pub open spec fn answer_names(res: Seq<(usize, u32)>, x: usize) -> bool {
        exists|a: int| 0 <= a < res.len() && res[a].0 == x
    }

    /// Node `x` is in the answer `res`, or is at least as far from `q` as the
    /// last node of `res`.
    pub open spec fn answer_leaves_no_nearer<Q, F: Fn(&Q, &V) -> u32>(
        self,
        q: &Q,
        dist: &F,
        res: Seq<(usize, u32)>,
        x: usize,
    ) -> bool {
        ||| Self::answer_names(res, x)
        ||| exists|d: u32| #[trigger] dist.ensures((q, &self.data[x as int]), d) && d >= res[res.len() - 1].1
    }

    /// `res` holds the `min(k, n)` nearest nodes to `q`: every node left out
    /// is at least as far from `q` as the last node of `res`.
    pub open spec fn exact_answer<Q, F: Fn(&Q, &V) -> u32>(
        self,
        q: &Q,
        k: usize,
        dist: &F,
        res: Seq<(usize, u32)>,
    ) -> bool {
        &&& res.len() == (if k < self.len() { k as nat } else { self.len() })
        &&& forall|x: usize|
            x < self.len() && res.len() > 0 && !Self::answer_names(res, x) ==> exists|d: u32|
                #[trigger] dist.ensures((q, &self.data[x as int]), d) && d >= res[res.len() - 1].1
    }
}

/// A list of links to distinct nodes below `n` that names every node below
/// `n` has exactly `n` links.
proof fn lemma_covering_len(s: Seq<Link>, n: nat)
    requires
        n <= usize::MAX,
        distinct_targets(s),
        forall|j: int| 0 <= j < s.len() ==> #[trigger] s[j].node_index < n,
        forall|t: usize| t < n ==> #[trigger] links_to(s, t),
    ensures
        s.len() == n,
{
    let ids = s.map_values(|l: Link| l.node_index);
    assert(ids.no_duplicates()) by {
        assert forall|i: int, j: int| 0 <= i < ids.len() && 0 <= j < ids.len() && i != j implies ids[i]
            != ids[j] by {
            assert(s[i].node_index != s[j].node_index);
        }
    }
    ids.unique_seq_to_set();
    assert(ids.to_set() =~= below(n)) by {
        assert forall|t: usize| below(n).contains(t) implies ids.to_set().contains(t) by {
            assert(links_to(s, t));
            let j = choose|j: int| 0 <= j < s.len() && s[j].node_index == t;
            assert(ids[j] == t);
        }
        assert forall|t: usize| ids.to_set().contains(t) implies below(n).contains(t) by {
            let j = choose|j: int| 0 <= j < ids.len() && ids[j] == t;
            assert(s[j].node_index < n);
        }
    }
    lemma_below(n);
}

/// A list of links to distinct nodes below `n` holds at most `n` links.
proof fn lemma_distinct_len(s: Seq<Link>, n: nat)
    requires
        n <= usize::MAX,
        distinct_targets(s),
        forall|j: int| 0 <= j < s.len() ==> #[trigger] s[j].node_index < n,
    ensures
        s.len() <= n,
{
    let ids = s.map_values(|l: Link| l.node_index);
    assert(ids.no_duplicates()) by {
        assert forall|a: int, b: int| 0 <= a < ids.len() && 0 <= b < ids.len() && a != b implies ids[a]
            != ids[b] by {
            assert(s[a].node_index != s[b].node_index);
        }
    }
    ids.unique_seq_to_set();
    lemma_below(n);
    assert(ids.to_set().subset_of(below(n))) by {
        assert forall|t: usize| ids.to_set().contains(t) implies below(n).contains(t) by {
            let j = choose|j: int| 0 <= j < ids.len() && ids[j] == t;
            assert(s[j].node_index < n);
        }
    }
    vstd::set_lib::lemma_len_subset(ids.to_set(), below(n));
}

/// The first `min(k, n)` links of a sorted list naming every node, taken
/// as pairs, are the `min(k, n)` nearest nodes.
proof fn lemma_exact_prefix<V, Q, F: Fn(&Q, &V) -> u32>(
    g: HnswView<V>,
    q: &Q,
    k: usize,
    dist: &F,
    results: Seq<Link>,
    out: Seq<(usize, u32)>,
)
    requires
        g.well_formed(),
        sorted_asc(results),
        distinct_targets(results),
        g.measured(q, 0, dist, results),
        forall|t: usize| t < g.len() ==> #[trigger] links_to(results, t),
        out.len() == (if k < results.len() { k as int } else { results.len() as int }),
        forall|j: int| 0 <= j < out.len() ==> #[trigger] out[j] == (results[j].node_index, results[j].distance),
    ensures
        g.exact_answer(q, k, dist, out),
{
    assert forall|j: int| 0 <= j < results.len() implies #[trigger] results[j].node_index < g.len() by {
        assert(g.has_layer(results[j].node_index as int, 0));
    }
    lemma_covering_len(results, g.len());
    assert forall|x: usize|
        x < g.len() && out.len() > 0 && !HnswView::<V>::answer_names(out, x) implies exists|d: u32|
            #[trigger] dist.ensures((q, &g.data[x as int]), d) && d >= out[out.len() - 1].1 by {
        assert(links_to(results, x));
        let i = choose|i: int| 0 <= i < results.len() && results[i].node_index == x;
        if i < out.len() {
            assert(out[i].0 == x);
        }
        let last = out.len() - 1;
        assert(out[last] == (results[last].node_index, results[last].distance));
        assert(link_le(results[last], results[i]));
        assert(g.has_layer(results[i].node_index as int, 0));
        assert(dist.ensures((q, &g.data[x as int]), results[i].distance));
    }
}

/// Every neighbour list of a well-formed graph holds at most
/// `max_connections` links for its layer: `m0` on layer 0, `m` above.
pub proof fn law_neighbour_lists_bounded<V>(g: HnswView<V>, i: int, l: int)
    requires
        g.well_formed(),
        g.has_layer(i, l),
    ensures
        g.links(i, l).len() <= g.max_connections(l),
        l == 0 ==> g.links(i, l).len() <= g.m0,
        l > 0 ==> g.links(i, l).len() <= g.m,
{
    assert(g.links_ok(i, l));
}

/// No neighbour list of a well-formed graph names the same node twice.
pub proof fn law_no_duplicate_neighbours<V>(g: HnswView<V>, i: int, l: int, a: int, b: int)
    requires
        g.well_formed(),
        g.has_layer(i, l),
        0 <= a < g.links(i, l).len(),
        0 <= b < g.links(i, l).len(),
        a != b,
    ensures
        g.links(i, l)[a].node_index != g.links(i, l)[b].node_index,
{
    assert(g.links_ok(i, l));
}

/// In a well-formed graph a node never links to itself, and every link on
/// layer `l` leads to a node that reaches layer `l`.
pub proof fn law_links_stay_on_layer<V>(g: HnswView<V>, i: int, l: int, j: int)
    requires
        g.well_formed(),
        g.has_layer(i, l),
        0 <= j < g.links(i, l).len(),
    ensures
        g.links(i, l)[j].node_index != i,
        g.has_layer(g.links(i, l)[j].node_index as int, l),
{
    assert(g.links_ok(i, l));
}

/// The entry point of a non-empty well-formed graph reaches the top layer,
/// and no node reaches higher.
pub proof fn law_entry_point_is_highest<V>(g: HnswView<V>, i: int)
    requires
        g.well_formed(),
        g.len() > 0,
        0 <= i < g.len(),
    ensures
        g.layers[g.entry_point as int].len() == g.max_layer + 1,
        g.layers[i].len() <= g.layers[g.entry_point as int].len(),
{
    assert(1 <= g.layers[i].len() <= g.max_layer + 1);
}

impl<V> HnswView<V> {
    /// Step `i` of the walk `p` on layer `l` follows a link.
    pub open spec fn walk_step(self, l: int, p: Seq<usize>, i: int) -> bool {
        self.has_layer(p[i] as int, l) && links_to(self.links(p[i] as int, l), p[i + 1])
    }

    /// `p` is a non-empty walk along links of layer `l`.
    pub open spec fn is_walk(self, l: int, p: Seq<usize>) -> bool {
        &&& p.len() >= 1
        &&& forall|i: int| 0 <= i < p.len() - 1 ==> #[trigger] self.walk_step(l, p, i)
    }

    /// Node `b` can be reached from node `a` along links of layer `l`.
    pub open spec fn reaches(self, l: int, a: usize, b: usize) -> bool {
        exists|p: Seq<usize>| #[trigger] self.is_walk(l, p) && p[0] == a && p[p.len() - 1] == b
    }

    /// Every node can be reached from every node along links of layer `l`.
    pub open spec fn layer_connected(self, l: int) -> bool {
        forall|a: usize, b: usize| a < self.len() && b < self.len() ==> #[trigger] self.reaches(l, a, b)
    }

    /// Every neighbour of `x` on layer `l` is in `vis`.
    pub open spec fn closed_at(self, l: int, vis: Set<usize>, x: usize) -> bool {
        forall|j: int|
            0 <= j < self.links(x as int, l).len() ==> vis.contains(
                #[trigger] self.links(x as int, l)[j].node_index,
            )
    }
}

/// A walk that starts in a set closed under the links of its layer stays in
/// that set.
proof fn lemma_walk_stays<V>(g: HnswView<V>, l: int, vis: Set<usize>, p: Seq<usize>)
    requires
        g.is_walk(l, p),
        vis.contains(p[0]),
        forall|x: usize| vis.contains(x) ==> #[trigger] g.closed_at(l, vis, x),
    ensures
        vis.contains(p[p.len() - 1]),
    decreases p.len(),
{
    if p.len() > 1 {
        let r = p.drop_last();
        assert forall|i: int| 0 <= i < r.len() - 1 implies #[trigger] g.walk_step(l, r, i) by {
            assert(g.walk_step(l, p, i));
        }
        lemma_walk_stays(g, l, vis, r);
        let x = p[p.len() - 2];
        assert(g.walk_step(l, p, p.len() - 2));
        assert(g.closed_at(l, vis, x));
        let j = choose|j: int| 0 <= j < g.links(x as int, l).len() && g.links(x as int, l)[j].node_index == p[p.len() - 1];
    }
}

/// A walk followed by one more link is a walk.
proof fn lemma_walk_push<V>(g: HnswView<V>, l: int, p: Seq<usize>, x: usize)
    requires
        g.is_walk(l, p),
        g.has_layer(p[p.len() - 1] as int, l),
        links_to(g.links(p[p.len() - 1] as int, l), x),
    ensures
        g.is_walk(l, p.push(x)),
{
    let q = p.push(x);
    assert forall|i: int| 0 <= i < q.len() - 1 implies #[trigger] g.walk_step(l, q, i) by {
        if i < p.len() - 1 {
            assert(g.walk_step(l, p, i));
        }
    }
}

/// One link followed by a walk is a walk.
proof fn lemma_walk_prepend<V>(g: HnswView<V>, l: int, x: usize, p: Seq<usize>)
    requires
        g.is_walk(l, p),
        g.has_layer(x as int, l),
        links_to(g.links(x as int, l), p[0]),
    ensures
        g.is_walk(l, seq![x] + p),
{
    let q = seq![x] + p;
    assert forall|i: int| 0 <= i < q.len() - 1 implies #[trigger] g.walk_step(l, q, i) by {
        if i > 0 {
            assert(g.walk_step(l, p, i - 1));
        }
    }
}

/// A walk of one graph is a walk of another graph whose neighbour lists on
/// that layer name at least the same nodes.
proof fn lemma_walk_transfer<V>(g0: HnswView<V>, g1: HnswView<V>, l: int, p: Seq<usize>)
    requires
        g0.is_walk(l, p),
        forall|x: usize|
            #[trigger] g0.has_layer(x as int, l) ==> g1.has_layer(x as int, l) && covers(
                g1.links(x as int, l),
                g0.links(x as int, l),
            ),
    ensures
        g1.is_walk(l, p),
{
    assert forall|i: int| 0 <= i < p.len() - 1 implies #[trigger] g1.walk_step(l, p, i) by {
        assert(g0.walk_step(l, p, i));
        assert(g0.has_layer(p[i] as int, l));
    }
}

/// A neighbour list with distinct targets below `n`, none of them `i`,
/// holds fewer than `n` links.
proof fn lemma_list_short(s: Seq<Link>, n: nat, i: usize)
    requires
        i < n <= usize::MAX,
        distinct_targets(s),
        forall|j: int| 0 <= j < s.len() ==> #[trigger] s[j].node_index < n && s[j].node_index != i,
    ensures
        s.len() < n,
{
    let ids = s.map_values(|l: Link| l.node_index);
    assert(ids.no_duplicates()) by {
        assert forall|a: int, b: int| 0 <= a < ids.len() && 0 <= b < ids.len() && a != b implies ids[a]
            != ids[b] by {
            assert(s[a].node_index != s[b].node_index);
        }
    }
    ids.unique_seq_to_set();
    lemma_below(n);
    assert(ids.to_set().subset_of(below(n).remove(i))) by {
        assert forall|t: usize| ids.to_set().contains(t) implies below(n).remove(i).contains(t) by {
            let j = choose|j: int| 0 <= j < ids.len() && ids[j] == t;
            assert(s[j].node_index < n);
        }
    }
    vstd::set_lib::lemma_len_subset(ids.to_set(), below(n).remove(i));
}

/// Adding a node that links to an old node `t` which links back, while
/// every old neighbour list on layer `l` keeps the nodes it named, keeps
/// layer `l` connected.
proof fn lemma_connected_after_insert<V>(g0: HnswView<V>, g1: HnswView<V>, l: int, t: usize)
    requires
        g0.layer_connected(l),
        g1.len() == g0.len() + 1,
        g1.has_layer(g0.len() as int, l),
        forall|x: usize|
            #[trigger] g0.has_layer(x as int, l) ==> g1.has_layer(x as int, l) && covers(
                g1.links(x as int, l),
                g0.links(x as int, l),
            ),
        forall|x: usize| x < g0.len() ==> #[trigger] g0.has_layer(x as int, l),
        g0.len() > 0 ==> {
            &&& t < g0.len()
            &&& links_to(g1.links(g0.len() as int, l), t)
            &&& links_to(g1.links(t as int, l), g0.len() as usize)
        },
    ensures
        g1.layer_connected(l),
{
    let n = g0.len();
    assert forall|a: usize, b: usize| a < g1.len() && b < g1.len() implies #[trigger] g1.reaches(l, a, b) by {
        if a == n && b == n {
            assert(g1.is_walk(l, seq![a]));
        } else if a < n && b < n {
            assert(g0.reaches(l, a, b));
            let p = choose|p: Seq<usize>| #[trigger] g0.is_walk(l, p) && p[0] == a && p[p.len() - 1] == b;
            lemma_walk_transfer(g0, g1, l, p);
        } else if a < n {
            assert(g0.reaches(l, a, t));
            let p = choose|p: Seq<usize>| #[trigger] g0.is_walk(l, p) && p[0] == a && p[p.len() - 1] == t;
            lemma_walk_transfer(g0, g1, l, p);
            assert(g0.has_layer(t as int, l));
            lemma_walk_push(g1, l, p, b);
            assert(g1.is_walk(l, p.push(b)) && p.push(b)[0] == a && p.push(b)[p.push(b).len() - 1] == b);
        } else {
            assert(g0.reaches(l, t, b));
            let p = choose|p: Seq<usize>| #[trigger] g0.is_walk(l, p) && p[0] == t && p[p.len() - 1] == b;
            lemma_walk_transfer(g0, g1, l, p);
            lemma_walk_prepend(g1, l, a, p);
            let q = seq![a] + p;
            assert(q[0] == a && q[q.len() - 1] == b);
        }
    }
}

/// The vectors of an index and their nodes, index by index.
pub struct Storage<V> {
    pub data: Vec<V>,
    pub nodes: Vec<Node>,
}

/// A hierarchical navigable small-world graph over vectors of type `V`.
pub struct Hnsw<V> {
    m: usize,
    m0: usize,
    ef_construction: usize,
    storage: Storage<V>,
    entry: (usize, usize),
}

impl<V> View for Hnsw<V> {
    type V = HnswView<V>;

    closed spec fn view(&self) -> HnswView<V> {
        HnswView {
            m: self.m,
            m0: self.m0,
            ef_construction: self.ef_construction,
            data: self.storage.data@,
            layers: nodes_view(self.storage.nodes@),
            entry_point: self.entry.0,
            max_layer: self.entry.1,
        }
    }
}

impl<V> Hnsw<V> {
    /// The index is well formed.
    pub open spec fn wf(&self) -> bool {
        self@.well_formed()
    }

    /// An empty index. `m` bounds the neighbours per node on the upper
    /// layers, `m0` on layer 0, and `ef_construction` is the beam width used
    /// while inserting.
    #[allow(non_snake_case)]
    pub fn new(M: usize, M0: usize, ef_construction: usize) -> (res: Self)
        requires
            M > 1,
            M0 > 0,
            ef_construction > 0,
        ensures
            res.wf(),
            res@.m == M,
            res@.m0 == M0,
            res@.ef_construction == ef_construction,
            res@.len() == 0,
            res@.data.len() == 0,
            res@.entry_point == 0,
            res@.max_layer == 0,
            res@.layer_connected(0),
    {
        let res = Hnsw {
            m: M,
            m0: M0,
            ef_construction,
            storage: Storage { data: Vec::new(), nodes: Vec::new() },
            entry: (0, 0),
        };
        assert(res@.layers =~= Seq::<Seq<Seq<Link>>>::empty());
        res
    }

    /// The number of vectors in the index.
    pub fn len(&self) -> (res: usize)
        ensures
            res == self@.data.len(),
            self.wf() ==> res == self@.len(),
    {
        self.storage.data.len()
    }

    /// Whether the index holds no vector.
    pub fn is_empty(&self) -> (res: bool)
        ensures
            res == (self@.data.len() == 0),
            self.wf() ==> res == (self@.len() == 0),
    {
        self.storage.data.len() == 0
    }

    /// The same graph over other vectors, one per node: a node's vector is
    /// replaced by the one at its index in `data`.
    pub fn with_data<W>(self, data: Vec<W>) -> (res: Hnsw<W>)
        requires
            self.wf(),
            data@.len() == self@.len(),
        ensures
            res.wf(),
            res@ == (HnswView {
                m: self@.m,
                m0: self@.m0,
                ef_construction: self@.ef_construction,
                data: data@,
                layers: self@.layers,
                entry_point: self@.entry_point,
                max_layer: self@.max_layer,
            }),
    {
        let ghost g = self@;
        let res = Hnsw {
            m: self.m,
            m0: self.m0,
            ef_construction: self.ef_construction,
            storage: Storage { data, nodes: self.storage.nodes },
            entry: self.entry,
        };
        assert forall|i: int, l: int| res@.has_layer(i, l) implies #[trigger] res@.links_ok(i, l) by {
            assert(g.links_ok(i, l));
            assert forall|j: int| 0 <= j < res@.links(i, l).len() implies {
                let t = #[trigger] res@.links(i, l)[j].node_index;
                t != i && res@.has_layer(t as int, l)
            } by {
                assert(g.has_layer(g.links(i, l)[j].node_index as int, l));
            }
        }
        res
    }

    /// The vectors and nodes of the index.
    pub fn storage(&self) -> (res: &Storage<V>)
        ensures
            res.data@ == self@.data,
            nodes_view(res.nodes@) == self@.layers,
    {
        &self.storage
    }

    /// The entry point and the top layer.
    pub fn entry(&self) -> (res: (usize, usize))
        ensures
            res == (self@.entry_point, self@.max_layer),
    {
        self.entry
    }

    /// The bound on neighbours per node above layer 0.
    #[allow(non_snake_case)]
    pub fn M(&self) -> (res: usize)
        ensures
            res == self@.m,
    {
        self.m
    }

    /// The bound on neighbours per node on layer 0.
    #[allow(non_snake_case)]
    pub fn M0(&self) -> (res: usize)
        ensures
            res == self@.m0,
    {
        self.m0
    }

    /// The beam width used while inserting.
    pub fn ef_construction(&self) -> (res: usize)
        ensures
            res == self@.ef_construction,
    {
        self.ef_construction
    }

    /// Whether the neighbour list `links` of node `i` on layer `l` is fit
    /// for a graph whose nodes are `nodes`.
    fn check_links(nodes: &Vec<Node>, m: usize, m0: usize, i: usize, l: usize, links: &Vec<Link>) -> (res: bool)
        ensures
            res == ({
                let g = HnswView {
                    m,
                    m0,
                    ef_construction: 1,
                    data: Seq::<V>::empty(),
                    layers: nodes_view(nodes@),
                    entry_point: 0,
                    max_layer: 0,
                };
                &&& links@.len() <= g.max_connections(l as int)
                &&& distinct_targets(links@)
                &&& forall|j: int|
                    0 <= j < links@.len() ==> {
                        let t = #[trigger] links@[j].node_index;
                        t != i && g.has_layer(t as int, l as int)
                    }
            }),
    {
        let ghost g = HnswView {
            m,
            m0,
            ef_construction: 1,
            data: Seq::<V>::empty(),
            layers: nodes_view(nodes@),
            entry_point: 0,
            max_layer: 0,
        };
        let bound = if l == 0 {
            m0
        } else {
            m
        };
        if links.len() > bound {
            return false;
        }
        let mut j: usize = 0;
        while j < links.len()
            invariant
                j <= links@.len(),
                g.layers == nodes_view(nodes@),
                forall|a: int|
                    0 <= a < j ==> {
                        let t = #[trigger] links@[a].node_index;
                        t != i && g.has_layer(t as int, l as int)
                    },
                forall|a: int, b: int|
                    0 <= a < j && 0 <= b < links@.len() && a != b ==> links@[a].node_index
                        != links@[b].node_index,
            decreases links@.len() - j,
        {
            let t = links[j].node_index;
            if t == i || t >= nodes.len() {
                return false;
            }
            if l >= nodes[t].layers.len() {
                assert(!g.has_layer(t as int, l as int));
                return false;
            }
            let mut b: usize = 0;
            while b < links.len()
                invariant
                    b <= links@.len(),
                    j < links@.len(),
                    t == links@[j as int].node_index,
                    forall|c: int| 0 <= c < b && c != j ==> links@[c].node_index != t,
                decreases links@.len() - b,
            {
                if b != j && links[b].node_index == t {
                    return false;
                }
                b = b + 1;
            }
            j = j + 1;
        }
        true
    }

    /// An index with the given parts, as they are; whether they form a
    /// well-formed graph is for `is_well_formed` to tell.
    #[allow(non_snake_case)]
    pub fn from_parts(
        M: usize,
        M0: usize,
        ef_construction: usize,
        data: Vec<V>,
        nodes: Vec<Node>,
        entry_point: usize,
        max_layer: usize,
    ) -> (res: Self)
        ensures
            res@ == (HnswView {
                m: M,
                m0: M0,
                ef_construction,
                data: data@,
                layers: nodes_view(nodes@),
                entry_point,
                max_layer,
            }),
    {
        Hnsw {
            m: M,
            m0: M0,
            ef_construction,
            storage: Storage { data, nodes },
            entry: (entry_point, max_layer),
        }
    }

    /// Whether the index is a well-formed graph, which searches and
    /// insertions need.
    pub fn is_well_formed(&self) -> (ok: bool)
        ensures
            ok == self.wf(),
    {
        Self::parts_well_formed(
            self.m,
            self.m0,
            self.ef_construction,
            &self.storage.data,
            &self.storage.nodes,
            self.entry.0,
            self.entry.1,
        )
    }

    /// Whether the given parts form a well-formed graph.
    #[allow(non_snake_case)]
    fn parts_well_formed(
        M: usize,
        M0: usize,
        ef_construction: usize,
        data: &Vec<V>,
        nodes: &Vec<Node>,
        entry_point: usize,
        max_layer: usize,
    ) -> (ok: bool)
        ensures
            ok == (HnswView {
                m: M,
                m0: M0,
                ef_construction,
                data: data@,
                layers: nodes_view(nodes@),
                entry_point,
                max_layer,
            }).well_formed(),
    {
        let ghost g = HnswView {
            m: M,
            m0: M0,
            ef_construction,
            data: data@,
            layers: nodes_view(nodes@),
            entry_point,
            max_layer,
        };
        if M <= 1 || M0 == 0 || ef_construction == 0 || data.len() != nodes.len() || nodes.len()
            == usize::MAX {
            return false;
        }
        if nodes.len() == 0 {
            if entry_point != 0 || max_layer != 0 {
                return false;
            }
        } else {
            if entry_point >= nodes.len() || nodes[entry_point].layers.len() == 0
                || nodes[entry_point].layers.len() - 1 != max_layer {
                return false;
            }
        }
        assert(g.entry_ok());
        let mut i: usize = 0;
        while i < nodes.len()
            invariant
                i <= nodes@.len(),
                g == (HnswView {
                    m: M,
                    m0: M0,
                    ef_construction,
                    data: data@,
                    layers: nodes_view(nodes@),
                    entry_point,
                    max_layer,
                }),
                g.layers == nodes_view(nodes@),
                g.m == M,
                g.m0 == M0,
                g.max_layer == max_layer,
                forall|a: int| 0 <= a < i ==> 1 <= #[trigger] g.layers[a].len() <= g.max_layer + 1,
                forall|a: int, l: int| 0 <= a < i && g.has_layer(a, l) ==> #[trigger] g.links_ok(a, l),
            decreases nodes@.len() - i,
        {
            let nl = nodes[i].layers.len();
            assert(g.layers[i as int].len() == nl);
            if nl == 0 || nl - 1 > max_layer {
                assert(!(1 <= g.layers[i as int].len() <= g.max_layer + 1));
                return false;
            }
            let mut l: usize = 0;
            while l < nl
                invariant
                    i < nodes@.len(),
                    nl == nodes@[i as int].layers@.len(),
                    l <= nl,
                    g == (HnswView {
                    m: M,
                    m0: M0,
                    ef_construction,
                    data: data@,
                    layers: nodes_view(nodes@),
                    entry_point,
                    max_layer,
                }),
                    g.layers == nodes_view(nodes@),
                    g.m == M,
                    g.m0 == M0,
                    forall|b: int| 0 <= b < l ==> #[trigger] g.links_ok(i as int, b),
                decreases nl - l,
            {
                let ok = Self::check_links(nodes, M, M0, i, l, &nodes[i].layers[l]);
                assert(g.links(i as int, l as int) == nodes@[i as int].layers@[l as int]@);
                assert(g.has_layer(i as int, l as int));
                assert(ok == g.links_ok(i as int, l as int));
                if !ok {
                    return false;
                }
                l = l + 1;
            }
            i = i + 1;
        }
        true
    }

    /// How many neighbours a node may keep on layer `lyr`.
    pub fn max_connections(&self, lyr: usize) -> (res: usize)
        ensures
            res == self@.max_connections(lyr as int),
    {
        if lyr == 0 {
            self.m0
        } else {
            self.m
        }
    }

    /// Beam search on layer `lyr` from `ep`, keeping the `ef` nearest nodes to
    /// `q` found; returns them nearest first.
    #[verifier::rlimit(100)]
    fn search_layer<Q, F: Fn(&Q, &V) -> u32>(
        &self,
        q: &Q,
        ep: usize,
        lyr: usize,
        ef: usize,
        dist: &F,
        ctx: &mut SearchContext,
    ) -> (res: Vec<Link>)
        requires
            self.wf(),
            old(ctx).wf(),
            ef > 0,
            self@.has_layer(ep as int, lyr as int),
            dist_total(dist),
        ensures
            final(ctx).wf(),
            1 <= res@.len() <= ef,
            sorted_asc(res@),
            distinct_targets(res@),
            self@.measured(q, lyr as int, dist, res@),
            ef >= self@.len() ==> forall|t: usize|
                #[trigger] self@.reaches(lyr as int, ep, t) ==> links_to(res@, t),
            res@.len() < ef ==> forall|t: usize|
                #[trigger] self@.reaches(lyr as int, ep, t) ==> links_to(res@, t),
            forall|j: int| 0 <= j < res@.len() ==> self@.reaches(lyr as int, ep, #[trigger] res@[j].node_index),
            exists|e: u32| #[trigger] dist.ensures((q, &self@.data[ep as int]), e) && res@[0].distance <= e,
            forall|j: int, x: usize|
                0 <= j < res@.len() && #[trigger] links_to(self@.links(res@[j].node_index as int, lyr as int), x)
                    ==> self@.no_nearer_left(q, dist, res@, x),
            dist_deterministic(dist) ==> res@ == self@.beam(q, ep, lyr as int, ef, dist),
    {
        let ghost g = self@;
        let ghost n = g.len();
        let ghost mut dropped = false;
        ctx.clear();
        ctx.visited.reset();
        let ep_dist = dist(q, &self.storage.data[ep]);
        let ep_link = Link { node_index: ep, distance: ep_dist };
        ctx.frontier.push(ep_link);
        ctx.best.push(ep_link);
        ctx.visited.mark_visited(ep);
        proof {
            lemma_bounded_len(ctx.visited@, n);
            assert(ctx.visited@ =~= Set::<usize>::empty().insert(ep));
            assert(ctx.best@[0] == ep_link);
            assert(ctx.frontier@[0] == ep_link);
            assert(g.is_walk(lyr as int, seq![ep]));
            assert(g.reaches(lyr as int, ep, ep));
            assert(links_to(ctx.best@, ep));
            assert(links_to(ctx.frontier@, ep));
        }
        let ghost l0 = Link { node_index: ep, distance: dist_value(dist, q, &g.data[ep as int]) };
        let ghost init = BeamState {
            frontier: seq![l0],
            best: seq![l0],
            visited: Set::empty().insert(ep),
            stopped: false,
        };
        let ghost target = g.beam_run(q, lyr as int, ef, dist, init, (2 * n + 2) as nat);
        let ghost mut fuel: nat = (2 * n + 2) as nat;
        let mut stop = false;
        proof {
            if dist_deterministic(dist) {
                lemma_dist_value(dist, q, &g.data[ep as int], ep_dist);
                assert(ctx.frontier@ =~= seq![l0]);
                assert(ctx.best@ =~= seq![l0]);
                assert((BeamState {
                    frontier: ctx.frontier@,
                    best: ctx.best@,
                    visited: ctx.visited@,
                    stopped: stop,
                }) == init);
            }
        }
        while !stop && ctx.frontier.len() > 0
            invariant
                self.wf(),
                g == self@,
                n == g.len(),
                dropped ==> ctx.best@.len() == ef,
                ef >= n ==> !dropped,
                dist_total(dist),
                ef > 0,
                ctx.wf(),
                forall|k: usize| #[trigger] ctx.visited@.contains(k) ==> k < n,
                forall|k: usize| #[trigger] ctx.visited@.contains(k) ==> g.has_layer(k as int, lyr as int),
                ctx.visited@.finite(),
                ctx.visited@.len() <= n,
                ctx.visited@.contains(ep),
                ctx.results@.len() == 0,
                forall|k: usize| #[trigger] ctx.visited@.contains(k) ==> g.reaches(lyr as int, ep, k),
                dist.ensures((q, &g.data[ep as int]), ep_dist),
                ctx.best@[0].distance <= ep_dist,
                1 <= ctx.best@.len() <= ef,
                ctx.best@.len() <= ctx.visited@.len(),
                distinct_targets(ctx.best@),
                distinct_targets(ctx.frontier@),
                g.measured(q, lyr as int, dist, ctx.best@),
                forall|j: int|
                    0 <= j < ctx.best@.len() ==> ctx.visited@.contains(
                        #[trigger] ctx.best@[j].node_index,
                    ),
                forall|j: int|
                    0 <= j < ctx.frontier@.len() ==> {
                        &&& ctx.visited@.contains(#[trigger] ctx.frontier@[j].node_index)
                        &&& g.has_layer(ctx.frontier@[j].node_index as int, lyr as int)
                    },
                !dropped ==> !stop,
                !dropped ==> forall|k: usize| ctx.visited@.contains(k) ==> #[trigger] links_to(ctx.best@, k),
                !dropped ==> forall|j: int| 0 <= j < ctx.frontier@.len() ==> ctx.best@.contains(#[trigger] ctx.frontier@[j]),
                !dropped ==> forall|k: usize|
                    ctx.visited@.contains(k) ==> links_to(ctx.frontier@, k) || #[trigger] g.closed_at(
                        lyr as int,
                        ctx.visited@,
                        k,
                    ),
                forall|k: usize| #[trigger] ctx.visited@.contains(k) ==> g.no_nearer_left(q, dist, ctx.best@, k),
                forall|k: usize|
                    #[trigger] links_to(ctx.best@, k) ==> g.pending_or_closed(lyr as int, ctx.frontier@, ctx.visited@, k),
                forall|a: int, e: int|
                    0 <= a < ctx.frontier@.len() && 0 <= e < ctx.best@.len() && #[trigger] ctx.frontier@[a].node_index
                        == #[trigger] ctx.best@[e].node_index ==> ctx.frontier@[a] == ctx.best@[e],
                stop ==> forall|k: usize| #[trigger] links_to(ctx.best@, k) ==> g.closed_at(lyr as int, ctx.visited@, k),
                fuel >= 2 * (n - ctx.visited@.len()) + ctx.frontier@.len() + 1,
                dist_deterministic(dist) ==> g.beam_run(
                    q,
                    lyr as int,
                    ef,
                    dist,
                    (BeamState { frontier: ctx.frontier@, best: ctx.best@, visited: ctx.visited@, stopped: stop }),
                    fuel,
                ) == target,
            decreases 2 * (n - ctx.visited@.len()) + ctx.frontier@.len(),
        {
            let ghost front_before_pop = ctx.frontier@;
            let ghost cur0 = BeamState {
                frontier: ctx.frontier@,
                best: ctx.best@,
                visited: ctx.visited@,
                stopped: stop,
            };
            let candidate = ctx.frontier.pop().unwrap();
            proof {
                assert(candidate == front_before_pop[front_before_pop.len() - 1]);
                assert(ctx.frontier@ =~= front_before_pop.subrange(0, front_before_pop.len() - 1));
                if !dropped {
                    assert(ctx.best@.contains(front_before_pop[front_before_pop.len() - 1]));
                    let b = choose|b: int| 0 <= b < ctx.best@.len() && ctx.best@[b] == candidate;
                    if b < ctx.best@.len() - 1 {
                        assert(link_le(ctx.best@[b], ctx.best@[ctx.best@.len() - 1]));
                    }
                }
            }
            proof {
                let fbp = front_before_pop;
                let cn = candidate.node_index;
                assert forall|k: usize| #[trigger] links_to(ctx.best@, k) implies k == cn || g.pending_or_closed(
                    lyr as int,
                    ctx.frontier@,
                    ctx.visited@,
                    k,
                ) by {
                    if !g.closed_at(lyr as int, ctx.visited@, k) {
                        assert(links_to(fbp, k));
                        let i = choose|i: int| 0 <= i < fbp.len() && fbp[i].node_index == k;
                        if i < fbp.len() - 1 {
                            assert(ctx.frontier@[i] == fbp[i]);
                        }
                    }
                }
                assert forall|a: int, e: int|
                    0 <= a < ctx.frontier@.len() && 0 <= e < ctx.best@.len() && #[trigger] ctx.frontier@[a].node_index
                        == #[trigger] ctx.best@[e].node_index implies ctx.frontier@[a] == ctx.best@[e] by {
                    assert(ctx.frontier@[a] == fbp[a]);
                }
            }
            let furthest = ctx.best[ctx.best.len() - 1].distance;
            if candidate.distance > furthest {
                stop = true;
                proof {
                    if dist_deterministic(dist) {
                        reveal(HnswView::beam_step);
                        assert((BeamState {
                            frontier: ctx.frontier@,
                            best: ctx.best@,
                            visited: ctx.visited@,
                            stopped: stop,
                        }) == g.beam_step(q, lyr as int, ef, dist, cur0));
                    }
                }
                proof {
                    let fbp = front_before_pop;
                    let last = ctx.best@.len() - 1;
                    assert forall|k: usize| #[trigger] links_to(ctx.best@, k) implies g.closed_at(lyr as int, ctx.visited@, k) by {
                        if !g.closed_at(lyr as int, ctx.visited@, k) {
                            assert(links_to(fbp, k));
                            let i = choose|i: int| 0 <= i < fbp.len() && fbp[i].node_index == k;
                            let e = choose|e: int| 0 <= e < ctx.best@.len() && ctx.best@[e].node_index == k;
                            assert(fbp[i] == ctx.best@[e]);
                            if e < last {
                                assert(link_le(ctx.best@[e], ctx.best@[last]));
                            }
                            if i < fbp.len() - 1 {
                                assert(link_le(fbp[fbp.len() - 1], fbp[i]));
                            }
                        }
                    }
                }
            } else {
                let c = candidate.node_index;
                proof {
                    assert(front_before_pop[front_before_pop.len() - 1].node_index == c);
                }
                assert(g.links_ok(c as int, lyr as int));
                let neighs = &self.storage.nodes[c].layers[lyr];
                assert(neighs@ == g.links(c as int, lyr as int));
                let ghost bound = 2 * (n - ctx.visited@.len()) + ctx.frontier@.len();
                proof {
                    if !dropped {
                        assert forall|k: usize|
                            ctx.visited@.contains(k) implies k == c || links_to(ctx.frontier@, k)
                            || g.closed_at(lyr as int, ctx.visited@, k) by {
                            if k != c && !g.closed_at(lyr as int, ctx.visited@, k) {
                                assert(links_to(front_before_pop, k));
                                let i = choose|i: int|
                                    0 <= i < front_before_pop.len() && front_before_pop[i].node_index == k;
                                assert(i != front_before_pop.len() - 1);
                                assert(ctx.frontier@[i] == front_before_pop[i]);
                            }
                        }
                        assert forall|j: int|
                            0 <= j < ctx.frontier@.len() implies ctx.best@.contains(#[trigger] ctx.frontier@[j]) by {
                            assert(ctx.frontier@[j] == front_before_pop[j]);
                        }
                    }
                }
                let ghost popped = BeamState {
                    frontier: ctx.frontier@,
                    best: ctx.best@,
                    visited: ctx.visited@,
                    stopped: false,
                };
                let ghost scan_target = g.beam_scan(q, ef, dist, popped, neighs@, 0);
                proof {
                    if dist_deterministic(dist) {
                        reveal(HnswView::beam_step);
                        assert(g.beam_step(q, lyr as int, ef, dist, cur0) == scan_target);
                    }
                }
                let mut j: usize = 0;
                while j < neighs.len()
                    invariant
                        self.wf(),
                        g == self@,
                        n == g.len(),
                        dropped ==> ctx.best@.len() == ef,
                        ef >= n ==> !dropped,
                        dist_total(dist),
                        ef > 0,
                        ctx.wf(),
                        neighs@ == g.links(c as int, lyr as int),
                        g.links_ok(c as int, lyr as int),
                        g.has_layer(c as int, lyr as int),
                        j <= neighs@.len(),
                        forall|k: usize| #[trigger] ctx.visited@.contains(k) ==> k < n,
                        forall|k: usize| #[trigger] ctx.visited@.contains(k) ==> g.has_layer(k as int, lyr as int),
                        ctx.visited@.finite(),
                        ctx.visited@.len() <= n,
                        ctx.visited@.contains(ep),
                        ctx.results@.len() == 0,
                        forall|k: usize| #[trigger] ctx.visited@.contains(k) ==> g.reaches(lyr as int, ep, k),
                        dist.ensures((q, &g.data[ep as int]), ep_dist),
                        ctx.best@[0].distance <= ep_dist,
                        ctx.visited@.contains(c),
                        2 * (n - ctx.visited@.len()) + ctx.frontier@.len() <= bound,
                        1 <= ctx.best@.len() <= ef,
                        ctx.best@.len() <= ctx.visited@.len(),
                        distinct_targets(ctx.best@),
                        distinct_targets(ctx.frontier@),
                        g.measured(q, lyr as int, dist, ctx.best@),
                        forall|i: int|
                            0 <= i < ctx.best@.len() ==> ctx.visited@.contains(
                                #[trigger] ctx.best@[i].node_index,
                            ),
                        forall|i: int|
                            0 <= i < ctx.frontier@.len() ==> {
                                &&& ctx.visited@.contains(#[trigger] ctx.frontier@[i].node_index)
                                &&& g.has_layer(ctx.frontier@[i].node_index as int, lyr as int)
                            },
                        !dropped ==> forall|k: usize| ctx.visited@.contains(k) ==> #[trigger] links_to(ctx.best@, k),
                        !dropped ==> forall|i: int| 0 <= i < ctx.frontier@.len() ==> ctx.best@.contains(#[trigger] ctx.frontier@[i]),
                        !dropped ==> forall|k: usize|
                            ctx.visited@.contains(k) ==> k == c || links_to(ctx.frontier@, k) || #[trigger] g.closed_at(
                                lyr as int,
                                ctx.visited@,
                                k,
                            ),
                        !dropped ==> forall|i: int| 0 <= i < j ==> ctx.visited@.contains(#[trigger] neighs@[i].node_index),
                        forall|k: usize| #[trigger] ctx.visited@.contains(k) ==> g.no_nearer_left(q, dist, ctx.best@, k),
                        forall|k: usize|
                            #[trigger] links_to(ctx.best@, k) ==> k == c || g.pending_or_closed(
                                lyr as int,
                                ctx.frontier@,
                                ctx.visited@,
                                k,
                            ),
                        forall|a: int, e: int|
                            0 <= a < ctx.frontier@.len() && 0 <= e < ctx.best@.len() && #[trigger] ctx.frontier@[a].node_index
                                == #[trigger] ctx.best@[e].node_index ==> ctx.frontier@[a] == ctx.best@[e],
                        forall|i: int| 0 <= i < j ==> ctx.visited@.contains(#[trigger] neighs@[i].node_index),
                        !stop,
                        dist_deterministic(dist) ==> g.beam_scan(
                            q,
                            ef,
                            dist,
                            (BeamState { frontier: ctx.frontier@, best: ctx.best@, visited: ctx.visited@, stopped: false }),
                            neighs@,
                            j as int,
                        ) == scan_target,
                    decreases neighs@.len() - j,
                {
                    let ghost s0 = BeamState {
                        frontier: ctx.frontier@,
                        best: ctx.best@,
                        visited: ctx.visited@,
                        stopped: false,
                    };
                    let t = neighs[j].node_index;
                    assert(g.has_layer(t as int, lyr as int));
                    if !ctx.visited.is_visited(t) {
                        let ghost vis_before = ctx.visited@;
                        let ghost best_start = ctx.best@;
                        let ghost front_start = ctx.frontier@;
                        let ghost dropped_start = dropped;
                        ctx.visited.mark_visited(t);
                        proof {
                            assert(g.reaches(lyr as int, ep, t)) by {
                                assert(vis_before.contains(c));
                                assert(g.reaches(lyr as int, ep, c));
                                let p = choose|p: Seq<usize>| #[trigger] g.is_walk(lyr as int, p) && p[0] == ep && p[p.len() - 1] == c;
                                assert(neighs@[j as int] == g.links(c as int, lyr as int)[j as int]);
                                assert(links_to(g.links(c as int, lyr as int), t));
                                lemma_walk_push(g, lyr as int, p, t);
                                let p2 = p.push(t);
                                assert(g.is_walk(lyr as int, p2) && p2[0] == ep && p2[p2.len() - 1] == t);
                            }
                            assert forall|k: usize| #[trigger] ctx.visited@.contains(k) implies k < n
                                && g.has_layer(k as int, lyr as int) && g.reaches(lyr as int, ep, k) by {
                                if k != t {
                                    assert(vis_before.contains(k));
                                }
                            }
                            lemma_bounded_len(ctx.visited@, n);
                            assert(ctx.visited@.len() == vis_before.len() + 1);
                        }
                        let d = dist(q, &self.storage.data[t]);
                        let blen = ctx.best.len();
                        if blen == ef && ctx.best[blen - 1].distance > d {
                            ctx.best.pop();
                            proof {
                                assert(blen <= vis_before.len());
                                dropped = true;
                            }
                        }
                        let ghost best_mid = ctx.best@;
                        let ghost front_mid = ctx.frontier@;
                        proof {
                            if dist_deterministic(dist) {
                                lemma_dist_value(dist, q, &g.data[t as int], d);
                            }
                        }
                        if ctx.best.len() < ef {
                            let link = Link { node_index: t, distance: d };
                            let ghost best_before = ctx.best@;
                            let ghost front_before = ctx.frontier@;
                            proof {
                                assert forall|i: int| 0 <= i < best_before.len() implies #[trigger] best_before[i].node_index != t by {
                                    assert(vis_before.contains(best_before[i].node_index));
                                }
                                assert forall|i: int| 0 <= i < front_before.len() implies #[trigger] front_before[i].node_index != t by {
                                    assert(vis_before.contains(front_before[i].node_index));
                                }
                                lemma_insert_fresh(best_before, 0, link);
                                lemma_insert_fresh(front_before, 0, link);
                            }
                            let pos = insert_asc(&mut ctx.best, link);
                            proof {
                                if best_before.len() > 0 {
                                    assert(best_before[0] == best_start[0]);
                                    if pos == 0 {
                                        assert(link_le(ctx.best@[0], ctx.best@[1]));
                                    } else {
                                        assert(ctx.best@[0] == best_before[0]);
                                    }
                                } else {
                                    assert(best_start.len() == 1);
                                    assert(d < best_start[0].distance);
                                }
                            }
                            let fpos = insert_desc(&mut ctx.frontier, link);
                            proof {
                                lemma_insert_fresh(best_before, pos as int, link);
                                lemma_insert_fresh(front_before, fpos as int, link);
                            }
                            assert forall|i: int|
                                0 <= i < ctx.best@.len() implies ctx.visited@.contains(
                                #[trigger] ctx.best@[i].node_index,
                            ) by {
                                if i < pos {
                                    assert(ctx.best@[i] == best_before[i]);
                                } else if i > pos {
                                    assert(ctx.best@[i] == best_before[i - 1]);
                                }
                            }
                            assert forall|i: int| 0 <= i < ctx.best@.len() implies {
                                &&& g.has_layer(#[trigger] ctx.best@[i].node_index as int, lyr as int)
                                &&& dist.ensures(
                                    (q, &g.data[ctx.best@[i].node_index as int]),
                                    ctx.best@[i].distance,
                                )
                            } by {
                                if i < pos {
                                    assert(ctx.best@[i] == best_before[i]);
                                } else if i > pos {
                                    assert(ctx.best@[i] == best_before[i - 1]);
                                }
                            }
                            assert forall|i: int| 0 <= i < ctx.frontier@.len() implies {
                                &&& ctx.visited@.contains(#[trigger] ctx.frontier@[i].node_index)
                                &&& g.has_layer(ctx.frontier@[i].node_index as int, lyr as int)
                            } by {
                                if i < fpos {
                                    assert(ctx.frontier@[i] == front_before[i]);
                                } else if i > fpos {
                                    assert(ctx.frontier@[i] == front_before[i - 1]);
                                }
                            }
                            proof {
                                if !dropped {
                                    assert(best_before == best_start);
                                    assert forall|k: usize| ctx.visited@.contains(k) implies #[trigger] links_to(ctx.best@, k) by {
                                        if k == t {
                                            assert(ctx.best@[pos as int].node_index == t);
                                        } else {
                                            assert(links_to(best_before, k));
                                            let i = choose|i: int| 0 <= i < best_before.len() && best_before[i].node_index == k;
                                            if i < pos {
                                                assert(ctx.best@[i] == best_before[i]);
                                            } else {
                                                assert(ctx.best@[i + 1] == best_before[i]);
                                            }
                                        }
                                    }
                                    assert forall|i: int| 0 <= i < ctx.frontier@.len() implies ctx.best@.contains(#[trigger] ctx.frontier@[i]) by {
                                        if i == fpos {
                                            assert(ctx.best@[pos as int] == link);
                                        } else {
                                            let i0 = if i < fpos { i } else { i - 1 };
                                            assert(ctx.frontier@[i] == front_before[i0]);
                                            assert(best_before.contains(front_before[i0]));
                                            let b = choose|b: int| 0 <= b < best_before.len() && best_before[b] == front_before[i0];
                                            if b < pos {
                                                assert(ctx.best@[b] == best_before[b]);
                                            } else {
                                                assert(ctx.best@[b + 1] == best_before[b]);
                                            }
                                        }
                                    }
                                    assert forall|k: usize|
                                        ctx.visited@.contains(k) implies k == c || links_to(ctx.frontier@, k)
                                        || #[trigger] g.closed_at(lyr as int, ctx.visited@, k) by {
                                        if k == t {
                                            assert(ctx.frontier@[fpos as int].node_index == t);
                                        } else if k != c {
                                            if links_to(front_before, k) {
                                                let i = choose|i: int| 0 <= i < front_before.len() && front_before[i].node_index == k;
                                                if i < fpos {
                                                    assert(ctx.frontier@[i] == front_before[i]);
                                                } else {
                                                    assert(ctx.frontier@[i + 1] == front_before[i]);
                                                }
                                            } else {
                                                assert(g.closed_at(lyr as int, vis_before, k));
                                                assert forall|i: int| 0 <= i < g.links(k as int, lyr as int).len() implies ctx.visited@.contains(
                                                    #[trigger] g.links(k as int, lyr as int)[i].node_index,
                                                ) by {
                                                    assert(vis_before.contains(g.links(k as int, lyr as int)[i].node_index));
                                                }
                                            }
                                        }
                                    }
                                }
                            }
                            proof {
                                let bn = ctx.best@;
                                let fr = ctx.frontier@;
                                let popped = best_before.len() < best_start.len();
                                assert(front_before == front_start);
                                if popped {
                                    assert(best_before =~= best_start.subrange(0, best_start.len() - 1));
                                    let sl = best_start.len() - 1;
                                    assert forall|a: int| 0 <= a < bn.len() implies #[trigger] bn[a].distance
                                        <= best_start[sl].distance by {
                                        if a < pos {
                                            assert(bn[a] == best_before[a]);
                                            assert(link_le(best_start[a], best_start[sl]));
                                        } else if a > pos {
                                            assert(bn[a] == best_before[a - 1]);
                                            assert(link_le(best_start[a - 1], best_start[sl]));
                                        }
                                    }
                                    assert(bn[bn.len() - 1].distance <= best_start[sl].distance);
                                } else {
                                    assert(best_before == best_start);
                                }
                                assert forall|k: usize| #[trigger] ctx.visited@.contains(k) implies g.no_nearer_left(
                                    q,
                                    dist,
                                    bn,
                                    k,
                                ) by {
                                    if k == t {
                                        assert(bn[pos as int] == link);
                                        assert(links_to(bn, k));
                                    } else {
                                        assert(vis_before.contains(k));
                                        assert(g.no_nearer_left(q, dist, best_start, k));
                                        if links_to(best_start, k) {
                                            let e = choose|e: int| 0 <= e < best_start.len() && best_start[e].node_index == k;
                                            if e < best_before.len() {
                                                assert(best_before[e] == best_start[e]);
                                                if e < pos {
                                                    assert(bn[e] == best_before[e]);
                                                } else {
                                                    assert(bn[e + 1] == best_before[e]);
                                                }
                                                assert(links_to(bn, k));
                                            } else {
                                                assert(dist.ensures((q, &g.data[k as int]), best_start[e].distance));
                                            }
                                        } else {
                                            assert(dropped_start);
                                            assert(popped);
                                        }
                                    }
                                }
                                assert forall|k: usize| #[trigger] links_to(bn, k) implies k == c || g.pending_or_closed(
                                    lyr as int,
                                    fr,
                                    ctx.visited@,
                                    k,
                                ) by {
                                    if k == t {
                                        assert(fr[fpos as int] == link);
                                        assert(links_to(fr, k));
                                    } else {
                                        let e = choose|e: int| 0 <= e < bn.len() && bn[e].node_index == k;
                                        let e0 = if e < pos { e } else { e - 1 };
                                        assert(bn[e] == best_before[e0]);
                                        assert(best_before[e0] == best_start[e0]);
                                        assert(links_to(best_start, k));
                                        if k != c {
                                            if links_to(front_start, k) {
                                                let i = choose|i: int| 0 <= i < front_start.len() && front_start[i].node_index == k;
                                                if i < fpos {
                                                    assert(fr[i] == front_start[i]);
                                                } else {
                                                    assert(fr[i + 1] == front_start[i]);
                                                }
                                                assert(links_to(fr, k));
                                            } else {
                                                lemma_closed_grow(g, lyr as int, vis_before, ctx.visited@, k);
                                            }
                                        }
                                    }
                                }
                                assert forall|a: int, e: int|
                                    0 <= a < fr.len() && 0 <= e < bn.len() && #[trigger] fr[a].node_index
                                        == #[trigger] bn[e].node_index implies fr[a] == bn[e] by {
                                    if a == fpos {
                                        if e != pos {
                                            let e0 = if e < pos { e } else { e - 1 };
                                            assert(bn[e] == best_before[e0]);
                                        }
                                    } else {
                                        let a0 = if a < fpos { a } else { a - 1 };
                                        assert(fr[a] == front_before[a0]);
                                        if e == pos {
                                            assert(front_before[a0].node_index != t);
                                        } else {
                                            let e0 = if e < pos { e } else { e - 1 };
                                            assert(bn[e] == best_before[e0]);
                                            assert(best_before[e0] == best_start[e0]);
                                        }
                                    }
                                }
                            }
                        } else {
                            proof {
                                assert(best_start.len() <= vis_before.len());
                                dropped = true;
                                assert(ctx.best@ == best_start);
                                assert(ctx.frontier@ == front_start);
                                assert forall|k: usize| #[trigger] ctx.visited@.contains(k) implies g.no_nearer_left(
                                    q,
                                    dist,
                                    ctx.best@,
                                    k,
                                ) by {
                                    if k == t {
                                        assert(dist.ensures((q, &g.data[k as int]), d));
                                    } else {
                                        assert(vis_before.contains(k));
                                    }
                                }
                                assert forall|k: usize| #[trigger] links_to(ctx.best@, k) implies k == c || g.pending_or_closed(
                                    lyr as int,
                                    ctx.frontier@,
                                    ctx.visited@,
                                    k,
                                ) by {
                                    if k != c && !links_to(ctx.frontier@, k) {
                                        lemma_closed_grow(g, lyr as int, vis_before, ctx.visited@, k);
                                    }
                                }
                            }
                        }
                        proof {
                            if dist_deterministic(dist) {
                                reveal(HnswView::beam_visit);
                                assert(!s0.visited.contains(t));
                                assert(best_start == s0.best);
                                assert(front_start == s0.frontier);
                                let d0 = dist_value(dist, q, &g.data[t as int]);
                                assert(d0 == d);
                                let best1 = if s0.best.len() == ef && s0.best.last().distance > d0 {
                                    s0.best.drop_last()
                                } else {
                                    s0.best
                                };
                                assert(best_mid == best1);
                                assert(front_mid == s0.frontier);
                                assert(ctx.visited@ == s0.visited.insert(t));
                                assert((BeamState {
                                    frontier: ctx.frontier@,
                                    best: ctx.best@,
                                    visited: ctx.visited@,
                                    stopped: false,
                                }) == g.beam_visit(q, ef, dist, s0, t));
                            }
                        }
                    }
                    proof {
                        if dist_deterministic(dist) {
                            if s0.visited.contains(t) {
                                reveal(HnswView::beam_visit);
                                assert((BeamState {
                                    frontier: ctx.frontier@,
                                    best: ctx.best@,
                                    visited: ctx.visited@,
                                    stopped: false,
                                }) == g.beam_visit(q, ef, dist, s0, t));
                            }
                            reveal(HnswView::beam_scan);
                            assert(neighs@[j as int].node_index == t);
                            assert(g.beam_scan(q, ef, dist, s0, neighs@, j as int) == g.beam_scan(
                                q,
                                ef,
                                dist,
                                g.beam_visit(q, ef, dist, s0, t),
                                neighs@,
                                j + 1,
                            ));
                        }
                    }
                    proof {
                        if !dropped {
                            assert forall|i: int| 0 <= i < j + 1 implies ctx.visited@.contains(#[trigger] neighs@[i].node_index) by {}
                        }
                    }
                    j = j + 1;
                }
                proof {
                    if dist_deterministic(dist) {
                        reveal(HnswView::beam_scan);
                        let st = BeamState {
                            frontier: ctx.frontier@,
                            best: ctx.best@,
                            visited: ctx.visited@,
                            stopped: false,
                        };
                        assert(g.beam_scan(q, ef, dist, st, neighs@, j as int) == st);
                        assert(st == g.beam_step(q, lyr as int, ef, dist, cur0));
                    }
                }
                proof {
                    assert(g.closed_at(lyr as int, ctx.visited@, c)) by {
                        assert forall|i: int| 0 <= i < g.links(c as int, lyr as int).len() implies ctx.visited@.contains(
                            #[trigger] g.links(c as int, lyr as int)[i].node_index,
                        ) by {
                            assert(neighs@[i] == g.links(c as int, lyr as int)[i]);
                        }
                    }
                    assert forall|k: usize| #[trigger] links_to(ctx.best@, k) implies g.pending_or_closed(
                        lyr as int,
                        ctx.frontier@,
                        ctx.visited@,
                        k,
                    ) by {}
                    if !dropped {
                        assert forall|k: usize|
                            ctx.visited@.contains(k) implies links_to(ctx.frontier@, k)
                            || #[trigger] g.closed_at(lyr as int, ctx.visited@, k) by {
                            if k == c {
                                assert forall|i: int| 0 <= i < g.links(c as int, lyr as int).len() implies ctx.visited@.contains(
                                    #[trigger] g.links(c as int, lyr as int)[i].node_index,
                                ) by {
                                    assert(neighs@[i] == g.links(c as int, lyr as int)[i]);
                                }
                            }
                        }
                    }
                }
            }
            proof {
                if dist_deterministic(dist) {
                    reveal(HnswView::beam_run);
                    assert(g.beam_run(q, lyr as int, ef, dist, cur0, fuel) == g.beam_run(
                        q,
                        lyr as int,
                        ef,
                        dist,
                        g.beam_step(q, lyr as int, ef, dist, cur0),
                        (fuel - 1) as nat,
                    ));
                }
                fuel = (fuel - 1) as nat;
            }
        }
        proof {
            if !dropped {
                assert(ctx.frontier@.len() == 0);
                assert forall|t: usize| #[trigger] g.reaches(lyr as int, ep, t) implies links_to(ctx.best@, t) by {
                    let p = choose|p: Seq<usize>| #[trigger] g.is_walk(lyr as int, p) && p[0] == ep && p[p.len() - 1] == t;
                    assert forall|k: usize| ctx.visited@.contains(k) implies #[trigger] g.closed_at(lyr as int, ctx.visited@, k) by {
                        assert(!links_to(ctx.frontier@, k));
                    }
                    lemma_walk_stays(g, lyr as int, ctx.visited@, p);
                }
            }
        }
        proof {
            assert forall|k: usize| #[trigger] links_to(ctx.best@, k) implies g.closed_at(lyr as int, ctx.visited@, k) by {
                if !stop {
                    assert(ctx.frontier@.len() == 0);
                    assert(g.pending_or_closed(lyr as int, ctx.frontier@, ctx.visited@, k));
                }
            }
            assert forall|j: int, x: usize|
                0 <= j < ctx.best@.len() && #[trigger] links_to(g.links(ctx.best@[j].node_index as int, lyr as int), x)
                    implies g.no_nearer_left(q, dist, ctx.best@, x) by {
                let y = ctx.best@[j].node_index;
                assert(links_to(ctx.best@, y));
                assert(g.closed_at(lyr as int, ctx.visited@, y));
                let i = choose|i: int| 0 <= i < g.links(y as int, lyr as int).len() && g.links(y as int, lyr as int)[i].node_index == x;
                assert(ctx.visited@.contains(g.links(y as int, lyr as int)[i].node_index));
            }
            assert forall|j: int| 0 <= j < ctx.best@.len() implies g.reaches(lyr as int, ep, #[trigger] ctx.best@[j].node_index) by {
                assert(ctx.visited@.contains(ctx.best@[j].node_index));
            }
        }
        proof {
            if dist_deterministic(dist) {
                let st = BeamState {
                    frontier: ctx.frontier@,
                    best: ctx.best@,
                    visited: ctx.visited@,
                    stopped: stop,
                };
                lemma_beam_run_rests(g, q, lyr as int, ef, dist, st, fuel);
                assert(ctx.best@ == target.best);
            }
        }
        let ghost best_final = ctx.best@;
        let ghost earlier = ctx.results@;
        let res = ctx.consume_best();
        proof {
            assert(earlier.reverse() =~= Seq::<Link>::empty());
            assert(res@ =~= best_final);
        }
        res
    }

    /// Chooses at most `max_connections(lyr)` neighbours for the vector `qv`
    /// among `candidates`. When there are too many, candidates are taken nearest
    /// first and a candidate is kept only when it is nearer to `qv` than to
    /// every neighbour kept so far; with `keep_pruned` the slots left are
    /// then filled with the pruned candidates, nearest first.
    fn select_neighbors<F: Fn(&V, &V) -> u32>(
        &self,
        qv: &V,
        lyr: usize,
        candidates: &Vec<Link>,
        keep_pruned: bool,
        dist: &F,
        ctx: &mut SelectContext,
    ) -> (res: Vec<Link>)
        requires
            self.wf(),
            old(ctx).wf(),
            dist_total(dist),
            forall|j: int| 0 <= j < candidates@.len() ==> #[trigger] candidates@[j].node_index < self@.len(),
        ensures
            final(ctx).wf(),
            res@.len() <= self@.max_connections(lyr as int),
            distinct_targets(res@),
            self@.all_selectable(candidates@, res@),
            self@.reach_layer(lyr as int, candidates@) ==> self@.reach_layer(lyr as int, res@),
            self@.dist_measured(qv, dist, candidates@) ==> self@.dist_measured(qv, dist, res@),
            candidates@.len() > 0 ==> res@.len() > 0,
            self@.measured(qv, lyr as int, dist, candidates@) ==> self@.measured(qv, lyr as int, dist, res@),
            distinct_targets(candidates@) && candidates@.len() <= self@.max_connections(lyr as int)
                ==> forall|j: int| 0 <= j < candidates@.len() ==> links_to(res@, #[trigger] candidates@[j].node_index),
            !keep_pruned && distinct_targets(candidates@) && candidates@.len() > self@.max_connections(
                lyr as int,
            ) ==> diverse_links(self@.data, dist, res@),
            first_links(candidates@).len() <= self@.max_connections(lyr as int) ==> {
                &&& sorted_asc(res@)
                &&& forall|l: Link|
                    #![trigger res@.contains(l)]
                    #![trigger first_link(candidates@, l)]
                    res@.contains(l) <==> first_link(candidates@, l)
            },
            !keep_pruned && first_links(candidates@).len() > self@.max_connections(lyr as int)
                && self@.dist_measured(qv, dist, candidates@) && dist_deterministic(dist)
                ==> greedy_selection(self@.data, dist, candidates@, self@.max_connections(lyr as int), res@),
            keep_pruned && first_links(candidates@).len() > self@.max_connections(lyr as int)
                && self@.dist_measured(qv, dist, candidates@) && dist_deterministic(dist)
                ==> refill_selection(self@.data, dist, candidates@, self@.max_connections(lyr as int), res@),
    {
        let ghost g = self@;
        let ghost n = g.len();
        let ghost cands = candidates@;
        let ghost meas = g.dist_measured(qv, dist, cands);
        let ghost simple = distinct_targets(cands);
        ctx.clear();
        ctx.visited.reset();
        let max_connections = self.max_connections(lyr);
        proof {
            lemma_bounded_len(ctx.visited@, n);
        }
        let mut i: usize = 0;
        while i < candidates.len()
            invariant
                self.wf(),
                g == self@,
                n == g.len(),
                cands == candidates@,
                dist_total(dist),
                forall|j: int| 0 <= j < cands.len() ==> #[trigger] cands[j].node_index < n,
                ctx.wf(),
                ctx.best@.len() == 0,
                ctx.discarded@.len() == 0,
                i <= cands.len(),
                forall|k: usize| ctx.visited@.contains(k) ==> k < n,
                distinct_targets(ctx.pq@),
                g.all_selectable(cands, ctx.pq@),
                forall|j: int|
                    0 <= j < ctx.pq@.len() ==> ctx.visited@.contains(
                        #[trigger] ctx.pq@[j].node_index,
                    ),
                i > 0 ==> ctx.pq@.len() > 0,
                i == 0 ==> ctx.visited@ == Set::<usize>::empty(),
                meas == g.dist_measured(qv, dist, cands),
                simple == (distinct_targets(cands)),
                meas ==> g.dist_measured(qv, dist, ctx.pq@),
                simple ==> ctx.pq@.len() == i,
                simple ==> forall|j: int| 0 <= j < i ==> ctx.pq@.contains(#[trigger] cands[j]),
                simple ==> forall|k: usize|
                    #[trigger] ctx.visited@.contains(k) ==> exists|j: int| 0 <= j < i && cands[j].node_index == k,
                forall|k: usize|
                    #[trigger] ctx.visited@.contains(k) ==> exists|j: int| 0 <= j < i && cands[j].node_index == k,
                forall|j: int| 0 <= j < i ==> ctx.visited@.contains(#[trigger] cands[j].node_index),
                forall|l: Link| #[trigger] ctx.pq@.contains(l) ==> first_before(cands, i as int, l),
                forall|l: Link| #[trigger] first_before(cands, i as int, l) ==> ctx.pq@.contains(l),
            decreases cands.len() - i,
        {
            let link = candidates[i];
            let idx = link.node_index;
            assert(links_to(cands, idx));
            proof {
                if simple && ctx.visited@.contains(idx) {
                    let j = choose|j: int| 0 <= j < i && cands[j].node_index == idx;
                    assert(cands[j].node_index != cands[i as int].node_index);
                }
            }
            let ghost pq0 = ctx.pq@;
            let ghost vis0 = ctx.visited@;
            let ghost was_visited = vis0.contains(idx);
            if !ctx.visited.is_visited(idx) {
                ctx.visited.mark_visited(idx);
                Self::push_fresh(&mut ctx.pq, link, Ghost(ctx.visited@), Ghost(g), Ghost(cands));
                proof {
                    if meas {
                        assert forall|k: int| 0 <= k < ctx.pq@.len() implies dist.ensures(
                            (qv, &g.data[(#[trigger] ctx.pq@[k].node_index) as int]),
                            ctx.pq@[k].distance,
                        ) by {
                            if ctx.pq@[k] != link {
                                let b = choose|b: int| 0 <= b < pq0.len() && pq0[b] == ctx.pq@[k];
                            }
                        }
                    }
                    if simple {
                        assert forall|j: int| 0 <= j < i + 1 implies ctx.pq@.contains(#[trigger] cands[j]) by {
                            if j < i {
                                let b = choose|b: int| 0 <= b < pq0.len() && pq0[b] == cands[j];
                                assert(ctx.pq@.contains(pq0[b]));
                            }
                        }
                        assert forall|k: usize| #[trigger] ctx.visited@.contains(k) implies exists|j: int|
                            0 <= j < i + 1 && cands[j].node_index == k by {
                            if k != idx {
                                assert(vis0.contains(k));
                            }
                        }
                    }
                }
            }
            proof {
                {
                    if was_visited {
                        assert(ctx.visited@ == vis0);
                        assert(ctx.pq@ == pq0);
                    } else {
                        assert(ctx.visited@ == vis0.insert(idx));
                    }
                    assert forall|k: usize| #[trigger] ctx.visited@.contains(k) implies exists|j: int|
                        0 <= j < i + 1 && cands[j].node_index == k by {
                        if k != idx {
                            assert(vis0.contains(k));
                        } else {
                            assert(cands[i as int].node_index == k);
                        }
                    }
                    assert forall|j: int| 0 <= j < i + 1 implies ctx.visited@.contains(#[trigger] cands[j].node_index) by {
                        if j < i {
                            assert(vis0.contains(cands[j].node_index));
                        }
                    }
                    assert forall|l: Link| #[trigger] ctx.pq@.contains(l) implies first_before(cands, i + 1, l) by {
                        if pq0.contains(l) {
                            assert(first_before(cands, i as int, l));
                            let w = choose|w: int|
                                0 <= w < i && cands[w] == l && forall|j: int| 0 <= j < w ==> #[trigger] cands[j].node_index != l.node_index;
                            assert(0 <= w < i + 1 && cands[w] == l);
                        } else {
                            assert(l == link);
                            assert forall|j: int| 0 <= j < i implies #[trigger] cands[j].node_index != l.node_index by {
                                assert(vis0.contains(cands[j].node_index));
                            }
                            assert(cands[i as int] == l);
                        }
                    }
                    assert forall|l: Link| #[trigger] first_before(cands, i + 1, l) implies ctx.pq@.contains(l) by {
                        let w = choose|w: int|
                            0 <= w < i + 1 && cands[w] == l && forall|j: int| 0 <= j < w ==> #[trigger] cands[j].node_index != l.node_index;
                        if w < i {
                            assert(first_before(cands, i as int, l));
                            assert(pq0.contains(l));
                            if !was_visited {
                                let b = choose|b: int| 0 <= b < pq0.len() && pq0[b] == l;
                                assert(ctx.pq@.contains(pq0[b]));
                            }
                        } else {
                            assert(l == link);
                            if was_visited {
                                let j = choose|j: int| 0 <= j < i && cands[j].node_index == idx;
                                assert(cands[j].node_index != l.node_index);
                            }
                        }
                    }
                }
            }
            i = i + 1;
        }
        proof {
            {
                lemma_first_count(ctx.pq@, cands);
            }
        }
        if ctx.pq.len() <= max_connections {
            let ghost pq = ctx.pq@;
            let res = ctx.consume_pq();
            proof {
                if meas {
                    assert forall|a: int| 0 <= a < res@.len() implies dist.ensures(
                        (qv, &g.data[(#[trigger] res@[a].node_index) as int]),
                        res@[a].distance,
                    ) by {
                        assert(res@[a] == pq[pq.len() - 1 - a]);
                    }
                }
                {
                    assert forall|a: int, b: int| 0 <= a < b < res@.len() implies link_le(res@[a], res@[b]) by {
                        assert(res@[a] == pq[pq.len() - 1 - a]);
                        assert(res@[b] == pq[pq.len() - 1 - b]);
                    }
                    assert forall|l: Link| res@.contains(l) implies first_link(cands, l) by {
                        let a = choose|a: int| 0 <= a < res@.len() && res@[a] == l;
                        assert(res@[a] == pq[pq.len() - 1 - a]);
                        assert(pq.contains(l));
                    }
                    assert forall|l: Link| first_link(cands, l) implies res@.contains(l) by {
                        assert(pq.contains(l));
                        let b = choose|b: int| 0 <= b < pq.len() && pq[b] == l;
                        assert(res@[pq.len() - 1 - b] == pq[b]);
                    }
                }
                if simple && cands.len() <= max_connections {
                    assert forall|j: int| 0 <= j < cands.len() implies links_to(res@, #[trigger] cands[j].node_index) by {
                        assert(pq.contains(cands[j]));
                        let b = choose|b: int| 0 <= b < pq.len() && pq[b] == cands[j];
                        assert(res@[pq.len() - 1 - b] == pq[b]);
                    }
                }
            }
            assert forall|a: int, b: int|
                0 <= a < res@.len() && 0 <= b < res@.len() && a != b implies res@[a].node_index
                != res@[b].node_index by {
                assert(res@[a] == pq[pq.len() - 1 - a]);
                assert(res@[b] == pq[pq.len() - 1 - b]);
            }
            assert forall|a: int| 0 <= a < res@.len() implies {
                &&& links_to(cands, #[trigger] res@[a].node_index)
                &&& res@[a].node_index < g.len()
            } by {
                assert(res@[a] == pq[pq.len() - 1 - a]);
            }
            return res;
        }
        let ghost start_len = ctx.pq@.len();
        let ghost pq0 = ctx.pq@;
        let ghost exact = meas && dist_deterministic(dist);
        let ghost mut pos: Seq<int> = Seq::empty();
        let mut go = true;
        while go && ctx.pq.len() > 0
            invariant
                self.wf(),
                g == self@,
                n == g.len(),
                cands == candidates@,
                dist_total(dist),
                max_connections == g.max_connections(lyr as int),
                max_connections > 0,
                start_len > max_connections,
                ctx.wf(),
                ctx.best@.len() <= max_connections,
                ctx.best@.len() == 0 ==> go && ctx.pq@.len() == start_len,
                !go ==> ctx.best@.len() >= max_connections,
                distinct_targets(ctx.pq@),
                distinct_targets(ctx.best@),
                distinct_targets(ctx.discarded@),
                disjoint_targets(ctx.pq@, ctx.best@),
                disjoint_targets(ctx.pq@, ctx.discarded@),
                disjoint_targets(ctx.best@, ctx.discarded@),
                g.all_selectable(cands, ctx.pq@),
                g.all_selectable(cands, ctx.best@),
                g.all_selectable(cands, ctx.discarded@),
                g.dist_measured(qv, dist, ctx.best@),
                g.dist_measured(qv, dist, ctx.discarded@),
                diverse_links(g.data, dist, ctx.best@),
                exact == (meas && dist_deterministic(dist)),
                sorted_desc(pq0),
                distinct_targets(pq0),
                ctx.pq@.len() <= pq0.len(),
                exact ==> g.dist_measured(qv, dist, pq0),
                exact ==> forall|l: Link| #[trigger] pq0.contains(l) ==> first_link(cands, l),
                exact ==> ctx.pq@ == pq0.subrange(0, ctx.pq@.len() as int),
                exact ==> pos.len() == ctx.best@.len(),
                exact ==> forall|a: int| 0 <= a < ctx.best@.len() ==> #[trigger] ctx.best@[a] == pq0[pos[a]],
                exact ==> forall|a: int| 0 <= a < pos.len() ==> ctx.pq@.len() <= #[trigger] pos[a] < pq0.len(),
                exact && keep_pruned && ctx.best@.len() < max_connections ==> forall|c: Link|
                    #[trigger] first_link(cands, c) && !ctx.best@.contains(c) && !ctx.pq@.contains(c)
                        ==> ctx.discarded@.contains(c),
                exact ==> forall|x: Link| #[trigger] ctx.discarded@.contains(x) ==> pq0.contains(x),
                exact ==> forall|a: int, c: int| #![trigger pos[a], pos[c]] 0 <= a < c < pos.len() ==> pos[a] > pos[c],
                exact ==> forall|c: Link|
                    #[trigger] first_link(cands, c) && !ctx.best@.contains(c) && !ctx.pq@.contains(c) ==> (exists|a: int|
                        0 <= a < ctx.best@.len() && link_le(ctx.best@[a], c) && #[trigger] too_close(
                            g.data,
                            dist,
                            ctx.best@[a],
                            c,
                        )) || (ctx.best@.len() == max_connections && link_le(
                        ctx.best@[ctx.best@.len() - 1],
                        c,
                    )),
            decreases ctx.pq@.len(),
        {
            let ghost pq_before = ctx.pq@;
            let ghost best_at_start = ctx.best@;
            let ghost pos_at_start = pos;
            let c = ctx.pq.pop().unwrap();
            assert(c == pq_before[pq_before.len() - 1]);
            assert(ctx.pq@ =~= pq_before.subrange(0, pq_before.len() - 1));
            let ghost pc = ctx.pq@.len() as int;
            proof {
                if exact {
                    assert(pq_before[pq_before.len() - 1] == pq0[pc]);
                    assert(c == pq0[pc]);
                    assert(ctx.pq@ =~= pq0.subrange(0, pc));
                    assert(!ctx.best@.contains(c)) by {
                        if ctx.best@.contains(c) {
                            let a = choose|a: int| 0 <= a < ctx.best@.len() && ctx.best@[a] == c;
                            assert(pq_before[pq_before.len() - 1].node_index != ctx.best@[a].node_index);
                        }
                    }
                    assert(!ctx.pq@.contains(c)) by {
                        if ctx.pq@.contains(c) {
                            let a = choose|a: int| 0 <= a < ctx.pq@.len() && ctx.pq@[a] == c;
                            assert(pq_before[a] == c);
                        }
                    }
                    assert forall|a: int| 0 <= a < ctx.best@.len() implies link_le(#[trigger] ctx.best@[a], c) by {
                        assert(ctx.best@[a] == pq0[pos[a]]);
                        assert(pc < pos[a]);
                    }
                    assert(pq0.contains(c));
                    assert(first_link(cands, c));
                }
            }
            if ctx.best.len() >= max_connections {
                go = false;
            } else {
                let ci = c.node_index;
                assert(ci < n);
                let c_to_q = dist(qv, &self.storage.data[ci]);
                let mut diverse = true;
                let mut k: usize = 0;
                while diverse && k < ctx.best.len()
                    invariant
                        self.wf(),
                        g == self@,
                        n == g.len(),
                        dist_total(dist),
                        ci < n,
                        k <= ctx.best@.len(),
                        k == 0 ==> diverse,
                        g.all_selectable(cands, ctx.best@),
                        !diverse ==> exists|kk: int|
                            0 <= kk < k && #[trigger] too_close(
                                g.data,
                                dist,
                                ctx.best@[kk],
                                Link { node_index: ci, distance: c_to_q },
                            ),
                        diverse ==> forall|kk: int|
                            0 <= kk < k ==> #[trigger] kept_apart(
                                g.data,
                                dist,
                                ctx.best@[kk],
                                Link { node_index: ci, distance: c_to_q },
                            ),
                    decreases ctx.best@.len() - k,
                {
                    let other = ctx.best[k].node_index;
                    assert(other < n);
                    let c_to_other = dist(&self.storage.data[ci], &self.storage.data[other]);
                    if c_to_q >= c_to_other {
                        diverse = false;
                        assert(too_close(g.data, dist, ctx.best@[k as int], Link { node_index: ci, distance: c_to_q })) by {
                            assert(dist.ensures(
                                (&g.data[ci as int], &g.data[ctx.best@[k as int].node_index as int]),
                                c_to_other,
                            ));
                        }
                    } else {
                        assert(kept_apart(
                            g.data,
                            dist,
                            ctx.best@[k as int],
                            Link { node_index: ci, distance: c_to_q },
                        )) by {
                            assert(dist.ensures(
                                (&g.data[ci as int], &g.data[ctx.best@[k as int].node_index as int]),
                                c_to_other,
                            ));
                        }
                    }
                    k = k + 1;
                }
                let fresh = Link { node_index: ci, distance: c_to_q };
                proof {
                    if exact {
                        assert(dist.ensures((qv, &g.data[ci as int]), c.distance));
                        assert(dist.ensures((qv, &g.data[ci as int]), c_to_q));
                        assert(c_to_q == c.distance);
                        assert(fresh == c);
                    }
                }
                if diverse {
                    let ghost best_before = ctx.best@;
                    ctx.best.push(fresh);
                    proof {
                        lemma_diverse_push(g.data, dist, best_before, fresh);
                        if exact {
                            let pos0 = pos;
                            pos = pos.push(pc);
                            assert forall|a: int| 0 <= a < ctx.best@.len() implies #[trigger] ctx.best@[a] == pq0[pos[a]] by {
                                if a < best_before.len() {
                                    assert(ctx.best@[a] == best_before[a]);
                                    assert(pos[a] == pos0[a]);
                                }
                            }
                            assert forall|a: int| 0 <= a < pos.len() implies ctx.pq@.len() <= #[trigger] pos[a] < pq0.len() by {
                                if a < pos0.len() {
                                    assert(pos[a] == pos0[a]);
                                }
                            }
                            assert forall|a: int, e: int| #![trigger pos[a], pos[e]] 0 <= a < e < pos.len() implies pos[a] > pos[e] by {
                                if e < pos0.len() {
                                    assert(pos[a] == pos0[a] && pos[e] == pos0[e]);
                                } else {
                                    assert(pos[a] == pos0[a]);
                                    assert(best_before[a] == pq0[pos0[a]]);
                                }
                            }
                            assert forall|x: Link|
                                #[trigger] first_link(cands, x) && !ctx.best@.contains(x) && !ctx.pq@.contains(x) implies (exists|a: int|
                                    0 <= a < ctx.best@.len() && link_le(ctx.best@[a], x) && #[trigger] too_close(
                                        g.data,
                                        dist,
                                        ctx.best@[a],
                                        x,
                                    )) || (ctx.best@.len() == max_connections && link_le(
                                    ctx.best@[ctx.best@.len() - 1],
                                    x,
                                )) by {
                                assert(ctx.best@[best_before.len() as int] == c);
                                assert(x != c);
                                assert(!best_before.contains(x)) by {
                                    if best_before.contains(x) {
                                        let a = choose|a: int| 0 <= a < best_before.len() && best_before[a] == x;
                                        assert(ctx.best@[a] == x);
                                    }
                                }
                                assert(!pq_before.contains(x)) by {
                                    if pq_before.contains(x) {
                                        let a = choose|a: int| 0 <= a < pq_before.len() && pq_before[a] == x;
                                        if a < pq_before.len() - 1 {
                                            assert(ctx.pq@[a] == x);
                                        }
                                    }
                                }
                                let a = choose|a: int|
                                    0 <= a < best_before.len() && link_le(best_before[a], x) && #[trigger] too_close(
                                        g.data,
                                        dist,
                                        best_before[a],
                                        x,
                                    );
                                assert(ctx.best@[a] == best_before[a]);
                            }
                            if keep_pruned {
                                assert forall|x: Link|
                                    #[trigger] first_link(cands, x) && !ctx.best@.contains(x) && !ctx.pq@.contains(x)
                                        implies ctx.discarded@.contains(x) by {
                                    assert(ctx.best@[best_before.len() as int] == c);
                                    assert(!best_before.contains(x)) by {
                                        if best_before.contains(x) {
                                            let a = choose|a: int| 0 <= a < best_before.len() && best_before[a] == x;
                                            assert(ctx.best@[a] == x);
                                        }
                                    }
                                    assert(!pq_before.contains(x)) by {
                                        if pq_before.contains(x) {
                                            let a = choose|a: int| 0 <= a < pq_before.len() && pq_before[a] == x;
                                            if a < pq_before.len() - 1 {
                                                assert(ctx.pq@[a] == x);
                                            }
                                        }
                                    }
                                }
                            }
                        }
                    }
                    assert forall|a: int, b: int|
                        0 <= a < ctx.pq@.len() && 0 <= b < ctx.best@.len() implies #[trigger] ctx.pq@[a].node_index
                        != #[trigger] ctx.best@[b].node_index by {
                        assert(ctx.pq@[a] == pq_before[a]);
                        if b < best_before.len() {
                            assert(ctx.best@[b] == best_before[b]);
                        }
                    }
                    assert forall|a: int, b: int|
                        0 <= a < ctx.best@.len() && 0 <= b < ctx.discarded@.len() implies #[trigger] ctx.best@[a].node_index
                        != #[trigger] ctx.discarded@[b].node_index by {
                        if a < best_before.len() {
                            assert(ctx.best@[a] == best_before[a]);
                        }
                    }
                } else if keep_pruned {
                    let ghost disc_before = ctx.discarded@;
                    let pos = insert_desc(&mut ctx.discarded, fresh);
                    assert forall|a: int, b: int|
                        0 <= a < ctx.pq@.len() && 0 <= b < ctx.discarded@.len() implies #[trigger] ctx.pq@[a].node_index
                        != #[trigger] ctx.discarded@[b].node_index by {
                        assert(ctx.pq@[a] == pq_before[a]);
                        if b < pos {
                            assert(ctx.discarded@[b] == disc_before[b]);
                        } else if b > pos {
                            assert(ctx.discarded@[b] == disc_before[b - 1]);
                        }
                    }
                    assert forall|a: int, b: int|
                        0 <= a < ctx.best@.len() && 0 <= b < ctx.discarded@.len() implies #[trigger] ctx.best@[a].node_index
                        != #[trigger] ctx.discarded@[b].node_index by {
                        if b < pos {
                            assert(ctx.discarded@[b] == disc_before[b]);
                        } else if b > pos {
                            assert(ctx.discarded@[b] == disc_before[b - 1]);
                        }
                    }
                    assert forall|a: int, b: int|
                        0 <= a < ctx.discarded@.len() && 0 <= b < ctx.discarded@.len() && a
                            != b implies ctx.discarded@[a].node_index
                        != ctx.discarded@[b].node_index by {
                        if a != pos && b != pos {
                            let a0 = if a < pos { a } else { a - 1 };
                            let b0 = if b < pos { b } else { b - 1 };
                            assert(ctx.discarded@[a] == disc_before[a0]);
                            assert(ctx.discarded@[b] == disc_before[b0]);
                        } else if a == pos {
                            let b0 = if b < pos { b } else { b - 1 };
                            assert(ctx.discarded@[b] == disc_before[b0]);
                        } else {
                            let a0 = if a < pos { a } else { a - 1 };
                            assert(ctx.discarded@[a] == disc_before[a0]);
                        }
                    }
                    assert forall|a: int| 0 <= a < ctx.discarded@.len() implies {
                        &&& links_to(cands, #[trigger] ctx.discarded@[a].node_index)
                        &&& ctx.discarded@[a].node_index < g.len()
                    } by {
                        if a < pos {
                            assert(ctx.discarded@[a] == disc_before[a]);
                        } else if a > pos {
                            assert(ctx.discarded@[a] == disc_before[a - 1]);
                        }
                    }
                    proof {
                        if exact {
                            assert(ctx.discarded@[pos as int] == c);
                            assert forall|x: Link| #[trigger] ctx.discarded@.contains(x) implies pq0.contains(x) by {
                                let a = choose|a: int| 0 <= a < ctx.discarded@.len() && ctx.discarded@[a] == x;
                                if a < pos {
                                    assert(ctx.discarded@[a] == disc_before[a]);
                                    assert(disc_before.contains(x));
                                } else if a > pos {
                                    assert(ctx.discarded@[a] == disc_before[a - 1]);
                                    assert(disc_before.contains(x));
                                } else {
                                    assert(pq0[pc] == x);
                                }
                            }
                            if ctx.best@.len() < max_connections {
                                assert forall|x: Link|
                                    #[trigger] first_link(cands, x) && !ctx.best@.contains(x) && !ctx.pq@.contains(x)
                                        implies ctx.discarded@.contains(x) by {
                                    if x != c {
                                        assert(!pq_before.contains(x)) by {
                                            if pq_before.contains(x) {
                                                let a = choose|a: int| 0 <= a < pq_before.len() && pq_before[a] == x;
                                                if a < pq_before.len() - 1 {
                                                    assert(ctx.pq@[a] == x);
                                                }
                                            }
                                        }
                                        assert(disc_before.contains(x));
                                        let a = choose|a: int| 0 <= a < disc_before.len() && disc_before[a] == x;
                                        if a < pos {
                                            assert(ctx.discarded@[a] == x);
                                        } else {
                                            assert(ctx.discarded@[a + 1] == x);
                                        }
                                    }
                                }
                            }
                        }
                    }
                }
            }
            proof {
                if exact && ctx.best@.len() == best_at_start.len() {
                    assert(pos == pos_at_start);
                    assert forall|a: int| 0 <= a < ctx.best@.len() implies #[trigger] ctx.best@[a] == pq0[pos[a]] by {
                        assert(ctx.best@[a] == best_at_start[a]);
                    }
                    assert forall|a: int| 0 <= a < pos.len() implies ctx.pq@.len() <= #[trigger] pos[a] < pq0.len() by {
                        assert(pos[a] == pos_at_start[a]);
                    }
                }
            }
        }
        proof {
            if exact {
                let best = ctx.best@;
                assert forall|a: int, e: int| 0 <= a < e < best.len() implies link_le(best[a], best[e]) by {
                    assert(best[a] == pq0[pos[a]]);
                    assert(best[e] == pq0[pos[e]]);
                    assert(pos[a] > pos[e]);
                }
                assert forall|a: int| 0 <= a < best.len() implies #[trigger] first_link(cands, best[a]) by {
                    assert(best[a] == pq0[pos[a]]);
                    assert(pq0.contains(best[a]));
                }
                assert forall|x: Link| #[trigger] first_link(cands, x) && !best.contains(x) implies (exists|a: int|
                    0 <= a < best.len() && link_le(best[a], x) && #[trigger] too_close(g.data, dist, best[a], x)) || (
                best.len() == max_connections && link_le(best[best.len() - 1], x)) by {
                    if ctx.pq@.contains(x) {
                        let p = choose|p: int| 0 <= p < ctx.pq@.len() && ctx.pq@[p] == x;
                        assert(ctx.pq@[p] == pq0[p]);
                        let last = best.len() - 1;
                        assert(best[last] == pq0[pos[last]]);
                    }
                }
            }
        }
        let ghost kept = ctx.best@;
        proof {
            if exact && keep_pruned && kept.len() < max_connections {
                assert(go);
                assert(ctx.pq@.len() == 0);
                assert forall|x: Link| #[trigger] first_link(cands, x) && !ctx.best@.contains(x) implies ctx.discarded@.contains(
                    x,
                ) by {
                    assert(!ctx.pq@.contains(x));
                }
            }
            if exact {
                assert forall|x: Link| #[trigger] ctx.discarded@.contains(x) implies first_link(cands, x) by {
                    assert(pq0.contains(x));
                }
            }
        }
        if keep_pruned {
            while ctx.discarded.len() > 0 && ctx.best.len() < max_connections
                invariant
                    exact == (meas && dist_deterministic(dist)),
                    exact ==> greedy_selection(g.data, dist, cands, max_connections as nat, kept),
                    kept.len() <= ctx.best@.len(),
                    ctx.best@.subrange(0, kept.len() as int) == kept,
                    exact ==> forall|x: Link| #[trigger] ctx.discarded@.contains(x) ==> first_link(cands, x),
                    exact ==> forall|i: int| kept.len() <= i < ctx.best@.len() ==> #[trigger] first_link(cands, ctx.best@[i]),
                    exact ==> forall|i: int, j: int|
                        kept.len() <= i < j < ctx.best@.len() ==> link_le(#[trigger] ctx.best@[i], #[trigger] ctx.best@[j]),
                    exact ==> forall|x: Link, i: int|
                        #![trigger ctx.discarded@.contains(x), ctx.best@[i]]
                        ctx.discarded@.contains(x) && kept.len() <= i < ctx.best@.len() ==> link_le(ctx.best@[i], x),
                    exact && kept.len() < max_connections ==> forall|x: Link|
                        #[trigger] first_link(cands, x) && !ctx.best@.contains(x) ==> ctx.discarded@.contains(x),
                    ctx.best@.len() > kept.len() ==> kept.len() < max_connections,
                    ctx.wf(),
                    ctx.best@.len() <= max_connections,
                    ctx.best@.len() > 0,
                    distinct_targets(ctx.best@),
                    distinct_targets(ctx.discarded@),
                    disjoint_targets(ctx.best@, ctx.discarded@),
                    g.all_selectable(cands, ctx.best@),
                    g.all_selectable(cands, ctx.discarded@),
                    g.dist_measured(qv, dist, ctx.best@),
                    g.dist_measured(qv, dist, ctx.discarded@),
                decreases ctx.discarded@.len(),
            {
                let ghost disc_before = ctx.discarded@;
                let ghost best_before = ctx.best@;
                let l = ctx.discarded.pop().unwrap();
                assert(l == disc_before[disc_before.len() - 1]);
                assert(ctx.discarded@ =~= disc_before.subrange(0, disc_before.len() - 1));
                ctx.best.push(l);
                proof {
                    assert(ctx.best@.subrange(0, kept.len() as int) =~= best_before.subrange(0, kept.len() as int));
                    if exact {
                        let nb = ctx.best@;
                        let last = nb.len() - 1;
                        assert(nb[last] == l);
                        assert(disc_before.contains(l));
                        assert forall|x: Link| #[trigger] ctx.discarded@.contains(x) implies first_link(cands, x) by {
                            let a = choose|a: int| 0 <= a < ctx.discarded@.len() && ctx.discarded@[a] == x;
                            assert(disc_before[a] == x);
                            assert(disc_before.contains(x));
                        }
                        assert forall|i: int| kept.len() <= i < nb.len() implies #[trigger] first_link(cands, nb[i]) by {
                            if i < last {
                                assert(nb[i] == best_before[i]);
                            }
                        }
                        assert forall|i: int, j: int| kept.len() <= i < j < nb.len() implies link_le(
                            #[trigger] nb[i],
                            #[trigger] nb[j],
                        ) by {
                            assert(nb[i] == best_before[i]);
                            if j < last {
                                assert(nb[j] == best_before[j]);
                            } else {
                                assert(link_le(best_before[i], l));
                            }
                        }
                        assert forall|x: Link, i: int|
                            #![trigger ctx.discarded@.contains(x), nb[i]]
                            ctx.discarded@.contains(x) && kept.len() <= i < nb.len() implies link_le(nb[i], x) by {
                            let a = choose|a: int| 0 <= a < ctx.discarded@.len() && ctx.discarded@[a] == x;
                            assert(disc_before[a] == x);
                            assert(disc_before.contains(x));
                            if i < last {
                                assert(nb[i] == best_before[i]);
                            } else {
                                assert(link_le(disc_before[disc_before.len() - 1], disc_before[a]));
                            }
                        }
                        if kept.len() < max_connections {
                            assert forall|x: Link| #[trigger] first_link(cands, x) && !nb.contains(x) implies ctx.discarded@.contains(
                                x,
                            ) by {
                                assert(!best_before.contains(x)) by {
                                    if best_before.contains(x) {
                                        let a = choose|a: int| 0 <= a < best_before.len() && best_before[a] == x;
                                        assert(nb[a] == x);
                                    }
                                }
                                assert(disc_before.contains(x));
                                let a = choose|a: int| 0 <= a < disc_before.len() && disc_before[a] == x;
                                assert(a != disc_before.len() - 1);
                                assert(ctx.discarded@[a] == x);
                            }
                        }
                    }
                }
                assert forall|a: int, b: int|
                    0 <= a < ctx.best@.len() && 0 <= b < ctx.discarded@.len() implies #[trigger] ctx.best@[a].node_index
                    != #[trigger] ctx.discarded@[b].node_index by {
                    assert(ctx.discarded@[b] == disc_before[b]);
                    if a < best_before.len() {
                        assert(ctx.best@[a] == best_before[a]);
                    }
                }
                assert forall|a: int, b: int|
                    0 <= a < ctx.best@.len() && 0 <= b < ctx.best@.len() && a != b implies ctx.best@[a].node_index
                    != ctx.best@[b].node_index by {
                    if a < best_before.len() {
                        assert(ctx.best@[a] == best_before[a]);
                    }
                    if b < best_before.len() {
                        assert(ctx.best@[b] == best_before[b]);
                    }
                }
            }
            proof {
                if exact {
                    let res = ctx.best@;
                    let m = kept.len() as int;
                    assert(res.subrange(0, m) == kept);
                    if res.len() < max_connections {
                        assert(ctx.discarded@.len() == 0);
                        assert forall|x: Link| #[trigger] first_link(cands, x) implies res.contains(x) by {
                            if !res.contains(x) {
                                assert(ctx.discarded@.contains(x));
                            }
                        }
                    }
                    assert forall|x: Link, i: int|
                        #![trigger first_link(cands, x), res[i]]
                        first_link(cands, x) && !res.contains(x) && m <= i < res.len() implies link_le(res[i], x) by {
                        assert(ctx.discarded@.contains(x));
                    }
                    assert(refilled_at(g.data, dist, cands, max_connections as nat, res, m));
                }
            }
        }
        ctx.consume_best()
    }

    /// The `k` nodes nearest to `q` that a greedy descent from the entry
    /// point followed by a beam search of width `max(ef_search, k)` on layer
    /// 0 finds, nearest first, as pairs of node index and distance. When the
    /// beam is at least as wide as the graph and layer 0 is connected, these
    /// are exactly the `min(k, n)` nearest nodes.
    pub fn search_with_context<Q, F: Fn(&Q, &V) -> u32>(
        &self,
        q: &Q,
        k: usize,
        ef_search: usize,
        dist: &F,
        ctx: &mut SearchContext,
    ) -> (res: Vec<(usize, u32)>)
        requires
            self.wf(),
            old(ctx).wf(),
            ef_search > 0,
            dist_total(dist),
        ensures
            final(ctx).wf(),
            self@.search_answer(q, k, dist, res@),
            (ef_search >= self@.len() || k >= self@.len()) && self@.layer_connected(0) ==> self@.exact_answer(
                q,
                k,
                dist,
                res@,
            ),
            self@.layer_connected(0) ==> res@.len() == (if k < self@.len() { k as nat } else { self@.len() }),
            forall|j: int, x: usize|
                0 <= j < res@.len() && #[trigger] links_to(self@.links(res@[j].0 as int, 0), x)
                    ==> self@.answer_leaves_no_nearer(q, dist, res@, x),
            self@.len() > 0 ==> self@.searched_from(q, k, if ef_search > k { ef_search } else { k }, dist, res@),
            dist_deterministic(dist) ==> res@ == self@.search_result(q, k, ef_search, dist),
    {
        if self.is_empty() {
            assert(self@.len() == 0);
            return Vec::new();
        }
        let ghost g = self@;
        let (entry_point, max_layer) = self.entry;
        let mut ep = entry_point;
        let mut lyr = max_layer;
        while lyr > 0
            invariant
                self.wf(),
                self@ == g,
                g.len() > 0,
                ctx.wf(),
                dist_total(dist),
                g.has_layer(ep as int, lyr as int),
                entry_point == g.entry_point,
                max_layer == g.max_layer,
                forall|x: usize|
                    #[trigger] g.descends(q, dist, ep, lyr as nat, 0, x) ==> g.descends(
                        q,
                        dist,
                        entry_point,
                        max_layer as nat,
                        0,
                        x,
                    ),
                dist_deterministic(dist) ==> g.descent_end(q, dist, ep, lyr as nat) == g.descent_end(
                    q,
                    dist,
                    entry_point,
                    max_layer as nat,
                ),
            decreases lyr,
        {
            let found = self.search_layer(q, ep, lyr, 1, dist, ctx);
            let ghost ep_old = ep;
            let ghost lyr_old = lyr;
            ep = found[0].node_index;
            lyr = lyr - 1;
            proof {
                assert(g.beam_result(q, ep_old, lyr_old as int, 1, dist, found@));
                assert forall|x: usize| #[trigger] g.descends(q, dist, ep, lyr as nat, 0, x) implies g.descends(
                    q,
                    dist,
                    entry_point,
                    max_layer as nat,
                    0,
                    x,
                ) by {
                    assert(g.descends(q, dist, ep_old, lyr_old as nat, 0, x));
                }
                if dist_deterministic(dist) {
                    assert(found@ == g.beam(q, ep_old, lyr_old as int, 1, dist));
                    assert(g.descent_end(q, dist, ep_old, lyr_old as nat) == g.descent_end(q, dist, ep, lyr as nat));
                }
            }
        }
        proof {
            assert(g.descends(q, dist, ep, 0, 0, ep));
        }
        let ef = if ef_search > k {
            ef_search
        } else {
            k
        };
        let results = self.search_layer(q, ep, 0, ef, dist, ctx);
        let take = if k < results.len() {
            k
        } else {
            results.len()
        };
        let mut out: Vec<(usize, u32)> = Vec::with_capacity(take);
        let mut i: usize = 0;
        while i < take
            invariant
                take <= results@.len(),
                take <= k,
                i <= take,
                out@.len() == i,
                forall|j: int|
                    0 <= j < i ==> #[trigger] out@[j] == (
                        results@[j].node_index,
                        results@[j].distance,
                    ),
            decreases take - i,
        {
            out.push((results[i].node_index, results[i].distance));
            i = i + 1;
        }
        proof {
            assert forall|a: int, b: int| 0 <= a < b < out@.len() implies {
                ||| out@[a].1 < out@[b].1
                ||| (out@[a].1 == out@[b].1 && out@[a].0 <= out@[b].0)
            } by {
                assert(link_le(results@[a], results@[b]));
            }
            assert forall|a: int, b: int|
                0 <= a < out@.len() && 0 <= b < out@.len() && a != b implies out@[a].0 != out@[b].0 by {
                assert(results@[a].node_index != results@[b].node_index);
            }
            assert forall|a: int| 0 <= a < out@.len() implies {
                &&& #[trigger] out@[a].0 < g.len()
                &&& dist.ensures((q, &g.data[out@[a].0 as int]), out@[a].1)
            } by {
                assert(g.has_layer(results@[a].node_index as int, 0));
            }
            if g.layer_connected(0) {
                assert forall|j: int| 0 <= j < results@.len() implies #[trigger] results@[j].node_index < g.len() by {
                    assert(g.has_layer(results@[j].node_index as int, 0));
                }
                lemma_distinct_len(results@, g.len());
                if results@.len() < ef {
                    assert forall|t: usize| t < g.len() implies #[trigger] links_to(results@, t) by {
                        assert(g.reaches(0, ep, t));
                    }
                    lemma_covering_len(results@, g.len());
                }
            }
            assert forall|j: int, x: usize|
                0 <= j < out@.len() && #[trigger] links_to(g.links(out@[j].0 as int, 0), x)
                    implies g.answer_leaves_no_nearer(q, dist, out@, x) by {
                assert(out@[j].0 == results@[j].node_index);
                assert(links_to(g.links(results@[j].node_index as int, 0), x));
                assert(g.no_nearer_left(q, dist, results@, x));
                let last = out@.len() - 1;
                assert(out@[last] == (results@[last].node_index, results@[last].distance));
                if links_to(results@, x) {
                    let a = choose|a: int| 0 <= a < results@.len() && results@[a].node_index == x;
                    if a < out@.len() {
                        assert(out@[a].0 == x);
                    } else {
                        assert(link_le(results@[last], results@[a]));
                        assert(g.has_layer(results@[a].node_index as int, 0));
                        assert(dist.ensures((q, &g.data[x as int]), results@[a].distance));
                    }
                } else {
                    let d = choose|d: u32| #[trigger] dist.ensures((q, &g.data[x as int]), d) && d >= results@[results@.len() - 1].distance;
                    if last < results@.len() - 1 {
                        assert(link_le(results@[last], results@[results@.len() - 1]));
                    }
                }
            }
            if ef >= g.len() && g.layer_connected(0) {
                assert forall|t: usize| t < g.len() implies #[trigger] links_to(results@, t) by {
                    assert(g.reaches(0, ep, t));
                }
                lemma_exact_prefix(g, q, k, dist, results@, out@);
            }
        }
        proof {
            let pairs = Seq::new(
                if k < results@.len() { k as nat } else { results@.len() },
                |j: int| (results@[j].node_index, results@[j].distance),
            );
            assert(out@ =~= pairs);
            assert(g.beam_result(q, ep, 0, ef, dist, results@));
            if dist_deterministic(dist) {
                assert(g.descent_end(q, dist, ep, 0) == ep);
                assert(results@ == g.beam(q, ep, 0, ef, dist));
                assert(out@ =~= g.search_result(q, k, ef_search, dist));
            }
        }
        out
    }

    /// The `k` nearest nodes to `q` found with a beam width of
    /// `max(ef_search, k)`, using a fresh context.
    pub fn search_with_ef<Q, F: Fn(&Q, &V) -> u32>(
        &self,
        q: &Q,
        k: usize,
        ef_search: usize,
        dist: &F,
    ) -> (res: Vec<(usize, u32)>)
        requires
            self.wf(),
            ef_search > 0,
            dist_total(dist),
        ensures
            self@.search_answer(q, k, dist, res@),
            (ef_search >= self@.len() || k >= self@.len()) && self@.layer_connected(0) ==> self@.exact_answer(
                q,
                k,
                dist,
                res@,
            ),
            self@.layer_connected(0) ==> res@.len() == (if k < self@.len() { k as nat } else { self@.len() }),
            forall|j: int, x: usize|
                0 <= j < res@.len() && #[trigger] links_to(self@.links(res@[j].0 as int, 0), x)
                    ==> self@.answer_leaves_no_nearer(q, dist, res@, x),
            self@.len() > 0 ==> self@.searched_from(q, k, if ef_search > k { ef_search } else { k }, dist, res@),
            dist_deterministic(dist) ==> res@ == self@.search_result(q, k, ef_search, dist),
    {
        let mut ctx = SearchContext::reusable_with_capacity(self.len(), ef_search);
        self.search_with_context(q, k, ef_search, dist, &mut ctx)
    }

    /// The `k` nearest nodes to `q` found with the default beam width, 32.
    pub fn search<Q, F: Fn(&Q, &V) -> u32>(&self, q: &Q, k: usize, dist: &F) -> (res: Vec<(usize, u32)>)
        requires
            self.wf(),
            dist_total(dist),
        ensures
            self@.search_answer(q, k, dist, res@),
            (self@.len() <= 32 || k >= self@.len()) && self@.layer_connected(0) ==> self@.exact_answer(
                q,
                k,
                dist,
                res@,
            ),
            self@.layer_connected(0) ==> res@.len() == (if k < self@.len() { k as nat } else { self@.len() }),
            forall|j: int, x: usize|
                0 <= j < res@.len() && #[trigger] links_to(self@.links(res@[j].0 as int, 0), x)
                    ==> self@.answer_leaves_no_nearer(q, dist, res@, x),
            self@.len() > 0 ==> self@.searched_from(q, k, if 32 > k { 32 } else { k }, dist, res@),
            dist_deterministic(dist) ==> res@ == self@.search_result(q, k, 32, dist),
    {
        self.search_with_ef(q, k, 32, dist)
    }

    /// A search context suited to this index.
    pub fn search_context(&self) -> (res: SearchContext)
        requires
            self.wf(),
        ensures
            res.wf(),
            res.fresh_reusable(self@.len()),
    {
        SearchContext::reusable(self.len())
    }

    /// An insertion context suited to this index.
    pub fn insert_context(&self) -> (res: InsertContext)
        requires
            self.wf(),
        ensures
            res.wf(),
            res.select_ctx.fresh_reusable(self@.len()),
            res.search_ctx.fresh_reusable(self@.len()),
    {
        InsertContext {
            select_ctx: SelectContext::reusable(self.len(), self.m0),
            search_ctx: SearchContext::reusable_with_capacity(self.len(), self.ef_construction),
        }
    }

    /// Inserts the vectors of `vecs` in order, the `i`-th reaching up to
    /// layer `layers[i]`, and returns their indices. A connected layer 0
    /// that ends with at most `M0 + 1` nodes stays connected, and for a
    /// symmetric distance every stored link stays measured from its owner.
    pub fn insert_all<F: Fn(&V, &V) -> u32>(&mut self, vecs: Vec<V>, layers: &Vec<usize>, dist: &F) -> (ids: Vec<usize>)
        requires
            old(self).wf(),
            dist_total(dist),
            vecs@.len() == layers@.len(),
            forall|i: int| 0 <= i < layers@.len() ==> #[trigger] layers@[i] < usize::MAX,
            old(self)@.len() + vecs@.len() + 1 < usize::MAX,
        ensures
            final(self).wf(),
            ids@.len() == vecs@.len(),
            forall|i: int| 0 <= i < ids@.len() ==> #[trigger] ids@[i] == old(self)@.len() + i,
            final(self)@.len() == old(self)@.len() + vecs@.len(),
            final(self)@.data == old(self)@.data + vecs@,
            final(self)@.m == old(self)@.m,
            final(self)@.m0 == old(self)@.m0,
            final(self)@.ef_construction == old(self)@.ef_construction,
            old(self)@.len() + vecs@.len() <= old(self)@.m0 + 1 && old(self)@.layer_connected(0)
                ==> final(self)@.layer_connected(0),
            dist_symmetric::<V, F>(dist) && old(self)@.links_measured(dist) ==> final(self)@.links_measured(dist),
            forall|k: int| 0 <= k < vecs@.len() ==> #[trigger] final(self)@.layers[old(self)@.len() + k].len() == layers@[k] + 1,
            forall|t: int| 0 <= t < old(self)@.len() ==> #[trigger] final(self)@.layers[t].len() == old(self)@.layers[t].len(),
            forall|k: int| 0 <= k < vecs@.len() ==> #[trigger] layers@[k] <= final(self)@.max_layer,
            final(self)@.max_layer >= old(self)@.max_layer,
            final(self)@.max_layer > old(self)@.max_layer || (old(self)@.len() == 0 && vecs@.len() > 0) ==> exists|k: int|
                0 <= k < vecs@.len() && final(self)@.entry_point == old(self)@.len() + k && #[trigger] layers@[k]
                    == final(self)@.max_layer && forall|j: int| 0 <= j < k ==> #[trigger] layers@[j] < final(self)@.max_layer,
            !(final(self)@.max_layer > old(self)@.max_layer || (old(self)@.len() == 0 && vecs@.len() > 0))
                ==> final(self)@.entry_point == old(self)@.entry_point,
    {
        let ghost g0 = self@;
        let ghost vs = vecs@;
        let mut ids: Vec<usize> = Vec::with_capacity(vecs.len());
        let mut i: usize = 0;
        for v in it: vecs.into_iter()
            invariant
                self.wf(),
                dist_total(dist),
                vs.len() == layers@.len(),
                forall|k: int| 0 <= k < layers@.len() ==> #[trigger] layers@[k] < usize::MAX,
                g0.len() + vs.len() + 1 < usize::MAX,
                it.seq() == vs,
                i == it.index(),
                ids@.len() == i,
                forall|k: int| 0 <= k < i ==> #[trigger] ids@[k] == g0.len() + k,
                self@.len() == g0.len() + i,
                self@.data == g0.data + vs.subrange(0, i as int),
                self@.m == g0.m,
                self@.m0 == g0.m0,
                self@.ef_construction == g0.ef_construction,
                g0.len() + vs.len() <= g0.m0 + 1 && g0.layer_connected(0) ==> self@.layer_connected(0),
                dist_symmetric::<V, F>(dist) && g0.links_measured(dist) ==> self@.links_measured(dist),
                forall|k: int| 0 <= k < i ==> #[trigger] self@.layers[g0.len() + k].len() == layers@[k] + 1,
                forall|t: int| 0 <= t < g0.len() ==> #[trigger] self@.layers[t].len() == g0.layers[t].len(),
                forall|k: int| 0 <= k < i ==> #[trigger] layers@[k] <= self@.max_layer,
                self@.max_layer >= g0.max_layer,
                self@.max_layer > g0.max_layer || (g0.len() == 0 && i > 0) ==> exists|k: int|
                    0 <= k < i && self@.entry_point == g0.len() + k && #[trigger] layers@[k] == self@.max_layer
                        && forall|j: int| 0 <= j < k ==> #[trigger] layers@[j] < self@.max_layer,
                !(self@.max_layer > g0.max_layer || (g0.len() == 0 && i > 0)) ==> self@.entry_point == g0.entry_point,
        {
            let ghost before = self@;
            let idx = self.insert(v, layers[i], dist);
            proof {
                let after = self@;
                let li = layers@[i as int];
                assert forall|k: int| 0 <= k < i + 1 implies #[trigger] after.layers[g0.len() + k].len() == layers@[k] + 1 by {
                    if k < i {
                        assert(after.layers[g0.len() + k].len() == before.layers[g0.len() + k].len());
                    }
                }
                assert forall|t: int| 0 <= t < g0.len() implies #[trigger] after.layers[t].len() == g0.layers[t].len() by {
                    assert(after.layers[t].len() == before.layers[t].len());
                }
                if before.len() == 0 || li > before.max_layer {
                    assert(after.entry_point == g0.len() + i && after.max_layer == li);
                    if before.len() == 0 {
                        assert(i == 0 && g0.len() == 0);
                    }
                    assert(forall|j: int| 0 <= j < i ==> #[trigger] layers@[j] < after.max_layer);
                    assert(layers@[i as int] == after.max_layer);
                } else {
                    assert(after.entry_point == before.entry_point && after.max_layer == before.max_layer);
                }
            }
            ids.push(idx);
            i = i + 1;
            assert(self@.data =~= g0.data + vs.subrange(0, i as int));
        }
        assert(vs.subrange(0, vs.len() as int) =~= vs);
        ids
    }

    /// Inserts `vec` as a new node reaching up to layer `max_lyr`, using a
    /// fresh context, and returns its index.
    pub fn insert<F: Fn(&V, &V) -> u32>(&mut self, vec: V, max_lyr: usize, dist: &F) -> (idx: usize)
        requires
            old(self).wf(),
            dist_total(dist),
            max_lyr < usize::MAX,
            old(self)@.len() + 1 < usize::MAX,
        ensures
            final(self).wf(),
            idx == old(self)@.len(),
            final(self)@.len() == old(self)@.len() + 1,
            final(self)@.data == old(self)@.data.push(vec),
            final(self)@.m == old(self)@.m,
            final(self)@.m0 == old(self)@.m0,
            final(self)@.ef_construction == old(self)@.ef_construction,
            final(self)@.layers[idx as int].len() == max_lyr + 1,
            forall|t: int|
                0 <= t < old(self)@.len() ==> #[trigger] final(self)@.layers[t].len()
                    == old(self)@.layers[t].len(),
            if old(self)@.len() == 0 || max_lyr > old(self)@.max_layer {
                final(self)@.entry_point == idx && final(self)@.max_layer == max_lyr
            } else {
                final(self)@.entry_point == old(self)@.entry_point && final(self)@.max_layer
                    == old(self)@.max_layer
            },
            old(self)@.len() > 0 ==> forall|l: int|
                0 <= l <= max_lyr && l <= old(self)@.max_layer ==> #[trigger] final(self)@.links(
                    idx as int,
                    l,
                ).len() > 0,
            forall|l: int, t: usize|
                0 <= l <= max_lyr && #[trigger] links_to(final(self)@.links(idx as int, l), t)
                    && old(self)@.links(t as int, l).len() < old(self)@.max_connections(l)
                    ==> links_to(final(self)@.links(t as int, l), idx),
            forall|t: int, l: int|
                0 <= t < old(self)@.len() && old(self)@.has_layer(t, l) && old(self)@.links(t, l).len()
                    < old(self)@.max_connections(l) ==> covers(
                    #[trigger] final(self)@.links(t, l),
                    old(self)@.links(t, l),
                ),
            old(self)@.len() <= old(self)@.m0 && old(self)@.layer_connected(0)
                ==> final(self)@.layer_connected(0),
            forall|l: int|
                0 <= l <= max_lyr ==> final(self)@.measured(&vec, l, dist, #[trigger] final(self)@.links(idx as int, l)),
            old(self)@.len() <= old(self)@.m0 && old(self)@.len() <= old(self)@.ef_construction
                && old(self)@.layer_connected(0) ==> forall|t: usize|
                t < old(self)@.len() ==> #[trigger] links_to(final(self)@.links(idx as int, 0), t),
            forall|l: int, t: usize|
                0 <= l <= max_lyr && #[trigger] links_to(final(self)@.links(idx as int, l), t)
                    && old(self)@.links(t as int, l).len() >= old(self)@.max_connections(l)
                    ==> diverse_links(final(self)@.data, dist, final(self)@.links(t as int, l)),
            old(self)@.len() > 0 ==> old(self)@.inserted_by_search(
                &vec,
                dist,
                (if max_lyr < old(self)@.max_layer { max_lyr } else { old(self)@.max_layer }) as nat,
                final(self)@.layers[idx as int],
            ),
            dist_symmetric::<V, F>(dist) && old(self)@.links_measured(dist) ==> final(self)@.links_measured(dist),
            forall|l: int, i: int|
                0 <= l <= max_lyr && 0 <= i < final(self)@.links(idx as int, l).len() && old(self)@.links(
                    final(self)@.links(idx as int, l)[i].node_index as int,
                    l,
                ).len() >= old(self)@.max_connections(l) ==> #[trigger] final(self)@.backlink_rechosen(
                    dist,
                    final(self)@.links(idx as int, l),
                    i,
                    idx,
                    old(self)@.links(final(self)@.links(idx as int, l)[i].node_index as int, l),
                    l,
                    final(self)@.links(final(self)@.links(idx as int, l)[i].node_index as int, l),
                ),
    {
        let mut ctx = self.insert_context();
        self.insert_with_context(vec, max_lyr, dist, &mut ctx)
    }

    /// The neighbour lists, one per layer up to `max_lyr`, of a new node for
    /// `vec`: a greedy descent from the entry point down to the highest layer
    /// the node shares with the graph, then on that layer and each one below
    /// a beam search of width `ef_construction`, from where the descent ended
    /// or from the first neighbour chosen on the layer above, and a diverse
    /// choice among the nodes it finds. Layers above the graph's top get no
    /// links.
    fn new_node_links<F: Fn(&V, &V) -> u32>(
        &self,
        vec: &V,
        max_lyr: usize,
        dist: &F,
        ctx: &mut InsertContext,
    ) -> (new_layers: Vec<Vec<Link>>)
        requires
            self.wf(),
            old(ctx).wf(),
            dist_total(dist),
            max_lyr < usize::MAX,
        ensures
            final(ctx).wf(),
            new_layers@.len() == max_lyr + 1,
            forall|k: int|
                0 <= k <= max_lyr ==> {
                    let s = (#[trigger] new_layers@[k])@;
                    &&& s.len() <= self@.max_connections(k)
                    &&& distinct_targets(s)
                    &&& forall|j: int| 0 <= j < s.len() ==> self@.has_layer(#[trigger] s[j].node_index as int, k)
                    &&& self@.measured(vec, k, dist, s)
                },
            self@.len() > 0 ==> forall|k: int|
                0 <= k <= max_lyr && k <= self@.max_layer ==> (#[trigger] new_layers@[k])@.len() > 0,
            self@.len() <= self@.m0 && self@.len() <= self@.ef_construction && self@.layer_connected(0)
                ==> forall|t: usize| t < self@.len() ==> #[trigger] links_to(new_layers@[0]@, t),
            self@.len() > 0 ==> self@.inserted_by_search(
                vec,
                dist,
                (if max_lyr < self@.max_layer { max_lyr } else { self@.max_layer }) as nat,
                new_layers@.map_values(|v: Vec<Link>| v@),
            ),
    {
        let ghost g0 = self@;
        let ghost small = g0.len() <= g0.m0 && g0.len() <= g0.ef_construction && g0.layer_connected(0);
        let n = self.storage.nodes.len();
        let mut new_layers: Vec<Vec<Link>> = Vec::new();
        while new_layers.len() <= max_lyr
            invariant
                new_layers@.len() <= max_lyr + 1,
                forall|k: int| 0 <= k < new_layers@.len() ==> (#[trigger] new_layers@[k])@.len() == 0,
            decreases max_lyr + 1 - new_layers@.len(),
        {
            new_layers.push(Vec::new());
        }
        if n > 0 {
            let (entry_point, max_layer) = self.entry;
            let mut ep = entry_point;
            let mut lyr = max_layer;
            let ghost stop = if max_lyr < max_layer { max_lyr } else { max_layer };
            while lyr > max_lyr
                invariant
                    self.wf(),
                    self@ == g0,
                    n == g0.len(),
                    n > 0,
                    ctx.wf(),
                    dist_total(dist),
                    g0.has_layer(ep as int, lyr as int),
                    lyr <= max_layer,
                    max_layer == g0.max_layer,
                    lyr < max_layer ==> lyr >= max_lyr,
                    entry_point == g0.entry_point,
                    stop == (if max_lyr < max_layer { max_lyr } else { max_layer }),
                    forall|x: usize|
                        #[trigger] g0.descends(vec, dist, ep, lyr as nat, stop as nat, x) ==> g0.descends(
                            vec,
                            dist,
                            entry_point,
                            max_layer as nat,
                            stop as nat,
                            x,
                        ),
                decreases lyr,
            {
                let found = self.search_layer(vec, ep, lyr, 1, dist, &mut ctx.search_ctx);
                let ghost ep_old = ep;
                let ghost lyr_old = lyr;
                ep = found[0].node_index;
                lyr = lyr - 1;
                proof {
                    assert(g0.beam_result(vec, ep_old, lyr_old as int, 1, dist, found@));
                    assert forall|x: usize|
                        #[trigger] g0.descends(vec, dist, ep, lyr as nat, stop as nat, x) implies g0.descends(
                        vec,
                        dist,
                        entry_point,
                        max_layer as nat,
                        stop as nat,
                        x,
                    ) by {
                        assert(g0.descends(vec, dist, ep_old, lyr_old as nat, stop as nat, x));
                    }
                }
            }
            let top = lyr;
            assert(top == if max_lyr < max_layer { max_lyr } else { max_layer });
            let ghost start = ep;
            proof {
                assert(g0.descends(vec, dist, ep, top as nat, top as nat, ep));
                assert(g0.descends(vec, dist, entry_point, max_layer as nat, top as nat, start));
            }
            let mut l = top + 1;
            while l > 0
                invariant
                    self.wf(),
                    self@ == g0,
                    n == g0.len(),
                    ctx.wf(),
                    dist_total(dist),
                    top <= max_lyr,
                    forall|k: int| l <= k <= top ==> (#[trigger] new_layers@[k])@.len() > 0,
                    l <= top + 1,
                    l > 0 ==> g0.has_layer(ep as int, l - 1),
                    new_layers@.len() == max_lyr + 1,
                    forall|k: int|
                        0 <= k <= max_lyr ==> {
                            let s = (#[trigger] new_layers@[k])@;
                            &&& s.len() <= g0.max_connections(k)
                            &&& distinct_targets(s)
                            &&& forall|j: int|
                                0 <= j < s.len() ==> g0.has_layer(#[trigger] s[j].node_index as int, k)
                            &&& g0.measured(vec, k, dist, s)
                        },
                    small == (g0.len() <= g0.m0 && g0.len() <= g0.ef_construction && g0.layer_connected(0)),
                    small && l == 0 ==> forall|t: usize| t < n ==> #[trigger] links_to(new_layers@[0]@, t),
                    forall|k: int|
                        l <= k <= top ==> g0.layer_built(
                            vec,
                            dist,
                            if k == top { start } else { new_layers@[k + 1]@[0].node_index },
                            k,
                            (#[trigger] new_layers@[k])@,
                        ),
                    l == top + 1 ==> ep == start,
                    l <= top ==> ep == new_layers@[l as int]@[0].node_index,
                decreases l,
            {
                l = l - 1;
                let candidates = self.search_layer(
                    vec,
                    ep,
                    l,
                    self.ef_construction,
                    dist,
                    &mut ctx.search_ctx,
                );
                let selected = self.select_neighbors(
                    vec,
                    l,
                    &candidates,
                    false,
                    dist,
                    &mut ctx.select_ctx,
                );
                let next_ep = selected[0].node_index;
                assert(g0.has_layer(next_ep as int, l as int));
                proof {
                    if small && l == 0 {
                        assert forall|t: usize| t < n implies #[trigger] links_to(candidates@, t) by {
                            assert(g0.reaches(0, ep, t));
                        }
                        assert forall|j: int| 0 <= j < candidates@.len() implies #[trigger] candidates@[j].node_index < n by {
                            assert(g0.has_layer(candidates@[j].node_index as int, 0));
                        }
                        lemma_covering_len(candidates@, n as nat);
                        assert forall|t: usize| t < n implies #[trigger] links_to(selected@, t) by {
                            assert(links_to(candidates@, t));
                            let j = choose|j: int| 0 <= j < candidates@.len() && candidates@[j].node_index == t;
                            assert(links_to(selected@, candidates@[j].node_index));
                        }
                    }
                }
                let ghost before = new_layers@;
                proof {
                    assert(g0.beam_result(vec, ep, l as int, g0.ef_construction, dist, candidates@));
                    assert(g0.chosen_from(vec, l as int, dist, candidates@, selected@));
                }
                new_layers.set(l, selected);
                assert forall|k: int|
                    0 <= k <= max_lyr implies {
                        let s = (#[trigger] new_layers@[k])@;
                        &&& s.len() <= g0.max_connections(k)
                        &&& distinct_targets(s)
                        &&& forall|j: int|
                            0 <= j < s.len() ==> g0.has_layer(#[trigger] s[j].node_index as int, k)
                        &&& g0.measured(vec, k, dist, s)
                    } by {
                    if k != l {
                        assert(new_layers@[k] == before[k]);
                    }
                }
                assert forall|k: int| l <= k <= top implies (#[trigger] new_layers@[k])@.len() > 0 by {
                    if k != l {
                        assert(new_layers@[k] == before[k]);
                    }
                }
                assert forall|k: int|
                    l <= k <= top implies g0.layer_built(
                    vec,
                    dist,
                    if k == top { start } else { new_layers@[k + 1]@[0].node_index },
                    k,
                    (#[trigger] new_layers@[k])@,
                ) by {
                    if k != l {
                        assert(new_layers@[k] == before[k]);
                        if k != top {
                            assert(new_layers@[k + 1] == before[k + 1]);
                        }
                    } else {
                        assert(new_layers@[k]@ == selected@);
                        if k != top {
                            assert(new_layers@[k + 1] == before[k + 1]);
                        }
                        assert(g0.beam_result(vec, ep, k, g0.ef_construction, dist, candidates@));
                    }
                }
                ep = next_ep;
                assert(l > 0 ==> g0.has_layer(ep as int, l - 1));
            }
            proof {
                let lists = new_layers@.map_values(|v: Vec<Link>| v@);
                assert forall|k: int| 0 <= k <= top implies #[trigger] g0.layer_built(
                    vec,
                    dist,
                    HnswView::<V>::layer_start(start, top as int, lists, k),
                    k,
                    lists[k],
                ) by {
                    assert(lists[k] == new_layers@[k]@);
                    if k != top {
                        assert(lists[k + 1] == new_layers@[k + 1]@);
                    }
                    assert(g0.layer_built(
                        vec,
                        dist,
                        if k == top { start } else { new_layers@[k + 1]@[0].node_index },
                        k,
                        new_layers@[k]@,
                    ));
                }
                assert(g0.built_along(vec, dist, start, top as int, lists));
                assert(g0.descends(vec, dist, g0.entry_point, g0.max_layer as nat, top as nat, start));
            }
        }
        assert(n > 0 ==> forall|k: int|
            0 <= k <= max_lyr && k <= g0.max_layer ==> (#[trigger] new_layers@[k])@.len() > 0);
        new_layers
    }

    /// Inserts `vec` as a new node reaching up to layer `max_lyr` and returns
    /// its index. A greedy descent from the entry point leads down to the
    /// highest layer the new node shares with the graph; on that layer and
    /// each one below, its neighbours are chosen among the `ef_construction`
    /// nearest nodes found by a beam search that starts where the descent
    /// ended or, below the first, at the first neighbour chosen on the layer
    /// above; each of them links back to it (a full list is
    /// chosen again so that it stays diverse). The new node becomes the entry
    /// point when it reaches above the current top layer. A connected layer
    /// 0 of at most `M0` nodes stays connected; when it also has at most
    /// `ef_construction` nodes, the new node is linked with every one of them.
    /// For a symmetric distance every stored link stays measured from the
    /// node that owns it.
    #[verifier::rlimit(40)]
    pub fn insert_with_context<F: Fn(&V, &V) -> u32>(
        &mut self,
        vec: V,
        max_lyr: usize,
        dist: &F,
        ctx: &mut InsertContext,
    ) -> (idx: usize)
        requires
            old(self).wf(),
            old(ctx).wf(),
            dist_total(dist),
            max_lyr < usize::MAX,
            old(self)@.len() + 1 < usize::MAX,
        ensures
            final(self).wf(),
            final(ctx).wf(),
            idx == old(self)@.len(),
            final(self)@.len() == old(self)@.len() + 1,
            final(self)@.data == old(self)@.data.push(vec),
            final(self)@.m == old(self)@.m,
            final(self)@.m0 == old(self)@.m0,
            final(self)@.ef_construction == old(self)@.ef_construction,
            final(self)@.layers[idx as int].len() == max_lyr + 1,
            forall|t: int|
                0 <= t < old(self)@.len() ==> #[trigger] final(self)@.layers[t].len()
                    == old(self)@.layers[t].len(),
            if old(self)@.len() == 0 || max_lyr > old(self)@.max_layer {
                final(self)@.entry_point == idx && final(self)@.max_layer == max_lyr
            } else {
                final(self)@.entry_point == old(self)@.entry_point && final(self)@.max_layer
                    == old(self)@.max_layer
            },
            old(self)@.len() > 0 ==> forall|l: int|
                0 <= l <= max_lyr && l <= old(self)@.max_layer ==> #[trigger] final(self)@.links(
                    idx as int,
                    l,
                ).len() > 0,
            forall|l: int, t: usize|
                0 <= l <= max_lyr && #[trigger] links_to(final(self)@.links(idx as int, l), t)
                    && old(self)@.links(t as int, l).len() < old(self)@.max_connections(l)
                    ==> links_to(final(self)@.links(t as int, l), idx),
            forall|t: int, l: int|
                0 <= t < old(self)@.len() && old(self)@.has_layer(t, l) && old(self)@.links(t, l).len()
                    < old(self)@.max_connections(l) ==> covers(
                    #[trigger] final(self)@.links(t, l),
                    old(self)@.links(t, l),
                ),
            old(self)@.len() <= old(self)@.m0 && old(self)@.layer_connected(0)
                ==> final(self)@.layer_connected(0),
            forall|l: int|
                0 <= l <= max_lyr ==> final(self)@.measured(&vec, l, dist, #[trigger] final(self)@.links(idx as int, l)),
            old(self)@.len() <= old(self)@.m0 && old(self)@.len() <= old(self)@.ef_construction
                && old(self)@.layer_connected(0) ==> forall|t: usize|
                t < old(self)@.len() ==> #[trigger] links_to(final(self)@.links(idx as int, 0), t),
            forall|l: int, t: usize|
                0 <= l <= max_lyr && #[trigger] links_to(final(self)@.links(idx as int, l), t)
                    && old(self)@.links(t as int, l).len() >= old(self)@.max_connections(l)
                    ==> diverse_links(final(self)@.data, dist, final(self)@.links(t as int, l)),
            old(self)@.len() > 0 ==> old(self)@.inserted_by_search(
                &vec,
                dist,
                (if max_lyr < old(self)@.max_layer { max_lyr } else { old(self)@.max_layer }) as nat,
                final(self)@.layers[idx as int],
            ),
            dist_symmetric::<V, F>(dist) && old(self)@.links_measured(dist) ==> final(self)@.links_measured(dist),
            forall|l: int, i: int|
                0 <= l <= max_lyr && 0 <= i < final(self)@.links(idx as int, l).len() && old(self)@.links(
                    final(self)@.links(idx as int, l)[i].node_index as int,
                    l,
                ).len() >= old(self)@.max_connections(l) ==> #[trigger] final(self)@.backlink_rechosen(
                    dist,
                    final(self)@.links(idx as int, l),
                    i,
                    idx,
                    old(self)@.links(final(self)@.links(idx as int, l)[i].node_index as int, l),
                    l,
                    final(self)@.links(final(self)@.links(idx as int, l)[i].node_index as int, l),
                ),
    {
        let ghost g0 = self@;
        let n = self.storage.nodes.len();
        let new_layers = self.new_node_links(&vec, max_lyr, dist, ctx);
        let ghost node_links = new_layers@.map_values(|v: Vec<Link>| v@);
        self.storage.data.push(vec);
        self.storage.nodes.push(Node { layers: new_layers });
        self.update_entry_point_if_required(n, max_lyr);
        let ghost g1 = self@;
        assert(g1.layers =~~= g0.layers.push(node_links));
        assert(g1.data =~= g0.data.push(vec));
        proof {
            if dist_symmetric::<V, F>(dist) && g0.links_measured(dist) {
                assert forall|l: int| 0 <= l < node_links.len() implies g0.measured(&vec, l, dist, #[trigger] node_links[l]) by {
                    assert(node_links[l] == new_layers@[l]@);
                }
                assert forall|i: int, l: int| g0.has_layer(i, l) implies #[trigger] g0.links_ok(i, l) by {}
                lemma_new_node_keeps_measured(g0, g1, &vec, node_links, dist);
            }
        }
        proof {
            assert forall|i: int, l: int| g1.has_layer(i, l) implies #[trigger] g1.links_ok(i, l) by {
                if i < n {
                    assert(g0.has_layer(i, l));
                    assert(g0.links_ok(i, l));
                    assert(g1.links(i, l) == g0.links(i, l));
                    assert forall|j: int| 0 <= j < g1.links(i, l).len() implies {
                        let t = #[trigger] g1.links(i, l)[j].node_index;
                        t != i && g1.has_layer(t as int, l)
                    } by {
                        let t = g0.links(i, l)[j].node_index;
                        assert(g0.has_layer(t as int, l));
                    }
                } else {
                    assert(g1.links(i, l) == node_links[l]);
                    assert(node_links[l] == new_layers@[l]@);
                    assert forall|j: int| 0 <= j < g1.links(i, l).len() implies {
                        let t = #[trigger] g1.links(i, l)[j].node_index;
                        t != i && g1.has_layer(t as int, l)
                    } by {
                        let s = new_layers@[l]@;
                        assert(g0.has_layer(s[j].node_index as int, l));
                    }
                }
            }
            assert forall|i: int| 0 <= i < g1.len() implies 1 <= #[trigger] g1.layers[i].len() <= g1.max_layer + 1 by {
                if i < n {
                    assert(g0.layers[i].len() <= g0.max_layer + 1);
                }
            }
            assert forall|t: int, l: int|
                0 <= t < n && g1.has_layer(t, l) implies !links_to(#[trigger] g1.links(t, l), n) by {
                assert(g0.links_ok(t, l));
                if links_to(g1.links(t, l), n) {
                    let j = choose|j: int| 0 <= j < g1.links(t, l).len() && g1.links(t, l)[j].node_index == n;
                    assert(g0.has_layer(g0.links(t, l)[j].node_index as int, l));
                }
            }
        }
        let mut lyr2: usize = 0;
        while lyr2 <= max_lyr
            invariant
                self.wf(),
                ctx.wf(),
                dist_total(dist),
                max_lyr < usize::MAX,
                lyr2 <= max_lyr + 1,
                n == g0.len(),
                self@.len() == n + 1,
                g1.len() == n + 1,
                self@.data == g1.data,
                self@.m == g1.m,
                self@.m0 == g1.m0,
                self@.ef_construction == g1.ef_construction,
                self@.entry_point == g1.entry_point,
                self@.max_layer == g1.max_layer,
                self@.layers[n as int] == g1.layers[n as int],
                g1.layers[n as int].len() == max_lyr + 1,
                forall|t: int| 0 <= t <= n ==> #[trigger] self@.layers[t].len() == g1.layers[t].len(),
                forall|t: int, l: int|
                    0 <= t < n && self@.has_layer(t, l) && links_to(#[trigger] self@.links(t, l), n)
                        ==> l < lyr2,
                dist_symmetric::<V, F>(dist) && g0.links_measured(dist) ==> self@.links_measured(dist),
                forall|l: int|
                    0 <= l <= max_lyr ==> g1.measured(&g1.data[n as int], l, dist, #[trigger] g1.links(n as int, l)),
                forall|t: int, l: int|
                    0 <= t < n && self@.has_layer(t, l) && !(l < lyr2 && links_to(
                        g1.links(n as int, l),
                        t as usize,
                    )) ==> #[trigger] self@.links(t, l) == g1.links(t, l),
                forall|t: int, l: int|
                    0 <= t < n && self@.has_layer(t, l) && l < lyr2 && links_to(
                        g1.links(n as int, l),
                        t as usize,
                    ) && g1.links(t, l).len() < g1.max_connections(l) ==> links_to(
                        #[trigger] self@.links(t, l),
                        n,
                    ),
                forall|t: int, l: int|
                    0 <= t < n && self@.has_layer(t, l) && g1.links(t, l).len() < g1.max_connections(l)
                        ==> covers(#[trigger] self@.links(t, l), g1.links(t, l)),
                forall|l: int, i: int|
                    0 <= l < lyr2 && 0 <= i < g1.links(n as int, l).len() && g1.links(
                        g1.links(n as int, l)[i].node_index as int,
                        l,
                    ).len() >= g1.max_connections(l) ==> #[trigger] g1.backlink_rechosen(
                        dist,
                        g1.links(n as int, l),
                        i,
                        n,
                        g1.links(g1.links(n as int, l)[i].node_index as int, l),
                        l,
                        self@.links(g1.links(n as int, l)[i].node_index as int, l),
                    ),
                forall|t: int, l: int|
                    0 <= t < n && self@.has_layer(t, l) && l < lyr2 && links_to(g1.links(n as int, l), t as usize)
                        && g1.links(t, l).len() >= g1.max_connections(l) ==> diverse_links(
                        g1.data,
                        dist,
                        #[trigger] self@.links(t, l),
                    ),
            decreases max_lyr + 1 - lyr2,
        {
            assert(self@.has_layer(n as int, lyr2 as int));
            let links = crate::context::copy_links(&self.storage.nodes[n].layers[lyr2]);
            assert(links@ == self@.links(n as int, lyr2 as int));
            assert(self@.links(n as int, lyr2 as int) == g1.links(n as int, lyr2 as int));
            assert(g1.measured(&g1.data[n as int], lyr2 as int, dist, g1.links(n as int, lyr2 as int)));
            assert(self@.links_ok(n as int, lyr2 as int));
            assert forall|k: int| 0 <= k < links@.len() implies {
                let t = #[trigger] links@[k].node_index;
                t != n && g1.has_layer(t as int, lyr2 as int)
            } by {
                let t = links@[k].node_index;
                assert(self@.links(n as int, lyr2 as int)[k].node_index == t);
                assert(self@.has_layer(t as int, lyr2 as int));
                assert(self@.layers[t as int].len() == g1.layers[t as int].len());
            }
            let mut j: usize = 0;
            while j < links.len()
                invariant
                    self.wf(),
                    ctx.wf(),
                    dist_total(dist),
                    lyr2 <= max_lyr,
                    max_lyr < usize::MAX,
                    j <= links@.len(),
                    links@ == g1.links(n as int, lyr2 as int),
                    distinct_targets(links@),
                    forall|k: int| 0 <= k < links@.len() ==> {
                        let t = #[trigger] links@[k].node_index;
                        t != n && g1.has_layer(t as int, lyr2 as int)
                    },
                    n == g0.len(),
                    self@.len() == n + 1,
                    g1.len() == n + 1,
                    self@.data == g1.data,
                    self@.m == g1.m,
                    self@.m0 == g1.m0,
                    self@.ef_construction == g1.ef_construction,
                    self@.entry_point == g1.entry_point,
                    self@.max_layer == g1.max_layer,
                    self@.layers[n as int] == g1.layers[n as int],
                    g1.layers[n as int].len() == max_lyr + 1,
                    forall|t: int| 0 <= t <= n ==> #[trigger] self@.layers[t].len() == g1.layers[t].len(),
                    dist_symmetric::<V, F>(dist) && g0.links_measured(dist) ==> self@.links_measured(dist),
                    g1.measured(&g1.data[n as int], lyr2 as int, dist, links@),
                    forall|t: int, l: int|
                        0 <= t < n && self@.has_layer(t, l) && links_to(#[trigger] self@.links(t, l), n)
                            ==> l < lyr2 || (l == lyr2 && links_to(links@.subrange(0, j as int), t as usize)),
                    forall|t: int, l: int|
                        0 <= t < n && self@.has_layer(t, l) && !(l < lyr2 && links_to(
                            g1.links(n as int, l),
                            t as usize,
                        )) && !(l == lyr2 && links_to(links@.subrange(0, j as int), t as usize))
                            ==> #[trigger] self@.links(t, l) == g1.links(t, l),
                    forall|t: int, l: int|
                        0 <= t < n && self@.has_layer(t, l) && ((l < lyr2 && links_to(
                            g1.links(n as int, l),
                            t as usize,
                        )) || (l == lyr2 && links_to(links@.subrange(0, j as int), t as usize)))
                            && g1.links(t, l).len() < g1.max_connections(l) ==> links_to(
                            #[trigger] self@.links(t, l),
                            n,
                        ),
                    forall|t: int, l: int|
                        0 <= t < n && self@.has_layer(t, l) && g1.links(t, l).len() < g1.max_connections(l)
                            ==> covers(#[trigger] self@.links(t, l), g1.links(t, l)),
                    forall|l: int, i: int|
                        0 <= l && (l < lyr2 || (l == lyr2 && i < j)) && 0 <= i < g1.links(n as int, l).len()
                            && g1.links(g1.links(n as int, l)[i].node_index as int, l).len() >= g1.max_connections(l)
                            ==> #[trigger] g1.backlink_rechosen(
                            dist,
                            g1.links(n as int, l),
                            i,
                            n,
                            g1.links(g1.links(n as int, l)[i].node_index as int, l),
                            l,
                            self@.links(g1.links(n as int, l)[i].node_index as int, l),
                        ),
                    forall|t: int, l: int|
                        0 <= t < n && self@.has_layer(t, l) && ((l < lyr2 && links_to(
                            g1.links(n as int, l),
                            t as usize,
                        )) || (l == lyr2 && links_to(links@.subrange(0, j as int), t as usize)))
                            && g1.links(t, l).len() >= g1.max_connections(l) ==> diverse_links(
                            g1.data,
                            dist,
                            #[trigger] self@.links(t, l),
                        ),
                decreases links@.len() - j,
            {
                let fw = links[j];
                let at = fw.node_index;
                let ghost gb = self@;
                assert(g1.has_layer(at as int, lyr2 as int));
                proof {
                    if links_to(gb.links(at as int, lyr2 as int), n) {
                        assert(at < n);
                        assert(gb.has_layer(at as int, lyr2 as int));
                        assert(links_to(links@.subrange(0, j as int), at));
                        let k = choose|k: int| 0 <= k < j && links@.subrange(0, j as int)[k].node_index == at;
                        assert(links@.subrange(0, j as int)[k] == links@[k]);
                        assert(links@[k].node_index == links@[j as int].node_index);
                    }
                }
                assert(self@.layers[at as int].len() == g1.layers[at as int].len());
                assert(self@.has_layer(at as int, lyr2 as int));
                proof {
                    if links_to(links@.subrange(0, j as int), at) {
                        let k = choose|k: int| 0 <= k < j && links@.subrange(0, j as int)[k].node_index == at;
                        assert(links@.subrange(0, j as int)[k] == links@[k]);
                        assert(links@[k].node_index == links@[j as int].node_index);
                    }
                    assert(gb.links(at as int, lyr2 as int) == g1.links(at as int, lyr2 as int));
                }
                self.add_backlink(at, Link { node_index: n, distance: fw.distance }, lyr2, dist, &mut ctx.select_ctx);
                proof {
                    if dist_symmetric::<V, F>(dist) && g0.links_measured(dist) {
                        assert(gb.dist_measured(&gb.data[at as int], dist, gb.links(at as int, lyr2 as int)));
                        assert(dist.ensures((&g1.data[n as int], &g1.data[at as int]), fw.distance));
                        assert(dist.ensures((&gb.data[at as int], &gb.data[n as int]), fw.distance));
                        lemma_replace_keeps_measured(gb, self@, at as int, lyr2 as int, dist);
                    }
                }
                proof {
                    if g1.links(at as int, lyr2 as int).len() >= g1.max_connections(lyr2 as int) {
                        assert(gb.links(at as int, lyr2 as int) == g1.links(at as int, lyr2 as int));
                        assert forall|x: int| 0 <= x < gb.layers.len() implies #[trigger] gb.layers[x].len()
                            == g1.layers[x].len() by {
                            assert(gb.layers[x].len() == g1.layers[x].len());
                        }
                        lemma_chosen_from_same_shape(
                            gb,
                            g1,
                            &gb.data[at as int],
                            lyr2 as int,
                            dist,
                            gb.links(at as int, lyr2 as int).push(Link { node_index: n, distance: fw.distance }),
                            self@.links(at as int, lyr2 as int),
                        );
                        assert(links@[j as int] == g1.links(n as int, lyr2 as int)[j as int]);
                        assert(g1.backlink_rechosen(
                            dist,
                            g1.links(n as int, lyr2 as int),
                            j as int,
                            n,
                            g1.links(at as int, lyr2 as int),
                            lyr2 as int,
                            self@.links(at as int, lyr2 as int),
                        ));
                    }
                    assert forall|l: int, i: int|
                        0 <= l && (l < lyr2 || (l == lyr2 && i < j + 1)) && 0 <= i < g1.links(n as int, l).len()
                            && g1.links(g1.links(n as int, l)[i].node_index as int, l).len() >= g1.max_connections(l)
                            implies #[trigger] g1.backlink_rechosen(
                            dist,
                            g1.links(n as int, l),
                            i,
                            n,
                            g1.links(g1.links(n as int, l)[i].node_index as int, l),
                            l,
                            self@.links(g1.links(n as int, l)[i].node_index as int, l),
                        ) by {
                        let t = g1.links(n as int, l)[i].node_index;
                        if !(l == lyr2 && i == j) {
                            if l == lyr2 {
                                assert(links@[i] == g1.links(n as int, l)[i]);
                                assert(t != at);
                            }
                            assert(gb.has_layer(n as int, l));
                            assert(gb.links_ok(n as int, l));
                            assert(gb.links(n as int, l) == g1.links(n as int, l));
                            assert(gb.links(n as int, l)[i].node_index == t);
                            assert(self@.links(t as int, l) == gb.links(t as int, l));
                        }
                    }
                }
                assert forall|t: int, l: int|
                    0 <= t < n && self@.has_layer(t, l) && links_to(#[trigger] self@.links(t, l), n)
                        implies l < lyr2 || (l == lyr2 && links_to(links@.subrange(0, j + 1), t as usize)) by {
                    if t == at && l == lyr2 {
                        assert(links@.subrange(0, j + 1)[j as int].node_index == at);
                    } else {
                        assert(self@.links(t, l) == gb.links(t, l));
                        if l == lyr2 {
                            let k = choose|k: int| 0 <= k < j && links@.subrange(0, j as int)[k].node_index == t;
                            assert(links@.subrange(0, j + 1)[k].node_index == t);
                        }
                    }
                }
                assert forall|t: int, l: int|
                    0 <= t < n && self@.has_layer(t, l) && !(l < lyr2 && links_to(
                        g1.links(n as int, l),
                        t as usize,
                    )) && !(l == lyr2 && links_to(links@.subrange(0, j + 1), t as usize))
                        implies #[trigger] self@.links(t, l) == g1.links(t, l) by {
                    if t == at && l == lyr2 {
                        assert(links@.subrange(0, j + 1)[j as int].node_index == at);
                    } else {
                        assert(self@.links(t, l) == gb.links(t, l));
                        if l == lyr2 && links_to(links@.subrange(0, j as int), t as usize) {
                            let k = choose|k: int| 0 <= k < j && links@.subrange(0, j as int)[k].node_index == t;
                            assert(links@.subrange(0, j + 1)[k].node_index == t);
                        }
                    }
                }
                assert forall|t: int, l: int|
                    0 <= t < n && self@.has_layer(t, l) && ((l < lyr2 && links_to(
                        g1.links(n as int, l),
                        t as usize,
                    )) || (l == lyr2 && links_to(links@.subrange(0, j + 1), t as usize)))
                        && g1.links(t, l).len() < g1.max_connections(l) implies links_to(
                        #[trigger] self@.links(t, l),
                        n,
                    ) by {
                    if t == at && l == lyr2 {
                        let pushed = g1.links(t, l).push(Link { node_index: n, distance: fw.distance });
                        assert(self@.links(t, l) == pushed);
                        assert(pushed[pushed.len() - 1].node_index == n);
                    } else {
                        assert(self@.links(t, l) == gb.links(t, l));
                        if l == lyr2 {
                            let sub = links@.subrange(0, j + 1);
                            let k = choose|k: int| 0 <= k < sub.len() && #[trigger] sub[k].node_index == t;
                            assert(k != j);
                            assert(links@.subrange(0, j as int)[k].node_index == t);
                        }
                    }
                }
                assert forall|t: int, l: int|
                    0 <= t < n && self@.has_layer(t, l) && g1.links(t, l).len() < g1.max_connections(l)
                        implies covers(#[trigger] self@.links(t, l), g1.links(t, l)) by {
                    if t == at && l == lyr2 {
                        let pushed = g1.links(t, l).push(Link { node_index: n, distance: fw.distance });
                        assert(self@.links(t, l) == pushed);
                        assert forall|x: usize| #[trigger] links_to(g1.links(t, l), x) implies links_to(pushed, x) by {
                            let k = choose|k: int| 0 <= k < g1.links(t, l).len() && g1.links(t, l)[k].node_index == x;
                            assert(pushed[k] == g1.links(t, l)[k]);
                        }
                    } else {
                        assert(self@.links(t, l) == gb.links(t, l));
                    }
                }
                assert forall|t: int, l: int|
                    0 <= t < n && self@.has_layer(t, l) && ((l < lyr2 && links_to(
                        g1.links(n as int, l),
                        t as usize,
                    )) || (l == lyr2 && links_to(links@.subrange(0, j + 1), t as usize)))
                        && g1.links(t, l).len() >= g1.max_connections(l) implies diverse_links(
                        g1.data,
                        dist,
                        #[trigger] self@.links(t, l),
                    ) by {
                    if t == at && l == lyr2 {
                        assert(gb.links(t, l) == g1.links(t, l));
                    } else {
                        assert(self@.links(t, l) == gb.links(t, l));
                        if l == lyr2 {
                            let sub = links@.subrange(0, j + 1);
                            let k = choose|k: int| 0 <= k < sub.len() && #[trigger] sub[k].node_index == t;
                            assert(k != j);
                            assert(links@.subrange(0, j as int)[k].node_index == t);
                        }
                    }
                }
                j = j + 1;
            }
            assert(links@.subrange(0, links@.len() as int) =~= links@);
            lyr2 = lyr2 + 1;
        }
        proof {
            let g2 = self@;
            assert forall|x: int| 0 <= x < g1.layers.len() implies #[trigger] g1.layers[x].len() == g2.layers[x].len() by {
                assert(g2.layers[x].len() == g1.layers[x].len());
            }
            assert forall|l: int, i: int|
                0 <= l <= max_lyr && 0 <= i < g2.links(n as int, l).len() && g0.links(
                    g2.links(n as int, l)[i].node_index as int,
                    l,
                ).len() >= g0.max_connections(l) implies #[trigger] g2.backlink_rechosen(
                    dist,
                    g2.links(n as int, l),
                    i,
                    n,
                    g0.links(g2.links(n as int, l)[i].node_index as int, l),
                    l,
                    g2.links(g2.links(n as int, l)[i].node_index as int, l),
                ) by {
                assert(g2.links(n as int, l) == g1.links(n as int, l));
                assert(g2.has_layer(n as int, l));
                assert(g2.links_ok(n as int, l));
                let t = g2.links(n as int, l)[i].node_index;
                assert(t != n);
                assert(g2.has_layer(t as int, l));
                assert(t < n);
                assert(g1.links(t as int, l) == g0.links(t as int, l));
                assert(g1.backlink_rechosen(
                    dist,
                    g1.links(n as int, l),
                    i,
                    n,
                    g1.links(t as int, l),
                    l,
                    g2.links(t as int, l),
                ));
                lemma_chosen_from_same_shape(
                    g1,
                    g2,
                    &g1.data[t as int],
                    l,
                    dist,
                    g1.links(t as int, l).push(Link { node_index: n, distance: g1.links(n as int, l)[i].distance }),
                    g2.links(t as int, l),
                );
            }
            assert forall|t: int, l: int|
                0 <= t < n && g0.has_layer(t, l) && g0.links(t, l).len() < g0.max_connections(l)
                    implies covers(#[trigger] g2.links(t, l), g0.links(t, l)) by {
                assert(g1.links(t, l) == g0.links(t, l));
                assert(g2.has_layer(t, l));
            }
            if g0.len() <= g0.m0 && g0.layer_connected(0) {
                assert forall|x: usize| #[trigger] g0.has_layer(x as int, 0) implies g2.has_layer(x as int, 0)
                    && covers(g2.links(x as int, 0), g0.links(x as int, 0)) && g0.links(x as int, 0).len()
                    < g0.max_connections(0) by {
                    assert(g0.links_ok(x as int, 0));
                    assert forall|j: int| 0 <= j < g0.links(x as int, 0).len() implies #[trigger] g0.links(
                        x as int,
                        0,
                    )[j].node_index < n && g0.links(x as int, 0)[j].node_index != x by {
                        assert(g0.has_layer(g0.links(x as int, 0)[j].node_index as int, 0));
                    }
                    lemma_list_short(g0.links(x as int, 0), n as nat, x);
                    assert(g2.has_layer(x as int, 0));
                }
                assert forall|x: usize| x < g0.len() implies #[trigger] g0.has_layer(x as int, 0) by {
                    assert(g0.layers[x as int].len() >= 1);
                }
                assert(g2.has_layer(n as int, 0));
                let t: usize = if n > 0 { g2.links(n as int, 0)[0].node_index } else { 0 };
                if n > 0 {
                    assert(g2.links(n as int, 0) == g1.links(n as int, 0));
                    assert(g2.links(n as int, 0).len() > 0);
                    assert(g2.links_ok(n as int, 0));
                    assert(g2.has_layer(t as int, 0));
                    assert(links_to(g2.links(n as int, 0), t));
                    assert(t != n);
                    assert(t < n);
                    assert(g0.has_layer(t as int, 0));
                    assert(g1.links(t as int, 0) == g0.links(t as int, 0));
                    assert(g1.links(t as int, 0).len() < g1.max_connections(0));
                    assert(links_to(g1.links(n as int, 0), t));
                    assert(links_to(g2.links(t as int, 0), n));
                }
                lemma_connected_after_insert(g0, g2, 0, t);
            }
        }
        n
    }

    /// Adds `link` to the neighbours of node `at` on layer `lyr`; when that
    /// leaves too many, the list is chosen again among its members with
    /// `select_neighbors`, as seen from node `at`.
    fn add_backlink<F: Fn(&V, &V) -> u32>(
        &mut self,
        at: usize,
        link: Link,
        lyr: usize,
        dist: &F,
        ctx: &mut SelectContext,
    )
        requires
            old(self).wf(),
            old(ctx).wf(),
            dist_total(dist),
            old(self)@.has_layer(at as int, lyr as int),
            old(self)@.has_layer(link.node_index as int, lyr as int),
            link.node_index != at,
            !links_to(old(self)@.links(at as int, lyr as int), link.node_index),
        ensures
            final(self).wf(),
            final(ctx).wf(),
            final(self)@ == (HnswView {
                layers: old(self)@.layers.update(
                    at as int,
                    old(self)@.layers[at as int].update(lyr as int, final(self)@.links(at as int, lyr as int)),
                ),
                ..old(self)@
            }),
            forall|x: usize|
                links_to(final(self)@.links(at as int, lyr as int), x) ==> x == link.node_index || links_to(
                    old(self)@.links(at as int, lyr as int),
                    x,
                ),
            old(self)@.links(at as int, lyr as int).len() < old(self)@.max_connections(lyr as int)
                ==> final(self)@.links(at as int, lyr as int) == old(self)@.links(
                at as int,
                lyr as int,
            ).push(link),
            old(self)@.links(at as int, lyr as int).len() >= old(self)@.max_connections(lyr as int)
                ==> diverse_links(final(self)@.data, dist, final(self)@.links(at as int, lyr as int)),
            old(self)@.links(at as int, lyr as int).len() >= old(self)@.max_connections(lyr as int)
                ==> old(self)@.chosen_from(
                &old(self)@.data[at as int],
                lyr as int,
                dist,
                old(self)@.links(at as int, lyr as int).push(link),
                final(self)@.links(at as int, lyr as int),
            ),
            old(self)@.dist_measured(&old(self)@.data[at as int], dist, old(self)@.links(at as int, lyr as int))
                && dist.ensures((&old(self)@.data[at as int], &old(self)@.data[link.node_index as int]), link.distance)
                ==> old(self)@.dist_measured(
                &old(self)@.data[at as int],
                dist,
                final(self)@.links(at as int, lyr as int),
            ),
    {
        let ghost g0 = self@;
        let max_connections = self.max_connections(lyr);
        self.storage.nodes[at].layers[lyr].push(link);
        let ghost pushed = g0.links(at as int, lyr as int).push(link);
        assert(self@.layers =~~= g0.layers.update(at as int, g0.layers[at as int].update(lyr as int, pushed)));
        if self.storage.nodes[at].layers[lyr].len() > max_connections {
            let mut candidates: Vec<Link> = Vec::new();
            std::mem::swap(&mut candidates, &mut self.storage.nodes[at].layers[lyr]);
            assert(candidates@ == pushed);
            let ghost g1 = self@;
            assert(g1.layers =~~= g0.layers.update(at as int, g0.layers[at as int].update(lyr as int, Seq::empty())));
            assert forall|i: int, l: int| g1.has_layer(i, l) implies #[trigger] g1.links_ok(i, l) by {
                if i != at || l != lyr {
                    assert(g0.has_layer(i, l));
                    assert(g0.links_ok(i, l));
                    assert(g1.links(i, l) == g0.links(i, l));
                    assert forall|j: int| 0 <= j < g1.links(i, l).len() implies {
                        let t = #[trigger] g1.links(i, l)[j].node_index;
                        t != i && g1.has_layer(t as int, l)
                    } by {
                        let t = g0.links(i, l)[j].node_index;
                        assert(g0.has_layer(t as int, l));
                    }
                }
            }
            assert forall|j: int| 0 <= j < candidates@.len() implies g1.has_layer(
                #[trigger] candidates@[j].node_index as int,
                lyr as int,
            ) by {
                if j < g0.links(at as int, lyr as int).len() {
                    assert(g0.links_ok(at as int, lyr as int));
                    assert(candidates@[j] == g0.links(at as int, lyr as int)[j]);
                }
            }
            assert(g0.links_ok(at as int, lyr as int));
            assert forall|a: int, b: int|
                0 <= a < pushed.len() && 0 <= b < pushed.len() && a != b implies pushed[a].node_index
                != pushed[b].node_index by {
                if a < pushed.len() - 1 && b < pushed.len() - 1 {
                } else if a == pushed.len() - 1 {
                    assert(pushed[b] == g0.links(at as int, lyr as int)[b]);
                } else {
                    assert(pushed[a] == g0.links(at as int, lyr as int)[a]);
                }
            }
            let new_links = self.select_neighbors(
                &self.storage.data[at],
                lyr,
                &candidates,
                false,
                dist,
                ctx,
            );
            proof {
                assert(g1.chosen_from(&g1.data[at as int], lyr as int, dist, pushed, new_links@));
                assert forall|i: int| 0 <= i < g1.layers.len() implies #[trigger] g1.layers[i].len()
                    == g0.layers[i].len() by {}
                lemma_chosen_from_same_shape(g1, g0, &g1.data[at as int], lyr as int, dist, pushed, new_links@);
            }
            self.storage.nodes[at].layers[lyr] = new_links;
            assert(self@.layers =~~= g0.layers.update(at as int, g0.layers[at as int].update(lyr as int, new_links@)));
            assert forall|x: usize| links_to(new_links@, x) implies x == link.node_index || links_to(
                g0.links(at as int, lyr as int),
                x,
            ) by {
                let j = choose|j: int| 0 <= j < new_links@.len() && new_links@[j].node_index == x;
                assert(links_to(candidates@, new_links@[j].node_index));
                let c = choose|c: int| 0 <= c < pushed.len() && pushed[c].node_index == x;
                if c < g0.links(at as int, lyr as int).len() {
                    assert(pushed[c] == g0.links(at as int, lyr as int)[c]);
                }
            }
        }
        let ghost g2 = self@;
        assert(g0.links_ok(at as int, lyr as int));
        assert forall|j: int| 0 <= j < g2.links(at as int, lyr as int).len() implies {
            let t = #[trigger] g2.links(at as int, lyr as int)[j].node_index;
            t != at && g2.has_layer(t as int, lyr as int)
        } by {
            let t = g2.links(at as int, lyr as int)[j].node_index;
            assert(links_to(g2.links(at as int, lyr as int), t));
            if t != link.node_index {
                let c = choose|c: int| 0 <= c < g0.links(at as int, lyr as int).len() && g0.links(at as int, lyr as int)[c].node_index == t;
                assert(g0.has_layer(t as int, lyr as int));
            }
        }
        assert forall|i: int, l: int| g2.has_layer(i, l) implies #[trigger] g2.links_ok(i, l) by {
            if i != at || l != lyr {
                assert(g0.has_layer(i, l));
                assert(g0.links_ok(i, l));
                assert(g2.links(i, l) == g0.links(i, l));
                assert forall|j: int| 0 <= j < g2.links(i, l).len() implies {
                    let t = #[trigger] g2.links(i, l)[j].node_index;
                    t != i && g2.has_layer(t as int, l)
                } by {
                    let t = g0.links(i, l)[j].node_index;
                    assert(g0.has_layer(t as int, l));
                }
            } else {
                if g2.links(at as int, lyr as int) == pushed {
                    assert forall|a: int, b: int|
                        0 <= a < pushed.len() && 0 <= b < pushed.len() && a != b implies pushed[a].node_index
                        != pushed[b].node_index by {
                        if a < pushed.len() - 1 && b < pushed.len() - 1 {
                        } else if a == pushed.len() - 1 {
                            assert(pushed[b] == g0.links(at as int, lyr as int)[b]);
                        } else {
                            assert(pushed[a] == g0.links(at as int, lyr as int)[a]);
                        }
                    }
                }
            }
        }
    }

    /// Makes node `insert_idx` the entry point when it reaches above the
    /// current top layer.
    fn update_entry_point_if_required(&mut self, insert_idx: usize, insert_lyr: usize)
        ensures
            final(self)@ == (if insert_lyr > old(self)@.max_layer {
                HnswView { entry_point: insert_idx, max_layer: insert_lyr, ..old(self)@ }
            } else {
                old(self)@
            }),
            final(self).storage.nodes@.len() == old(self).storage.nodes@.len(),
            final(self).storage.data@.len() == old(self).storage.data@.len(),
    {
        if insert_lyr > self.entry.1 {
            self.entry = (insert_idx, insert_lyr);
        }
    }

    /// Adds to the queue `pq` a link whose target it does not hold yet.
    fn push_fresh(
        pq: &mut Vec<Link>,
        link: Link,
        Ghost(vis): Ghost<Set<usize>>,
        Ghost(g): Ghost<HnswView<V>>,
        Ghost(cands): Ghost<Seq<Link>>,
    )
        requires
            sorted_desc(old(pq)@),
            distinct_targets(old(pq)@),
            g.all_selectable(cands, old(pq)@),
            forall|k: int| 0 <= k < old(pq)@.len() ==> vis.contains(#[trigger] old(pq)@[k].node_index),
            forall|k: int| 0 <= k < old(pq)@.len() ==> #[trigger] old(pq)@[k].node_index != link.node_index,
            vis.contains(link.node_index),
            links_to(cands, link.node_index),
            link.node_index < g.len(),
        ensures
            sorted_desc(final(pq)@),
            distinct_targets(final(pq)@),
            g.all_selectable(cands, final(pq)@),
            forall|k: int| 0 <= k < final(pq)@.len() ==> vis.contains(#[trigger] final(pq)@[k].node_index),
            final(pq)@.len() == old(pq)@.len() + 1,
            final(pq)@.contains(link),
            forall|k: int| 0 <= k < old(pq)@.len() ==> final(pq)@.contains(#[trigger] old(pq)@[k]),
            forall|k: int| 0 <= k < final(pq)@.len() ==> #[trigger] final(pq)@[k] == link || old(pq)@.contains(final(pq)@[k]),
    {
        let ghost before = pq@;
        let pos = insert_desc(pq, link);
        assert(pq@[pos as int] == link);
        assert forall|k: int| 0 <= k < before.len() implies pq@.contains(#[trigger] before[k]) by {
            if k < pos {
                assert(pq@[k] == before[k]);
            } else {
                assert(pq@[k + 1] == before[k]);
            }
        }
        assert forall|k: int| 0 <= k < pq@.len() implies #[trigger] pq@[k] == link || before.contains(pq@[k]) by {
            if k < pos {
                assert(pq@[k] == before[k]);
            } else if k > pos {
                assert(pq@[k] == before[k - 1]);
            }
        }
        assert forall|k: int| 0 <= k < pq@.len() implies {
            &&& vis.contains(#[trigger] pq@[k].node_index)
            &&& links_to(cands, pq@[k].node_index)
            &&& pq@[k].node_index < g.len()
        } by {
            if k < pos {
                assert(pq@[k] == before[k]);
            } else if k > pos {
                assert(pq@[k] == before[k - 1]);
            }
        }
        assert forall|a: int, b: int|
            0 <= a < pq@.len() && 0 <= b < pq@.len() && a != b implies pq@[a].node_index
            != pq@[b].node_index by {
            if a != pos && b != pos {
                let a0 = if a < pos { a } else { a - 1 };
                let b0 = if b < pos { b } else { b - 1 };
                assert(pq@[a] == before[a0]);
                assert(pq@[b] == before[b0]);
            } else if a == pos {
                let b0 = if b < pos { b } else { b - 1 };
                assert(pq@[b] == before[b0]);
            } else {
                let a0 = if a < pos { a } else { a - 1 };
                assert(pq@[a] == before[a0]);
            }
        }
    }
}

} // verus!
