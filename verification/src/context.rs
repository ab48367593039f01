//! Reusable scratch state for graph searches and neighbour selection.
use std::collections::HashSet;
use vstd::prelude::*;

use crate::link::{sorted_asc, sorted_desc, Link};

verus! {

broadcast use vstd::std_specs::hash::group_hash_axioms;

/// A visited set that stamps each node with the epoch in which it was last
/// visited; starting a new epoch forgets every visit at once.
pub struct EpochVisitedSet {
    node_epoch: Vec<usize>,
    epoch: usize,
}

impl View for EpochVisitedSet {
    type V = Set<usize>;

    /// The visited nodes: those stamped with the current epoch. Nodes past the
    /// end of the stamp table carry stamp zero.
    closed spec fn view(&self) -> Set<usize> {
        Set::new(
            |k: usize|
                if k < self.node_epoch@.len() {
                    self.node_epoch@[k as int] == self.epoch
                } else {
                    self.epoch == 0
                },
        )
    }
}

impl EpochVisitedSet {
    /// No stamp lies in the future.
    pub closed spec fn wf(&self) -> bool {
        forall|k: int| 0 <= k < self.node_epoch@.len() ==> self.node_epoch@[k] <= self.epoch
    }

    /// How many nodes have a stamp of their own.
    pub closed spec fn stamped_len(&self) -> nat {
        self.node_epoch@.len()
    }

    /// Makes sure `node` has a stamp of its own; the visited set is unchanged.
    pub fn grow_if_needed(&mut self, node: usize)
        requires
            old(self).wf(),
            node < usize::MAX,
        ensures
            final(self).wf(),
            final(self)@ == old(self)@,
            final(self).stamped_len() == if node < old(self).stamped_len() {
                old(self).stamped_len()
            } else {
                node as nat + 1
            },
    {
        if node >= self.node_epoch.len() {
            while self.node_epoch.len() <= node
                invariant
                    self.wf(),
                    self.epoch == old(self).epoch,
                    old(self).node_epoch@.len() <= self.node_epoch@.len() <= node + 1,
                    forall|k: int|
                        0 <= k < self.node_epoch@.len() ==> #[trigger] self.node_epoch@[k] == if k
                            < old(self).node_epoch@.len() {
                            old(self).node_epoch@[k]
                        } else {
                            0
                        },
                decreases node + 1 - self.node_epoch@.len(),
            {
                self.node_epoch.push(0);
            }
        }
        assert(self@ =~= old(self)@);
    }
}

/// The set of nodes visited during one search.
pub enum VisitedSet {
    Epoch(EpochVisitedSet),
    Hash(HashSet<usize>),
}

impl View for VisitedSet {
    type V = Set<usize>;

    closed spec fn view(&self) -> Set<usize> {
        match self {
            VisitedSet::Epoch(v) => v@,
            VisitedSet::Hash(h) => h@,
        }
    }
}

impl VisitedSet {
    pub closed spec fn wf(&self) -> bool {
        match self {
            VisitedSet::Epoch(v) => v.wf(),
            VisitedSet::Hash(_) => true,
        }
    }

    /// How many nodes have a stamp of their own in an epoch-stamped set;
    /// zero for a hash set.
    pub open spec fn stamps(&self) -> nat {
        match self {
            VisitedSet::Epoch(v) => v.stamped_len(),
            VisitedSet::Hash(_) => 0,
        }
    }

    /// An epoch-stamped set with stamps for `nodes_cnt` nodes. Every stamp
    /// and the epoch start at zero, so every node counts as visited until
    /// the first `reset`.
    pub fn epoch(nodes_cnt: usize) -> (res: Self)
        ensures
            res.wf(),
            res@ == Set::<usize>::full(),
            res is Epoch,
            res.stamps() == nodes_cnt,
    {
        let mut node_epoch: Vec<usize> = Vec::new();
        while node_epoch.len() < nodes_cnt
            invariant
                node_epoch@.len() <= nodes_cnt,
                forall|k: int| 0 <= k < node_epoch@.len() ==> #[trigger] node_epoch@[k] == 0,
            decreases nodes_cnt - node_epoch@.len(),
        {
            node_epoch.push(0);
        }
        let res = VisitedSet::Epoch(EpochVisitedSet { node_epoch, epoch: 0 });
        assert(res@ =~= Set::<usize>::full());
        assert(res.stamps() == nodes_cnt);
        res
    }

    /// A hash-set backed visited set, initially empty.
    pub fn hash(capacity: usize) -> (res: Self)
        ensures
            res.wf(),
            res@ == Set::<usize>::empty(),
            res is Hash,
    {
        VisitedSet::Hash(HashSet::with_capacity(capacity))
    }

    /// Forgets every visit.
    pub fn reset(&mut self)
        requires
            old(self).wf(),
        ensures
            final(self).wf(),
            final(self)@ == Set::<usize>::empty(),
            final(self)@.finite(),
            (*final(self) is Epoch) == (*old(self) is Epoch),
    {
        match self {
            VisitedSet::Epoch(visited) => {
                visited.epoch = visited.epoch.wrapping_add(1);
                if visited.epoch == 0 {
                    let len = visited.node_epoch.len();
                    let mut i: usize = 0;
                    while i < len
                        invariant
                            len == visited.node_epoch@.len(),
                            i <= len,
                            forall|k: int| 0 <= k < i ==> #[trigger] visited.node_epoch@[k] == 0,
                        decreases len - i,
                    {
                        visited.node_epoch.set(i, 0);
                        i = i + 1;
                    }
                    visited.epoch = 1;
                }
                assert(visited.wf());
                assert(visited@ =~= Set::<usize>::empty());
            },
            VisitedSet::Hash(visited) => {
                visited.clear();
            },
        }
    }

    /// Whether `node` has been visited.
    pub fn is_visited(&mut self, node: usize) -> (res: bool)
        requires
            old(self).wf(),
            *old(self) is Epoch ==> node < usize::MAX,
        ensures
            final(self).wf(),
            final(self)@ == old(self)@,
            res == old(self)@.contains(node),
            (*final(self) is Epoch) == (*old(self) is Epoch),
    {
        match self {
            VisitedSet::Epoch(visited) => {
                visited.grow_if_needed(node);
                visited.node_epoch[node] == visited.epoch
            },
            VisitedSet::Hash(visited) => visited.contains(&node),
        }
    }

    /// Records a visit of `node`.
    pub fn mark_visited(&mut self, node: usize)
        requires
            old(self).wf(),
            *old(self) is Epoch ==> node < usize::MAX,
        ensures
            final(self).wf(),
            final(self)@ == old(self)@.insert(node),
            old(self)@.finite() ==> final(self)@.finite(),
            (*final(self) is Epoch) == (*old(self) is Epoch),
    {
        match self {
            VisitedSet::Epoch(visited) => {
                visited.grow_if_needed(node);
                let ghost before = *visited;
                let e = visited.epoch;
                visited.node_epoch.set(node, e);
                assert(visited@ =~= before@.insert(node));
            },
            VisitedSet::Hash(visited) => {
                visited.insert(node);
            },
        }
    }
}

} // verus!

verus! {

/// Scratch state of a beam search over one layer.
pub struct SearchContext {
    /// Nodes still to expand, sorted so that the nearest sits at the end.
    pub frontier: Vec<Link>,
    /// The nearest nodes found so far, sorted so that the furthest sits at the end.
    pub best: Vec<Link>,
    pub visited: VisitedSet,
    /// The outcome of the last search, nearest first.
    pub results: Vec<Link>,
}

/// Scratch state of neighbour selection.
pub struct SelectContext {
    /// Candidates still to consider, sorted so that the nearest sits at the end.
    pub pq: Vec<Link>,
    /// Candidates pruned by the diversity rule, nearest at the end.
    pub discarded: Vec<Link>,
    /// The selected neighbours, in the order in which they were chosen.
    pub best: Vec<Link>,
    pub visited: VisitedSet,
}

/// Scratch state of one insertion: a search context and a selection context.
pub struct InsertContext {
    pub select_ctx: SelectContext,
    pub search_ctx: SearchContext,
}

/// A copy of `v`.
pub fn copy_links(v: &Vec<Link>) -> (res: Vec<Link>)
    ensures
        res@ == v@,
{
    let mut res: Vec<Link> = Vec::with_capacity(v.len());
    let mut i: usize = 0;
    while i < v.len()
        invariant
            i <= v@.len(),
            res@ == v@.subrange(0, i as int),
        decreases v@.len() - i,
    {
        res.push(v[i]);
        i = i + 1;
    }
    assert(res@ =~= v@);
    res
}

impl SearchContext {
    /// Nothing is queued, kept or reported, and the visited set is an
    /// epoch-stamped one with stamps for `nodes_cnt` nodes.
    pub open spec fn fresh_reusable(&self, nodes_cnt: nat) -> bool {
        &&& self.frontier@.len() == 0
        &&& self.best@.len() == 0
        &&& self.results@.len() == 0
        &&& self.visited is Epoch
        &&& self.visited.stamps() == nodes_cnt
        &&& self.visited@ == Set::<usize>::full()
    }

    /// Nothing is queued, kept or reported, and the visited set is an empty
    /// hash set.
    pub open spec fn fresh_one_off(&self) -> bool {
        &&& self.frontier@.len() == 0
        &&& self.best@.len() == 0
        &&& self.results@.len() == 0
        &&& self.visited is Hash
        &&& self.visited@ == Set::<usize>::empty()
    }

    pub open spec fn wf(&self) -> bool {
        &&& self.visited.wf()
        &&& sorted_desc(self.frontier@)
        &&& sorted_asc(self.best@)
    }

    /// A context for a single search: its visited set is a hash set.
    pub fn one_off(cap: usize) -> (res: Self)
        requires
            cap > 0,
        ensures
            res.wf(),
            res.frontier@.len() == 0,
            res.best@.len() == 0,
            res.results@.len() == 0,
            res.visited@ == Set::<usize>::empty(),
            res.visited is Hash,
    {
        Self::with_visited(VisitedSet::hash(cap), cap)
    }

    /// A context meant to be reused across searches of a graph of about
    /// `nodes_cnt` nodes, with room for 32 results.
    pub fn reusable(nodes_cnt: usize) -> (res: Self)
        ensures
            res.wf(),
            res.frontier@.len() == 0,
            res.best@.len() == 0,
            res.results@.len() == 0,
            res.visited@ == Set::<usize>::full(),
            res.visited is Epoch,
            res.visited.stamps() == nodes_cnt,
    {
        Self::with_visited(VisitedSet::epoch(nodes_cnt), 32)
    }

    /// A reusable context with room for `cap` results.
    pub fn reusable_with_capacity(nodes_cnt: usize, cap: usize) -> (res: Self)
        requires
            cap > 0,
        ensures
            res.wf(),
            res.frontier@.len() == 0,
            res.best@.len() == 0,
            res.results@.len() == 0,
            res.visited@ == Set::<usize>::full(),
            res.visited is Epoch,
            res.visited.stamps() == nodes_cnt,
    {
        Self::with_visited(VisitedSet::epoch(nodes_cnt), cap)
    }

    /// A context around the given visited set, with room for `cap` results.
    pub fn with_visited(visited: VisitedSet, cap: usize) -> (res: Self)
        requires
            visited.wf(),
            cap > 0,
        ensures
            res.wf(),
            res.frontier@.len() == 0,
            res.best@.len() == 0,
            res.results@.len() == 0,
            res.visited == visited,
    {
        SearchContext {
            frontier: Vec::new(),
            best: Vec::with_capacity(cap),
            results: Vec::with_capacity(cap),
            visited,
        }
    }

    /// Empties the frontier, the best list and the results; the visited set
    /// is left as it is.
    pub fn clear(&mut self)
        ensures
            final(self).frontier@.len() == 0,
            final(self).best@.len() == 0,
            final(self).results@.len() == 0,
            final(self).visited == old(self).visited,
    {
        self.frontier.clear();
        self.best.clear();
        self.results.clear();
    }

    /// Moves the best list, nearest first, in front of the earlier results
    /// (taken in reverse order) and returns the whole list of results.
    pub fn consume_best(&mut self) -> (res: Vec<Link>)
        ensures
            res@ == old(self).best@ + old(self).results@.reverse(),
            final(self).results@ == res@,
            final(self).best@.len() == 0,
            final(self).frontier == old(self).frontier,
            final(self).visited == old(self).visited,
    {
        let mut out = copy_links(&self.best);
        let ghost best = self.best@;
        let ghost earlier = self.results@;
        let mut i: usize = self.results.len();
        while i > 0
            invariant
                i <= earlier.len(),
                self.results@ == earlier,
                out@ == best + earlier.subrange(i as int, earlier.len() as int).reverse(),
            decreases i,
        {
            i = i - 1;
            let ghost before = out@;
            out.push(self.results[i]);
            assert(earlier.subrange(i as int, earlier.len() as int).reverse() =~= earlier.subrange(
                i + 1,
                earlier.len() as int,
            ).reverse().push(earlier[i as int]));
            assert(out@ =~= best + earlier.subrange(i as int, earlier.len() as int).reverse());
        }
        assert(earlier.subrange(0, earlier.len() as int) =~= earlier);
        self.results = out;
        self.best.clear();
        copy_links(&self.results)
    }
}

impl SelectContext {
    /// Nothing is queued, discarded or selected, and the visited set is an
    /// epoch-stamped one with stamps for `nodes_cnt` nodes.
    pub open spec fn fresh_reusable(&self, nodes_cnt: nat) -> bool {
        &&& self.pq@.len() == 0
        &&& self.discarded@.len() == 0
        &&& self.best@.len() == 0
        &&& self.visited is Epoch
        &&& self.visited.stamps() == nodes_cnt
        &&& self.visited@ == Set::<usize>::full()
    }

    /// Nothing is queued, discarded or selected, and the visited set is an
    /// empty hash set.
    pub open spec fn fresh_one_off(&self) -> bool {
        &&& self.pq@.len() == 0
        &&& self.discarded@.len() == 0
        &&& self.best@.len() == 0
        &&& self.visited is Hash
        &&& self.visited@ == Set::<usize>::empty()
    }

    pub open spec fn wf(&self) -> bool {
        &&& self.visited.wf()
        &&& sorted_desc(self.pq@)
        &&& sorted_desc(self.discarded@)
    }

    /// A context for a single selection: its visited set is a hash set.
    pub fn one_off(visited_capacity: usize, max_connections: usize) -> (res: Self)
        ensures
            res.wf(),
            res.pq@.len() == 0,
            res.discarded@.len() == 0,
            res.best@.len() == 0,
            res.visited@ == Set::<usize>::empty(),
            res.visited is Hash,
    {
        Self::with_visited(VisitedSet::hash(visited_capacity), max_connections)
    }

    /// A context meant to be reused across selections in a graph of about
    /// `nodes_cnt` nodes.
    pub fn reusable(nodes_cnt: usize, max_connections: usize) -> (res: Self)
        ensures
            res.wf(),
            res.pq@.len() == 0,
            res.discarded@.len() == 0,
            res.best@.len() == 0,
            res.visited@ == Set::<usize>::full(),
            res.visited is Epoch,
            res.visited.stamps() == nodes_cnt,
    {
        Self::with_visited(VisitedSet::epoch(nodes_cnt), max_connections)
    }

    /// A context around the given visited set.
    pub fn with_visited(visited: VisitedSet, max_connections: usize) -> (res: Self)
        requires
            visited.wf(),
        ensures
            res.wf(),
            res.pq@.len() == 0,
            res.discarded@.len() == 0,
            res.best@.len() == 0,
            res.visited == visited,
    {
        SelectContext {
            pq: Vec::new(),
            discarded: Vec::new(),
            best: Vec::with_capacity(max_connections),
            visited,
        }
    }

    /// Empties the queue, the discarded list and the selection; the visited
    /// set is left as it is.
    pub fn clear(&mut self)
        ensures
            final(self).pq@.len() == 0,
            final(self).discarded@.len() == 0,
            final(self).best@.len() == 0,
            final(self).visited == old(self).visited,
    {
        self.pq.clear();
        self.discarded.clear();
        self.best.clear();
    }

    /// Drains the queue, nearest first.
    pub fn consume_pq(&mut self) -> (res: Vec<Link>)
        ensures
            res@ == old(self).pq@.reverse(),
            final(self).pq@.len() == 0,
            final(self).discarded == old(self).discarded,
            final(self).best == old(self).best,
            final(self).visited == old(self).visited,
    {
        let mut out: Vec<Link> = Vec::with_capacity(self.pq.len());
        let ghost start = self.pq@;
        while self.pq.len() > 0
            invariant
                out@.len() + self.pq@.len() == start.len(),
                self.pq@ == start.subrange(0, self.pq@.len() as int),
                forall|k: int| 0 <= k < out@.len() ==> #[trigger] out@[k] == start[start.len() - 1 - k],
                self.discarded == old(self).discarded,
                self.best == old(self).best,
                self.visited == old(self).visited,
            decreases self.pq@.len(),
        {
            let p = self.pq.pop().unwrap();
            out.push(p);
            assert(self.pq@ =~= start.subrange(0, self.pq@.len() as int));
        }
        assert(out@ =~= start.reverse());
        out
    }

    /// A copy of the selection.
    pub fn consume_best(&mut self) -> (res: Vec<Link>)
        ensures
            res@ == old(self).best@,
            *final(self) == *old(self),
    {
        copy_links(&self.best)
    }
}

impl InsertContext {
    pub open spec fn wf(&self) -> bool {
        self.select_ctx.wf() && self.search_ctx.wf()
    }

    /// A context for a single insertion.
    pub fn one_off(ef_construction: usize, max_connections: usize) -> (res: Self)
        requires
            ef_construction > 0,
        ensures
            res.wf(),
            res.select_ctx.fresh_one_off(),
            res.search_ctx.fresh_one_off(),
    {
        InsertContext {
            select_ctx: SelectContext::one_off(ef_construction, max_connections),
            search_ctx: SearchContext::one_off(ef_construction),
        }
    }

    /// A context meant to be reused across insertions into a graph of about
    /// `nodes_cnt` nodes.
    pub fn reusable(nodes_cnt: usize, ef_construction: usize, max_connections: usize) -> (res: Self)
        requires
            ef_construction > 0,
        ensures
            res.wf(),
            res.select_ctx.fresh_reusable(nodes_cnt as nat),
            res.search_ctx.fresh_reusable(nodes_cnt as nat),
    {
        InsertContext {
            select_ctx: SelectContext::reusable(nodes_cnt, max_connections),
            search_ctx: SearchContext::reusable_with_capacity(nodes_cnt, ef_construction),
        }
    }
}

} // verus!
