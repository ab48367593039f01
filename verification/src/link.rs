//! Links between graph nodes and the orderings on them.
use vstd::prelude::*;

verus! {

/// A directed edge to `node_index`, tagged with a distance key.
///
/// A distance key is an unsigned integer whose order is the order of the
/// distances it stands for (for a non-negative `f32` distance, its bit
/// pattern has this property).
#[derive(Clone, Copy, Debug, PartialEq, Eq, Structural)]
pub struct Link {
    pub node_index: usize,
    pub distance: u32,
}

/// `a` comes no later than `b`: by distance, then by node index.
pub open spec fn link_le(a: Link, b: Link) -> bool {
    a.distance < b.distance || (a.distance == b.distance && a.node_index <= b.node_index)
}

/// Executable counterpart of `link_le`.
pub fn link_leq(a: &Link, b: &Link) -> (r: bool)
    ensures
        r == link_le(*a, *b),
{
    a.distance < b.distance || (a.distance == b.distance && a.node_index <= b.node_index)
}

/// Ascending order: every link comes no later than the ones after it.
pub open spec fn sorted_asc(s: Seq<Link>) -> bool {
    forall|i: int, j: int| 0 <= i < j < s.len() ==> link_le(s[i], s[j])
}

/// Descending order: the smallest link sits at the end.
pub open spec fn sorted_desc(s: Seq<Link>) -> bool {
    forall|i: int, j: int| 0 <= i < j < s.len() ==> link_le(s[j], s[i])
}

/// No two links of `s` point to the same node.
pub open spec fn distinct_targets(s: Seq<Link>) -> bool {
    forall|i: int, j: int|
        0 <= i < s.len() && 0 <= j < s.len() && i != j ==> s[i].node_index != s[j].node_index
}

/// No link of `s` shares its target with a link of `t`.
pub open spec fn disjoint_targets(s: Seq<Link>, t: Seq<Link>) -> bool {
    forall|i: int, j: int|
        0 <= i < s.len() && 0 <= j < t.len() ==> #[trigger] s[i].node_index
            != #[trigger] t[j].node_index
}

/// Some link of `s` points to `node`.
pub open spec fn links_to(s: Seq<Link>, node: usize) -> bool {
    exists|i: int| 0 <= i < s.len() && s[i].node_index == node
}

/// Every node that `small` links to, `big` links to as well.
pub open spec fn covers(big: Seq<Link>, small: Seq<Link>) -> bool {
    forall|x: usize| #[trigger] links_to(small, x) ==> links_to(big, x)
}

/// Inserting a link to a node that `s` does not name keeps the targets
/// distinct, and every old link either keeps its position or moves up one.
pub proof fn lemma_insert_fresh(s: Seq<Link>, pos: int, l: Link)
    requires
        0 <= pos <= s.len(),
        distinct_targets(s),
        forall|j: int| 0 <= j < s.len() ==> #[trigger] s[j].node_index != l.node_index,
    ensures
        distinct_targets(s.insert(pos, l)),
        s.insert(pos, l)[pos] == l,
        forall|j: int| 0 <= j < pos ==> #[trigger] s.insert(pos, l)[j] == s[j],
        forall|j: int| pos < j <= s.len() ==> #[trigger] s.insert(pos, l)[j] == s[j - 1],
{
    let t = s.insert(pos, l);
    assert forall|a: int, b: int|
        0 <= a < t.len() && 0 <= b < t.len() && a != b implies t[a].node_index != t[b].node_index by {
        if a != pos && b != pos {
            let a0 = if a < pos { a } else { a - 1 };
            let b0 = if b < pos { b } else { b - 1 };
            assert(t[a] == s[a0]);
            assert(t[b] == s[b0]);
        } else if a == pos {
            let b0 = if b < pos { b } else { b - 1 };
            assert(t[b] == s[b0]);
        } else {
            let a0 = if a < pos { a } else { a - 1 };
            assert(t[a] == s[a0]);
        }
    }
}

/// `p` is where `l` goes in `s` in ascending order: after every link of
/// `s[..p]`, all coming no later than `l`, and before `s[p]`, which comes
/// strictly later.
pub open spec fn asc_split(s: Seq<Link>, l: Link, p: int) -> bool {
    &&& 0 <= p <= s.len()
    &&& forall|k: int| 0 <= k < p ==> link_le(#[trigger] s[k], l)
    &&& p < s.len() ==> !link_le(s[p], l)
}

/// `p` is where `l` goes in `s` in descending order: after every link of
/// `s[..p]`, none coming later than `l`, and before `s[p]`, which comes
/// strictly earlier.
pub open spec fn desc_split(s: Seq<Link>, l: Link, p: int) -> bool {
    &&& 0 <= p <= s.len()
    &&& forall|k: int| 0 <= k < p ==> link_le(l, #[trigger] s[k])
    &&& p < s.len() ==> !link_le(l, s[p])
}

/// `s` with `l` inserted in ascending order, after the links that come no
/// later than it.
pub open spec fn with_asc(s: Seq<Link>, l: Link) -> Seq<Link> {
    s.insert(choose|p: int| asc_split(s, l, p), l)
}

/// `s` with `l` inserted in descending order, after the links that come no
/// earlier than it.
pub open spec fn with_desc(s: Seq<Link>, l: Link) -> Seq<Link> {
    s.insert(choose|p: int| desc_split(s, l, p), l)
}

/// Inserts `l` into the ascending sequence `v`, before the first link that
/// comes strictly later, and returns that position.
pub fn insert_asc(v: &mut Vec<Link>, l: Link) -> (pos: usize)
    requires
        sorted_asc(old(v)@),
    ensures
        pos <= old(v)@.len(),
        final(v)@ == old(v)@.insert(pos as int, l),
        final(v)@ == with_asc(old(v)@, l),
        sorted_asc(final(v)@),
{
    let mut i: usize = 0;
    while i < v.len() && link_leq(&v[i], &l)
        invariant
            i <= v@.len(),
            v@ == old(v)@,
            sorted_asc(v@),
            forall|k: int| 0 <= k < i ==> link_le(#[trigger] v@[k], l),
        decreases v@.len() - i,
    {
        i = i + 1;
    }
    proof {
        assert(asc_split(v@, l, i as int));
        let p = choose|p: int| asc_split(v@, l, p);
        if p < i {
            assert(link_le(v@[p], l));
        } else if p > i {
            assert(link_le(v@[i as int], l));
        }
    }
    let ghost before = v@;
    v.insert(i, l);
    assert forall|a: int, b: int| 0 <= a < b < v@.len() implies link_le(v@[a], v@[b]) by {
        if b < i {
            assert(v@[a] == before[a] && v@[b] == before[b]);
        } else if b == i {
            assert(v@[a] == before[a]);
        } else if a < i {
            assert(v@[a] == before[a] && v@[b] == before[b - 1]);
            if i < before.len() {
                assert(!link_le(before[i as int], l));
                assert(link_le(before[a], before[i as int]) || a == i);
            }
        } else if a == i {
            assert(v@[b] == before[b - 1]);
            assert(!link_le(before[i as int], l));
            assert(link_le(before[i as int], before[b - 1]) || b - 1 == i);
        } else {
            assert(v@[a] == before[a - 1] && v@[b] == before[b - 1]);
        }
    }
    i
}

/// Inserts `l` into the descending sequence `v`, before the first link that
/// comes strictly earlier, and returns that position.
pub fn insert_desc(v: &mut Vec<Link>, l: Link) -> (pos: usize)
    requires
        sorted_desc(old(v)@),
    ensures
        pos <= old(v)@.len(),
        final(v)@ == old(v)@.insert(pos as int, l),
        final(v)@ == with_desc(old(v)@, l),
        sorted_desc(final(v)@),
{
    let mut i: usize = 0;
    while i < v.len() && link_leq(&l, &v[i])
        invariant
            i <= v@.len(),
            v@ == old(v)@,
            sorted_desc(v@),
            forall|k: int| 0 <= k < i ==> link_le(l, #[trigger] v@[k]),
        decreases v@.len() - i,
    {
        i = i + 1;
    }
    proof {
        assert(desc_split(v@, l, i as int));
        let p = choose|p: int| desc_split(v@, l, p);
        if p < i {
            assert(link_le(l, v@[p]));
        } else if p > i {
            assert(link_le(l, v@[i as int]));
        }
    }
    let ghost before = v@;
    v.insert(i, l);
    assert forall|a: int, b: int| 0 <= a < b < v@.len() implies link_le(v@[b], v@[a]) by {
        if b < i {
            assert(v@[a] == before[a] && v@[b] == before[b]);
        } else if b == i {
            assert(v@[a] == before[a]);
        } else if a < i {
            assert(v@[a] == before[a] && v@[b] == before[b - 1]);
            if i < before.len() {
                assert(!link_le(l, before[i as int]));
                assert(link_le(before[i as int], before[a]) || a == i);
            }
        } else if a == i {
            assert(v@[b] == before[b - 1]);
            assert(!link_le(l, before[i as int]));
            assert(link_le(before[b - 1], before[i as int]) || b - 1 == i);
        } else {
            assert(v@[a] == before[a - 1] && v@[b] == before[b - 1]);
        }
    }
    i
}

} // verus!
