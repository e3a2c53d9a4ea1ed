//! Weighted undirected edges, their order, and a stable merge sort over them.
use vstd::prelude::*;

verus! {

/// A weighted connection between two vertices.
#[derive(Clone, Copy, Debug, PartialEq, Eq, Structural)]
pub struct Edge {
    pub weight: i32,
    pub start: usize,
    pub end: usize,
}

impl Edge {
    pub fn new(weight: i32, start: usize, end: usize) -> (r: Edge)
        ensures
            r.weight == weight,
            r.start == start,
            r.end == end,
    {
        Edge { weight, start, end }
    }
}

/// Edges are ordered by weight first; equal weights are ordered by `start`,
/// then by `end`, so that the sorted order of a list of edges is fully
/// determined by the edges it holds.
pub open spec fn edge_le(a: Edge, b: Edge) -> bool {
    ||| a.weight < b.weight
    ||| (a.weight == b.weight && a.start < b.start)
    ||| (a.weight == b.weight && a.start == b.start && a.end <= b.end)
}

/// `s` is in non-decreasing order by `edge_le`.
pub open spec fn sorted(s: Seq<Edge>) -> bool {
    forall|i: int, j: int| 0 <= i < j < s.len() ==> edge_le(#[trigger] s[i], #[trigger] s[j])
}

/// Two sorted lists that hold the same edges, each as often, are equal: the
/// sorted order of a list of edges is unique.
pub proof fn lemma_sorted_unique(s: Seq<Edge>, t: Seq<Edge>)
    requires
        sorted(s),
        sorted(t),
        s.to_multiset() == t.to_multiset(),
    ensures
        s == t,
    decreases s.len(),
{
    s.to_multiset_ensures();
    t.to_multiset_ensures();
    if s.len() > 0 {
        assert(t.len() == s.len());
        assert(s.contains(s[0]));
        assert(t.to_multiset().count(s[0]) > 0);
        let j = choose|j: int| 0 <= j < t.len() && t[j] == s[0];
        assert(t.contains(t[0]));
        assert(s.to_multiset().count(t[0]) > 0);
        let k = choose|k: int| 0 <= k < s.len() && s[k] == t[0];
        if j > 0 {
            assert(edge_le(t[0], t[j]));
        }
        if k > 0 {
            assert(edge_le(s[0], s[k]));
        }
        assert(s[0] == t[0]);
        vstd::seq_lib::to_multiset_remove(s, 0);
        vstd::seq_lib::to_multiset_remove(t, 0);
        assert(s.remove(0) == s.drop_first());
        assert(t.remove(0) == t.drop_first());
        lemma_sorted_unique(s.drop_first(), t.drop_first());
        assert(s == seq![s[0]] + s.drop_first());
        assert(t == seq![t[0]] + t.drop_first());
    }
}

/// Every list of edges has a sorted order.
pub proof fn lemma_sorted_exists(f: Seq<Edge>)
    ensures
        exists|g: Seq<Edge>| sorted(g) && #[trigger] g.to_multiset() == f.to_multiset(),
{
    let leq = |a: Edge, b: Edge| edge_le(a, b);
    assert(vstd::relations::total_ordering(leq)) by {
        assert forall|a: Edge, b: Edge| #[trigger] leq(a, b) && #[trigger] leq(b, a) implies a == b by {
        }
    }
    f.lemma_sort_by_ensures(leq);
    let g = f.sort_by(leq);
    assert forall|i: int, j: int| 0 <= i < j < g.len() implies edge_le(#[trigger] g[i], #[trigger] g[j]) by {
        assert(leq(g[i], g[j]));
    }
    assert(sorted(g) && g.to_multiset() == f.to_multiset());
}

/// Executable form of `edge_le`.
pub fn edge_leq(a: &Edge, b: &Edge) -> (r: bool)
    ensures
        r == edge_le(*a, *b),
{
    a.weight < b.weight || (a.weight == b.weight && (a.start < b.start || (a.start == b.start
        && a.end <= b.end)))
}

/// Merges two sorted lists into one; on ties the element of `a` comes first.
fn merge(a: &Vec<Edge>, b: &Vec<Edge>) -> (r: Vec<Edge>)
    requires
        sorted(a@),
        sorted(b@),
        a@.len() + b@.len() <= usize::MAX,
    ensures
        sorted(r@),
        r@.to_multiset() == a@.to_multiset().add(b@.to_multiset()),
{
    broadcast use vstd::seq_lib::group_to_multiset_ensures;
    broadcast use vstd::multiset::group_multiset_axioms;

    let mut r: Vec<Edge> = Vec::new();
    let mut i: usize = 0;
    let mut j: usize = 0;
    while i < a.len() || j < b.len()
        invariant
            sorted(a@),
            sorted(b@),
            i <= a@.len(),
            j <= b@.len(),
            r@.len() == i + j,
            sorted(r@),
            r@.len() > 0 && i < a@.len() ==> edge_le(r@.last(), a@[i as int]),
            r@.len() > 0 && j < b@.len() ==> edge_le(r@.last(), b@[j as int]),
            r@.to_multiset() == a@.take(i as int).to_multiset().add(
                b@.take(j as int).to_multiset(),
            ),
        decreases a@.len() + b@.len() - i - j,
    {
        let take_a = j >= b.len() || (i < a.len() && edge_leq(&a[i], &b[j]));
        let e = if take_a {
            a[i]
        } else {
            b[j]
        };
        let ghost r0 = r@;
        let ghost ma = a@.take(i as int).to_multiset();
        let ghost mb = b@.take(j as int).to_multiset();
        proof {
            if take_a {
                assert(a@.take(i + 1) == a@.take(i as int).push(e));
                vstd::seq_lib::to_multiset_build(a@.take(i as int), e);
                assert(ma.insert(e).add(mb) =~= ma.add(mb).insert(e));
            } else {
                assert(b@.take(j + 1) == b@.take(j as int).push(e));
                vstd::seq_lib::to_multiset_build(b@.take(j as int), e);
                assert(ma.add(mb.insert(e)) =~= ma.add(mb).insert(e));
            }
            vstd::seq_lib::to_multiset_build(r0, e);
        }
        r.push(e);
        if take_a {
            i = i + 1;
        } else {
            j = j + 1;
        }
    }
    assert(a@.take(a@.len() as int) == a@);
    assert(b@.take(b@.len() as int) == b@);
    r
}

/// Sorts `v[lo..hi]` into a new vector.
fn sort_range(v: &Vec<Edge>, lo: usize, hi: usize) -> (r: Vec<Edge>)
    requires
        lo <= hi <= v@.len(),
    ensures
        sorted(r@),
        r@.to_multiset() == v@.subrange(lo as int, hi as int).to_multiset(),
    decreases hi - lo,
{
    if hi - lo <= 1 {
        let mut r: Vec<Edge> = Vec::new();
        if hi - lo == 1 {
            r.push(v[lo]);
            assert(r@ == v@.subrange(lo as int, hi as int));
        } else {
            assert(r@ == v@.subrange(lo as int, hi as int));
        }
        r
    } else {
        let mid = lo + (hi - lo) / 2;
        let left = sort_range(v, lo, mid);
        let right = sort_range(v, mid, hi);
        proof {
            vstd::seq_lib::lemma_multiset_commutative(
                v@.subrange(lo as int, mid as int),
                v@.subrange(mid as int, hi as int),
            );
            assert(v@.subrange(lo as int, mid as int) + v@.subrange(mid as int, hi as int)
                == v@.subrange(lo as int, hi as int));
            left@.to_multiset_ensures();
            right@.to_multiset_ensures();
            v@.subrange(lo as int, mid as int).to_multiset_ensures();
            v@.subrange(mid as int, hi as int).to_multiset_ensures();
        }
        merge(&left, &right)
    }
}

/// Returns the edges of `edges` in non-decreasing order by `edge_le`: the same
/// edges, each as often as in the input.
pub fn sort_edges(edges: &Vec<Edge>) -> (r: Vec<Edge>)
    ensures
        sorted(r@),
        r@.to_multiset() == edges@.to_multiset(),
{
    let r = sort_range(edges, 0, edges.len());
    assert(edges@.subrange(0, edges@.len() as int) == edges@);
    r
}

} // verus!
