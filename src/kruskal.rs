//! Kruskal's algorithm: a minimum spanning forest by greedy edge selection.
use vstd::prelude::*;
use crate::edge::{Edge, edge_le, lemma_sorted_unique, sorted, sort_edges};
use crate::optimality::lemma_greedy_minimal;
use crate::union_find::{
    UnionFind, is_partition, lemma_same_partition_count, merged, num_sets, roots_of, same_partition,
};

verus! {

/// The component labels of the vertices `0..n` after joining the endpoints of
/// each edge of `es` in turn, starting from `n` singletons: two vertices are
/// connected by `es` exactly when their labels agree.
pub open spec fn components(n: nat, es: Seq<Edge>) -> Seq<int>
    decreases es.len(),
{
    if es.len() == 0 {
        Seq::new(n, |i: int| i)
    } else {
        let c = components(n, es.drop_last());
        let e = es.last();
        merged(c, c[e.start as int], c[e.end as int], c[e.start as int])
    }
}

/// `u` and `v` are connected by a path of edges of `es`.
pub open spec fn connected(n: nat, es: Seq<Edge>, u: int, v: int) -> bool {
    components(n, es)[u] == components(n, es)[v]
}

/// The edges that the greedy rule accepts when it takes the edges of `s` in
/// turn: an edge is accepted exactly when the edges accepted before it do not
/// yet connect its endpoints.
pub open spec fn greedy(n: nat, s: Seq<Edge>) -> Seq<Edge>
    decreases s.len(),
{
    if s.len() == 0 {
        Seq::empty()
    } else {
        let g = greedy(n, s.drop_last());
        let e = s.last();
        if connected(n, g, e.start as int, e.end as int) {
            g
        } else {
            g.push(e)
        }
    }
}

/// Every pair of the vertices `0..n` is connected by `es`.
pub open spec fn all_connected(n: nat, es: Seq<Edge>) -> bool {
    forall|u: int, v: int| 0 <= u < n && 0 <= v < n ==> connected(n, es, u, v)
}

/// Both endpoints of every edge of `es` lie in `0..n`.
pub open spec fn edges_in_range(n: nat, es: Seq<Edge>) -> bool {
    forall|k: int| #![trigger es[k]] 0 <= k < es.len() ==> es[k].start < n && es[k].end < n
}

/// No edge of `es` joins two vertices that the edges before it already connect.
pub open spec fn acyclic(n: nat, es: Seq<Edge>) -> bool {
    forall|k: int|
        0 <= k < es.len() ==> !connected(
            n,
            es.take(k),
            #[trigger] es[k].start as int,
            es[k].end as int,
        )
}

/// The sum of the weights of `es`.
pub open spec fn weight_sum(es: Seq<Edge>) -> int
    decreases es.len(),
{
    if es.len() == 0 {
        0
    } else {
        weight_sum(es.drop_last()) + es.last().weight
    }
}

/// The labels of `components` have one entry per vertex.
pub proof fn lemma_components_len(n: nat, es: Seq<Edge>)
    ensures
        components(n, es).len() == n,
    decreases es.len(),
{
    if es.len() > 0 {
        lemma_components_len(n, es.drop_last());
    }
}

/// Where every edge of `es` lies within a set of `p`, every two vertices that
/// `es` connects are in one set of `p`.
pub proof fn lemma_components_refine(n: nat, es: Seq<Edge>, p: Seq<int>)
    requires
        p.len() == n,
        edges_in_range(n, es),
        forall|k: int| 0 <= k < es.len() ==> p[#[trigger] es[k].start as int] == p[es[k].end as int],
    ensures
        forall|u: int, v: int|
            0 <= u < n && 0 <= v < n && connected(n, es, u, v) ==> p[u] == p[v],
    decreases es.len(),
{
    if es.len() > 0 {
        let es0 = es.drop_last();
        assert forall|k: int| 0 <= k < es0.len() implies p[#[trigger] es0[k].start as int]
            == p[es0[k].end as int] && es0[k].start < n && es0[k].end < n by {
            assert(es0[k] == es[k]);
        }
        lemma_components_refine(n, es0, p);
        lemma_components_len(n, es0);
        let e = es.last();
        assert(es[es.len() - 1] == e);
        let c = components(n, es0);
        assert forall|u: int, v: int|
            0 <= u < n && 0 <= v < n && connected(n, es, u, v) implies p[u] == p[v] by {
            let a = e.start as int;
            let b = e.end as int;
            assert(components(n, es) == merged(c, c[a], c[b], c[a]));
            assert(p[es[es.len() - 1].start as int] == p[es[es.len() - 1].end as int]);
            assert(es[es.len() - 1].start < n && es[es.len() - 1].end < n);
            assert(p[a] == p[b]);
            let inu = c[u] == c[a] || c[u] == c[b];
            let inv = c[v] == c[a] || c[v] == c[b];
            if inu && inv {
                if c[u] == c[a] {
                    assert(connected(n, es0, u, a));
                } else {
                    assert(connected(n, es0, u, b));
                }
                if c[v] == c[a] {
                    assert(connected(n, es0, v, a));
                } else {
                    assert(connected(n, es0, v, b));
                }
            } else if !inu && !inv {
                assert(connected(n, es0, u, v));
            }
        }
    }
}

/// The number of connected components of the graph on `0..n` with edges `es`.
pub open spec fn num_components(n: nat, es: Seq<Edge>) -> nat {
    num_sets(components(n, es))
}

/// The component labels form a partition: each label is a vertex that
/// labels itself.
pub proof fn lemma_components_partition(n: nat, es: Seq<Edge>)
    requires
        edges_in_range(n, es),
    ensures
        components(n, es).len() == n,
        is_partition(components(n, es)),
    decreases es.len(),
{
    lemma_components_len(n, es);
    if es.len() > 0 {
        let es0 = es.drop_last();
        assert forall|k: int| #![trigger es0[k]] 0 <= k < es0.len() implies es0[k].start < n
            && es0[k].end < n by {
            assert(es0[k] == es[k]);
        }
        lemma_components_partition(n, es0);
        assert(es[es.len() - 1].start < n && es[es.len() - 1].end < n);
    }
}

/// Every edge of `es` connects its two endpoints.
pub proof fn lemma_edges_connected(n: nat, es: Seq<Edge>)
    requires
        edges_in_range(n, es),
    ensures
        forall|k: int|
            0 <= k < es.len() ==> connected(n, es, #[trigger] es[k].start as int, es[k].end as int),
    decreases es.len(),
{
    if es.len() > 0 {
        let es0 = es.drop_last();
        assert forall|k: int| #![trigger es0[k]] 0 <= k < es0.len() implies es0[k].start < n
            && es0[k].end < n by {
            assert(es0[k] == es[k]);
        }
        lemma_edges_connected(n, es0);
        lemma_components_len(n, es0);
        let c = components(n, es0);
        let e = es.last();
        assert(es[es.len() - 1].start < n && es[es.len() - 1].end < n);
        assert(components(n, es) == merged(c, c[e.start as int], c[e.end as int], c[e.start as int]));
        assert forall|k: int|
            0 <= k < es.len() implies connected(n, es, #[trigger] es[k].start as int, es[k].end as int) by {
            if k < es0.len() {
                assert(es0[k] == es[k]);
                assert(connected(n, es0, es0[k].start as int, es0[k].end as int));
            }
        }
    }
}

/// A list of edges drawn from `es` that connects the endpoints of every edge
/// of `es` has exactly the components of `es`.
pub proof fn lemma_same_components(n: nat, es: Seq<Edge>, f: Seq<Edge>)
    requires
        edges_in_range(n, es),
        f.to_multiset().subset_of(es.to_multiset()),
        forall|k: int|
            0 <= k < es.len() ==> connected(n, f, #[trigger] es[k].start as int, es[k].end as int),
    ensures
        edges_in_range(n, f),
        forall|u: int, v: int|
            0 <= u < n && 0 <= v < n ==> (connected(n, f, u, v) <==> connected(n, es, u, v)),
{
    f.to_multiset_ensures();
    es.to_multiset_ensures();
    assert forall|k: int| #![trigger f[k]] 0 <= k < f.len() implies exists|j: int|
        0 <= j < es.len() && es[j] == f[k] by {
        assert(f.contains(f[k]));
        assert(f.to_multiset().count(f[k]) > 0);
        assert(es.to_multiset().count(f[k]) > 0);
        assert(es.contains(f[k]));
    }
    assert forall|k: int| #![trigger f[k]] 0 <= k < f.len() implies f[k].start < n && f[k].end
        < n && components(n, es)[f[k].start as int] == components(n, es)[f[k].end as int] by {
        let j = choose|j: int| 0 <= j < es.len() && es[j] == f[k];
        assert(es[j].start < n && es[j].end < n);
        lemma_edges_connected(n, es);
        assert(connected(n, es, es[j].start as int, es[j].end as int));
    }
    lemma_components_len(n, es);
    lemma_components_len(n, f);
    lemma_components_refine(n, f, components(n, es));
    lemma_components_refine(n, es, components(n, f));
}

/// Merging the sets of `a` and `b` in two labellings of one partition gives
/// two labellings of one partition again, whichever of the two labels survives.
proof fn lemma_merge_same_partition(n: nat, p: Seq<int>, q: Seq<int>, a: int, b: int, w: int)
    requires
        p.len() == n,
        q.len() == n,
        0 <= a < n,
        0 <= b < n,
        w == p[a] || w == p[b],
        same_partition(n, p, q),
    ensures
        same_partition(n, merged(p, p[a], p[b], w), merged(q, q[a], q[b], q[a])),
{
    let p1 = merged(p, p[a], p[b], w);
    let q1 = merged(q, q[a], q[b], q[a]);
    assert forall|u: int, v: int| 0 <= u < n && 0 <= v < n implies (p1[u] == p1[v]
        <==> #[trigger] q1[u] == #[trigger] q1[v]) by {
        assert(p[u] == p[a] <==> q[u] == q[a]);
        assert(p[u] == p[b] <==> q[u] == q[b]);
        assert(p[v] == p[a] <==> q[v] == q[a]);
        assert(p[v] == p[b] <==> q[v] == q[b]);
        assert(p[u] == p[v] <==> q[u] == q[v]);
    }
}

/// An element of a sequence is an element of every sequence with the same
/// multiset of elements.
pub proof fn lemma_same_elements(s: Seq<Edge>, t: Seq<Edge>, j: int)
    requires
        s.to_multiset() == t.to_multiset(),
        0 <= j < s.len(),
    ensures
        exists|k: int| 0 <= k < t.len() && t[k] == s[j],
{
    s.to_multiset_ensures();
    t.to_multiset_ensures();
    assert(s.contains(s[j]));
    assert(t.to_multiset().count(s[j]) > 0);
}

/// Appending an edge whose endpoints are not yet connected keeps a list
/// acyclic.
pub proof fn lemma_push_acyclic(n: nat, es: Seq<Edge>, e: Edge)
    requires
        acyclic(n, es),
        !connected(n, es, e.start as int, e.end as int),
    ensures
        acyclic(n, es.push(e)),
{
    let es1 = es.push(e);
    assert(es1.take(es.len() as int) == es);
    assert forall|k: int| 0 <= k < es1.len() implies !connected(
        n,
        es1.take(k),
        #[trigger] es1[k].start as int,
        es1[k].end as int,
    ) by {
        if k < es.len() {
            assert(es1.take(k) == es.take(k));
            assert(es1[k] == es[k]);
        }
    }
}

/// A list whose elements stand at increasing positions of a sorted list is
/// sorted.
proof fn lemma_sorted_pick(s: Seq<Edge>, m: Seq<Edge>, idx: Seq<int>)
    requires
        sorted(s),
        idx.len() == m.len(),
        forall|k: int| 0 <= k < m.len() ==> 0 <= #[trigger] idx[k] < s.len() && m[k] == s[idx[k]],
        forall|k1: int, k2: int| 0 <= k1 < k2 < m.len() ==> idx[k1] < idx[k2],
    ensures
        sorted(m),
{
    assert forall|k1: int, k2: int| 0 <= k1 < k2 < m.len() implies edge_le(
        #[trigger] m[k1],
        #[trigger] m[k2],
    ) by {
        assert(idx[k1] < idx[k2]);
        assert(edge_le(s[idx[k1]], s[idx[k2]]));
    }
}

/// Appending one element to both sides keeps a sub-multiset relation, and so
/// does appending it to the larger side alone.
pub proof fn lemma_sub_push(m: Seq<Edge>, t: Seq<Edge>, e: Edge)
    requires
        m.to_multiset().subset_of(t.to_multiset()),
    ensures
        m.push(e).to_multiset().subset_of(t.push(e).to_multiset()),
        m.to_multiset().subset_of(t.push(e).to_multiset()),
{
    broadcast use vstd::multiset::group_multiset_axioms;

    vstd::seq_lib::to_multiset_build(m, e);
    vstd::seq_lib::to_multiset_build(t, e);
}

/// Where `q` joins every two vertices that `p` joins, the endpoints of the
/// first `i` edges of `s`, joined in `p`, stay joined in `q`; with the
/// endpoints of edge `i` joined in `q`, so are those of the first `i + 1`.
proof fn lemma_pairs_kept(n: nat, p: Seq<int>, q: Seq<int>, s: Seq<Edge>, i: int)
    requires
        0 <= i < s.len(),
        edges_in_range(n, s),
        forall|u: int, v: int| 0 <= u < n && 0 <= v < n && p[u] == p[v] ==> #[trigger] q[u] == #[trigger] q[v],
        forall|j: int| 0 <= j < i ==> p[#[trigger] s[j].start as int] == p[s[j].end as int],
        q[s[i].start as int] == q[s[i].end as int],
    ensures
        forall|j: int| 0 <= j < i + 1 ==> q[#[trigger] s[j].start as int] == q[s[j].end as int],
{
    assert forall|j: int| 0 <= j < i + 1 implies q[#[trigger] s[j].start as int] == q[s[j].end as int] by {
        if j < i {
            assert(p[s[j].start as int] == p[s[j].end as int]);
            assert(s[j].start < n && s[j].end < n);
        }
    }
}

/// A minimum spanning forest of the graph on the vertices `0..n` with the
/// given edges, by Kruskal's algorithm. The edges are taken in the order of
/// `edge_le` (weight, then `start`, then `end`); an edge is accepted exactly
/// when its endpoints are not yet connected by the edges accepted before it.
/// Returns the accepted edges in the order of acceptance and the sum of their
/// weights, widened so that it cannot overflow.
pub fn kruskal(n: usize, edges: Vec<Edge>) -> (r: (Vec<Edge>, i128))
    requires
        edges_in_range(n as nat, edges@),
    ensures
        forall|s: Seq<Edge>|
            sorted(s) && #[trigger] s.to_multiset() == edges@.to_multiset() ==> r.0@ == greedy(
                n as nat,
                s,
            ),
        r.1 == weight_sum(r.0@),
        forall|f: Seq<Edge>|
            #![trigger weight_sum(f)]
            f.to_multiset().subset_of(edges@.to_multiset()) && acyclic(n as nat, f) && (forall|
                u: int,
                v: int,
            |
                0 <= u < n && 0 <= v < n ==> (connected(n as nat, f, u, v) <==> connected(
                    n as nat,
                    edges@,
                    u,
                    v,
                ))) ==> r.1 <= weight_sum(f),
        sorted(r.0@),
        r.0@.to_multiset().subset_of(edges@.to_multiset()),
        acyclic(n as nat, r.0@),
        forall|k: int|
            0 <= k < edges@.len() ==> connected(
                n as nat,
                r.0@,
                #[trigger] edges@[k].start as int,
                edges@[k].end as int,
            ),
        forall|u: int, v: int|
            0 <= u < n && 0 <= v < n ==> (connected(n as nat, r.0@, u, v) <==> connected(
                n as nat,
                edges@,
                u,
                v,
            )),
        r.0@.len() + num_components(n as nat, edges@) == n,
        n > 0 && all_connected(n as nat, edges@) ==> r.0@.len() == n - 1 && all_connected(
            n as nat,
            r.0@,
        ),
{
    let s = sort_edges(&edges);
    let len = s.len();
    let mut uf = UnionFind::new(n);
    let mut mst: Vec<Edge> = Vec::new();
    let mut total: i128 = 0;
    let ghost idx: Seq<int> = Seq::empty();
    proof {
        assert forall|k: int| 0 <= k < s@.len() implies #[trigger] s@[k].start < n && s@[k].end
            < n by {
            lemma_same_elements(s@, edges@, k);
            let j = choose|j: int| 0 <= j < edges@.len() && edges@[j] == s@[k];
            assert(edges@[j].start < n && edges@[j].end < n);
        }
        assert(s@.take(0) == Seq::<Edge>::empty());
        lemma_components_len(n as nat, mst@);
        assert(same_partition(n as nat, uf.reps(), components(n as nat, mst@)));
    }
    let mut i: usize = 0;
    while i < len
        invariant
            len == s@.len(),
            sorted(s@),
            s@.to_multiset() == edges@.to_multiset(),
            edges_in_range(n as nat, s@),
            i <= len,
            uf.wf(),
            uf.size() == n,
            same_partition(n as nat, uf.reps(), components(n as nat, mst@)),
            mst@.to_multiset().subset_of(s@.take(i as int).to_multiset()),
            idx.len() == mst@.len(),
            forall|k: int|
                0 <= k < mst@.len() ==> 0 <= #[trigger] idx[k] < i && mst@[k] == s@[idx[k]],
            forall|k1: int, k2: int| 0 <= k1 < k2 < mst@.len() ==> idx[k1] < idx[k2],
            acyclic(n as nat, mst@),
            mst@ == greedy(n as nat, s@.take(i as int)),
            forall|j: int|
                0 <= j < i ==> uf.reps()[#[trigger] s@[j].start as int] == uf.reps()[s@[j].end as int],
            total == weight_sum(mst@),
            -(mst@.len() * 0x8000_0000) <= total <= mst@.len() * 0x8000_0000,
            mst@.len() <= i,
            mst@.len() + num_sets(uf.reps()) == n,
        decreases len - i,
    {
        let e = s[i];
        proof {
            assert(s@[i as int].start < n && s@[i as int].end < n);
            uf.lemma_wf_partition();
            lemma_components_len(n as nat, mst@);
            assert(s@.take(i + 1) == s@.take(i as int).push(e));
            assert(s@.take(i + 1).drop_last() == s@.take(i as int));
            assert(uf.reps()[e.start as int] == uf.reps()[e.end as int] <==> connected(
                n as nat,
                mst@,
                e.start as int,
                e.end as int,
            ));
            lemma_sub_push(mst@, s@.take(i as int), e);
        }
        let ghost uf0 = uf;
        let ghost mst0 = mst@;
        if uf.union(e.start, e.end) {
            mst.push(e);
            total = total + e.weight as i128;
            proof {
                let c = components(n as nat, mst0);
                let a = e.start as int;
                let b = e.end as int;
                assert(mst@.drop_last() == mst0);
                lemma_merge_same_partition(n as nat, uf0.reps(), c, a, b,
                    uf.reps()[a]);
                lemma_push_acyclic(n as nat, mst0, e);
                lemma_pairs_kept(n as nat, uf0.reps(), uf.reps(), s@, i as int);
                idx = idx.push(i as int);
            }
        } else {
            proof {
                lemma_pairs_kept(n as nat, uf0.reps(), uf.reps(), s@, i as int);
            }
        }
        i = i + 1;
    }
    proof {
        assert(s@.take(len as int) == s@);
        lemma_sorted_pick(s@, mst@, idx);
        uf.lemma_wf_partition();
        let rep = uf.reps();
        let c = components(n as nat, mst@);
        lemma_components_len(n as nat, mst@);
        assert forall|k: int| 0 <= k < edges@.len() implies connected(
            n as nat,
            mst@,
            #[trigger] edges@[k].start as int,
            edges@[k].end as int,
        ) by {
            let e = edges@[k];
            lemma_same_elements(edges@, s@, k);
            let j = choose|j: int| 0 <= j < s@.len() && s@[j] == e;
            assert(rep[s@[j].start as int] == rep[s@[j].end as int]);
        }
        lemma_same_components(n as nat, edges@, mst@);
        assert forall|t: Seq<Edge>|
            sorted(t) && #[trigger] t.to_multiset() == edges@.to_multiset() implies mst@ == greedy(
                n as nat,
                t,
            ) by {
            lemma_sorted_unique(t, s@);
        }
        assert forall|f: Seq<Edge>|
            #![trigger weight_sum(f)]
            f.to_multiset().subset_of(edges@.to_multiset()) && acyclic(n as nat, f) && (forall|
                u: int,
                v: int,
            |
                0 <= u < n && 0 <= v < n ==> (connected(n as nat, f, u, v) <==> connected(
                    n as nat,
                    edges@,
                    u,
                    v,
                ))) implies total <= weight_sum(f) by {
            lemma_greedy_minimal(n as nat, edges@, s@, f);
        }
        lemma_components_partition(n as nat, edges@);
        let ce = components(n as nat, edges@);
        assert forall|u: int, v: int| 0 <= u < n && 0 <= v < n implies (rep[u] == rep[v]
            <==> #[trigger] ce[u] == #[trigger] ce[v]) by {
            assert(rep[u] == rep[v] <==> c[u] == c[v]);
            assert(connected(n as nat, mst@, u, v) <==> connected(n as nat, edges@, u, v));
        }
        lemma_same_partition_count(rep, components(n as nat, edges@));
        if n > 0 && all_connected(n as nat, edges@) {
            lemma_components_refine(n as nat, edges@, rep);
            assert forall|u: int| 0 <= u < n implies #[trigger] rep[u] == rep[0] by {
                assert(connected(n as nat, edges@, u, 0));
            }
            assert(roots_of(rep) =~= Set::empty().insert(rep[0]));
            assert(num_sets(rep) == 1);
            assert forall|u: int, v: int| 0 <= u < n && 0 <= v < n implies connected(
                n as nat,
                mst@,
                u,
                v,
            ) by {
                assert(rep[u] == rep[0]);
                assert(rep[v] == rep[0]);
            }
        }
    }
    (mst, total)
}

} // verus!
