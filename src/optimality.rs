//! The forest chosen by the greedy rule over edges in sorted order weighs no
//! more than any other spanning forest of the same graph.
use vstd::prelude::*;
use crate::edge::{Edge, edge_le, lemma_sorted_exists, sorted};
use crate::kruskal::{
    acyclic, components, connected, edges_in_range, greedy, lemma_components_len,
    lemma_components_partition, lemma_components_refine, lemma_edges_connected,
    lemma_push_acyclic, lemma_same_components, lemma_same_elements, lemma_sub_push,
    num_components, weight_sum,
};
use crate::union_find::{is_partition, merged, lemma_same_partition_count, lemma_merge_count, lemma_roots_finite, num_sets, roots_of};

verus! {

/// An acyclic list of edges leaves one component fewer per edge.
pub proof fn lemma_acyclic_count(n: nat, f: Seq<Edge>)
    requires
        edges_in_range(n, f),
        acyclic(n, f),
    ensures
        num_components(n, f) + f.len() == n,
    decreases f.len(),
{
    if f.len() == 0 {
        let c = components(n, f);
        lemma_roots_finite(c);
        vstd::set_lib::lemma_int_range(0, n as int);
        assert(roots_of(c) =~= vstd::set_lib::set_int_range(0, n as int));
    } else {
        let f0 = f.drop_last();
        assert forall|k: int| #![trigger f0[k]] 0 <= k < f0.len() implies f0[k].start < n
            && f0[k].end < n by {
            assert(f0[k] == f[k]);
        }
        assert forall|k: int| 0 <= k < f0.len() implies !connected(
            n,
            f0.take(k),
            #[trigger] f0[k].start as int,
            f0[k].end as int,
        ) by {
            assert(f0.take(k) == f.take(k));
            assert(f0[k] == f[k]);
            assert(!connected(n, f.take(k), f[k].start as int, f[k].end as int));
        }
        lemma_acyclic_count(n, f0);
        lemma_components_partition(n, f0);
        let c = components(n, f0);
        let e = f.last();
        assert(f[f.len() - 1].start < n && f[f.len() - 1].end < n);
        assert(f.take(f.len() - 1) == f0);
        assert(!connected(n, f.take(f.len() - 1), f[f.len() - 1].start as int, f[f.len() - 1].end as int));
        lemma_merge_count(c, c[e.start as int], c[e.end as int]);
    }
}

/// A finer partition has at least as many sets as a coarser one.
pub proof fn lemma_refine_count(p: Seq<int>, q: Seq<int>)
    requires
        p.len() == q.len(),
        is_partition(p),
        is_partition(q),
        forall|u: int, v: int|
            0 <= u < q.len() && 0 <= v < q.len() && q[u] == q[v] ==> #[trigger] p[u] == #[trigger] p[v],
    ensures
        num_sets(p) <= num_sets(q),
{
    lemma_roots_finite(p);
    lemma_roots_finite(q);
    let h = |r: int| q[r];
    assert forall|r1: int, r2: int|
        roots_of(p).contains(r1) && roots_of(p).contains(r2) && #[trigger] h(r1) == #[trigger] h(
            r2,
        ) implies r1 == r2 by {
        assert(q[r1] == q[q[r1]]);
        assert(p[r1] == p[q[r1]]);
        assert(q[r2] == q[q[r2]]);
        assert(p[r2] == p[q[r2]]);
    }
    let img = roots_of(p).map(h);
    vstd::set_lib::lemma_map_size(roots_of(p), img, h);
    assert forall|s: int| img.contains(s) implies roots_of(q).contains(s) by {
        let r = choose|r: int| roots_of(p).contains(r) && h(r) == s;
        assert(q[q[r]] == q[r]);
    }
    vstd::set_lib::lemma_len_subset(img, roots_of(q));
}

/// One step of the greedy rule.
pub proof fn lemma_greedy_step(n: nat, s: Seq<Edge>, p: int)
    requires
        0 <= p < s.len(),
    ensures
        greedy(n, s.take(p + 1)) == if connected(
            n,
            greedy(n, s.take(p)),
            s[p].start as int,
            s[p].end as int,
        ) {
            greedy(n, s.take(p))
        } else {
            greedy(n, s.take(p)).push(s[p])
        },
{
    assert(s.take(p + 1).drop_last() == s.take(p));
    assert(s.take(p + 1).last() == s[p]);
}

/// What the greedy rule accepts from a prefix of `s` is a prefix of what it
/// accepts from a longer one.
pub proof fn lemma_greedy_prefix(n: nat, s: Seq<Edge>, p: int, q: int)
    requires
        0 <= p <= q <= s.len(),
    ensures
        greedy(n, s.take(p)).len() <= greedy(n, s.take(q)).len(),
        greedy(n, s.take(q)).take(greedy(n, s.take(p)).len() as int) == greedy(n, s.take(p)),
    decreases q - p,
{
    if p == q {
        assert(greedy(n, s.take(q)).take(greedy(n, s.take(q)).len() as int) == greedy(n, s.take(q)));
    } else {
        lemma_greedy_prefix(n, s, p, q - 1);
        lemma_greedy_step(n, s, q - 1);
        let g = greedy(n, s.take(q - 1));
        let m = greedy(n, s.take(p)).len() as int;
        if !connected(n, g, s[q - 1].start as int, s[q - 1].end as int) {
            assert(g.push(s[q - 1]).take(m) == g.take(m));
        }
    }
}

/// The greedy rule accepts at most one edge per step, so it passes every
/// count on the way: when `p` steps give more than `i` edges, there is a step
/// `q < p` at which the count went from `i` to `i + 1`.
pub proof fn lemma_greedy_passes(n: nat, s: Seq<Edge>, p: int, i: int)
    requires
        0 <= p <= s.len(),
        0 <= i < greedy(n, s.take(p)).len(),
    ensures
        exists|q: int|
            0 <= q < p && greedy(n, s.take(q)).len() == i && #[trigger] greedy(n, s.take(q + 1))
                == greedy(n, s.take(q)).push(s[q]),
    decreases p,
{
    if p == 0 {
        assert(s.take(0) == Seq::<Edge>::empty());
    } else {
        lemma_greedy_step(n, s, p - 1);
        let g = greedy(n, s.take(p - 1));
        if g.len() > i {
            lemma_greedy_passes(n, s, p - 1, i);
            let q = choose|q: int|
                0 <= q < p - 1 && greedy(n, s.take(q)).len() == i && #[trigger] greedy(
                    n,
                    s.take(q + 1),
                ) == greedy(n, s.take(q)).push(s[q]);
        } else {
            assert(!connected(n, g, s[p - 1].start as int, s[p - 1].end as int));
        }
    }
}

/// The greedy rule gives an acyclic list drawn from `s`.
pub proof fn lemma_greedy_forest(n: nat, s: Seq<Edge>)
    ensures
        acyclic(n, greedy(n, s)),
        greedy(n, s).to_multiset().subset_of(s.to_multiset()),
    decreases s.len(),
{
    broadcast use vstd::multiset::group_multiset_axioms;

    if s.len() == 0 {
        assert(greedy(n, s) == s);
    } else {
        let s0 = s.drop_last();
        lemma_greedy_forest(n, s0);
        let g = greedy(n, s0);
        let e = s.last();
        assert(s == s0.push(e));
        lemma_sub_push(g, s0, e);
        if !connected(n, g, e.start as int, e.end as int) {
            lemma_push_acyclic(n, g, e);
        }
    }
}

/// The greedy rule connects the endpoints of every edge of `s`.
pub proof fn lemma_greedy_spans(n: nat, s: Seq<Edge>)
    requires
        edges_in_range(n, s),
    ensures
        forall|k: int|
            0 <= k < s.len() ==> connected(n, greedy(n, s), #[trigger] s[k].start as int, s[k].end as int),
    decreases s.len(),
{
    if s.len() > 0 {
        let s0 = s.drop_last();
        assert forall|k: int| #![trigger s0[k]] 0 <= k < s0.len() implies s0[k].start < n
            && s0[k].end < n by {
            assert(s0[k] == s[k]);
        }
        lemma_greedy_spans(n, s0);
        let g = greedy(n, s0);
        let e = s.last();
        assert(s[s.len() - 1].start < n && s[s.len() - 1].end < n);
        if !connected(n, g, e.start as int, e.end as int) {
            lemma_components_len(n, g);
            let c = components(n, g);
            assert(g.push(e).drop_last() == g);
            assert(components(n, g.push(e)) == merged(c, c[e.start as int], c[e.end as int], c[e.start as int]));
            assert forall|k: int| 0 <= k < s.len() implies connected(n, greedy(n, s), #[trigger] s[k].start as int, s[k].end as int) by {
                if k < s0.len() {
                    assert(s0[k] == s[k]);
                    assert(connected(n, g, s0[k].start as int, s0[k].end as int));
                }
            }
        } else {
            assert forall|k: int| 0 <= k < s.len() implies connected(n, greedy(n, s), #[trigger] s[k].start as int, s[k].end as int) by {
                if k < s0.len() {
                    assert(s0[k] == s[k]);
                }
            }
        }
    }
}

/// A list drawn from a list of edges in range is in range, and each of its
/// edges occurs in the larger list.
pub proof fn lemma_sub_in_range(n: nat, es: Seq<Edge>, f: Seq<Edge>)
    requires
        edges_in_range(n, es),
        f.to_multiset().subset_of(es.to_multiset()),
    ensures
        edges_in_range(n, f),
{
    assert forall|k: int| #![trigger f[k]] 0 <= k < f.len() implies f[k].start < n && f[k].end < n by {
        lemma_member(es, f, k);
        let j = choose|j: int| 0 <= j < es.len() && es[j] == f[k];
        assert(es[j].start < n && es[j].end < n);
    }
}

/// An element of a list drawn from `es` occurs in `es`.
pub proof fn lemma_member(es: Seq<Edge>, f: Seq<Edge>, k: int)
    requires
        f.to_multiset().subset_of(es.to_multiset()),
        0 <= k < f.len(),
    ensures
        exists|j: int| 0 <= j < es.len() && es[j] == f[k],
{
    f.to_multiset_ensures();
    es.to_multiset_ensures();
    assert(f.contains(f[k]));
    assert(f.to_multiset().count(f[k]) > 0);
    assert(es.to_multiset().count(f[k]) > 0);
    assert(es.contains(f[k]));
}

/// A prefix of an acyclic list is acyclic.
pub proof fn lemma_acyclic_take(n: nat, f: Seq<Edge>, m: int)
    requires
        acyclic(n, f),
        0 <= m <= f.len(),
    ensures
        acyclic(n, f.take(m)),
{
    let fm = f.take(m);
    assert forall|k: int| 0 <= k < fm.len() implies !connected(
        n,
        fm.take(k),
        #[trigger] fm[k].start as int,
        fm[k].end as int,
    ) by {
        assert(fm.take(k) == f.take(k));
        assert(fm[k] == f[k]);
        assert(!connected(n, f.take(k), f[k].start as int, f[k].end as int));
    }
}

/// Vertices that a prefix of `es` connects, `es` connects too.
pub proof fn lemma_connected_prefix(n: nat, es: Seq<Edge>, m: int)
    requires
        edges_in_range(n, es),
        0 <= m <= es.len(),
    ensures
        forall|u: int, v: int|
            0 <= u < n && 0 <= v < n && connected(n, es.take(m), u, v) ==> connected(n, es, u, v),
{
    let em = es.take(m);
    lemma_edges_connected(n, es);
    lemma_components_len(n, es);
    assert forall|k: int| #![trigger em[k]] 0 <= k < em.len() implies em[k].start < n && em[k].end < n
        && components(n, es)[em[k].start as int] == components(n, es)[em[k].end as int] by {
        assert(em[k] == es[k]);
        assert(connected(n, es, es[k].start as int, es[k].end as int));
    }
    lemma_components_refine(n, em, components(n, es));
}

/// An acyclic list of `i + 1` edges has an edge among its first `i + 1` whose
/// endpoints an acyclic list of `i` edges does not connect.
pub proof fn lemma_crossing_edge(n: nat, ti: Seq<Edge>, f: Seq<Edge>, i: int)
    requires
        edges_in_range(n, ti),
        edges_in_range(n, f),
        acyclic(n, ti),
        acyclic(n, f),
        ti.len() == i,
        0 <= i < f.len(),
    ensures
        exists|j: int| 0 <= j <= i && !connected(n, ti, #[trigger] f[j].start as int, f[j].end as int),
{
    let fi = f.take(i + 1);
    lemma_acyclic_take(n, f, i + 1);
    assert forall|k: int| #![trigger fi[k]] 0 <= k < fi.len() implies fi[k].start < n && fi[k].end < n by {
        assert(fi[k] == f[k]);
    }
    lemma_longer_crosses(n, ti, fi);
    let k = choose|k: int| 0 <= k < fi.len() && components(n, ti)[#[trigger] fi[k].start as int]
        != components(n, ti)[fi[k].end as int];
    assert(fi[k] == f[k]);
    assert(!connected(n, ti, f[k].start as int, f[k].end as int));
}

/// Some edge of an acyclic list joins two components of any shorter acyclic
/// list.
proof fn lemma_longer_crosses(n: nat, t: Seq<Edge>, f: Seq<Edge>)
    requires
        edges_in_range(n, t),
        edges_in_range(n, f),
        acyclic(n, t),
        acyclic(n, f),
        t.len() < f.len(),
    ensures
        exists|k: int| 0 <= k < f.len() && components(n, t)[#[trigger] f[k].start as int]
            != components(n, t)[f[k].end as int],
{
    if forall|k: int| 0 <= k < f.len() ==> components(n, t)[#[trigger] f[k].start as int]
            == components(n, t)[f[k].end as int] {
        lemma_shorter_refined(n, t, f);
    }
}

/// Where every edge of `f` lies within a component of `t`, the components
/// of `f` are at least as many as those of `t`.
proof fn lemma_shorter_refined(n: nat, t: Seq<Edge>, f: Seq<Edge>)
    requires
        edges_in_range(n, t),
        edges_in_range(n, f),
        acyclic(n, t),
        acyclic(n, f),
        forall|k: int| 0 <= k < f.len() ==> components(n, t)[#[trigger] f[k].start as int]
            == components(n, t)[f[k].end as int],
    ensures
        f.len() <= t.len(),
{
    lemma_acyclic_count(n, f);
    lemma_acyclic_count(n, t);
    lemma_components_partition(n, f);
    lemma_components_partition(n, t);
    lemma_components_refine(n, f, components(n, t));
    let ct = components(n, t);
    let cf = components(n, f);
    assert forall|u: int, v: int| 0 <= u < n && 0 <= v < n && cf[u] == cf[v] implies #[trigger] ct[u]
        == #[trigger] ct[v] by {
        assert(connected(n, f, u, v));
    }
    lemma_refine_count(ct, cf);
}

/// Where the greedy rule had accepted at most `i` edges when it came to
/// `s[p]`, and the first `i` accepted edges do not connect the endpoints of
/// `s[p]`, then `s[p]` is the `i`-th accepted edge.
pub proof fn lemma_early_candidate(n: nat, s: Seq<Edge>, p: int, i: int)
    requires
        edges_in_range(n, s),
        0 <= p < s.len(),
        greedy(n, s.take(p)).len() <= i < greedy(n, s).len(),
        !connected(n, greedy(n, s).take(i), s[p].start as int, s[p].end as int),
    ensures
        greedy(n, s)[i] == s[p],
{
    let t = greedy(n, s);
    let g = greedy(n, s.take(p)).len() as int;
    assert(s.take(s.len() as int) == s);
    lemma_not_connected_earlier(n, s, p, i);
    lemma_greedy_step(n, s, p);
    lemma_greedy_prefix(n, s, p + 1, s.len() as int);
    assert(t[g] == greedy(n, s.take(p + 1))[g]);
    if g < i {
        lemma_accepted_connected(n, s, g, i);
    }
}

/// The first `i` accepted edges connect the endpoints of each of them.
proof fn lemma_accepted_connected(n: nat, s: Seq<Edge>, g: int, i: int)
    requires
        edges_in_range(n, s),
        0 <= g < i <= greedy(n, s).len(),
    ensures
        connected(n, greedy(n, s).take(i), greedy(n, s)[g].start as int, greedy(n, s)[g].end as int),
{
    let t = greedy(n, s);
    let ti = t.take(i);
    lemma_greedy_forest(n, s);
    lemma_sub_in_range(n, s, t);
    assert forall|k: int| #![trigger ti[k]] 0 <= k < ti.len() implies ti[k].start < n && ti[k].end < n by {
        assert(ti[k] == t[k]);
    }
    lemma_edges_connected(n, ti);
    assert(ti[g] == t[g]);
}

/// What the first `i` accepted edges do not connect, the edges accepted
/// before step `p` do not connect either, when there are at most `i` of them.
proof fn lemma_not_connected_earlier(n: nat, s: Seq<Edge>, p: int, i: int)
    requires
        edges_in_range(n, s),
        0 <= p < s.len(),
        greedy(n, s.take(p)).len() <= i <= greedy(n, s).len(),
        !connected(n, greedy(n, s).take(i), s[p].start as int, s[p].end as int),
    ensures
        !connected(n, greedy(n, s.take(p)), s[p].start as int, s[p].end as int),
{
    let t = greedy(n, s);
    let ti = t.take(i);
    let gp = greedy(n, s.take(p));
    let g = gp.len() as int;
    assert(s.take(s.len() as int) == s);
    lemma_greedy_forest(n, s);
    lemma_sub_in_range(n, s, t);
    assert forall|k: int| #![trigger ti[k]] 0 <= k < ti.len() implies ti[k].start < n && ti[k].end < n by {
        assert(ti[k] == t[k]);
    }
    lemma_greedy_prefix(n, s, p, s.len() as int);
    assert(gp == ti.take(g));
    lemma_connected_prefix(n, ti, g);
    assert(s[p].start < n && s[p].end < n);
}

/// Where the greedy rule had accepted more than `i` edges before `s[p]`, the
/// `i`-th accepted edge comes no later than `s[p]` in the sorted order.
pub proof fn lemma_late_candidate(n: nat, s: Seq<Edge>, p: int, i: int)
    requires
        sorted(s),
        0 <= p < s.len(),
        0 <= i < greedy(n, s.take(p)).len(),
    ensures
        edge_le(greedy(n, s)[i], s[p]),
{
    assert(s.take(s.len() as int) == s);
    lemma_greedy_passes(n, s, p, i);
    let q = choose|q: int|
        0 <= q < p && greedy(n, s.take(q)).len() == i && #[trigger] greedy(n, s.take(q + 1))
            == greedy(n, s.take(q)).push(s[q]);
    lemma_greedy_prefix(n, s, q + 1, s.len() as int);
    assert(greedy(n, s)[i] == greedy(n, s.take(q + 1))[i]);
    assert(greedy(n, s)[i] == s[q]);
}

/// The exchange argument: with both lists in sorted order, the `i`-th edge
/// that the greedy rule accepts from `s` weighs no more than the `i`-th edge of
/// any acyclic list drawn from `s`.
#[verifier::rlimit(60)]
pub proof fn lemma_exchange(n: nat, s: Seq<Edge>, f: Seq<Edge>, i: int)
    requires
        edges_in_range(n, s),
        sorted(s),
        sorted(f),
        f.to_multiset().subset_of(s.to_multiset()),
        acyclic(n, f),
        0 <= i < f.len(),
        i < greedy(n, s).len(),
    ensures
        greedy(n, s)[i].weight <= f[i].weight,
{
    let t = greedy(n, s);
    let ti = t.take(i);
    lemma_sub_in_range(n, s, f);
    lemma_greedy_forest(n, s);
    lemma_sub_in_range(n, s, t);
    lemma_acyclic_take(n, t, i);
    assert forall|k: int| #![trigger ti[k]] 0 <= k < ti.len() implies ti[k].start < n && ti[k].end < n by {
        assert(ti[k] == t[k]);
    }
    lemma_crossing_edge(n, ti, f, i);
    let j = choose|j: int| 0 <= j <= i && !connected(n, ti, #[trigger] f[j].start as int, f[j].end as int);
    lemma_member(s, f, j);
    let p = choose|p: int| 0 <= p < s.len() && s[p] == f[j];
    if j < i {
        assert(edge_le(f[j], f[i]));
    }
    if greedy(n, s.take(p)).len() <= i {
        lemma_early_candidate(n, s, p, i);
    } else {
        lemma_late_candidate(n, s, p, i);
    }
}

/// Taking one edge out of a list takes its weight out of the sum.
pub proof fn lemma_weight_sum_remove(t: Seq<Edge>, j: int)
    requires
        0 <= j < t.len(),
    ensures
        weight_sum(t) == weight_sum(t.remove(j)) + t[j].weight,
    decreases t.len(),
{
    if j == t.len() - 1 {
        assert(t.remove(j) == t.drop_last());
    } else {
        let t0 = t.drop_last();
        lemma_weight_sum_remove(t0, j);
        assert(t.remove(j).drop_last() == t0.remove(j));
        assert(t.remove(j).last() == t.last());
        assert(t0[j] == t[j]);
    }
}

/// The sum of the weights depends on the edges alone, not on their order.
pub proof fn lemma_weight_sum_perm(s: Seq<Edge>, t: Seq<Edge>)
    requires
        s.to_multiset() == t.to_multiset(),
    ensures
        weight_sum(s) == weight_sum(t),
    decreases s.len(),
{
    s.to_multiset_ensures();
    t.to_multiset_ensures();
    if s.len() > 0 {
        let e = s.last();
        let k = s.len() - 1;
        assert(s.contains(s[k]));
        assert(t.to_multiset().count(e) > 0);
        assert(t.contains(e));
        let j = choose|j: int| 0 <= j < t.len() && t[j] == e;
        vstd::seq_lib::to_multiset_remove(s, k);
        vstd::seq_lib::to_multiset_remove(t, j);
        assert(s.remove(k) == s.drop_last());
        lemma_weight_sum_perm(s.drop_last(), t.remove(j));
        lemma_weight_sum_remove(t, j);
    }
}

/// Each edge lowers the number of components by at most one.
pub proof fn lemma_count_lower(n: nat, es: Seq<Edge>)
    requires
        edges_in_range(n, es),
    ensures
        num_components(n, es) + es.len() >= n,
        num_components(n, es) + es.len() == n ==> acyclic(n, es),
    decreases es.len(),
{
    if es.len() == 0 {
        lemma_acyclic_count(n, es);
    } else {
        let es0 = es.drop_last();
        assert forall|k: int| #![trigger es0[k]] 0 <= k < es0.len() implies es0[k].start < n
            && es0[k].end < n by {
            assert(es0[k] == es[k]);
        }
        lemma_count_lower(n, es0);
        lemma_components_partition(n, es0);
        let c = components(n, es0);
        let e = es.last();
        assert(es[es.len() - 1].start < n && es[es.len() - 1].end < n);
        assert(es == es0.push(e));
        if connected(n, es0, e.start as int, e.end as int) {
            assert(merged(c, c[e.start as int], c[e.end as int], c[e.start as int]) == c);
        } else {
            lemma_merge_count(c, c[e.start as int], c[e.end as int]);
            if num_components(n, es) + es.len() == n {
                lemma_push_acyclic(n, es0, e);
            }
        }
    }
}

/// Two lists of one length, the first edge by edge no heavier than the
/// second, have sums in the same order.
pub proof fn lemma_sum_pointwise(t: Seq<Edge>, f: Seq<Edge>)
    requires
        t.len() == f.len(),
        forall|i: int| 0 <= i < t.len() ==> #[trigger] t[i].weight <= f[i].weight,
    ensures
        weight_sum(t) <= weight_sum(f),
    decreases t.len(),
{
    if t.len() > 0 {
        let t0 = t.drop_last();
        let f0 = f.drop_last();
        assert forall|i: int| 0 <= i < t0.len() implies #[trigger] t0[i].weight <= f0[i].weight by {
            assert(t0[i] == t[i]);
            assert(f0[i] == f[i]);
            assert(t[i].weight <= f[i].weight);
        }
        lemma_sum_pointwise(t0, f0);
        assert(t[t.len() - 1].weight <= f[f.len() - 1].weight);
    }
}

/// An acyclic list drawn from `es` that connects what `es` connects has one
/// edge fewer than `n` per component of `es`.
pub proof fn lemma_spanning_forest_len(n: nat, es: Seq<Edge>, f: Seq<Edge>)
    requires
        edges_in_range(n, es),
        edges_in_range(n, f),
        acyclic(n, f),
        forall|u: int, v: int|
            0 <= u < n && 0 <= v < n ==> (connected(n, f, u, v) <==> connected(n, es, u, v)),
    ensures
        f.len() + num_components(n, es) == n,
{
    lemma_acyclic_count(n, f);
    lemma_components_partition(n, f);
    lemma_components_partition(n, es);
    let cf = components(n, f);
    let ce = components(n, es);
    assert forall|u: int, v: int| 0 <= u < n && 0 <= v < n implies (cf[u] == cf[v]
        <==> #[trigger] ce[u] == #[trigger] ce[v]) by {
        assert(connected(n, f, u, v) <==> connected(n, es, u, v));
    }
    lemma_same_partition_count(cf, ce);
}

/// The minimality of the greedy forest, against spanning forests listed in
/// sorted order.
proof fn lemma_greedy_minimal_sorted(n: nat, edges: Seq<Edge>, s: Seq<Edge>, f: Seq<Edge>)
    requires
        edges_in_range(n, edges),
        sorted(s),
        s.to_multiset() == edges.to_multiset(),
        sorted(f),
        f.to_multiset().subset_of(edges.to_multiset()),
        acyclic(n, f),
        forall|u: int, v: int|
            0 <= u < n && 0 <= v < n ==> (connected(n, f, u, v) <==> connected(n, edges, u, v)),
    ensures
        weight_sum(greedy(n, s)) <= weight_sum(f),
{
    let t = greedy(n, s);
    lemma_sub_in_range(n, edges, s);
    lemma_sub_in_range(n, edges, f);
    lemma_greedy_forest(n, s);
    lemma_greedy_spans(n, s);
    lemma_sub_in_range(n, s, t);
    lemma_same_components(n, s, t);
    lemma_edges_connected(n, s);
    assert forall|k: int| 0 <= k < edges.len() implies connected(
        n,
        s,
        #[trigger] edges[k].start as int,
        edges[k].end as int,
    ) by {
        lemma_member(s, edges, k);
        let j = choose|j: int| 0 <= j < s.len() && s[j] == edges[k];
        assert(connected(n, s, s[j].start as int, s[j].end as int));
    }
    lemma_same_components(n, edges, s);
    lemma_spanning_forest_len(n, edges, t);
    lemma_spanning_forest_len(n, edges, f);
    assert forall|i: int| 0 <= i < t.len() implies #[trigger] t[i].weight <= f[i].weight by {
        lemma_exchange(n, s, f, i);
    }
    lemma_sum_pointwise(t, f);
}

/// Taking the edges of a graph in sorted order and accepting each one whose
/// endpoints the accepted edges do not yet connect gives a spanning forest of
/// least weight: no acyclic list of edges of the graph that connects every
/// two vertices that the graph connects weighs less.
pub proof fn lemma_greedy_minimal(n: nat, edges: Seq<Edge>, s: Seq<Edge>, f: Seq<Edge>)
    requires
        edges_in_range(n, edges),
        sorted(s),
        s.to_multiset() == edges.to_multiset(),
        f.to_multiset().subset_of(edges.to_multiset()),
        acyclic(n, f),
        forall|u: int, v: int|
            0 <= u < n && 0 <= v < n ==> (connected(n, f, u, v) <==> connected(n, edges, u, v)),
    ensures
        weight_sum(greedy(n, s)) <= weight_sum(f),
{
    lemma_sorted_exists(f);
    let g = choose|g: Seq<Edge>| sorted(g) && #[trigger] g.to_multiset() == f.to_multiset();
    lemma_sub_in_range(n, edges, f);
    lemma_sub_in_range(n, f, g);
    lemma_edges_connected(n, g);
    assert forall|k: int| 0 <= k < f.len() implies connected(
        n,
        g,
        #[trigger] f[k].start as int,
        f[k].end as int,
    ) by {
        lemma_member(g, f, k);
        let j = choose|j: int| 0 <= j < g.len() && g[j] == f[k];
        assert(connected(n, g, g[j].start as int, g[j].end as int));
    }
    lemma_same_components(n, f, g);
    g.to_multiset_ensures();
    f.to_multiset_ensures();
    assert(g.len() == f.len());
    lemma_spanning_forest_len(n, edges, f);
    lemma_same_components_count(n, edges, g, f);
    lemma_count_lower(n, g);
    lemma_greedy_minimal_sorted(n, edges, s, g);
    lemma_weight_sum_perm(g, f);
}

/// Lists with the components of `es` have as many components as `es`.
proof fn lemma_same_components_count(n: nat, es: Seq<Edge>, g: Seq<Edge>, f: Seq<Edge>)
    requires
        edges_in_range(n, es),
        edges_in_range(n, g),
        forall|u: int, v: int|
            0 <= u < n && 0 <= v < n ==> (connected(n, g, u, v) <==> connected(n, f, u, v)),
        forall|u: int, v: int|
            0 <= u < n && 0 <= v < n ==> (connected(n, f, u, v) <==> connected(n, es, u, v)),
    ensures
        num_components(n, g) == num_components(n, es),
        forall|u: int, v: int|
            0 <= u < n && 0 <= v < n ==> (connected(n, g, u, v) <==> connected(n, es, u, v)),
{
    lemma_components_partition(n, g);
    lemma_components_partition(n, es);
    let cg = components(n, g);
    let ce = components(n, es);
    assert forall|u: int, v: int| 0 <= u < n && 0 <= v < n implies (cg[u] == cg[v]
        <==> #[trigger] ce[u] == #[trigger] ce[v]) by {
        assert(connected(n, g, u, v) <==> connected(n, f, u, v));
        assert(connected(n, f, u, v) <==> connected(n, es, u, v));
    }
    lemma_same_partition_count(cg, ce);
}

} // verus!
