//! A disjoint-set forest over the vertices `0..n`, with union by rank and path
//! compression.
use vstd::prelude::*;
use vstd::set_lib::{lemma_int_range, lemma_len_subset, set_int_range};

verus! {

/// `rep` maps each element to the representative of its set: every
/// representative lies in range and represents itself.
pub open spec fn is_partition(rep: Seq<int>) -> bool {
    forall|i: int|
        0 <= i < rep.len() ==> 0 <= #[trigger] rep[i] < rep.len() && rep[rep[i]] == rep[i]
}

/// The representatives of the sets of `rep`.
pub open spec fn roots_of(rep: Seq<int>) -> Set<int> {
    Set::new(|i: int| 0 <= i < rep.len() && rep[i] == i)
}

/// The number of sets of `rep`.
pub open spec fn num_sets(rep: Seq<int>) -> nat {
    roots_of(rep).len()
}

/// `rep` after the sets represented by `a` and `b` are merged into one
/// represented by `w`.
pub open spec fn merged(rep: Seq<int>, a: int, b: int, w: int) -> Seq<int> {
    Seq::new(rep.len(), |i: int| if rep[i] == a || rep[i] == b { w } else { rep[i] })
}

/// The roots of a partition of `n` elements form a finite set of at most `n`.
pub proof fn lemma_roots_finite(rep: Seq<int>)
    ensures
        roots_of(rep).finite(),
        num_sets(rep) <= rep.len(),
{
    lemma_int_range(0, rep.len() as int);
    assert(roots_of(rep).subset_of(set_int_range(0, rep.len() as int)));
    lemma_len_subset(roots_of(rep), set_int_range(0, rep.len() as int));
}

/// `v` lies on the path that parent links `p` lead along from `x`, ranks `k`
/// strictly increasing at each step, up to and including its root.
pub open spec fn on_path(p: Seq<usize>, k: Seq<usize>, x: int, v: int) -> bool
    decreases p.len() - k[x],
{
    x == v || (0 <= x < p.len() && p[x] != x && k[x] < k[p[x] as int] && k[p[x] as int]
        <= p.len() && on_path(p, k, p[x] as int, v))
}

/// The parent links `p` after every element on the path from `x` is pointed
/// at `r`.
pub open spec fn compressed(p: Seq<usize>, k: Seq<usize>, x: int, r: usize) -> Seq<usize> {
    Seq::new(p.len(), |v: int| if on_path(p, k, x, v) { r } else { p[v] })
}

/// Ranks grow along a path.
pub proof fn lemma_path_rank(p: Seq<usize>, k: Seq<usize>, a: int, v: int)
    requires
        on_path(p, k, a, v),
    ensures
        v == a || k[a] < k[v],
    decreases p.len() - k[a],
{
    if v != a {
        let b = p[a] as int;
        lemma_path_rank(p, k, b, v);
    }
}

/// A path from `a` through `b` continues along the path from `b`.
pub proof fn lemma_path_trans(p: Seq<usize>, k: Seq<usize>, a: int, b: int, v: int)
    requires
        on_path(p, k, a, b),
        on_path(p, k, b, v),
    ensures
        on_path(p, k, a, v),
    decreases p.len() - k[a],
{
    if a != b {
        lemma_path_trans(p, k, p[a] as int, b, v);
    }
}

/// Every element on the path from `a` is in the set of `a`, where `rep` is
/// constant along parent links.
pub proof fn lemma_path_rep(p: Seq<usize>, k: Seq<usize>, rep: Seq<int>, a: int, v: int)
    requires
        on_path(p, k, a, v),
        p.len() == rep.len(),
        forall|i: int| 0 <= i < p.len() ==> rep[#[trigger] p[i] as int] == rep[i],
    ensures
        rep[v] == rep[a],
    decreases p.len() - k[a],
{
    if v != a {
        lemma_path_rep(p, k, rep, p[a] as int, v);
    }
}

/// The elements of the set represented by `r`.
pub open spec fn set_of(rep: Seq<int>, r: int) -> Set<int> {
    Set::new(|v: int| 0 <= v < rep.len() && rep[v] == r)
}

/// Two to the power `e`.
pub open spec fn two_pow(e: nat) -> nat
    decreases e,
{
    if e == 0 {
        1
    } else {
        2 * two_pow((e - 1) as nat)
    }
}

/// Powers of two grow with the exponent.
pub proof fn lemma_two_pow_mono(a: nat, b: nat)
    requires
        a <= b,
    ensures
        two_pow(a) <= two_pow(b),
    decreases b,
{
    if a < b {
        lemma_two_pow_mono(a, (b - 1) as nat);
    }
}

/// A set of a partition of `n` elements is finite and holds at most `n`.
pub proof fn lemma_set_of_finite(rep: Seq<int>, r: int)
    ensures
        set_of(rep, r).finite(),
        set_of(rep, r).len() <= rep.len(),
{
    lemma_int_range(0, rep.len() as int);
    assert(set_of(rep, r).subset_of(set_int_range(0, rep.len() as int)));
    lemma_len_subset(set_of(rep, r), set_int_range(0, rep.len() as int));
}

/// The number of parent links on the path from `x` to `v`.
pub open spec fn path_len(p: Seq<usize>, k: Seq<usize>, x: int, v: int) -> nat
    decreases p.len() - k[x],
{
    if x != v && 0 <= x < p.len() && p[x] != x && k[x] < k[p[x] as int] && k[p[x] as int]
        <= p.len() {
        1 + path_len(p, k, p[x] as int, v)
    } else {
        0
    }
}

/// Along a path, the rank rises by at least one per link.
pub proof fn lemma_path_len_rank(p: Seq<usize>, k: Seq<usize>, a: int, v: int)
    requires
        on_path(p, k, a, v),
    ensures
        k[a] + path_len(p, k, a, v) <= k[v],
    decreases p.len() - k[a],
{
    if v != a {
        lemma_path_len_rank(p, k, p[a] as int, v);
    }
}

/// Two distinct roots mean at least two sets.
proof fn lemma_two_roots(rep: Seq<int>, a: int, b: int)
    requires
        roots_of(rep).contains(a),
        roots_of(rep).contains(b),
        a != b,
    ensures
        num_sets(rep) >= 2,
{
    lemma_roots_finite(rep);
    let two = Set::empty().insert(a).insert(b);
    assert(two.len() == 2);
    lemma_len_subset(two, roots_of(rep));
}

/// Merging two distinct sets removes exactly one root.
pub proof fn lemma_merge_count(rep: Seq<int>, a: int, b: int)
    requires
        is_partition(rep),
        0 <= a < rep.len(),
        0 <= b < rep.len(),
        rep[a] == a,
        rep[b] == b,
        a != b,
    ensures
        num_sets(merged(rep, a, b, a)) == num_sets(rep) - 1,
        num_sets(merged(rep, a, b, b)) == num_sets(rep) - 1,
{
    lemma_roots_finite(rep);
    assert(roots_of(merged(rep, a, b, a)) =~= roots_of(rep).remove(b));
    assert(roots_of(merged(rep, a, b, b)) =~= roots_of(rep).remove(a));
}

/// `p` and `q` put the elements `0..n` into the same sets.
pub open spec fn same_partition(n: nat, p: Seq<int>, q: Seq<int>) -> bool {
    forall|u: int, v: int|
        0 <= u < n && 0 <= v < n ==> (p[u] == p[v] <==> #[trigger] q[u] == #[trigger] q[v])
}

/// Two labellings of one partition have the same number of sets.
pub proof fn lemma_same_partition_count(p: Seq<int>, q: Seq<int>)
    requires
        p.len() == q.len(),
        is_partition(p),
        is_partition(q),
        same_partition(p.len(), p, q),
    ensures
        num_sets(p) == num_sets(q),
{
    let n = p.len();
    lemma_roots_finite(p);
    let f = |r: int| q[r];
    assert forall|r1: int, r2: int|
        roots_of(p).contains(r1) && roots_of(p).contains(r2) && #[trigger] f(r1) == #[trigger] f(
            r2,
        ) implies r1 == r2 by {
        assert(p[r1] == p[r2]);
    }
    assert forall|s: int| roots_of(q).contains(s) implies #[trigger] roots_of(p).map(f).contains(s) by {
        let r = p[s];
        assert(p[r] == p[s]);
        assert(roots_of(p).contains(r) && f(r) == s);
    }
    assert forall|s: int| #[trigger] roots_of(p).map(f).contains(s) implies roots_of(q).contains(s) by {
        let r = choose|r: int| roots_of(p).contains(r) && f(r) == s;
        assert(q[q[r]] == q[r]);
    }
    assert(roots_of(p).map(f) =~= roots_of(q));
    vstd::set_lib::lemma_map_size(roots_of(p), roots_of(q), f);
}

/// A partition of the elements `0..n` into disjoint sets.
pub struct UnionFind {
    parent: Vec<usize>,
    rank: Vec<usize>,
    rep: Ghost<Seq<int>>,
}

impl UnionFind {
    /// The parent link of each element; a root is its own parent.
    pub closed spec fn parents(&self) -> Seq<usize> {
        self.parent@
    }

    /// The rank of each element.
    pub closed spec fn ranks(&self) -> Seq<usize> {
        self.rank@
    }

    /// The representative (root) of the set of each element.
    pub closed spec fn reps(&self) -> Seq<int> {
        self.rep@
    }

    /// The number of elements.
    pub open spec fn size(&self) -> nat {
        self.reps().len()
    }

    /// Following parent links from any element reaches the root that
    /// represents it, with ranks strictly increasing along the way.
    pub closed spec fn wf(&self) -> bool {
        let n = self.rep@.len();
        &&& self.parent@.len() == n
        &&& self.rank@.len() == n
        &&& is_partition(self.rep@)
        &&& forall|i: int| 0 <= i < n ==> #[trigger] self.parent@[i] < n
        &&& forall|i: int|
            0 <= i < n ==> self.rep@[#[trigger] self.parent@[i] as int] == self.rep@[i]
        &&& forall|i: int| 0 <= i < n ==> (self.parent@[i] == i <==> #[trigger] self.rep@[i] == i)
        &&& forall|i: int|
            0 <= i < n && #[trigger] self.parent@[i] != i ==> self.rank@[i]
                < self.rank@[self.parent@[i] as int]
        &&& forall|i: int|
            0 <= i < n && #[trigger] self.rep@[i] != i ==> self.rank@[i]
                < self.rank@[self.rep@[i]]
        &&& forall|i: int| 0 <= i < n ==> #[trigger] self.rank@[i] + num_sets(self.rep@) <= n
        &&& forall|r: int|
            0 <= r < n && self.rep@[r] == r ==> (#[trigger] set_of(self.rep@, r)).len() >= two_pow(
                self.rank@[r] as nat,
            )
    }

    /// The sets of a well-formed structure form a partition whose roots are
    /// exactly the elements that are their own parents; parent links stay
    /// within a set and lead to strictly higher ranks, and no rank exceeds
    /// the number of elements less the number of sets.
    pub proof fn lemma_wf_partition(&self)
        requires
            self.wf(),
        ensures
            is_partition(self.reps()),
            self.parents().len() == self.size(),
            self.ranks().len() == self.size(),
            forall|i: int| 0 <= i < self.size() ==> #[trigger] self.parents()[i] < self.size(),
            forall|i: int|
                0 <= i < self.size() ==> (self.parents()[i] == i <==> #[trigger] self.reps()[i] == i),
            forall|i: int|
                0 <= i < self.size() ==> self.reps()[#[trigger] self.parents()[i] as int]
                    == self.reps()[i],
            forall|i: int|
                0 <= i < self.size() && #[trigger] self.parents()[i] != i ==> self.ranks()[i]
                    < self.ranks()[self.parents()[i] as int],
            forall|i: int|
                0 <= i < self.size() ==> #[trigger] self.ranks()[i] + num_sets(self.reps())
                    <= self.size(),
            forall|r: int|
                0 <= r < self.size() && self.reps()[r] == r ==> (#[trigger] set_of(self.reps(), r)).len()
                    >= two_pow(self.ranks()[r] as nat),
            forall|i: int| 0 <= i < self.size() ==> two_pow(#[trigger] self.ranks()[i] as nat) <= self.size(),
    {
        assert forall|i: int| 0 <= i < self.size() implies two_pow(#[trigger] self.ranks()[i] as nat)
            <= self.size() by {
            let r = self.rep@[i];
            lemma_set_of_finite(self.rep@, r);
            assert(self.rep@[r] == r);
            assert(two_pow(self.rank@[r] as nat) <= set_of(self.rep@, r).len());
            if r != i {
                assert(self.rank@[i] < self.rank@[r]);
            }
            lemma_two_pow_mono(self.rank@[i] as nat, self.rank@[r] as nat);
        }
    }

    /// Union by rank keeps trees shallow: a path of parent links of length
    /// `m` needs at least `2^m` elements, so no path is longer than `log2(n)`.
    pub proof fn lemma_path_depth(&self, x: int, v: int)
        requires
            self.wf(),
            0 <= x < self.size(),
            0 <= v < self.size(),
            on_path(self.parents(), self.ranks(), x, v),
        ensures
            two_pow(path_len(self.parents(), self.ranks(), x, v)) <= self.size(),
    {
        self.lemma_wf_partition();
        lemma_path_len_rank(self.parent@, self.rank@, x, v);
        lemma_two_pow_mono(path_len(self.parent@, self.rank@, x, v), self.rank@[v] as nat);
        assert(two_pow(self.rank@[v] as nat) <= self.size());
    }

    /// `n` singleton sets: each element is its own root, with rank 0.
    pub fn new(size: usize) -> (r: UnionFind)
        ensures
            r.wf(),
            r.size() == size,
            r.reps() == Seq::new(size as nat, |i: int| i),
            r.parents() == Seq::new(size as nat, |i: int| i as usize),
            r.ranks() == Seq::new(size as nat, |i: int| 0usize),
            num_sets(r.reps()) == size,
    {
        let mut parent: Vec<usize> = Vec::new();
        let mut rank: Vec<usize> = Vec::new();
        let mut i: usize = 0;
        while i < size
            invariant
                i <= size,
                parent@ == Seq::new(i as nat, |k: int| k as usize),
                rank@ == Seq::new(i as nat, |k: int| 0usize),
            decreases size - i,
        {
            parent.push(i);
            rank.push(0);
            i = i + 1;
        }
        let ghost rep = Seq::new(size as nat, |i: int| i);
        proof {
            lemma_int_range(0, size as int);
            assert(roots_of(rep) =~= set_int_range(0, size as int));
            assert forall|r: int| 0 <= r < size implies (#[trigger] set_of(rep, r)).len() >= two_pow(
                rank@[r] as nat,
            ) by {
                assert(set_of(rep, r) =~= Set::empty().insert(r));
            }
        }
        UnionFind { parent, rank, rep: Ghost(rep) }
    }
    /// Returns the representative of the set of `x`, and points every element
    /// on the path from `x` to it directly at it. The sets and the ranks stay
    /// as they were.
    pub fn find(&mut self, x: usize) -> (r: usize)
        requires
            old(self).wf(),
            x < old(self).size(),
        ensures
            final(self).wf(),
            r == old(self).reps()[x as int],
            final(self).reps() == old(self).reps(),
            final(self).ranks() == old(self).ranks(),
            final(self).parents()[x as int] == r,
            final(self).parents()[r as int] == r,
            final(self).parents() == compressed(old(self).parents(), old(self).ranks(), x as int, r),
            old(self).parents()[old(self).parents()[x as int] as int] == old(self).parents()[x as int]
                ==> final(self).parents() == old(self).parents(),
    {
        let ghost n = self.rep@.len();
        let ghost p0 = self.parent@;
        // First pass: climb to the root.
        let mut root: usize = x;
        while self.parent[root] != root
            invariant
                self.wf(),
                n == self.rep@.len(),
                root < n,
                x < n,
                self.rep@[root as int] == self.rep@[x as int],
            decreases n - self.rank@[root as int],
        {
            root = self.parent[root];
        }
        // Second pass: point each element of the path at the root.
        let ghost k0 = self.rank@;
        let mut cur: usize = x;
        while cur != root
            invariant
                self.wf(),
                old(self).wf(),
                p0 == old(self).parent@,
                n == self.rep@.len(),
                old(self).rep@ == self.rep@,
                k0 == self.rank@,
                k0 == old(self).rank@,
                cur < n,
                root < n,
                x < n,
                root == self.rep@[x as int],
                self.rep@[cur as int] == root,
                self.rep@[root as int] == root,
                on_path(p0, k0, x as int, cur as int),
                self.parent@.len() == n,
                forall|v: int|
                    0 <= v < n ==> #[trigger] self.parent@[v] == if on_path(p0, k0, x as int, v)
                        && !on_path(p0, k0, cur as int, v) {
                        root
                    } else {
                        p0[v]
                    },
            decreases n - self.rank@[cur as int],
        {
            let next = self.parent[cur];
            proof {
                assert(on_path(p0, k0, cur as int, cur as int));
                assert(p0[cur as int] == next);
                assert(p0[cur as int] != cur);
                assert(k0[cur as int] + num_sets(self.rep@) <= n);
                assert(k0[next as int] + num_sets(self.rep@) <= n);
                assert(on_path(p0, k0, next as int, next as int));
                assert(on_path(p0, k0, cur as int, next as int));
                lemma_path_trans(p0, k0, x as int, cur as int, next as int);
                assert forall|v: int| on_path(p0, k0, next as int, v) implies v != cur by {
                    lemma_path_rank(p0, k0, next as int, v);
                }
            }
            self.parent.set(cur, root);
            proof {
                assert forall|v: int| 0 <= v < n implies #[trigger] self.parent@[v] == if on_path(
                    p0,
                    k0,
                    x as int,
                    v,
                ) && !on_path(p0, k0, next as int, v) {
                    root
                } else {
                    p0[v]
                } by {
                    if v != cur {
                        assert(on_path(p0, k0, cur as int, v) == on_path(p0, k0, next as int, v));
                    }
                }
            }
            cur = next;
        }
        proof {
            assert(p0[root as int] == root);
            assert forall|v: int| on_path(p0, k0, root as int, v) implies v == root by {}
            assert(self.parent@ =~= compressed(p0, k0, x as int, root));
            if p0[p0[x as int] as int] == p0[x as int] {
                assert(self.rep@[p0[x as int] as int] == self.rep@[x as int]);
                assert forall|v: int| on_path(p0, k0, x as int, v) implies v == x || v == p0[x as int] by {
                    if v != x {
                        assert(on_path(p0, k0, p0[x as int] as int, v));
                    }
                }
                assert(self.parent@ =~= p0);
            }
        }
        root
    }
    /// Merges the sets of `x` and `y`. Returns false, leaving the sets and the
    /// ranks as they were, when they are already one set. Otherwise the root of
    /// smaller rank is attached under the other; on equal ranks the root of `y`
    /// goes under the root of `x`, whose rank grows by one. Either way the
    /// paths from `x` and from `y` are first compressed, as by `find`, and no
    /// other parent link changes.
    #[verifier::rlimit(60)]
    pub fn union(&mut self, x: usize, y: usize) -> (r: bool)
        requires
            old(self).wf(),
            x < old(self).size(),
            y < old(self).size(),
        ensures
            final(self).wf(),
            final(self).size() == old(self).size(),
            r == (old(self).reps()[x as int] != old(self).reps()[y as int]),
            !r ==> final(self).reps() == old(self).reps() && final(self).ranks() == old(
                self,
            ).ranks(),
            !r ==> final(self).parents() == compressed(
                compressed(
                    old(self).parents(),
                    old(self).ranks(),
                    x as int,
                    old(self).reps()[x as int] as usize,
                ),
                old(self).ranks(),
                y as int,
                old(self).reps()[x as int] as usize,
            ),
            !r && old(self).parents()[old(self).parents()[x as int] as int] == old(
                self,
            ).parents()[x as int] && old(self).parents()[old(self).parents()[y as int] as int]
                == old(self).parents()[y as int] ==> final(self).parents() == old(
                self,
            ).parents(),
            r ==> ({
                let rx = old(self).reps()[x as int];
                let ry = old(self).reps()[y as int];
                let kx = old(self).ranks()[rx];
                let ky = old(self).ranks()[ry];
                let (w, l) = if kx < ky {
                    (ry, rx)
                } else {
                    (rx, ry)
                };
                &&& final(self).reps() == merged(old(self).reps(), rx, ry, w)
                &&& final(self).parents() == compressed(
                    compressed(old(self).parents(), old(self).ranks(), x as int, rx as usize),
                    old(self).ranks(),
                    y as int,
                    ry as usize,
                ).update(l, w as usize)
                &&& final(self).parents()[l] == w
                &&& final(self).parents()[w] == w
                &&& final(self).ranks().len() == old(self).ranks().len()
                &&& forall|i: int|
                    0 <= i < old(self).size() && i != rx ==> #[trigger] final(self).ranks()[i]
                        == old(self).ranks()[i]
                &&& final(self).ranks()[rx] == if kx == ky {
                    kx + 1
                } else {
                    kx as int
                }
                &&& num_sets(final(self).reps()) == num_sets(old(self).reps()) - 1
            }),
    {
        let ghost n = self.rep@.len();
        let ghost rep0 = self.rep@;
        let root_x = self.find(x);
        let root_y = self.find(y);
        if root_x == root_y {
            return false;
        }
        let ghost rx = root_x as int;
        let ghost ry = root_y as int;
        proof {
            assert(roots_of(rep0).contains(rx));
            assert(roots_of(rep0).contains(ry));
            lemma_two_roots(rep0, rx, ry);
            lemma_merge_count(rep0, rx, ry);
        }
        if self.rank[root_x] > self.rank[root_y] {
            self.link(root_x, root_y, false);
        } else if self.rank[root_x] < self.rank[root_y] {
            self.link(root_y, root_x, false);
            assert(merged(rep0, ry, rx, ry) =~= merged(rep0, rx, ry, ry));
        } else {
            self.link(root_x, root_y, true);
        }
        true
    }
    /// Attaches root `l` under root `w`, raising the rank of `w` by one when
    /// `bump` is set.
    fn link(&mut self, w: usize, l: usize, bump: bool)
        requires
            old(self).wf(),
            w < old(self).size(),
            l < old(self).size(),
            w != l,
            old(self).reps()[w as int] == w,
            old(self).reps()[l as int] == l,
            bump ==> old(self).ranks()[w as int] == old(self).ranks()[l as int],
            !bump ==> old(self).ranks()[w as int] > old(self).ranks()[l as int],
        ensures
            final(self).wf(),
            final(self).reps() == merged(old(self).reps(), w as int, l as int, w as int),
            final(self).parents() == old(self).parents().update(l as int, w),
            final(self).ranks() == if bump {
                old(self).ranks().update(w as int, (old(self).ranks()[w as int] + 1) as usize)
            } else {
                old(self).ranks()
            },
            num_sets(final(self).reps()) == num_sets(old(self).reps()) - 1,
            bump ==> final(self).ranks()[w as int] == old(self).ranks()[w as int] + 1,
            final(self).parents()[w as int] == w,
    {
        let ghost n = self.rep@.len();
        let ghost rep0 = self.rep@;
        let ghost rank0 = self.rank@;
        let ghost parent0 = self.parent@;
        let ghost rep1 = merged(rep0, w as int, l as int, w as int);
        proof {
            assert(roots_of(rep0).contains(w as int));
            assert(roots_of(rep0).contains(l as int));
            lemma_two_roots(rep0, w as int, l as int);
            lemma_merge_count(rep0, w as int, l as int);
            assert(rank0[w as int] + num_sets(rep0) <= n);
        }
        self.parent.set(l, w);
        if bump {
            let k = self.rank[w];
            let len = self.rank.len();
            assert(k + 2 <= len);
            self.rank.set(w, k + 1);
        }
        self.rep = Ghost(rep1);
        proof {
            let parent1 = self.parent@;
            let rank1 = self.rank@;
            assert(is_partition(rep1));
            assert forall|i: int| 0 <= i < n implies rep1[#[trigger] parent1[i] as int]
                == rep1[i] by {
                assert(rep0[parent0[i] as int] == rep0[i]);
            }
            assert forall|i: int| 0 <= i < n implies (parent1[i] == i <==> #[trigger] rep1[i]
                == i) by {
                assert(parent0[i] == i <==> rep0[i] == i);
            }
            assert forall|i: int| 0 <= i < n && #[trigger] parent1[i] != i implies rank1[i]
                < rank1[parent1[i] as int] by {
                if i != l {
                    assert(rank0[i] < rank0[parent0[i] as int]);
                }
            }
            assert forall|i: int| 0 <= i < n && #[trigger] rep1[i] != i implies rank1[i]
                < rank1[rep1[i]] by {
                if i != l && rep0[i] != i {
                    assert(rank0[i] < rank0[rep0[i]]);
                }
            }
            assert forall|i: int| 0 <= i < n implies #[trigger] rank1[i] + num_sets(rep1)
                <= n by {
                assert(rank0[i] + num_sets(rep0) <= n);
            }
            assert forall|r: int| 0 <= r < n && rep1[r] == r implies (#[trigger] set_of(rep1, r)).len()
                >= two_pow(rank1[r] as nat) by {
                lemma_set_of_finite(rep0, r);
                lemma_set_of_finite(rep1, r);
                if r == w {
                    lemma_set_of_finite(rep0, l as int);
                    assert(set_of(rep1, r) =~= set_of(rep0, r).union(set_of(rep0, l as int)));
                    assert(set_of(rep0, r).disjoint(set_of(rep0, l as int)));
                    vstd::set_lib::lemma_set_disjoint_lens(set_of(rep0, r), set_of(rep0, l as int));
                    assert(set_of(rep0, r).len() >= two_pow(rank0[r] as nat));
                    assert(set_of(rep0, l as int).len() >= two_pow(rank0[l as int] as nat));
                    if !bump {
                        assert(rank1[r] == rank0[r]);
                    }
                } else {
                    assert(set_of(rep1, r) =~= set_of(rep0, r));
                    assert(rep0[r] == r);
                }
            }
        }
    }
    /// The number of elements.
    pub fn len(&self) -> (r: usize)
        requires
            self.wf(),
        ensures
            r == self.size(),
    {
        self.parent.len()
    }

    /// The parent link of `i`.
    pub fn parent_of(&self, i: usize) -> (r: usize)
        requires
            self.wf(),
            i < self.size(),
        ensures
            r == self.parents()[i as int],
    {
        self.parent[i]
    }

    /// The rank of `i`.
    pub fn rank_of(&self, i: usize) -> (r: usize)
        requires
            self.wf(),
            i < self.size(),
        ensures
            r == self.ranks()[i as int],
    {
        self.rank[i]
    }
}

} // verus!
