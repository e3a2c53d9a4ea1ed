use kruskal_mst::edge::{sort_edges, Edge};
use kruskal_mst::kruskal::kruskal;
use kruskal_mst::union_find::UnionFind;

fn e(weight: i32, start: usize, end: usize) -> Edge {
    Edge::new(weight, start, end)
}

fn sample() -> Vec<Edge> {
    vec![e(1, 0, 1), e(4, 0, 2), e(3, 1, 2), e(2, 1, 3), e(5, 2, 3)]
}

fn weight_of(es: &[Edge]) -> i128 {
    es.iter().map(|x| x.weight as i128).sum()
}

/// Number of components of the graph on `0..n` with edges `es`, by a plain
/// label propagation.
fn component_count(n: usize, es: &[Edge]) -> usize {
    let mut label: Vec<usize> = (0..n).collect();
    let mut changed = true;
    while changed {
        changed = false;
        for x in es {
            let (a, b) = (label[x.start], label[x.end]);
            if a != b {
                let (keep, drop) = if a < b { (a, b) } else { (b, a) };
                for l in label.iter_mut() {
                    if *l == drop {
                        *l = keep;
                    }
                }
                changed = true;
            }
        }
    }
    let mut roots: Vec<usize> = label.clone();
    roots.sort();
    roots.dedup();
    roots.len()
}

#[test]
fn sample_graph_tree() {
    let (mst, total) = kruskal(4, sample());
    assert_eq!(mst, vec![e(1, 0, 1), e(2, 1, 3), e(3, 1, 2)]);
    assert_eq!(total, 6);
}

#[test]
fn disconnected_graph_forest() {
    let (mst, total) = kruskal(4, vec![e(1, 0, 1), e(2, 2, 3)]);
    assert_eq!(mst.len(), 2);
    assert_eq!(total, 3);
    assert_eq!(mst, vec![e(1, 0, 1), e(2, 2, 3)]);
    assert_eq!(component_count(4, &mst), 2);
    let mut uf = UnionFind::new(4);
    for x in &mst {
        uf.union(x.start, x.end);
    }
    assert_eq!(uf.find(0), uf.find(1));
    assert_eq!(uf.find(2), uf.find(3));
    assert_ne!(uf.find(0), uf.find(2));
}

#[test]
fn no_vertices() {
    let (mst, total) = kruskal(0, vec![]);
    assert!(mst.is_empty());
    assert_eq!(total, 0);
}

#[test]
fn no_edges() {
    let (mst, total) = kruskal(5, vec![]);
    assert!(mst.is_empty());
    assert_eq!(total, 0);
}

#[test]
fn self_loop_rejected() {
    let (mst, total) = kruskal(1, vec![e(7, 0, 0)]);
    assert!(mst.is_empty());
    assert_eq!(total, 0);
    let mut uf = UnionFind::new(3);
    assert!(!uf.union(2, 2));
}

#[test]
fn duplicate_edges_first_only() {
    let (mst, total) = kruskal(2, vec![e(3, 0, 1), e(3, 0, 1), e(3, 1, 0)]);
    assert_eq!(mst, vec![e(3, 0, 1)]);
    assert_eq!(total, 3);
}

#[test]
fn negative_weights() {
    let (mst, total) = kruskal(3, vec![e(-5, 0, 1), e(-1, 1, 2), e(-7, 0, 2)]);
    assert_eq!(mst, vec![e(-7, 0, 2), e(-5, 0, 1)]);
    assert_eq!(total, -12);
}

#[test]
fn total_is_sum_of_accepted() {
    let edges = vec![
        e(10, 0, 1), e(-3, 1, 2), e(8, 2, 3), e(8, 3, 4), e(1, 4, 0),
        e(6, 1, 3), e(2, 2, 4), e(9, 5, 6), e(i32::MAX, 6, 7), e(i32::MAX, 5, 7),
    ];
    let (mst, total) = kruskal(8, edges);
    assert_eq!(total, weight_of(&mst));
    assert_eq!(total, -3 + 1 + 2 + 6 + 9 + i32::MAX as i128);
}

#[test]
fn total_does_not_overflow() {
    let edges = vec![e(i32::MAX, 0, 1), e(i32::MAX, 1, 2), e(i32::MAX, 2, 3)];
    let (_, total) = kruskal(4, edges);
    assert_eq!(total, 3 * i32::MAX as i128);
    let edges = vec![e(i32::MIN, 0, 1), e(i32::MIN, 1, 2)];
    let (_, total) = kruskal(3, edges);
    assert_eq!(total, 2 * i32::MIN as i128);
}

#[test]
fn connected_graph_has_n_minus_one_edges() {
    let edges = vec![
        e(4, 0, 1), e(8, 0, 7), e(11, 1, 7), e(8, 1, 2), e(7, 7, 8), e(1, 7, 6),
        e(2, 2, 8), e(6, 8, 6), e(4, 2, 5), e(2, 6, 5), e(7, 2, 3), e(14, 3, 5),
        e(9, 3, 4), e(10, 5, 4),
    ];
    let (mst, total) = kruskal(9, edges);
    assert_eq!(mst.len(), 8);
    assert_eq!(component_count(9, &mst), 1);
    assert_eq!(total, 37);
}

#[test]
fn accepted_edges_never_close_a_cycle() {
    let edges = vec![
        e(1, 0, 1), e(1, 1, 2), e(1, 2, 0), e(2, 2, 3), e(2, 3, 1), e(3, 4, 4),
    ];
    let (mst, _) = kruskal(5, edges);
    for k in 0..mst.len() {
        let before = component_count(5, &mst[..k]);
        let after = component_count(5, &mst[..k + 1]);
        assert_eq!(after + 1, before);
    }
    assert_eq!(mst.len(), 3);
}

#[test]
fn minimal_against_brute_force() {
    let edges = vec![
        e(5, 0, 1), e(3, 0, 2), e(4, 1, 2), e(2, 1, 3), e(7, 2, 3), e(6, 3, 4),
        e(1, 2, 4), e(9, 0, 4), e(8, 5, 6),
    ];
    let n = 7;
    let (mst, total) = kruskal(n, edges.clone());
    let target = component_count(n, &edges);
    let mut best: Option<i128> = None;
    for mask in 0u32..(1 << edges.len()) {
        let pick: Vec<Edge> = (0..edges.len())
            .filter(|i| mask & (1 << i) != 0)
            .map(|i| edges[i])
            .collect();
        if pick.len() == n - target && component_count(n, &pick) == target {
            let w = weight_of(&pick);
            best = Some(best.map_or(w, |b| b.min(w)));
        }
    }
    assert_eq!(component_count(n, &mst), target);
    assert_eq!(Some(total), best);
}

#[test]
fn find_twice_same_root() {
    let mut uf = UnionFind::new(6);
    assert!(uf.union(0, 1));
    assert!(uf.union(2, 3));
    assert!(uf.union(1, 3));
    assert!(uf.union(4, 3));
    let r1 = uf.find(4);
    let r2 = uf.find(4);
    assert_eq!(r1, r2);
    assert_eq!(uf.find(0), r1);
    assert_eq!(uf.find(5), 5);
    assert_eq!(uf.find(5), 5);
}

#[test]
fn union_of_connected_changes_nothing() {
    let mut uf = UnionFind::new(4);
    assert!(uf.union(0, 1));
    assert!(uf.union(1, 2));
    let parents: Vec<usize> = (0..4).map(|i| uf.parent_of(i)).collect();
    let ranks: Vec<usize> = (0..4).map(|i| uf.rank_of(i)).collect();
    assert!(!uf.union(2, 0));
    assert!(!uf.union(1, 1));
    let parents2: Vec<usize> = (0..4).map(|i| uf.parent_of(i)).collect();
    let ranks2: Vec<usize> = (0..4).map(|i| uf.rank_of(i)).collect();
    assert_eq!(parents, parents2);
    assert_eq!(ranks, ranks2);
}

#[test]
fn new_makes_singletons() {
    let mut uf = UnionFind::new(3);
    assert_eq!(uf.len(), 3);
    for i in 0..3 {
        assert_eq!(uf.parent_of(i), i);
        assert_eq!(uf.rank_of(i), 0);
        assert_eq!(uf.find(i), i);
    }
}

#[test]
fn union_by_rank_tie_and_smaller() {
    let mut uf = UnionFind::new(5);
    // equal ranks: the root of the second argument goes under the first
    assert!(uf.union(0, 1));
    assert_eq!(uf.parent_of(1), 0);
    assert_eq!(uf.rank_of(0), 1);
    // smaller rank goes under larger
    assert!(uf.union(2, 0));
    assert_eq!(uf.parent_of(2), 0);
    assert_eq!(uf.rank_of(0), 1);
    assert!(uf.union(3, 4));
    assert!(uf.union(3, 0));
    assert_eq!(uf.parent_of(0), 3);
    assert_eq!(uf.rank_of(3), 2);
}

#[test]
fn find_compresses_path() {
    let mut uf = UnionFind::new(4);
    assert!(uf.union(2, 3));
    assert!(uf.union(0, 1));
    assert!(uf.union(0, 2));
    // 3 -> 2 -> 0
    assert_eq!(uf.parent_of(3), 2);
    assert_eq!(uf.find(3), 0);
    assert_eq!(uf.parent_of(3), 0);
}

#[test]
fn sort_orders_by_weight_then_endpoints() {
    let es = vec![e(3, 1, 2), e(1, 5, 0), e(3, 0, 9), e(3, 0, 4), e(-2, 7, 7)];
    let s = sort_edges(&es);
    assert_eq!(s, vec![e(-2, 7, 7), e(1, 5, 0), e(3, 0, 4), e(3, 0, 9), e(3, 1, 2)]);
}

#[test]
fn equal_weights_taken_by_endpoints() {
    let (mst, total) = kruskal(3, vec![e(1, 1, 2), e(1, 0, 2), e(1, 0, 1)]);
    assert_eq!(mst, vec![e(1, 0, 1), e(1, 0, 2)]);
    assert_eq!(total, 2);
}

#[test]
fn union_of_two_singletons() {
    let mut uf = UnionFind::new(2);
    assert!(uf.union(0, 1));
    assert_eq!((uf.parent_of(0), uf.parent_of(1)), (0, 0));
    assert_eq!((uf.rank_of(0), uf.rank_of(1)), (1, 0));
}

#[test]
fn find_points_whole_path_at_root() {
    let mut uf = UnionFind::new(4);
    assert!(uf.union(0, 1));
    assert!(uf.union(2, 3));
    assert!(uf.union(0, 2));
    let parents: Vec<usize> = (0..4).map(|i| uf.parent_of(i)).collect();
    assert_eq!(parents, vec![0, 0, 0, 2]);
    assert_eq!(uf.find(3), 0);
    let parents: Vec<usize> = (0..4).map(|i| uf.parent_of(i)).collect();
    let ranks: Vec<usize> = (0..4).map(|i| uf.rank_of(i)).collect();
    assert_eq!(parents, vec![0, 0, 0, 0]);
    assert_eq!(ranks, vec![2, 0, 1, 0]);
}

#[test]
fn second_find_changes_nothing() {
    let mut uf = UnionFind::new(4);
    assert!(uf.union(0, 1));
    assert!(uf.union(2, 3));
    assert!(uf.union(0, 2));
    let r1 = uf.find(3);
    let parents: Vec<usize> = (0..4).map(|i| uf.parent_of(i)).collect();
    let r2 = uf.find(3);
    let parents2: Vec<usize> = (0..4).map(|i| uf.parent_of(i)).collect();
    assert_eq!(r1, r2);
    assert_eq!(parents, parents2);
}
