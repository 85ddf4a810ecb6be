use idtree::IDTree;
use nohash_hasher::{IntMap, IntSet};
use rapidhash::RapidHashSet;
use rand::rngs::StdRng;
use rand::RngExt;
use rand::SeedableRng;

fn adj_map(n: usize, edges: &[(usize, usize)]) -> IntMap<usize, IntSet<usize>> {
    let mut adj: IntMap<usize, IntSet<usize>> = IntMap::default();
    for i in 0..n {
        adj.insert(i, IntSet::default());
    }
    for &(u, v) in edges {
        adj.get_mut(&u).unwrap().insert(v);
        adj.get_mut(&v).unwrap().insert(u);
    }
    adj
}

fn reachable(n: usize, edges: &[(usize, usize)], a: usize, b: usize) -> bool {
    let mut seen = vec![false; n];
    let mut stack = vec![a];
    seen[a] = true;
    while let Some(x) = stack.pop() {
        for &(u, v) in edges {
            for (p, q) in [(u, v), (v, u)] {
                if p == x && !seen[q] {
                    seen[q] = true;
                    stack.push(q);
                }
            }
        }
    }
    seen[b]
}

fn sorted(mut v: Vec<usize>) -> Vec<usize> {
    v.sort();
    v
}

#[test]
fn new_tree_has_isolated_nodes() {
    let mut t = IDTree::new(5);
    for i in 0..5 {
        assert!(t.is_isolated(i));
        assert_eq!(t.degree(i), 0);
        assert_eq!(t.get_parent(i), usize::MAX);
        assert!(t.query(i, i));
    }
    assert!(!t.query(0, 1));
    assert_eq!(t.num_connected_components(), 0);
    assert!(t.active_nodes_vec().is_empty());
}

#[test]
fn query_out_of_range_is_false() {
    let t = IDTree::from_edges(3, &[(0, 1)]);
    assert!(!t.query(0, 3));
    assert!(!t.query(7, 7));
    assert!(t.query(0, 1));
    assert!(!t.query(0, 2));
}

#[test]
fn insert_edge_result_codes() {
    let mut t = IDTree::new(4);
    assert_eq!(t.insert_edge(0, 4), -1);
    assert_eq!(t.insert_edge(2, 2), -1);
    let r = t.insert_edge(0, 1);
    assert!(r == 1 || r == 3);
    assert_eq!(t.insert_edge(0, 1), -1);
    assert_eq!(t.insert_edge(1, 0), -1);
    let r = t.insert_edge(1, 2);
    assert!(r == 1 || r == 3);
    let r = t.insert_edge(0, 2);
    assert!(r == 0 || r == 2);
    assert!(t.query(0, 2));
    assert!(!t.query(0, 3));
}

#[test]
fn delete_edge_result_codes() {
    let mut t = IDTree::from_edges(4, &[(0, 1), (1, 2), (2, 0), (2, 3)]);
    assert_eq!(t.delete_edge(0, 3), -1);
    assert_eq!(t.delete_edge(0, 9), -1);
    assert_eq!(t.delete_edge(1, 1), -1);
    let r = t.delete_edge(2, 3);
    assert_eq!(r, 2);
    assert!(!t.query(2, 3));
    assert_eq!(t.delete_edge(2, 3), -1);
    let first = t.delete_edge(0, 1);
    assert!(first == 0 || first == 1);
    assert!(t.query(0, 1));
    let second = t.delete_edge(1, 2);
    assert_eq!(second, 2);
    assert!(!t.query(1, 2));
    assert!(t.query(0, 2));
    let third = t.delete_edge(2, 0);
    assert_eq!(third, 2);
    assert!(!t.query(0, 1));
}

#[test]
fn from_edges_and_reset() {
    let mut t = IDTree::from_edges(5, &[(0, 1), (1, 2), (3, 4)]);
    assert!(t.query(0, 2));
    assert!(t.query(3, 4));
    assert!(!t.query(2, 3));
    assert_eq!(sorted(t.neighbors(1)), vec![0, 2]);
    t.reset_all_edges();
    for i in 0..5 {
        assert!(t.is_isolated(i));
        assert_eq!(t.get_parent(i), usize::MAX);
    }
    assert!(!t.query(0, 1));
    t.reset_all_edges_to_edges(&[(0, 4), (4, 2)]);
    assert!(t.query(0, 2));
    assert!(!t.query(0, 1));
    let adj = adj_map(5, &[(1, 3)]);
    t.reset_all_edges_to_adj(&adj);
    assert!(t.query(1, 3));
    assert!(!t.query(0, 4));
}

#[test]
fn node_data_and_parents() {
    let t = IDTree::from_edges(3, &[(0, 1), (1, 2)]);
    let mut roots = 0;
    for i in 0..3 {
        let node = t.get_node_data(i);
        assert_eq!(node.parent, t.get_parent(i));
        if node.parent == usize::MAX {
            roots += 1;
            assert_eq!(node.subtree_size, 3);
        }
    }
    assert_eq!(roots, 1);
}

#[test]
fn neighbors_and_degree() {
    let mut t = IDTree::from_edges(4, &[(0, 1), (0, 2), (0, 3)]);
    assert_eq!(t.degree(0), 3);
    assert_eq!(sorted(t.neighbors(0)), vec![1, 2, 3]);
    let small = t.neighbors_smallvec(0);
    let mut listed: Vec<usize> = small.to_vec();
    listed.sort();
    assert_eq!(listed, vec![1, 2, 3]);
    assert_eq!(t.neighbors(2), vec![0]);
}

#[test]
fn isolate_node_removes_its_edges() {
    let mut t = IDTree::from_edges(4, &[(0, 1), (1, 2), (2, 3), (3, 0)]);
    t.isolate_node(1);
    assert!(t.is_isolated(1));
    assert!(!t.query(1, 0));
    assert!(t.query(0, 2));
    t.isolate_nodes(vec![0, 2]);
    assert!(t.is_isolated(0));
    assert!(t.is_isolated(2));
    assert!(t.is_isolated(3));
    assert_eq!(t.active_nodes_vec(), Vec::<usize>::new());
}

#[test]
fn active_nodes_in_every_form() {
    let mut t = IDTree::from_edges(6, &[(1, 2), (4, 5)]);
    assert_eq!(t.active_nodes_vec(), vec![1, 2, 4, 5]);
    let set = t.active_nodes_set();
    assert_eq!(sorted(set.into_iter().collect()), vec![1, 2, 4, 5]);
    let bits = t.active_nodes_bitset();
    assert_eq!(bits.len(), 6);
    assert_eq!(bits.ones().collect::<Vec<_>>(), vec![1, 2, 4, 5]);
    assert_eq!(t.retain_active_nodes_from(vec![5, 0, 2, 3]), vec![5, 2]);
}

#[test]
fn components_listed_once_each() {
    let mut t = IDTree::from_edges(7, &[(0, 1), (1, 2), (3, 4), (5, 6)]);
    assert_eq!(t.num_connected_components(), 3);
    let comps = t.connected_components();
    assert_eq!(comps.len(), 3);
    let mut all: Vec<Vec<usize>> = comps.into_iter().map(sorted).collect();
    all.sort();
    assert_eq!(all, vec![vec![0, 1, 2], vec![3, 4], vec![5, 6]]);
    assert_eq!(sorted(t.node_connected_component(4)), vec![3, 4]);
    let bits = t.node_connected_component_bitset(2);
    assert_eq!(bits.ones().collect::<Vec<_>>(), vec![0, 1, 2]);
    let lonely = IDTree::new(3).node_connected_component(1);
    assert_eq!(lonely, vec![1]);
}

#[test]
fn shortest_path_is_shortest() {
    let mut t = IDTree::from_edges(6, &[(0, 1), (1, 2), (2, 3), (3, 4), (0, 5), (5, 4)]);
    let p = t.shortest_path(0, 4).unwrap();
    assert_eq!(p.len(), 3);
    assert_eq!(p, vec![0, 5, 4]);
    assert_eq!(t.shortest_path(2, 2), Some(vec![2]));
    assert_eq!(t.shortest_path(0, 6), None);
    let q = t.shortest_path(1, 3).unwrap();
    assert_eq!(q, vec![1, 2, 3]);
    let back = t.shortest_path(3, 1).unwrap();
    assert_eq!(back.len(), q.len());
    let mut u = IDTree::from_edges(4, &[(0, 1), (2, 3)]);
    assert_eq!(u.shortest_path(0, 3), None);
}

#[test]
fn cycle_basis_of_two_cycles() {
    let edges = [(0, 1), (1, 2), (2, 0), (2, 3), (3, 4), (4, 2), (5, 6)];
    let mut t = IDTree::from_edges(7, &edges);
    assert!(t.cycle_basis(None).is_empty());
    let cycles = t.cycle_basis(Some(0));
    assert_eq!(cycles.len(), 2);
    for c in &cycles {
        let first = c[0];
        let last = *c.last().unwrap();
        assert!(first < last);
        assert!(t.neighbors(first).contains(&last));
        for w in c.windows(2) {
            assert!(t.get_parent(w[0]) == w[1] || t.get_parent(w[1]) == w[0]);
        }
        let mut s = c.clone();
        s.sort();
        s.dedup();
        assert_eq!(s.len(), c.len());
        assert_eq!(c.len(), 3);
    }
    assert!(t.cycle_basis(Some(5)).is_empty());
}

#[test]
fn betweenness_pairwise_counts_path_nodes() {
    let mut t = IDTree::from_edges(5, &[(0, 1), (1, 2), (2, 3), (3, 4)]);
    let cands = [(1, 0), (3, 0), (4, 0)];
    let mut terms: RapidHashSet<(usize, usize)> = RapidHashSet::default();
    terms.insert((2, 0));
    let towns: IntSet<usize> = IntSet::default();
    let r = t.compute_subset_betweenness(&cands, &terms, &towns, None);
    assert_eq!(r.len(), 3);
    assert_eq!(r[&1], 1);
    assert_eq!(r[&3], 0);
    assert_eq!(r[&4], 0);
}

#[test]
fn betweenness_with_super_root_walks_to_towns() {
    let mut t = IDTree::from_edges(5, &[(0, 1), (1, 2), (2, 3), (3, 4)]);
    let cands = [(2, 0), (3, 0)];
    let mut terms: RapidHashSet<(usize, usize)> = RapidHashSet::default();
    terms.insert((1, 9));
    let mut towns: IntSet<usize> = IntSet::default();
    towns.insert(4);
    towns.insert(0);
    let r = t.compute_subset_betweenness(&cands, &terms, &towns, Some(9));
    assert_eq!(r[&2], 1);
    assert_eq!(r[&3], 1);
}

#[test]
fn betweenness_grouped_candidate_centric() {
    let mut t = IDTree::from_edges(6, &[(0, 1), (1, 2), (2, 3), (0, 4), (4, 5)]);
    let cands = [(1, 0)];
    let mut terms: RapidHashSet<(usize, usize)> = RapidHashSet::default();
    terms.insert((2, 0));
    terms.insert((3, 0));
    terms.insert((5, 0));
    let towns: IntSet<usize> = IntSet::default();
    let r = t.compute_subset_betweenness(&cands, &terms, &towns, None);
    assert_eq!(r.len(), 1);
    assert_eq!(r[&1], 2);
}

#[test]
fn betweenness_grouped_skips_super_root_pairs() {
    let mut t = IDTree::from_edges(6, &[(0, 1), (1, 2), (2, 3), (3, 4), (4, 5)]);
    let cands = [(2, 0)];
    let mut terms: RapidHashSet<(usize, usize)> = RapidHashSet::default();
    terms.insert((3, 0));
    terms.insert((4, 0));
    terms.insert((5, 0));
    terms.insert((1, 5));
    let towns: IntSet<usize> = IntSet::default();
    let r = t.compute_subset_betweenness(&cands, &terms, &towns, Some(5));
    assert_eq!(r[&2], 3);
    let r = t.compute_subset_betweenness(&cands, &terms, &towns, None);
    assert_eq!(r[&2], 4);
}

#[test]
fn betweenness_without_terminals_is_zero() {
    let mut t = IDTree::from_edges(3, &[(0, 1)]);
    let cands = [(0, 0), (2, 1)];
    let terms: RapidHashSet<(usize, usize)> = RapidHashSet::default();
    let towns: IntSet<usize> = IntSet::default();
    let r = t.compute_subset_betweenness(&cands, &terms, &towns, None);
    assert_eq!(r.len(), 2);
    assert_eq!(r[&0], 0);
    assert_eq!(r[&2], 0);
}

#[test]
fn delete_after_insert_restores_lists() {
    let mut t = IDTree::from_edges(5, &[(0, 1), (1, 2), (2, 3)]);
    let before: Vec<Vec<usize>> = (0..5).map(|i| t.neighbors(i)).collect();
    let r = t.insert_edge(1, 4);
    assert!(r >= 0);
    assert!(t.query(4, 0));
    let r = t.delete_edge(1, 4);
    assert!(r >= 0);
    let after: Vec<Vec<usize>> = (0..5).map(|i| t.neighbors(i)).collect();
    assert_eq!(before, after);
    assert!(!t.query(4, 0));
}

#[test]
fn query_is_symmetric_and_transitive() {
    let t = IDTree::from_edges(6, &[(0, 1), (1, 2), (3, 4)]);
    for a in 0..6 {
        assert!(t.query(a, a));
        for b in 0..6 {
            assert_eq!(t.query(a, b), t.query(b, a));
            for c in 0..6 {
                if t.query(a, b) && t.query(b, c) {
                    assert!(t.query(a, c));
                }
            }
        }
    }
}

#[test]
fn clone_keeps_the_graph() {
    let mut t = IDTree::from_edges(4, &[(0, 1), (2, 3)]);
    let mut c = t.clone();
    for i in 0..4 {
        assert_eq!(c.neighbors(i), t.neighbors(i));
        assert_eq!(c.get_parent(i), t.get_parent(i));
    }
    c.insert_edge(1, 2);
    assert!(c.query(0, 3));
    assert!(!t.query(0, 3));
}

#[test]
fn random_operations_match_reachability() {
    let n = 30;
    let mut rng = StdRng::seed_from_u64(7);
    let mut edges: Vec<(usize, usize)> = Vec::new();
    let mut t = IDTree::new(n);
    for _ in 0..400 {
        let u = rng.random_range(0..n);
        let v = rng.random_range(0..n);
        if rng.random_range(0..2) == 0 {
            let present = edges.contains(&(u, v)) || edges.contains(&(v, u));
            let r = t.insert_edge(u, v);
            if u == v || present {
                assert_eq!(r, -1);
            } else {
                assert!(r >= 0);
                edges.push((u, v));
            }
        } else {
            let pos = edges.iter().position(|&e| e == (u, v) || e == (v, u));
            let r = t.delete_edge(u, v);
            match pos {
                Some(i) if u != v => {
                    assert!(r >= 0);
                    edges.remove(i);
                    if r == 2 {
                        assert!(!reachable(n, &edges, u, v));
                    }
                    if r == 1 {
                        assert!(reachable(n, &edges, u, v));
                    }
                }
                _ => assert_eq!(r, -1),
            }
        }
        for _ in 0..5 {
            let a = rng.random_range(0..n);
            let b = rng.random_range(0..n);
            assert_eq!(t.query(a, b), reachable(n, &edges, a, b));
        }
    }
}

#[test]
fn betweenness_grouped_ignores_roots_that_do_not_reach() {
    let mut t = IDTree::from_edges(5, &[(0, 1), (1, 2), (3, 4)]);
    let cands = [(1, 0)];
    let mut terms: RapidHashSet<(usize, usize)> = RapidHashSet::default();
    terms.insert((2, 0));
    terms.insert((2, 3));
    terms.insert((4, 3));
    terms.insert((1, 3));
    let towns: IntSet<usize> = IntSet::default();
    let r = t.compute_subset_betweenness(&cands, &terms, &towns, None);
    assert_eq!(r.len(), 1);
    assert_eq!(r[&1], 1);
}

#[test]
fn insert_hangs_smaller_tree_under_larger() {
    let mut t = IDTree::new(4);
    assert_eq!(t.insert_edge(0, 1), 1);
    assert_eq!(t.get_parent(0), 1);
    assert_eq!(t.get_parent(1), usize::MAX);
    assert_eq!(t.insert_edge(2, 3), 1);
    assert_eq!(t.get_parent(2), 3);
    assert_eq!(t.insert_edge(1, 3), 1);
    assert_eq!(t.get_parent(1), 3);
    assert_eq!(t.get_parent(3), usize::MAX);
    assert_eq!(t.get_node_data(3).subtree_size, 4);
}

#[test]
fn insert_reroots_at_centroid() {
    let mut t = IDTree::new(3);
    assert_eq!(t.insert_edge(0, 1), 1);
    assert_eq!(t.insert_edge(2, 0), 3);
    assert_eq!(t.get_parent(0), usize::MAX);
    assert_eq!(t.get_parent(1), 0);
    assert_eq!(t.get_parent(2), 0);
    assert_eq!(t.get_node_data(0).subtree_size, 3);
    assert_eq!(t.get_node_data(1).subtree_size, 1);
}

#[test]
fn delete_non_tree_edge_keeps_forest() {
    let mut t = IDTree::from_edges(3, &[(0, 1), (1, 2), (0, 2)]);
    let parents: Vec<usize> = (0..3).map(|x| t.get_parent(x)).collect();
    let mut non_tree = None;
    for &(a, b) in &[(0usize, 1usize), (1, 2), (0, 2)] {
        if parents[a] != b && parents[b] != a {
            non_tree = Some((a, b));
        }
    }
    let (a, b) = non_tree.unwrap();
    assert_eq!(t.delete_edge(a, b), 0);
    for x in 0..3 {
        assert_eq!(t.get_parent(x), parents[x]);
    }
    assert!(t.query(a, b));
}

fn check_subtree_sizes(t: &IDTree, n: usize) {
    let mut count = vec![0i32; n];
    for x in 0..n {
        let mut w = x;
        let mut steps = 0;
        while w != usize::MAX {
            count[w] += 1;
            w = t.get_parent(w);
            steps += 1;
            assert!(steps <= n);
        }
    }
    for w in 0..n {
        assert_eq!(t.get_node_data(w).subtree_size, count[w]);
    }
}

#[test]
fn subtree_sizes_count_descendants_after_every_operation() {
    let n = 25;
    let mut rng = StdRng::seed_from_u64(11);
    let mut t = IDTree::from_edges(n, &[(0, 1), (1, 2), (2, 3), (0, 3), (5, 6), (6, 7)]);
    check_subtree_sizes(&t, n);
    for _ in 0..300 {
        let u = rng.random_range(0..n);
        let v = rng.random_range(0..n);
        if rng.random_range(0..3) == 0 {
            t.delete_edge(u, v);
        } else {
            t.insert_edge(u, v);
        }
        check_subtree_sizes(&t, n);
    }
    t.isolate_node(3);
    check_subtree_sizes(&t, n);
    t.reset_all_edges_to_edges(&[(0, 1), (1, 2), (3, 4)]);
    check_subtree_sizes(&t, n);
}

#[test]
fn shortest_path_follows_neighbor_order() {
    let mut t = IDTree::from_edges(4, &[(0, 1), (1, 2), (2, 3), (0, 3)]);
    assert_eq!(t.shortest_path(0, 3), Some(vec![0, 3]));
    assert_eq!(t.shortest_path(0, 2), Some(vec![0, 1, 2]));
    assert_eq!(t.shortest_path(2, 0), Some(vec![2, 1, 0]));
}

#[test]
fn loops_are_never_added() {
    let mut t = IDTree::from_edges(4, &[(0, 1), (1, 2)]);
    assert_eq!(t.insert_edge(2, 2), -1);
    assert_eq!(t.insert_edge(2, 3), 1);
    t.delete_edge(0, 1);
    for x in 0..4 {
        assert!(!t.neighbors(x).contains(&x));
    }
}

#[test]
fn insert_joins_exactly_the_two_components() {
    let mut t = IDTree::from_edges(6, &[(0, 1), (2, 3), (4, 5)]);
    assert!(!t.query(1, 2));
    let r = t.insert_edge(1, 2);
    assert!(r == 1 || r == 3);
    for a in 0..6 {
        for b in 0..6 {
            let before = (a / 2) == (b / 2);
            let left = |x: usize| x <= 1;
            let right = |x: usize| x == 2 || x == 3;
            let expected = before || (left(a) && right(b)) || (right(a) && left(b));
            assert_eq!(t.query(a, b), expected);
        }
    }
}

#[test]
fn listed_components_share_no_node() {
    let mut t = IDTree::from_edges(7, &[(0, 1), (1, 2), (3, 4), (5, 6), (6, 5)]);
    let comps = t.connected_components();
    assert_eq!(comps.len(), 3);
    for i in 0..comps.len() {
        for j in 0..comps.len() {
            if i != j {
                for x in &comps[i] {
                    assert!(!comps[j].contains(x));
                }
            }
        }
    }
}

fn check_roots_are_centroids(t: &IDTree, n: usize) {
    for c in 0..n {
        let p = t.get_parent(c);
        if p != usize::MAX && t.get_parent(p) == usize::MAX {
            assert!(2 * t.get_node_data(c).subtree_size <= t.get_node_data(p).subtree_size);
        }
    }
}

#[test]
fn setup_roots_every_tree_at_a_centroid() {
    let t = IDTree::from_edges(5, &[(0, 1), (1, 2), (2, 3), (3, 4)]);
    assert_eq!(t.get_parent(2), usize::MAX);
    check_roots_are_centroids(&t, 5);
    let n = 40;
    let mut rng = StdRng::seed_from_u64(5);
    let mut edges: Vec<(usize, usize)> = Vec::new();
    for _ in 0..45 {
        let u = rng.random_range(0..n);
        let v = rng.random_range(0..n);
        if u != v {
            edges.push((u, v));
        }
    }
    let mut t = IDTree::from_edges(n, &edges);
    check_roots_are_centroids(&t, n);
    check_subtree_sizes(&t, n);
    t.reset_all_edges_to_edges(&edges[..20]);
    check_roots_are_centroids(&t, n);
    let u = IDTree::from_adj(&adj_map(n, &edges));
    check_roots_are_centroids(&u, n);
}

#[test]
fn cycle_basis_of_a_triangle_is_opened_at_its_smaller_end() {
    let mut t = IDTree::from_edges(3, &[(0, 1), (1, 2), (0, 2)]);
    assert_eq!(t.cycle_basis(Some(0)), vec![vec![1, 0, 2]]);
}

#[test]
fn from_edges_builds_the_breadth_first_forest() {
    let mut t = IDTree::from_edges(4, &[(0, 1), (1, 2), (2, 3), (0, 3)]);
    assert_eq!(t.get_parent(0), usize::MAX);
    assert_eq!(t.get_parent(1), 0);
    assert_eq!(t.get_parent(3), 0);
    assert_eq!(t.get_parent(2), 1);
    assert_eq!(t.delete_edge(1, 2), 1);
    assert!(t.query(1, 2));
}

#[test]
fn delete_with_replacement_hangs_the_smaller_part() {
    let mut t = IDTree::from_edges(4, &[(0, 1), (1, 2), (2, 3), (0, 3)]);
    assert_eq!(t.delete_edge(1, 2), 1);
    assert_eq!(t.get_parent(0), usize::MAX);
    assert_eq!(t.get_parent(1), 0);
    assert_eq!(t.get_parent(3), 0);
    assert_eq!(t.get_parent(2), 3);
    assert_eq!(t.get_node_data(3).subtree_size, 2);
}

#[test]
fn betweenness_strategies_agree_on_a_tree() {
    let edges: Vec<(usize, usize)> = (0..7).map(|i| (i, i + 1)).collect();
    let mut t = IDTree::from_edges(8, &edges);
    let mut terms: RapidHashSet<(usize, usize)> = RapidHashSet::default();
    terms.insert((7, 0));
    terms.insert((5, 0));
    terms.insert((6, 2));
    let towns: IntSet<usize> = IntSet::default();
    let through = |c: usize| {
        terms
            .iter()
            .filter(|&&(a, b)| a.min(b) <= c && c <= a.max(b))
            .count()
    };
    let all: Vec<(usize, usize)> = (0..8).map(|c| (c, 0)).collect();
    let per_pair = t.compute_subset_betweenness(&all, &terms, &towns, None);
    for c in 0..8 {
        assert_eq!(per_pair[&c], through(c));
    }
    let one = [(3, 0)];
    let grouped = t.compute_subset_betweenness(&one, &terms, &towns, None);
    assert_eq!(grouped[&3], through(3));
    assert_eq!(grouped[&3], per_pair[&3]);
}
