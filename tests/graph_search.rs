use bfs::graph::Graph;

fn graph_from(size: usize, edges: &[(usize, usize)]) -> Graph {
    let mut g = Graph::new(size);
    for &(a, b) in edges {
        g.add_edge(a, b);
    }
    g
}

#[test]
fn new_graph_has_empty_lists() {
    let g = Graph::new(4);
    assert_eq!(g.size, 4);
    assert_eq!(g.adj.len(), 4);
    assert!(g.adj.iter().all(|l| l.is_empty()));
}

#[test]
fn add_edge_is_symmetric() {
    let g = graph_from(3, &[(0, 1), (2, 1)]);
    assert_eq!(g.adj[0], vec![1]);
    assert_eq!(g.adj[1], vec![0, 2]);
    assert_eq!(g.adj[2], vec![1]);
}

#[test]
fn add_edge_does_not_dedup() {
    let g = graph_from(2, &[(0, 1), (1, 0)]);
    assert_eq!(g.adj[0], vec![1, 1]);
    assert_eq!(g.adj[1], vec![0, 0]);
}

#[test]
fn bfs_same_node_is_single_node_path() {
    let g = graph_from(3, &[(0, 1), (1, 2)]);
    for s in 0..3 {
        assert_eq!(g.bfs(s, s), Some(vec![s]));
    }
    let lonely = Graph::new(1);
    assert_eq!(lonely.bfs(0, 0), Some(vec![0]));
}

#[test]
fn bfs_line_of_three() {
    let g = graph_from(3, &[(0, 1), (1, 2)]);
    assert_eq!(g.bfs(0, 2), Some(vec![0, 1, 2]));
    assert_eq!(g.bfs(2, 0), Some(vec![2, 1, 0]));
}

#[test]
fn bfs_no_path_between_components() {
    let g = graph_from(6, &[(0, 1), (1, 2), (3, 4), (4, 5)]);
    assert_eq!(g.bfs(0, 5), None);
    assert_eq!(g.bfs(4, 2), None);
    assert_eq!(g.bfs(3, 5), Some(vec![3, 4, 5]));
}

#[test]
fn bfs_isolated_node_is_unreachable() {
    let g = graph_from(3, &[(0, 1)]);
    assert_eq!(g.bfs(0, 2), None);
}

#[test]
fn bfs_takes_the_shortcut() {
    // a long way 0-1-2-3-4 and a short one 0-5-4
    let g = graph_from(6, &[(0, 1), (1, 2), (2, 3), (3, 4), (0, 5), (5, 4)]);
    assert_eq!(g.bfs(0, 4), Some(vec![0, 5, 4]));
}

#[test]
fn bfs_ties_follow_neighbour_order() {
    let g = graph_from(4, &[(0, 1), (0, 2), (1, 3), (2, 3)]);
    assert_eq!(g.bfs(0, 3), Some(vec![0, 1, 3]));
}

fn all_pairs_distances(g: &Graph) -> Vec<Vec<Option<usize>>> {
    let n = g.size;
    let mut d: Vec<Vec<Option<usize>>> = vec![vec![None; n]; n];
    for a in 0..n {
        d[a][a] = Some(0);
        for &b in &g.adj[a] {
            if a != b {
                d[a][b] = Some(1);
            }
        }
    }
    for k in 0..n {
        for i in 0..n {
            for j in 0..n {
                if let (Some(x), Some(y)) = (d[i][k], d[k][j]) {
                    if d[i][j].map_or(true, |z| x + y < z) {
                        d[i][j] = Some(x + y);
                    }
                }
            }
        }
    }
    d
}

fn check_path(g: &Graph, p: &[usize], s: usize, t: usize) {
    assert_eq!(p[0], s);
    assert_eq!(*p.last().unwrap(), t);
    for w in p.windows(2) {
        assert!(g.adj[w[0]].contains(&w[1]));
    }
}

#[test]
fn bfs_lengths_match_all_pairs_distances() {
    let mut rng = fastrand::Rng::with_seed(7);
    for round in 0..30 {
        let n = 2 + round % 19;
        let mut g = Graph::new(n);
        let m = rng.usize(0..2 * n);
        for _ in 0..m {
            let a = rng.usize(0..n);
            let b = rng.usize(0..n);
            if a != b {
                g.add_edge(a, b);
            }
        }
        let d = all_pairs_distances(&g);
        for s in 0..n {
            for t in 0..n {
                match (g.bfs(s, t), d[s][t]) {
                    (Some(p), Some(k)) => {
                        assert_eq!(p.len(), k + 1);
                        check_path(&g, &p, s, t);
                    }
                    (None, None) => {}
                    (r, e) => panic!("bfs {:?} but distance {:?} for {} -> {}", r, e, s, t),
                }
            }
        }
    }
}

#[test]
fn bfs_ties_on_a_cycle_follow_list_order() {
    let g = Graph { size: 4, adj: vec![vec![1, 3], vec![0, 2], vec![1, 3], vec![2, 0]] };
    assert_eq!(g.bfs(0, 3), Some(vec![0, 3]));
    assert_eq!(g.bfs(0, 2), Some(vec![0, 1, 2]));
}

#[test]
fn bfs_ties_on_a_square_take_first_discovered_parent() {
    let g = Graph { size: 4, adj: vec![vec![1, 2], vec![0, 3], vec![0, 3], vec![1, 2]] };
    assert_eq!(g.bfs(0, 3), Some(vec![0, 1, 3]));
    let h = Graph { size: 4, adj: vec![vec![2, 1], vec![0, 3], vec![0, 3], vec![2, 1]] };
    assert_eq!(h.bfs(0, 3), Some(vec![0, 2, 3]));
}
