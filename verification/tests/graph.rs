use wglib::graph::{hops, neighs, shortest_path};

fn matrix(l: usize, edges: &[(usize, usize)]) -> Vec<bool> {
    let mut adj = vec![false; l * l];
    for &(u, v) in edges {
        adj[l * u + v] = true;
    }
    adj
}

#[test]
fn neighs_lists_the_row() {
    let adj = matrix(4, &[(1, 3), (1, 0), (2, 2)]);
    assert_eq!(neighs(&adj, 4, 0), Vec::<usize>::new());
    assert_eq!(neighs(&adj, 4, 1), vec![0, 3]);
    assert_eq!(neighs(&adj, 4, 2), vec![2]);
}

#[test]
fn shortest_path_takes_the_fewest_hops() {
    let adj = matrix(6, &[(0, 1), (1, 2), (2, 5), (0, 3), (3, 4), (4, 2)]);
    assert_eq!(shortest_path(&adj, 6, 0, 5), Some(vec![0, 1, 2, 5]));
    assert_eq!(shortest_path(&adj, 6, 3, 5), Some(vec![3, 4, 2, 5]));
    assert_eq!(shortest_path(&adj, 6, 0, 4), Some(vec![0, 3, 4]));
}

#[test]
fn shortest_path_from_a_node_to_itself() {
    let adj = matrix(3, &[(0, 1), (1, 0)]);
    assert_eq!(shortest_path(&adj, 3, 0, 0), Some(vec![0]));
    assert_eq!(shortest_path(&adj, 3, 2, 2), Some(vec![2]));
}

#[test]
fn shortest_path_follows_the_direction_of_edges() {
    let adj = matrix(3, &[(0, 1), (1, 2)]);
    assert_eq!(shortest_path(&adj, 3, 0, 2), Some(vec![0, 1, 2]));
    assert_eq!(shortest_path(&adj, 3, 2, 0), None);
}

#[test]
fn shortest_path_prefers_the_direct_edge() {
    let adj = matrix(4, &[(0, 1), (1, 2), (2, 3), (0, 3)]);
    assert_eq!(shortest_path(&adj, 4, 0, 3), Some(vec![0, 3]));
}

#[test]
fn shortest_path_among_equal_routes() {
    let adj = matrix(4, &[(0, 1), (0, 2), (1, 3), (2, 3)]);
    let p = shortest_path(&adj, 4, 0, 3).unwrap();
    assert_eq!(p.len(), 3);
    assert_eq!(p[0], 0);
    assert_eq!(p[2], 3);
    assert!(adj[4 * p[0] + p[1]] && adj[4 * p[1] + p[2]]);
}

#[test]
fn shortest_path_wants_nodes_and_a_square() {
    let adj = matrix(3, &[(0, 1)]);
    assert_eq!(shortest_path(&adj, 3, 3, 0), None);
    assert_eq!(shortest_path(&adj, 3, 0, 3), None);
    assert_eq!(shortest_path(&adj, 2, 0, 1), None);
    assert_eq!(shortest_path(&adj, 4, 0, 1), None);
    assert_eq!(shortest_path(&Vec::new(), 0, 0, 0), None);
    assert_eq!(shortest_path(&adj, usize::MAX, 0, 1), None);
}

#[test]
fn shortest_path_in_a_ring() {
    let l = 50;
    let edges: Vec<(usize, usize)> = (0..l).map(|i| (i, (i + 1) % l)).collect();
    let adj = matrix(l, &edges);
    let p = shortest_path(&adj, l, 10, 9).unwrap();
    assert_eq!(p.len(), 50);
    assert_eq!(p[0], 10);
    assert_eq!(p[49], 9);
}

#[test]
fn hops_counts_from_the_origin() {
    let adj = matrix(6, &[(0, 1), (1, 2), (2, 5), (0, 3), (3, 4), (4, 2)]);
    assert_eq!(hops(&adj, 6, 0), vec![Some(0), Some(1), Some(2), Some(1), Some(2), Some(3)]);
    assert_eq!(hops(&adj, 6, 4), vec![None, None, Some(1), None, Some(0), Some(2)]);
    assert_eq!(hops(&adj, 6, 5), vec![None, None, None, None, None, Some(0)]);
}
