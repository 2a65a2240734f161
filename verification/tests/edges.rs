use wifi_densepose_cathedral::report::location_pair_count;
use cathedral_probe::CathedralProbe;
use wifi_densepose_cathedral::edges::spatial_edges;
use wifi_densepose_cathedral::probe::location_probe;

fn positive_pairs(matrix: &[Vec<f64>]) -> Vec<(usize, usize)> {
    spatial_edges(matrix.len(), |i: usize, j: usize| matrix[i][j] > 0.0)
}

fn names(list: &[&str]) -> Vec<String> {
    list.iter().map(|s| s.to_string()).collect()
}

#[test]
fn test_build_spatial_graph() {
    let locations = names(&["a", "b", "c"]);
    let correlations = vec![
        vec![1.0, 0.5, 0.2],
        vec![0.5, 1.0, 0.8],
        vec![0.2, 0.8, 1.0],
    ];
    let mut g: CathedralProbe = location_probe(&locations);
    for (i, j) in positive_pairs(&correlations) {
        g.connect(&locations[i], &locations[j], correlations[i][j]);
    }
    assert_eq!(g.node_count(), 3);
    assert_eq!(g.edge_count(), 3);
}

#[test]
fn edges_are_the_upper_triangle_in_row_major_order() {
    let correlations = vec![
        vec![1.0, 0.5, 0.2],
        vec![0.5, 1.0, 0.8],
        vec![0.2, 0.8, 1.0],
    ];
    assert_eq!(positive_pairs(&correlations), vec![(0, 1), (0, 2), (1, 2)]);
}

#[test]
fn zero_and_negative_correlations_make_no_edge() {
    let disconnected = vec![vec![1.0, 0.0], vec![0.0, 1.0]];
    assert!(positive_pairs(&disconnected).is_empty());
    let anti = vec![vec![1.0, -0.9, 0.3], vec![-0.9, 1.0, 0.0], vec![0.3, 0.0, 1.0]];
    assert_eq!(positive_pairs(&anti), vec![(0, 2)]);
}

#[test]
fn lower_triangle_and_diagonal_are_never_read() {
    // Only the entry above the diagonal decides; the one below is ignored.
    let asymmetric = vec![vec![5.0, 0.0, 0.7], vec![0.9, 5.0, 0.0], vec![-1.0, 0.4, 5.0]];
    assert_eq!(positive_pairs(&asymmetric), vec![(0, 2)]);
    let mut asked: Vec<(usize, usize)> = Vec::new();
    let cell = std::cell::RefCell::new(&mut asked);
    let _ = spatial_edges(4, |i: usize, j: usize| {
        cell.borrow_mut().push((i, j));
        true
    });
    assert_eq!(asked, vec![(0, 1), (0, 2), (0, 3), (1, 2), (1, 3), (2, 3)]);
}

#[test]
fn tiny_graphs_have_no_edges() {
    assert!(spatial_edges(0, |_: usize, _: usize| true).is_empty());
    assert!(spatial_edges(1, |_: usize, _: usize| true).is_empty());
    assert_eq!(spatial_edges(2, |_: usize, _: usize| true), vec![(0, 1)]);
}

#[test]
fn location_probe_keeps_names_in_order() {
    let locations = names(&["living_room", "bedroom", "kitchen"]);
    let g = location_probe(&locations);
    assert_eq!(g.node_count(), 3);
    assert_eq!(g.components(), &locations[..]);
    assert_eq!(g.edge_count(), 0);
    let empty = location_probe(&Vec::new());
    assert_eq!(empty.node_count(), 0);
}

#[test]
fn fully_correlated_rooms_reach_the_pair_count() {
    let n = 6;
    let all = spatial_edges(n, |_: usize, _: usize| true);
    assert_eq!(all.len(), location_pair_count(n));
    let some = spatial_edges(n, |i: usize, j: usize| (i + j) % 2 == 0);
    assert!(some.len() <= location_pair_count(n));
}

#[test]
fn matrices_agreeing_above_the_diagonal_give_the_same_edges() {
    let a = vec![vec![1.0, 0.4, 0.0], vec![0.4, 1.0, -0.3], vec![0.0, -0.3, 1.0]];
    let b = vec![vec![-7.0, 0.9, -1.0], vec![3.0, 0.0, 0.0], vec![8.0, 8.0, 8.0]];
    assert_eq!(positive_pairs(&a), positive_pairs(&b));
    assert_eq!(positive_pairs(&a), vec![(0, 1)]);
}
