use wifi_densepose_cathedral::matrix::symmetric_matrix;

#[test]
fn matrix_mirrors_the_upper_triangle() {
    let m = symmetric_matrix(3, |i: usize, j: usize| (i * 10 + j) as i64);
    assert_eq!(m, vec![vec![0, 1, 2], vec![1, 11, 12], vec![2, 12, 22]]);
}

#[test]
fn matrix_asks_each_upper_pair_once_in_row_order() {
    let asked = std::cell::RefCell::new(Vec::new());
    let m = symmetric_matrix(3, |i: usize, j: usize| {
        asked.borrow_mut().push((i, j));
        1u8
    });
    assert_eq!(m.len(), 3);
    assert_eq!(asked.into_inner(), vec![(0, 0), (0, 1), (0, 2), (1, 1), (1, 2), (2, 2)]);
}

#[test]
fn empty_matrix() {
    let m = symmetric_matrix(0, |_: usize, _: usize| 0.5f64);
    assert!(m.is_empty());
}

#[test]
fn correlation_style_matrix_is_symmetric() {
    let series = vec![
        vec![1.0, 2.0, 3.0, 4.0, 5.0],
        vec![1.0, 2.0, 4.0, 4.0, 5.0],
        vec![5.0, 4.0, 3.0, 2.0, 1.0],
    ];
    // Dot product as a stand-in pairwise score.
    let m = symmetric_matrix(3, |i: usize, j: usize| {
        series[i].iter().zip(&series[j]).map(|(a, b)| a * b).sum::<f64>()
    });
    for i in 0..3 {
        for j in 0..3 {
            assert_eq!(m[i][j], m[j][i]);
        }
    }
    assert_eq!(m[0][0], 55.0);
    assert_eq!(m[0][2], 35.0);
}
