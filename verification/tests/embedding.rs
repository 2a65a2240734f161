use wifi_densepose_cathedral::embedding::fiedler_vector;

fn names(list: &[&str]) -> Vec<String> {
    list.iter().map(|s| s.to_string()).collect()
}

#[test]
fn fiedler_vector_reads_first_coordinates() {
    let locations = names(&["a", "b", "c"]);
    let embedding = vec![vec![-0.5, 9.0], vec![0.25], vec![]];
    let fv = fiedler_vector(&locations, 3, &embedding, 0.0);
    assert_eq!(
        fv,
        vec![("a".to_string(), -0.5), ("b".to_string(), 0.25), ("c".to_string(), 0.0)]
    );
}

#[test]
fn fiedler_vector_is_zero_for_one_location() {
    let locations = names(&["only_room"]);
    let embedding = vec![vec![0.7]];
    assert_eq!(fiedler_vector(&locations, 1, &embedding, 0.0), vec![("only_room".to_string(), 0.0)]);
}

#[test]
fn fiedler_vector_is_zero_when_rows_do_not_match_nodes() {
    let locations = names(&["a", "b"]);
    let embedding = vec![vec![0.7]];
    assert_eq!(
        fiedler_vector(&locations, 2, &embedding, 0.0),
        vec![("a".to_string(), 0.0), ("b".to_string(), 0.0)]
    );
}
