use vnstudio::chunk_neighbors::build_neighbor_indices;

#[test]
fn neighbor_indices_follow_top_left_right_bottom_order() {
    let coords = vec![(0, 0), (0, -1), (-1, 0), (1, 0), (0, 1)];

    assert_eq!(
        build_neighbor_indices(&coords),
        vec![
            1, 2, 3, 4, // (0, 0)
            -1, -1, -1, 0, // (0, -1)
            -1, -1, 0, -1, // (-1, 0)
            -1, 0, -1, -1, // (1, 0)
            0, -1, -1, -1, // (0, 1)
        ]
    );
}

#[test]
fn missing_neighbors_are_minus_one() {
    assert_eq!(build_neighbor_indices(&[(5, 5)]), vec![-1, -1, -1, -1]);
    assert_eq!(build_neighbor_indices(&[]), Vec::<i32>::new());
}

#[test]
fn a_repeated_chunk_refers_to_its_last_position() {
    let coords = vec![(0, 0), (0, 1), (0, 1)];
    assert_eq!(
        build_neighbor_indices(&coords),
        vec![-1, -1, -1, 2, 0, -1, -1, -1, 0, -1, -1, -1]
    );
}
