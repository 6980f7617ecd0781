use chaotic::Dimensions;

#[test]
fn test_dimension_pos_to_index() {
    // Test 1D case
    let dims_1d = Dimensions::new(vec![5]);
    assert_eq!(dims_1d.pos_to_index(&[0]), 0);
    assert_eq!(dims_1d.pos_to_index(&[1]), 1);
    assert_eq!(dims_1d.pos_to_index(&[4]), 4);

    // Test 2D case
    let dims_2d = Dimensions::new(vec![3, 4]);
    assert_eq!(dims_2d.pos_to_index(&[0, 0]), 0);
    assert_eq!(dims_2d.pos_to_index(&[1, 0]), 1);
    assert_eq!(dims_2d.pos_to_index(&[2, 0]), 2);
    assert_eq!(dims_2d.pos_to_index(&[0, 1]), 3);
    assert_eq!(dims_2d.pos_to_index(&[1, 1]), 4);
    assert_eq!(dims_2d.pos_to_index(&[2, 1]), 5);
    assert_eq!(dims_2d.pos_to_index(&[0, 2]), 6);
    assert_eq!(dims_2d.pos_to_index(&[2, 3]), 11);

    // Test 3D case
    let dims_3d = Dimensions::new(vec![2, 3, 4]);
    assert_eq!(dims_3d.pos_to_index(&[0, 0, 0]), 0);
    assert_eq!(dims_3d.pos_to_index(&[1, 0, 0]), 1);
    assert_eq!(dims_3d.pos_to_index(&[0, 1, 0]), 2);
    assert_eq!(dims_3d.pos_to_index(&[1, 1, 0]), 3);
    assert_eq!(dims_3d.pos_to_index(&[0, 2, 0]), 4);
    assert_eq!(dims_3d.pos_to_index(&[1, 2, 0]), 5);
    assert_eq!(dims_3d.pos_to_index(&[0, 0, 1]), 6);
    assert_eq!(dims_3d.pos_to_index(&[1, 2, 3]), 23);
}

#[test]
fn test_dimension_index_to_pos() {
    // Test 1D case
    let dims_1d = Dimensions::new(vec![5]);
    assert_eq!(dims_1d.index_to_pos(0), vec![0]);
    assert_eq!(dims_1d.index_to_pos(1), vec![1]);
    assert_eq!(dims_1d.index_to_pos(4), vec![4]);

    // Test 2D case
    let dims_2d = Dimensions::new(vec![3, 4]);
    assert_eq!(dims_2d.index_to_pos(0), vec![0, 0]);
    assert_eq!(dims_2d.index_to_pos(1), vec![1, 0]);
    assert_eq!(dims_2d.index_to_pos(2), vec![2, 0]);
    assert_eq!(dims_2d.index_to_pos(3), vec![0, 1]);
    assert_eq!(dims_2d.index_to_pos(4), vec![1, 1]);
    assert_eq!(dims_2d.index_to_pos(5), vec![2, 1]);
    assert_eq!(dims_2d.index_to_pos(6), vec![0, 2]);
    assert_eq!(dims_2d.index_to_pos(11), vec![2, 3]);

    // Test 3D case
    let dims_3d = Dimensions::new(vec![2, 3, 4]);
    assert_eq!(dims_3d.index_to_pos(0), vec![0, 0, 0]);
    assert_eq!(dims_3d.index_to_pos(1), vec![1, 0, 0]);
    assert_eq!(dims_3d.index_to_pos(2), vec![0, 1, 0]);
    assert_eq!(dims_3d.index_to_pos(3), vec![1, 1, 0]);
    assert_eq!(dims_3d.index_to_pos(4), vec![0, 2, 0]);
    assert_eq!(dims_3d.index_to_pos(5), vec![1, 2, 0]);
    assert_eq!(dims_3d.index_to_pos(6), vec![0, 0, 1]);
    assert_eq!(dims_3d.index_to_pos(23), vec![1, 2, 3]);
}

#[test]
fn test_roundtrip_conversion() {
    // Test that index_to_pos and pos_to_index are inverse operations
    let dims = Dimensions::new(vec![3, 4, 5]);

    // Test all indices in the valid range
    for index in 0..dims.volume() {
        let pos = dims.index_to_pos(index);
        let converted_back = dims.pos_to_index(&pos);
        assert_eq!(index, converted_back, "Roundtrip failed for index {}", index);
    }

    // Test some specific positions
    let test_positions = vec![
        vec![0, 0, 0],
        vec![1, 2, 3],
        vec![2, 3, 4],
        vec![0, 1, 2],
        vec![2, 0, 4],
    ];

    for pos in test_positions {
        let index = dims.pos_to_index(&pos);
        let converted_back = dims.index_to_pos(index);
        assert_eq!(pos, converted_back, "Roundtrip failed for position {:?}", pos);
    }
}

#[test]
fn test_static_dimensions() {
    // Test with a borrowed extent list
    let extents: [usize; 2] = [2, 3];
    let dims = Dimensions::new_static(&extents);

    assert_eq!(dims.pos_to_index(&[0, 0]), 0);
    assert_eq!(dims.pos_to_index(&[1, 2]), 5);
    assert_eq!(dims.index_to_pos(0), vec![0, 0]);
    assert_eq!(dims.index_to_pos(5), vec![1, 2]);
}

#[test]
fn test_volume_calculation() {
    let dims_1d = Dimensions::new(vec![5]);
    assert_eq!(dims_1d.volume(), 5);

    let dims_2d = Dimensions::new(vec![3, 4]);
    assert_eq!(dims_2d.volume(), 12);

    let dims_3d = Dimensions::new(vec![2, 3, 4]);
    assert_eq!(dims_3d.volume(), 24);
}

#[test]
fn test_iter_dimensions() {
    let dims = Dimensions::new(vec![2, 3, 4]);
    let mut it = dims.iter();
    let mut index = 0;
    while let Some(pos) = it.next() {
        let expected_pos = dims.index_to_pos(index);
        assert_eq!(pos, expected_pos, "Mismatch at index {}", index);
        index += 1;
    }
    assert_eq!(index, dims.volume());
}

#[test]
fn test_iter_yields_volume_distinct_coordinates() {
    let dims = Dimensions::new(vec![3, 2, 4]);
    let extents = dims.sizes().clone();
    let mut seen: Vec<Vec<usize>> = Vec::new();
    let mut it = dims.iter();
    while let Some(pos) = it.next() {
        assert_eq!(pos.len(), extents.len());
        for (axis, &coordinate) in pos.iter().enumerate() {
            assert!(coordinate < extents[axis], "coordinate out of bounds");
        }
        assert!(!seen.contains(&pos), "coordinate yielded twice: {:?}", pos);
        seen.push(pos);
    }
    assert_eq!(seen.len(), dims.volume());
}

#[test]
fn test_iter_row_major_order() {
    // First axis varies fastest, starting from the all-zero coordinate.
    let dims = Dimensions::new(vec![2, 2]);
    let mut it = dims.iter();
    assert_eq!(it.next(), Some(vec![0, 0]));
    assert_eq!(it.next(), Some(vec![1, 0]));
    assert_eq!(it.next(), Some(vec![0, 1]));
    assert_eq!(it.next(), Some(vec![1, 1]));
    assert_eq!(it.next(), None);
    // The iterator stays exhausted.
    assert_eq!(it.next(), None);
}

#[test]
fn test_iter_restartable() {
    // Each call to iter() starts a fresh traversal.
    let dims = Dimensions::new(vec![2, 2]);
    let mut first = dims.iter();
    while first.next().is_some() {}
    let mut second = dims.iter();
    assert_eq!(second.next(), Some(vec![0, 0]));
}

#[test]
fn test_zero_axis_grid_is_scalar() {
    // A grid with no axes holds exactly one cell: the empty coordinate.
    let dims = Dimensions::new(vec![]);
    assert_eq!(dims.len(), 0);
    assert_eq!(dims.volume(), 1);
    assert_eq!(dims.pos_to_index(&[]), 0);
    assert_eq!(dims.index_to_pos(0), Vec::<usize>::new());
    let mut it = dims.iter();
    assert_eq!(it.next(), Some(Vec::<usize>::new()));
    assert_eq!(it.next(), None);
}

#[test]
fn test_try_new_checks_configuration() {
    // A well-formed extent list is accepted as given.
    let dims = Dimensions::try_new(vec![3, 4]).expect("well-formed extents refused");
    assert_eq!(dims.volume(), 12);
    assert_eq!(dims.sizes(), &vec![3, 4]);

    // A zero extent is a malformed grid shape.
    assert!(Dimensions::try_new(vec![3, 0, 4]).is_none());

    // A cell count beyond the machine word is rejected, not wrapped.
    assert!(Dimensions::try_new(vec![usize::MAX, 2]).is_none());

    // The scalar grid with no axes is fine.
    assert!(Dimensions::try_new(vec![]).is_some());
}

#[test]
fn test_single_cell_axes() {
    // Axes of extent one contribute no variety but stay addressable.
    let dims = Dimensions::new(vec![1, 1, 1]);
    assert_eq!(dims.volume(), 1);
    assert_eq!(dims.pos_to_index(&[0, 0, 0]), 0);
    let mut it = dims.iter();
    assert_eq!(it.next(), Some(vec![0, 0, 0]));
    assert_eq!(it.next(), None);
}
