use openbse::interpolate::{GridShape, InterpError};

#[test]
fn strides_are_row_major() {
    let g = GridShape::new(vec![2, 3, 4]);
    assert_eq!(g.num_axes(), 3);
    assert_eq!(g.stride(0), 12);
    assert_eq!(g.stride(1), 4);
    assert_eq!(g.stride(2), 1);
    assert_eq!(g.total_size(), 24);
    assert_eq!(g.axis_len(1), 3);
}

#[test]
fn empty_grid_has_one_entry() {
    let g = GridShape::new(vec![]);
    assert_eq!(g.total_size(), 1);
    let z = GridShape::new(vec![3, 0]);
    assert_eq!(z.total_size(), 1);
}

#[test]
fn validate_accepts_matching_length() {
    let g = GridShape::new(vec![1, 4, 4, 1, 1, 4]);
    assert!(g.validate(64).is_ok());
    match g.validate(63) {
        Err(InterpError::SizeMismatch { got, expected, axes }) => {
            assert_eq!(got, 63);
            assert_eq!(expected, 64);
            assert_eq!(axes, vec![1, 4, 4, 1, 1, 4]);
        }
        other => panic!("unexpected {:?}", other),
    }
}

#[test]
fn check_query_reports_arity_first() {
    let g = GridShape::new(vec![2, 2]);
    match g.check_query(3, 1) {
        Err(InterpError::WrongQueryArity { got, expected }) => {
            assert_eq!(got, 1);
            assert_eq!(expected, 2);
        }
        other => panic!("unexpected {:?}", other),
    }
    assert!(matches!(g.check_query(3, 2), Err(InterpError::SizeMismatch { .. })));
    assert!(g.check_query(4, 2).is_ok());
}

#[test]
fn corner_offsets_of_bilinear_cell() {
    // 2x2 grid, row-major [x0y0, x0y1, x1y0, x1y1]
    let g = GridShape::new(vec![2, 2]);
    let b = vec![(0, 1), (0, 1)];
    assert_eq!(g.corner_offset(&b, 0), Some(0));
    assert_eq!(g.corner_offset(&b, 1), Some(2)); // bit 0 -> axis 0 upper
    assert_eq!(g.corner_offset(&b, 2), Some(1));
    assert_eq!(g.corner_offset(&b, 3), Some(3));
}

#[test]
fn corner_offsets_skip_degenerate_axis() {
    let g = GridShape::new(vec![1, 2]);
    let b = vec![(0, 0), (0, 1)];
    assert_eq!(g.corner_offset(&b, 0), Some(0));
    assert_eq!(g.corner_offset(&b, 1), None);
    assert_eq!(g.corner_offset(&b, 2), Some(1));
    assert_eq!(g.corner_offset(&b, 3), None);
}

#[test]
fn corner_offsets_of_trilinear_cell_are_distinct() {
    let g = GridShape::new(vec![3, 4, 5]);
    let b = vec![(1, 2), (2, 3), (3, 4)];
    let mut seen = Vec::new();
    for mask in 0..8usize {
        let off = g.corner_offset(&b, mask).unwrap();
        assert!(off < g.total_size());
        assert!(!seen.contains(&off));
        seen.push(off);
    }
    // mask 0: (1,2,3) -> 1*20 + 2*5 + 3
    assert_eq!(g.corner_offset(&b, 0), Some(33));
    // mask 7: (2,3,4) -> 40 + 15 + 4
    assert_eq!(g.corner_offset(&b, 7), Some(59));
}
