use strided_gemm::layout::{address, row_major_strides, LayoutError, TensorView};

#[test]
fn address_adds_offset_and_strided_indices() {
    assert_eq!(address(&[6, 3, 1], 0, &[0, 0, 0]), Some(0));
    assert_eq!(address(&[6, 3, 1], 0, &[1, 1, 2]), Some(11));
    assert_eq!(address(&[6, 3, 1], 2, &[1, 1, 2]), Some(13));
    assert_eq!(address(&[12, 4, 1], 12, &[0, 2, 3]), Some(23));
}

#[test]
fn address_takes_strides_in_any_order() {
    // column-major matrices of 2 rows and 3 columns
    assert_eq!(address(&[6, 1, 2], 0, &[1, 1, 2]), Some(11));
    // the batch axis as the fastest one
    assert_eq!(address(&[1, 8, 2], 5, &[1, 3, 1]), Some(32));
    // a stride of 0 repeats one element along its axis
    assert_eq!(address(&[0, 3, 1], 4, &[7, 1, 2]), Some(9));
    assert_eq!(address(&[0, 0, 0], 4, &[7, 8, 9]), Some(4));
}

#[test]
fn address_reaches_the_largest_position() {
    assert_eq!(address(&[usize::MAX, 0, 0], 0, &[1, 5, 5]), Some(usize::MAX));
    assert_eq!(address(&[1, 1, 1], usize::MAX - 3, &[1, 1, 1]), Some(usize::MAX));
}

#[test]
fn address_is_none_beyond_usize() {
    assert_eq!(address(&[usize::MAX, 1, 1], 0, &[2, 0, 0]), None);
    assert_eq!(address(&[1, usize::MAX, 1], 0, &[0, 2, 0]), None);
    assert_eq!(address(&[1, 1, usize::MAX], 0, &[0, 0, 2]), None);
    assert_eq!(address(&[usize::MAX, 1, 1], 1, &[1, 0, 0]), None);
    assert_eq!(address(&[1, 1, 1], usize::MAX, &[0, 1, 0]), None);
    assert_eq!(address(&[1, 1, 1], usize::MAX - 1, &[0, 1, 1]), None);
}

#[test]
fn row_major_strides_of_a_matrix() {
    assert_eq!(row_major_strides(2, 3), Some([6, 3, 1]));
    assert_eq!(row_major_strides(3, 4), Some([12, 4, 1]));
    assert_eq!(row_major_strides(0, 7), Some([0, 7, 1]));
    assert_eq!(row_major_strides(7, 0), Some([0, 0, 1]));
    assert_eq!(row_major_strides(usize::MAX, 1), Some([usize::MAX, 1, 1]));
}

#[test]
fn row_major_strides_is_none_beyond_usize() {
    assert_eq!(row_major_strides(usize::MAX, 2), None);
    assert_eq!(row_major_strides(usize::MAX / 2 + 1, 2), None);
}

#[test]
fn validate_accepts_an_exact_fit() {
    let view = TensorView { shape: [2, 2, 3], strides: [6, 3, 1], offset: 0 };
    assert_eq!(view.validate(12), Ok(()));
    assert_eq!(view.validate(100), Ok(()));
}

#[test]
fn validate_reports_the_last_element_out_of_bounds() {
    let view = TensorView { shape: [2, 2, 3], strides: [6, 3, 1], offset: 0 };
    assert_eq!(view.validate(11), Err(LayoutError::OutOfBounds { last: 11, len: 11 }));
    assert_eq!(view.validate(0), Err(LayoutError::OutOfBounds { last: 11, len: 0 }));
}

#[test]
fn validate_counts_the_offset() {
    let view = TensorView { shape: [1, 3, 4], strides: [12, 4, 1], offset: 12 };
    assert_eq!(view.validate(24), Ok(()));
    assert_eq!(view.validate(23), Err(LayoutError::OutOfBounds { last: 23, len: 23 }));
    let past = TensorView { shape: [1, 3, 4], strides: [12, 4, 1], offset: 13 };
    assert_eq!(past.validate(24), Err(LayoutError::OutOfBounds { last: 24, len: 24 }));
}

#[test]
fn validate_accepts_every_empty_view() {
    let no_batch = TensorView { shape: [0, 2, 3], strides: [6, 3, 1], offset: 50 };
    assert_eq!(no_batch.validate(0), Ok(()));
    let no_rows = TensorView { shape: [4, 0, 3], strides: [usize::MAX, usize::MAX, 1], offset: 9 };
    assert_eq!(no_rows.validate(1), Ok(()));
    let no_cols = TensorView {
        shape: [usize::MAX, usize::MAX, 0],
        strides: [usize::MAX, usize::MAX, usize::MAX],
        offset: usize::MAX,
    };
    assert_eq!(no_cols.validate(0), Ok(()));
}

#[test]
fn validate_follows_the_strides_not_the_shape() {
    // 125 logical elements, all of them the one at position 3
    let repeated = TensorView { shape: [5, 5, 5], strides: [0, 0, 0], offset: 3 };
    assert_eq!(repeated.validate(4), Ok(()));
    assert_eq!(repeated.validate(3), Err(LayoutError::OutOfBounds { last: 3, len: 3 }));
    // transposed matrices: the row index is the fastest axis
    let transposed = TensorView { shape: [2, 3, 2], strides: [6, 1, 3], offset: 0 };
    assert_eq!(transposed.validate(12), Ok(()));
    assert_eq!(transposed.validate(11), Err(LayoutError::OutOfBounds { last: 11, len: 11 }));
    // every other element of a row
    let spaced = TensorView { shape: [1, 1, 4], strides: [0, 0, 2], offset: 1 };
    assert_eq!(spaced.validate(8), Ok(()));
    assert_eq!(spaced.validate(7), Err(LayoutError::OutOfBounds { last: 7, len: 7 }));
}

#[test]
fn validate_reports_a_view_that_usize_cannot_address() {
    let view = TensorView { shape: [3, 1, 1], strides: [usize::MAX, 1, 1], offset: 0 };
    assert_eq!(view.validate(usize::MAX), Err(LayoutError::Unaddressable));
    let shifted = TensorView { shape: [1, 1, 2], strides: [1, 1, 1], offset: usize::MAX };
    assert_eq!(shifted.validate(usize::MAX), Err(LayoutError::Unaddressable));
}

#[test]
fn validate_reaches_the_largest_position() {
    let view = TensorView { shape: [2, 1, 1], strides: [usize::MAX, 1, 1], offset: 0 };
    assert_eq!(
        view.validate(usize::MAX),
        Err(LayoutError::OutOfBounds { last: usize::MAX, len: usize::MAX })
    );
}
