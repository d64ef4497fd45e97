use strided_gemm::gemm::{GemmError, GemmParams};
use strided_gemm::layout::{LayoutError, TensorView};

#[test]
fn operand_views_take_their_shapes_from_the_sizes() {
    let params = GemmParams { b: 2, m: 3, n: 5, k: 7 };
    assert_eq!(
        params.lhs_view([21, 7, 1], 4),
        TensorView { shape: [2, 3, 7], strides: [21, 7, 1], offset: 4 }
    );
    assert_eq!(
        params.rhs_view([35, 5, 1], 9),
        TensorView { shape: [2, 7, 5], strides: [35, 5, 1], offset: 9 }
    );
}

#[test]
fn output_length_is_the_product_of_batch_rows_and_columns() {
    assert_eq!(GemmParams { b: 1, m: 2, n: 4, k: 3 }.checked_output_len(), Some(8));
    assert_eq!(GemmParams { b: 2, m: 2, n: 4, k: 3 }.checked_output_len(), Some(16));
    assert_eq!(GemmParams { b: 7, m: 5, n: 3, k: 0 }.checked_output_len(), Some(105));
    assert_eq!(GemmParams { b: usize::MAX, m: 1, n: 1, k: 9 }.checked_output_len(), Some(usize::MAX));
}

#[test]
fn output_length_is_zero_when_any_size_is() {
    let huge = usize::MAX;
    assert_eq!(GemmParams { b: 0, m: huge, n: huge, k: 1 }.checked_output_len(), Some(0));
    assert_eq!(GemmParams { b: huge, m: 0, n: huge, k: 1 }.checked_output_len(), Some(0));
    assert_eq!(GemmParams { b: huge, m: huge, n: 0, k: 1 }.checked_output_len(), Some(0));
}

#[test]
fn output_length_is_none_beyond_usize() {
    let half = usize::MAX / 2 + 1;
    assert_eq!(GemmParams { b: 1, m: half, n: 2, k: 1 }.checked_output_len(), None);
    assert_eq!(GemmParams { b: 2, m: half, n: 1, k: 1 }.checked_output_len(), None);
    assert_eq!(GemmParams { b: half, m: 1, n: 2, k: 1 }.checked_output_len(), None);
    assert_eq!(GemmParams { b: usize::MAX, m: usize::MAX, n: usize::MAX, k: 1 }.checked_output_len(), None);
}

#[test]
fn validate_gives_the_output_length() {
    let params = GemmParams { b: 2, m: 2, n: 4, k: 3 };
    assert_eq!(params.validate(12, [6, 3, 1], 0, 24, [12, 4, 1], 0, 4), Ok(16));
    let one = GemmParams { b: 1, m: 2, n: 4, k: 3 };
    assert_eq!(one.validate(12, [6, 3, 1], 0, 24, [12, 4, 1], 12, 4), Ok(8));
    assert_eq!(one.validate(12, [6, 3, 1], 6, 24, [12, 4, 1], 12, 4), Ok(8));
}

#[test]
fn validate_names_the_first_thing_wrong() {
    let params = GemmParams { b: 2, m: 2, n: 4, k: 3 };
    assert_eq!(
        params.validate(11, [6, 3, 1], 0, 23, [12, 4, 1], 0, 4),
        Err(GemmError::Lhs(LayoutError::OutOfBounds { last: 11, len: 11 }))
    );
    assert_eq!(
        params.validate(12, [6, 3, 1], 0, 23, [12, 4, 1], 0, 4),
        Err(GemmError::Rhs(LayoutError::OutOfBounds { last: 23, len: 23 }))
    );
    assert_eq!(
        params.validate(12, [6, 3, 1], 0, 24, [12, 4, 1], 1, 4),
        Err(GemmError::Rhs(LayoutError::OutOfBounds { last: 24, len: 24 }))
    );
    assert_eq!(
        params.validate(12, [usize::MAX, 3, 1], 0, 24, [12, 4, 1], 0, 4),
        Err(GemmError::Lhs(LayoutError::Unaddressable))
    );
    let uncountable = GemmParams { b: usize::MAX, m: 2, n: 4, k: 3 };
    assert_eq!(
        uncountable.validate(6, [0, 3, 1], 0, 12, [0, 4, 1], 0, 4),
        Err(GemmError::OutputTooLarge)
    );
}

#[test]
fn validate_bounds_the_output_in_bytes() {
    let most = isize::MAX as usize;
    let params = GemmParams { b: most / 4, m: 1, n: 1, k: 0 };
    assert_eq!(params.validate(0, [0, 0, 1], 0, 0, [0, 1, 1], 0, 4), Ok(most / 4));
    assert_eq!(params.validate(0, [0, 0, 1], 0, 0, [0, 1, 1], 0, 5), Err(GemmError::OutputTooLarge));
    let params = GemmParams { b: most / 4 + 1, m: 1, n: 1, k: 0 };
    assert_eq!(params.validate(0, [0, 0, 1], 0, 0, [0, 1, 1], 0, 4), Err(GemmError::OutputTooLarge));
    assert_eq!(params.validate(0, [0, 0, 1], 0, 0, [0, 1, 1], 0, 3), Ok(most / 4 + 1));
    let params = GemmParams { b: 1, m: most, n: 1, k: 0 };
    assert_eq!(params.validate(0, [0, 0, 1], 0, 0, [0, 1, 1], 0, 1), Ok(most));
    assert_eq!(params.validate(0, [0, 0, 1], 0, 0, [0, 1, 1], 0, 2), Err(GemmError::OutputTooLarge));
    let params = GemmParams { b: 1, m: 1, n: most + 1, k: 0 };
    assert_eq!(params.validate(0, [0, 0, 1], 0, 0, [0, most + 1, 1], 0, 1), Err(GemmError::OutputTooLarge));
    // elements that take no room are only counted
    let params = GemmParams { b: 1, m: usize::MAX, n: 1, k: 0 };
    assert_eq!(params.validate(0, [0, 0, 1], 0, 0, [0, 1, 1], 0, 0), Ok(usize::MAX));
    let params = GemmParams { b: 2, m: usize::MAX, n: 1, k: 0 };
    assert_eq!(params.validate(0, [0, 0, 1], 0, 0, [0, 1, 1], 0, 0), Err(GemmError::OutputTooLarge));
}
