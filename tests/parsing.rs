use window_enumerator::utils::{parse_folded_position_sort, parse_folded_selection, parse_index};
use window_enumerator::{parse_position_sort, parse_selection, PositionSort, Selection, WindowError};

fn indices(v: &[usize]) -> Result<Selection, WindowError> {
    Ok(Selection::Indices(v.to_vec()))
}

#[test]
fn selection_all() {
    assert_eq!(parse_selection("all"), Ok(Selection::All));
}

#[test]
fn selection_all_ignores_case_and_space() {
    assert_eq!(parse_selection("  ALL \t"), Ok(Selection::All));
    assert_eq!(parse_selection("All"), Ok(Selection::All));
}

#[test]
fn selection_list_is_sorted() {
    assert_eq!(parse_selection("3,1,2"), indices(&[1, 2, 3]));
}

#[test]
fn selection_range_expands() {
    assert_eq!(parse_selection("1-3"), indices(&[1, 2, 3]));
}

#[test]
fn selection_reversed_range_is_empty() {
    assert_eq!(parse_selection("5-2"), indices(&[]));
}

#[test]
fn selection_duplicates_removed() {
    assert_eq!(parse_selection("1,1,2"), indices(&[1, 2]));
}

#[test]
fn selection_non_numeric_is_invalid_index() {
    assert_eq!(parse_selection("x"), Err(WindowError::InvalidIndex));
}

#[test]
fn selection_mixed_tokens_and_spaces() {
    assert_eq!(parse_selection(" 7 , 2 - 4 ,3"), indices(&[2, 3, 4, 7]));
}

#[test]
fn selection_overlapping_ranges_merge() {
    assert_eq!(parse_selection("4-6,1-5"), indices(&[1, 2, 3, 4, 5, 6]));
}

#[test]
fn selection_two_dashes_is_invalid_range() {
    assert_eq!(parse_selection("1-2-3"), Err(WindowError::InvalidRange));
}

#[test]
fn selection_bad_range_end_is_invalid_index() {
    assert_eq!(parse_selection("1-x"), Err(WindowError::InvalidIndex));
    assert_eq!(parse_selection("-3"), Err(WindowError::InvalidIndex));
}

#[test]
fn selection_empty_token_is_invalid_index() {
    assert_eq!(parse_selection(""), Err(WindowError::InvalidIndex));
    assert_eq!(parse_selection("1,,2"), Err(WindowError::InvalidIndex));
    assert_eq!(parse_selection("1,"), Err(WindowError::InvalidIndex));
}

#[test]
fn selection_first_error_wins() {
    assert_eq!(parse_selection("1-2-3,x"), Err(WindowError::InvalidRange));
    assert_eq!(parse_selection("x,1-2-3"), Err(WindowError::InvalidIndex));
}

#[test]
fn selection_largest_index() {
    assert_eq!(
        parse_selection("18446744073709551615"),
        indices(&[usize::MAX])
    );
    assert_eq!(
        parse_selection("18446744073709551616"),
        Err(WindowError::InvalidIndex)
    );
}

#[test]
fn selection_range_ending_at_largest_index() {
    assert_eq!(
        parse_selection("18446744073709551614-18446744073709551615"),
        indices(&[usize::MAX - 1, usize::MAX])
    );
}

#[test]
fn folded_selection_is_case_sensitive() {
    assert_eq!(parse_folded_selection("all"), Ok(Selection::All));
    assert_eq!(parse_folded_selection("ALL"), Err(WindowError::InvalidIndex));
}

#[test]
fn index_accepts_plus_sign() {
    assert_eq!(parse_index("+12"), Ok(12));
    assert_eq!(parse_index("007"), Ok(7));
    assert_eq!(parse_index("+"), Err(WindowError::InvalidIndex));
    assert_eq!(parse_index("1 2"), Err(WindowError::InvalidIndex));
}

#[test]
fn position_sort_x_ascending() {
    assert_eq!(parse_position_sort("x1"), Ok(Some(PositionSort::X(1))));
}

#[test]
fn position_sort_y_descending() {
    assert_eq!(parse_position_sort("y-1"), Ok(Some(PositionSort::Y(-1))));
}

#[test]
fn position_sort_compound() {
    assert_eq!(parse_position_sort("x1|y1"), Ok(Some(PositionSort::XY(1, 1))));
    assert_eq!(
        parse_position_sort(" X-1 | Y1 "),
        Ok(Some(PositionSort::XY(-1, 1)))
    );
}

#[test]
fn position_sort_bad_order() {
    assert_eq!(parse_position_sort("x2"), Err(WindowError::InvalidSortOrder));
    assert_eq!(parse_position_sort("x1|y0"), Err(WindowError::InvalidSortOrder));
}

#[test]
fn position_sort_bad_axis() {
    assert_eq!(
        parse_position_sort("z1"),
        Err(WindowError::InvalidPositionSortFormat)
    );
    assert_eq!(
        parse_position_sort("y1|x1"),
        Err(WindowError::InvalidPositionSortFormat)
    );
    assert_eq!(
        parse_position_sort("x1|y1|x1"),
        Err(WindowError::InvalidPositionSortFormat)
    );
    assert_eq!(
        parse_position_sort("x"),
        Err(WindowError::InvalidPositionSortFormat)
    );
}

#[test]
fn position_sort_empty_is_none() {
    assert_eq!(parse_position_sort(""), Ok(None));
    assert_eq!(parse_position_sort("   "), Ok(None));
}

#[test]
fn folded_position_sort_is_case_sensitive() {
    assert_eq!(parse_folded_position_sort("x1"), Ok(Some(PositionSort::X(1))));
    assert_eq!(
        parse_folded_position_sort("X1"),
        Err(WindowError::InvalidPositionSortFormat)
    );
}
