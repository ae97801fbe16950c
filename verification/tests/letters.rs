// Column letters and the text forms of cells, ranges, and names.

use xaddr::{cell_ref, col_to_letter, letter_to_col, quote_name, rect_ref, MAX_COL};

#[test]
fn the_first_twenty_six_columns_are_single_letters() {
    assert_eq!(col_to_letter(0), "A");
    assert_eq!(col_to_letter(25), "Z");
    assert_eq!(col_to_letter(26), "AA");
}

#[test]
fn letters_round_trip() {
    for c in [0usize, 1, 25, 26, 27, 51, 52, 701, 702, 16383, MAX_COL] {
        assert_eq!(letter_to_col(&col_to_letter(c)), Some(c), "at {c}");
    }
}

#[test]
fn letters_letters_are_case_insensitive() {
    assert_eq!(letter_to_col("af"), letter_to_col("AF"));
}

#[test]
fn junk_letters_are_none_not_a_panic() {
    assert_eq!(letter_to_col(""), None);
    assert_eq!(letter_to_col("A1"), None);
    assert_eq!(letter_to_col("-"), None);
    assert_eq!(letter_to_col("AAAAAAAAAAAAAAAAAAAA"), None);
}

#[test]
fn cells_and_rects_render_one_based_rows() {
    assert_eq!(cell_ref(0, 0), "A1");
    assert_eq!(cell_ref(4, 2), "C5");
    assert_eq!(rect_ref(0, 0, 4, 2), "A1:C5");
    assert_eq!(rect_ref(4, 2, 0, 0), "A1:C5");
    assert_eq!(rect_ref(1, 1, 1, 1), "B2");
}

#[test]
fn quoted_names_escape_brackets() {
    assert_eq!(quote_name("first name"), "[first name]");
    assert_eq!(quote_name("weird]name"), "[weird]]name]");
}
