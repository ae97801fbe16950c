// Every way an address can be refused, with its kind, message, and span.

use xaddr::{parse, parse_prefix, Bounds, Grid, Kind};

struct Table {
    header: Option<Vec<String>>,
    nrows: usize,
    ncols: usize,
}

impl Grid for Table {
    fn nrows(&self) -> usize {
        self.nrows
    }
    fn ncols(&self) -> usize {
        self.ncols
    }
    fn header(&self) -> Option<&[String]> {
        self.header.as_deref()
    }
}

fn table() -> Table {
    Table {
        header: Some(vec!["a".to_string(), "b".to_string(), "c".to_string()]),
        nrows: 4,
        ncols: 3,
    }
}

#[test]
fn an_empty_address_spans_the_whole_input() {
    let e = parse("  \t ").unwrap_err();
    assert_eq!(e.kind, Kind::Syntax);
    assert_eq!(e.message, "empty address");
    assert_eq!(e.span, 0..4);
}

#[test]
fn unicode_white_space_counts_as_empty() {
    let spec = "\u{a0}\u{3000}";
    let e = parse(spec).unwrap_err();
    assert_eq!(e.message, "empty address");
    assert_eq!(e.span, 0..spec.len());
}

#[test]
fn an_empty_item_points_at_the_gap() {
    let e = parse("A, ,B").unwrap_err();
    assert_eq!(
        e.message,
        "empty item in the address list — two commas with nothing between them"
    );
    assert_eq!(e.span, 3..3);
}

#[test]
fn an_unterminated_name_spans_the_input() {
    let e = parse("A,[first").unwrap_err();
    assert_eq!(
        e.message,
        "unterminated [name] — a bracketed column name needs a closing ]"
    );
    assert_eq!(e.span, 0..8);
}

#[test]
fn a_range_with_no_ends_spans_the_item() {
    let e = parse("A, : ").unwrap_err();
    assert_eq!(
        e.message,
        "a range needs at least one end — write `A:` from A to the last column, `:C` from the first through C"
    );
    assert_eq!(e.span, 3..4);
}

#[test]
fn too_many_colons() {
    let e = parse("A:B:C").unwrap_err();
    assert_eq!(e.message, "too many `:` in one address — a range has two ends");
    assert_eq!(e.span, 0..5);
}

#[test]
fn a_column_past_the_largest_names_the_letters() {
    let e = parse("B,AAAAAAAAAAAA5").unwrap_err();
    assert_eq!(
        e.message,
        "column AAAAAAAAAAAA is past the largest column this addresses"
    );
    assert_eq!(e.span, 2..14);
}

#[test]
fn a_row_too_large_for_usize() {
    let e = parse("99999999999999999999999").unwrap_err();
    assert_eq!(e.message, "row 99999999999999999999999 is too large a number");
    assert_eq!(e.span, 0..23);
}

#[test]
fn a_cell_row_too_large_for_usize() {
    let e = parse("C99999999999999999999999").unwrap_err();
    assert_eq!(e.message, "row number is too large");
    assert_eq!(e.span, 1..24);
}

#[test]
fn row_zero_in_a_cell_points_at_the_digits() {
    let e = parse("AB0").unwrap_err();
    assert_eq!(e.message, "row numbers start at 1, not 0");
    assert_eq!(e.span, 2..3);
}

#[test]
fn an_unrecognized_address_is_quoted_as_debug_text() {
    let e = parse("A,?\"x").unwrap_err();
    assert_eq!(
        e.message,
        "unrecognized address \"?\\\"x\" — use a column letter (C, AF), a bracketed name ([first name]), a row number (5), a cell (C5), or $ for the last row"
    );
    assert_eq!(e.span, 2..5);
}

#[test]
fn junk_after_a_column_is_quoted_as_debug_text() {
    let e = parse("[a]x1").unwrap_err();
    assert_eq!(
        e.message,
        "unexpected \"x1\" after a column — a column takes only a row number"
    );
    assert_eq!(e.span, 3..5);
}

#[test]
fn a_prefix_error_has_an_empty_span() {
    let e = parse_prefix("?A").unwrap_err();
    assert_eq!(
        e.message,
        "expected an address — a cell (C5), column (C or [name]), row (5), or $"
    );
    assert_eq!(e.span, 0..0);
}

#[test]
fn an_unterminated_prefix_spans_what_it_measured() {
    let e = parse_prefix("[abc").unwrap_err();
    assert_eq!(e.kind, Kind::Syntax);
    assert!(e.message.contains("closing ]"));
    assert_eq!(e.span, 0..4);
}

#[test]
fn a_cell_where_only_columns_belong() {
    let e = parse("A,B2").unwrap().columns(&table(), Bounds::Clamp).unwrap_err();
    assert_eq!(e.kind, Kind::Syntax);
    assert_eq!(
        e.message,
        "this names a single cell, but only columns can be addressed here"
    );
    assert_eq!(e.span, 2..4);
}

#[test]
fn the_last_row_where_only_columns_belong() {
    let e = parse("$").unwrap().columns(&table(), Bounds::Clamp).unwrap_err();
    assert_eq!(
        e.message,
        "this names a row, but only columns can be addressed here"
    );
}

#[test]
fn a_missing_header_name_is_a_lookup_error() {
    let e = parse("A:[zz]").unwrap().columns(&table(), Bounds::Strict).unwrap_err();
    assert_eq!(e.kind, Kind::Lookup);
    assert_eq!(e.message, "no column named [zz]");
    assert_eq!(e.span, 0..6);
}

#[test]
fn a_name_in_a_headerless_table() {
    let mut t = table();
    t.header = None;
    let e = parse("[a]").unwrap().rect(&t, Bounds::Strict).unwrap_err();
    assert_eq!(
        e.message,
        "column name [a] needs a header row (this table has none — address by letter instead)"
    );
}

#[test]
fn a_table_without_columns_refuses_strictly() {
    let mut t = table();
    t.ncols = 0;
    let e = parse("A").unwrap().columns(&t, Bounds::Strict).unwrap_err();
    assert_eq!(e.kind, Kind::Lookup);
    assert_eq!(e.message, "the table has no columns");
}

#[test]
fn a_column_beyond_the_table_names_it_by_letter() {
    let e = parse("AB").unwrap().columns(&table(), Bounds::Strict).unwrap_err();
    assert_eq!(e.message, "column AB is beyond the table's 3 columns");
}

#[test]
fn a_table_without_rows_refuses_strictly() {
    let mut t = table();
    t.nrows = 0;
    let e = parse("A1").unwrap().rect(&t, Bounds::Strict).unwrap_err();
    assert_eq!(e.message, "the table has no rows");
}

#[test]
fn a_row_beyond_the_table_is_written_one_based() {
    let e = parse("B12").unwrap().cells(&table(), Bounds::Strict).unwrap_err();
    assert_eq!(e.kind, Kind::Lookup);
    assert_eq!(e.message, "row 12 is beyond the table's 4 rows");
    assert_eq!(e.span, 0..3);
}

#[test]
fn a_list_refused_as_a_rectangle_spans_the_list() {
    let spec = " A , C ";
    let e = parse(spec).unwrap().rect(&table(), Bounds::Clamp).unwrap_err();
    assert_eq!(e.kind, Kind::Syntax);
    assert_eq!(e.span, 1..6);
    assert_eq!(e.snippet(spec), "A , C");
}

#[test]
fn a_snippet_that_does_not_fit_is_empty() {
    let e = parse("A,[nope]").unwrap().columns(&table(), Bounds::Strict).unwrap_err();
    assert_eq!(e.snippet("A,[nope]"), "[nope]");
    assert_eq!(e.snippet("A"), "");
    assert_eq!(e.snippet("A,[nop€"), "");
}

#[test]
fn error_clones_keep_every_field() {
    let e = parse("A:B:C").unwrap_err();
    let f = e.clone();
    assert_eq!(e, f);
}
