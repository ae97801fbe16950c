// The library's laws, each on concrete values.

use xaddr::{
    cell_ref, col_to_letter, letter_to_col, parse, parse_prefix, quote_name, rect_ref, Bounds,
    ColRef, Grid, GridAnswers, Item, Kind, Pos, Rect, MAX_COL,
};

struct Table {
    header: Option<Vec<String>>,
    nrows: usize,
    ncols: usize,
}

impl Grid for Table {
    fn nrows(&self) -> usize {
        self.nrows
    }
    fn ncols(&self) -> usize {
        self.ncols
    }
    fn header(&self) -> Option<&[String]> {
        self.header.as_deref()
    }
}

fn named(names: &[&str], nrows: usize) -> Table {
    Table {
        header: Some(names.iter().map(|s| s.to_string()).collect()),
        nrows,
        ncols: names.len(),
    }
}

fn table() -> Table {
    named(&["id", "first", "last", "dept", "fy2024"], 10)
}

/// A grid that matches names case-insensitively, overriding the default lookup.
struct Loose(Table);

impl Grid for Loose {
    fn nrows(&self) -> usize {
        self.0.nrows
    }
    fn ncols(&self) -> usize {
        self.0.ncols
    }
    fn header(&self) -> Option<&[String]> {
        self.0.header()
    }
    fn name_to_col(&self, name: &str) -> Option<usize> {
        self.header()?
            .iter()
            .position(|h| h.eq_ignore_ascii_case(name))
    }
}

#[test]
fn letters_past_the_largest_column_do_not_round_trip() {
    assert_eq!(col_to_letter(MAX_COL + 1), "AJRNIO");
    assert_eq!(letter_to_col(&col_to_letter(MAX_COL + 1)), None);
    assert_eq!(col_to_letter(702), "AAA");
    assert_eq!(letter_to_col("aaa"), Some(702));
}

#[test]
fn letters_read_back_upper_cased() {
    let c = letter_to_col("xfd").unwrap();
    assert_eq!(c, 16383);
    assert_eq!(col_to_letter(c), "XFD");
}

#[test]
fn parse_errors_are_always_syntax() {
    for spec in ["", "A,,B", "[x", ":", "A:B:C", "A0", "?", "A5x", "ZZZZZZZZZZZZZ"] {
        assert_eq!(parse(spec).unwrap_err().kind, Kind::Syntax, "{spec:?}");
    }
    for spec in ["", "?", "[x"] {
        assert_eq!(parse_prefix(spec).unwrap_err().kind, Kind::Syntax, "{spec:?}");
    }
}

#[test]
fn error_spans_slice_the_input_even_with_wide_characters() {
    for spec in ["é,[ß", "[ü]x", "€, ?", "\u{3000}A,\u{a0}", "A:B:€", "[n]9999999999999999999999"] {
        let e = parse(spec).unwrap_err();
        assert!(spec.get(e.span.clone()).is_some(), "{spec:?} {e:?}");
    }
}

#[test]
fn item_spans_skip_ascii_white_space_only() {
    let spec = " A\t,\r\n[ü]\x0c";
    let parsed = parse(spec).unwrap();
    let t = named(&["x", "ü"], 1);
    assert_eq!(parsed.columns(&t, Bounds::Strict).unwrap(), vec![0, 1]);
    let e = parse(" A , \t[nope] ").unwrap().columns(&t, Bounds::Strict).unwrap_err();
    assert_eq!(e.snippet(" A , \t[nope] "), "[nope]");
    // Wider white space is part of the item, and so not an address.
    let e = parse("\u{a0}A\u{3000},B").unwrap_err();
    assert_eq!(e.span, 0..6);
}

#[test]
fn a_prefix_is_one_item_and_a_valid_slice() {
    for input in ["[é]:C ü", "3:$,4", "ü", "[ß"] {
        match parse_prefix(input) {
            Ok((spec, used)) => {
                assert_eq!(spec.items().len(), 1);
                assert!(input.get(..used).is_some());
            }
            Err(e) => assert!(input.get(e.span.clone()).is_some()),
        }
    }
    let (_, used) = parse_prefix("[é]:C ü").unwrap();
    assert_eq!(used, 6);
}

#[test]
fn quoted_names_read_back_whatever_they_hold() {
    for name in ["plain", "a,b", "x:y", "]]", "[nested]", "é ü", ""] {
        let spec = parse(&quote_name(name)).unwrap();
        assert_eq!(
            spec.items(),
            &[Item::Single(Pos::Column(ColRef::Name(name.to_string())))]
        );
    }
}

#[test]
fn rendered_cells_read_back() {
    for (row, col) in [(0, 0), (9, 25), (123, 702), (usize::MAX - 1, MAX_COL)] {
        let spec = parse(&cell_ref(row, col)).unwrap();
        assert_eq!(
            spec.items(),
            &[Item::Single(Pos::Cell { col: ColRef::Letters(col), row })]
        );
    }
    assert_eq!(cell_ref(123, 702), "AAA124");
}

#[test]
fn rendered_rectangles_round_trip_through_resolution() {
    let t = table();
    for (r1, c1, r2, c2) in [(3, 4, 0, 1), (2, 2, 2, 2), (0, 4, 9, 0)] {
        let text = rect_ref(r1, c1, r2, c2);
        let rect = parse(&text).unwrap().rect(&t, Bounds::Strict).unwrap().unwrap();
        assert_eq!(
            rect,
            Rect {
                top: r1.min(r2),
                left: c1.min(c2),
                bottom: r1.max(r2),
                right: c1.max(c2)
            }
        );
    }
}

#[test]
fn strict_success_matches_clamp() {
    let t = table();
    for spec in ["A:C", "[dept],B", ":C,E:", "[first]:[last]"] {
        let p = parse(spec).unwrap();
        assert_eq!(
            p.columns(&t, Bounds::Strict).unwrap(),
            p.columns(&t, Bounds::Clamp).unwrap()
        );
    }
    for spec in ["B2:C5", "$", "3", "C"] {
        let p = parse(spec).unwrap();
        assert_eq!(p.rect(&t, Bounds::Strict).unwrap(), p.rect(&t, Bounds::Clamp).unwrap());
        assert_eq!(p.cells(&t, Bounds::Strict).unwrap(), p.cells(&t, Bounds::Clamp).unwrap());
    }
}

#[test]
fn clamp_invents_nothing() {
    let t = table();
    let cols = parse("D:Z,Q,B").unwrap().columns(&t, Bounds::Clamp).unwrap();
    assert_eq!(cols, vec![3, 4, 1]);
    let rect = parse("C8:Z40").unwrap().rect(&t, Bounds::Clamp).unwrap().unwrap();
    assert_eq!(rect, Rect { top: 7, left: 2, bottom: 9, right: 4 });
    assert_eq!(parse("A11:B12").unwrap().rect(&t, Bounds::Clamp).unwrap(), None);
    let cells = parse("E10:F11").unwrap().cells(&t, Bounds::Clamp).unwrap();
    assert_eq!(cells.into_iter().collect::<Vec<_>>(), vec![(9, 4)]);
}

#[test]
fn reversed_ranges_select_the_same() {
    let t = table();
    let fwd = parse("B2:D4").unwrap().rect(&t, Bounds::Strict).unwrap();
    let rev = parse("D4:B2").unwrap().rect(&t, Bounds::Strict).unwrap();
    assert_eq!(fwd, rev);
    assert_eq!(
        parse("[last]:A").unwrap().columns(&t, Bounds::Strict).unwrap(),
        parse("A:[last]").unwrap().columns(&t, Bounds::Strict).unwrap()
    );
}

#[test]
fn ranges_with_mixed_ends_depend_on_direction() {
    let t = table();
    let a = parse("3:C").unwrap().rect(&t, Bounds::Strict).unwrap().unwrap();
    let b = parse("C:3").unwrap().rect(&t, Bounds::Strict).unwrap().unwrap();
    assert_eq!(a, Rect { top: 2, left: 0, bottom: 9, right: 2 });
    assert_eq!(b, Rect { top: 0, left: 2, bottom: 2, right: 4 });
}

#[test]
fn lists_concatenate_in_order() {
    let t = table();
    let whole = parse("C:A,B,B,[dept]:").unwrap().columns(&t, Bounds::Strict).unwrap();
    let mut parts = Vec::new();
    for piece in ["C:A", "B", "B", "[dept]:"] {
        parts.extend(parse(piece).unwrap().columns(&t, Bounds::Strict).unwrap());
    }
    assert_eq!(whole, parts);
    assert_eq!(whole, vec![0, 1, 2, 1, 1, 3, 4]);
}

#[test]
fn the_first_failing_item_decides_the_error() {
    let t = table();
    let e = parse("A,[nope],ZZ").unwrap().columns(&t, Bounds::Strict).unwrap_err();
    assert_eq!(e.message, "no column named [nope]");
    assert_eq!(e.span, 2..8);
}

#[test]
fn letters_under_clamp_never_fail() {
    let empty = Table { header: None, nrows: 0, ncols: 0 };
    for spec in ["A", "Z:A", ":C", "QQ:", "A,B,C"] {
        assert_eq!(
            parse(spec).unwrap().columns(&empty, Bounds::Clamp).unwrap(),
            Vec::<usize>::new()
        );
    }
}

#[test]
fn resolution_errors_span_their_item() {
    let t = table();
    let spec = "A, [nope]:B ,C";
    let e = parse(spec).unwrap().cells(&t, Bounds::Strict).unwrap_err();
    assert_eq!(e.snippet(spec), "[nope]:B");
}

#[test]
fn an_overridden_lookup_is_honoured() {
    let loose = Loose(table());
    assert_eq!(
        parse("[DEPT]:[FY2024]").unwrap().columns(&loose, Bounds::Strict).unwrap(),
        vec![3, 4]
    );
    assert!(parse("[DEPT]").unwrap().columns(&table(), Bounds::Strict).is_err());
}

#[test]
fn answers_feed_the_resolvers() {
    let spec = parse("[last]:A,C").unwrap();
    let ans = GridAnswers {
        nrows: 10,
        ncols: 5,
        has_header: true,
        found: vec![(Some(2), None), (None, None)],
    };
    assert_eq!(spec.columns_with(&ans, Bounds::Strict).unwrap(), vec![0, 1, 2, 2]);
    assert_eq!(spec.columns(&table(), Bounds::Strict).unwrap(), vec![0, 1, 2, 2]);
    let other = GridAnswers {
        nrows: 2,
        ncols: 2,
        has_header: true,
        found: vec![(None, None), (None, None)],
    };
    let e = spec.columns_with(&other, Bounds::Strict).unwrap_err();
    assert_eq!(e.message, "no column named [last]");
    let single = parse("B2").unwrap();
    let ans1 = GridAnswers { nrows: 10, ncols: 5, has_header: true, found: vec![(None, None)] };
    assert_eq!(
        single.rect_with(&ans1, Bounds::Strict).unwrap(),
        Some(Rect { top: 1, left: 1, bottom: 1, right: 1 })
    );
    assert_eq!(single.cells_with(&ans1, Bounds::Strict).unwrap().len(), 1);
}

/// A grid that records which of its methods were called, in order.
struct Recording {
    inner: Table,
    calls: std::cell::RefCell<Vec<String>>,
}

impl Grid for Recording {
    fn nrows(&self) -> usize {
        self.calls.borrow_mut().push("nrows".to_string());
        self.inner.nrows
    }
    fn ncols(&self) -> usize {
        self.calls.borrow_mut().push("ncols".to_string());
        self.inner.ncols
    }
    fn header(&self) -> Option<&[String]> {
        self.calls.borrow_mut().push("header".to_string());
        self.inner.header.as_deref()
    }
    fn name_to_col(&self, name: &str) -> Option<usize> {
        self.calls.borrow_mut().push(format!("name {name}"));
        self.inner.header.as_ref()?.iter().position(|h| h == name)
    }
}

fn recording() -> Recording {
    Recording { inner: table(), calls: std::cell::RefCell::new(Vec::new()) }
}

#[test]
fn a_list_asks_the_grid_nothing_for_a_rectangle() {
    let g = recording();
    let e = parse("A,[last]").unwrap().rect(&g, Bounds::Clamp).unwrap_err();
    assert!(e.message.contains("not one rectangle"));
    assert!(g.calls.borrow().is_empty());
}

#[test]
fn names_are_asked_in_order_and_the_header_only_on_a_miss() {
    let g = recording();
    assert_eq!(parse("[first]:[last]").unwrap().columns(&g, Bounds::Strict).unwrap(), vec![1, 2]);
    assert_eq!(*g.calls.borrow(), vec!["ncols", "name first", "name last"]);

    let g = recording();
    let e = parse("[zz]:[last],[dept]").unwrap().columns(&g, Bounds::Strict).unwrap_err();
    assert_eq!(e.message, "no column named [zz]");
    assert_eq!(*g.calls.borrow(), vec!["ncols", "name zz", "header"]);

    let g = recording();
    let e = parse("3:[last]").unwrap().columns(&g, Bounds::Strict).unwrap_err();
    assert_eq!(e.kind, Kind::Syntax);
    assert_eq!(*g.calls.borrow(), vec!["ncols"]);

    let g = recording();
    assert_eq!(parse("[last]5").unwrap().cells(&g, Bounds::Strict).unwrap().len(), 1);
    assert_eq!(*g.calls.borrow(), vec!["nrows", "ncols", "name last"]);
}

#[test]
fn items_are_trimmed_of_ascii_white_space_only() {
    let spec = parse(" A ,\tB\n").unwrap();
    assert_eq!(spec.columns(&table(), Bounds::Strict).unwrap(), vec![0, 1]);
    let e = parse("\u{a0}A ").unwrap_err();
    assert_eq!(e.kind, Kind::Syntax);
    assert_eq!(e.span, 0..3);
    assert!(parse("\u{a0} ").is_err());
}

#[test]
fn an_empty_spec_is_never_produced_but_reports_empty() {
    let spec = parse("A").unwrap();
    assert!(!spec.is_empty());
    assert_eq!(spec.clone(), spec);
}

#[test]
fn a_parse_has_one_item_per_top_level_comma_plus_one() {
    let spec = parse("A,[x,y]:B, C").unwrap();
    assert_eq!(spec.items().len(), 3);
    assert!(!spec.is_empty());
    for it in spec.items() {
        assert!(!matches!(it, Item::Range { start: None, end: None }));
    }
}

#[test]
fn a_prefix_is_the_parse_of_the_slice_it_measured() {
    for s in ["A:C s/x/y/", "[a,b]:C5 rest", "$", ":[q]]r]7,x", "B2:"] {
        let (spec, used) = parse_prefix(s).unwrap();
        assert!(used > 0, "{s:?}");
        assert_eq!(parse(&s[..used]).unwrap(), spec, "{s:?}");
    }
}

#[test]
fn rows_are_refused_by_columns_whatever_the_table() {
    let grids = [table(), named(&[], 0), named(&["a"], 3)];
    for s in ["3", "$", "C5", "A:3"] {
        for g in &grids {
            for b in [Bounds::Strict, Bounds::Clamp] {
                let e = parse(s).unwrap().columns(g, b).unwrap_err();
                assert_eq!(e.kind, Kind::Syntax, "{s:?}");
                assert!(e.message.contains("only columns"), "{s:?}");
                assert_eq!(e.span, 0..s.len(), "{s:?}");
            }
        }
    }
}

#[test]
fn an_address_without_names_reads_the_same_in_upper_case() {
    for s in ["a:c", "b2:c5", "af,3:$", " d , e5 "] {
        let lower = parse(s).unwrap();
        let upper = parse(&s.to_ascii_uppercase()).unwrap();
        assert_eq!(lower, upper, "{s:?}");
    }
    assert!(parse("a0").is_err() && parse("A0").is_err());
}

#[test]
fn a_list_of_two_texts_is_the_first_list_then_the_second() {
    let t = table();
    for (a, b) in [("A:B", "[last],C"), ("$", "B2"), ("[first]", " E ")] {
        let sa = parse(a).unwrap();
        let sb = parse(b).unwrap();
        let joined = parse(&format!("{a},{b}")).unwrap();
        assert_eq!(joined.items().len(), sa.items().len() + sb.items().len());
        assert_eq!(&joined.items()[..sa.items().len()], sa.items());
        assert_eq!(&joined.items()[sa.items().len()..], sb.items());
        if let (Ok(va), Ok(vb)) = (sa.columns(&t, Bounds::Strict), sb.columns(&t, Bounds::Strict)) {
            let mut both = va.clone();
            both.extend(vb);
            assert_eq!(joined.columns(&t, Bounds::Strict).unwrap(), both);
        } else {
            assert!(joined.columns(&t, Bounds::Strict).is_err());
        }
    }
}

#[test]
fn a_range_reads_the_same_written_either_way() {
    let t = table();
    for (x, y) in [("A", "C"), ("[first]", "E"), (" [last] ", "B"), ("D", "[id]")] {
        for b in [Bounds::Strict, Bounds::Clamp] {
            let fwd = parse(&format!("{x}:{y}")).unwrap();
            let rev = parse(&format!("{y}:{x}")).unwrap();
            assert_eq!(fwd.columns(&t, b).unwrap(), rev.columns(&t, b).unwrap(), "{x}:{y}");
        }
    }
    assert_eq!(parse("C:A").unwrap().columns(&t, Bounds::Strict).unwrap(), vec![0, 1, 2]);
}
