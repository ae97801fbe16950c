// Resolving a parsed spec against a real table.
use crate::error::{Error, ErrorV};
use crate::grammar::{item_rows_ok, ColRefV, ItemV, PosV, SpecV};
use crate::letters::col_to_letter;
use crate::parse::{opt_pos_view, result_view, ColRef, Item, Pos, Spec};
use crate::placement::{
    axes_v, axis_extent, cells_upto, check_col_v, check_row_v, clamp_span_v, col_index_v,
    column_only_v, columns_upto, end_axes_v, end_column_v, inclusive, item_columns_v,
    item_rect_v, last_index, ordered_v, rect_cells, spec_cells, spec_columns, spec_rect,
    AnswersV, Bounds, Rect,
};
use crate::text::{append_str, push_decimal, string_from};
use core::ops::Range;
use std::collections::BTreeSet;
use vstd::prelude::*;

verus! {

broadcast use vstd::std_specs::btree::group_btree_axioms, vstd::laws_cmp::group_laws_cmp;

/// Of a header row and a name, `r` is the index of the first header equal to the name, or
/// `None` where no header is.
pub open spec fn first_match(header: Seq<String>, name: Seq<char>, r: Option<usize>) -> bool {
    &&& r matches Some(i) ==> i < header.len() && header[i as int]@ == name && forall|j: int|
        0 <= j < i ==> (#[trigger] header[j])@ != name
    &&& r is None ==> forall|j: int| 0 <= j < header.len() ==> (#[trigger] header[j])@ != name
}

/// Of what a grid's `header` returned, `r` is the column of the name: the first header equal to
/// it, and `None` where there is no header row or no header is.
pub open spec fn header_lookup(h: Option<&[String]>, name: Seq<char>, r: Option<usize>) -> bool {
    match h {
        Some(s) => first_match(s@, name, r),
        None => r is None,
    }
}

/// The index of the first header equal to `name`, if any.
pub fn header_position(header: &[String], name: &str) -> (r: Option<usize>)
    ensures
        first_match(header@, name@, r),
{
    let wanted = string_from(name);
    let mut i: usize = 0;
    while i < header.len()
        invariant
            i <= header@.len(),
            wanted@ == name@,
            forall|j: int| 0 <= j < i ==> (#[trigger] header@[j])@ != name@,
        decreases header@.len() - i,
    {
        if header[i] == wanted {
            return Some(i);
        }
        i = i + 1;
    }
    None
}

/// What a table has to tell this crate to be addressable: how big it is, and what its columns
/// are called. Deliberately tiny — a CLI buffer, a GTK list model, and a test fixture should
/// all be able to implement it without reshaping themselves around it.
pub trait Grid {
    fn nrows(&self) -> usize;

    fn ncols(&self) -> usize;

    /// The header row, if the table has one. `None` means addresses by name cannot resolve.
    fn header(&self) -> Option<&[String]>;

    /// Column index for a header name. Case-sensitive and exact by default
    /// (`[userId]` is not `[userid]`); override to match differently.
    fn name_to_col(&self, name: &str) -> (r: Option<usize>)
        default_ensures
            exists|h: Option<&[String]>|
                call_ensures(Self::header, (self,), h) && #[trigger] header_lookup(h, name@, r),
    {
        let h = self.header();
        assert(call_ensures(Self::header, (self,), h));
        let r = match h {
            Some(s) => header_position(s, name),
            None => None,
        };
        assert(header_lookup(h, name@, r));
        r
    }
}

/// What a table answered about one spec: its size, whether it has a header row, and for each
/// item the columns its named ends resolved to (`.0` for a single positional or a range's
/// start, `.1` for a range's end; `None` where that end names no column by name, or names one
/// the table does not have).
pub struct GridAnswers {
    pub nrows: usize,
    pub ncols: usize,
    pub has_header: bool,
    pub found: Vec<(Option<usize>, Option<usize>)>,
}

impl View for GridAnswers {
    type V = AnswersV;

    open spec fn view(&self) -> AnswersV {
        AnswersV {
            nrows: self.nrows,
            ncols: self.ncols,
            has_header: self.has_header,
            found: self.found@,
        }
    }
}

/// The header name a positional names its column by, where it names it that way.
pub open spec fn pos_header_name(p: PosV) -> Option<Seq<char>> {
    match p {
        PosV::Column(ColRefV::Name(n)) => Some(n),
        PosV::Cell { col: ColRefV::Name(n), .. } => Some(n),
        _ => None,
    }
}

/// The header name a range end names its column by, where there is such an end.
pub open spec fn end_header_name(p: Option<PosV>) -> Option<Seq<char>> {
    match p {
        Some(q) => pos_header_name(q),
        None => None,
    }
}

/// `r` is an answer the grid's `name_to_col` gives for `name`.
pub open spec fn grid_answer<G: Grid>(grid: &G, name: Seq<char>, r: Option<usize>) -> bool {
    exists|s: &str| s@ == name && #[trigger] call_ensures(G::name_to_col, (grid, s), r)
}

/// `hh` is what the grid's `header` says of whether it has a header row.
pub open spec fn header_answer<G: Grid>(grid: &G, hh: bool) -> bool {
    exists|h: Option<&[String]>| #[trigger] call_ensures(G::header, (grid,), h) && hh == (h is Some)
}

/// One end, asked of the grid: where it names its column by `name`, `f` is the grid's
/// `name_to_col` answer for that name and, where that is none, `hh` is what its `header` says;
/// where it names no column by name, nothing is asked and nothing found.
pub open spec fn end_asked<G: Grid>(
    grid: &G,
    name: Option<Seq<char>>,
    f: Option<usize>,
    hh: bool,
) -> bool {
    match name {
        Some(n) => grid_answer(grid, n, f) && (f is None ==> header_answer(grid, hh)),
        None => f is None,
    }
}

/// The two ends of an item: a single positional is its own first end, with no second.
pub open spec fn item_ends(item: ItemV) -> (Option<PosV>, Option<PosV>) {
    match item {
        ItemV::Single(p) => (Some(p), None),
        ItemV::Range { start, end } => (start, end),
    }
}

/// The header name an end names a whole column by, where it does.
pub open spec fn column_name(p: Option<PosV>) -> Option<Seq<char>> {
    match p {
        Some(PosV::Column(ColRefV::Name(n))) => Some(n),
        _ => None,
    }
}

/// What resolving one item to columns asks the grid: the name of its first end, if a whole
/// column by name, and that of its second end only where the first resolved.
pub open spec fn item_asked_columns<G: Grid>(
    grid: &G,
    item: ItemV,
    f: (Option<usize>, Option<usize>),
    hh: bool,
    span: (usize, usize),
) -> bool {
    let (st, en) = item_ends(item);
    &&& end_asked(grid, column_name(st), f.0, hh)
    &&& end_column_v(st, f.0, hh, span) is Ok ==> end_asked(grid, column_name(en), f.1, hh)
}

/// What resolving one item to a rectangle asks the grid, in a table of the given size: the
/// name of its first end, if it names its column by name, and that of its second end only
/// where the first resolved.
pub open spec fn item_asked_rect<G: Grid>(
    grid: &G,
    item: ItemV,
    f: (Option<usize>, Option<usize>),
    nrows: usize,
    ncols: usize,
    hh: bool,
    span: (usize, usize),
) -> bool {
    let (st, en) = item_ends(item);
    let a = AnswersV { nrows, ncols, has_header: hh, found: Seq::empty() };
    &&& end_asked(grid, end_header_name(st), f.0, hh)
    &&& end_axes_v(st, f.0, a, span) is Ok ==> end_asked(grid, end_header_name(en), f.1, hh)
}

/// Every item that resolution to columns reaches (all before it resolved) was asked of the
/// grid as [`item_asked_columns`] says, with the answers in `a`.
pub open spec fn columns_asked<G: Grid>(grid: &G, sv: SpecV, a: AnswersV, bounds: Bounds) -> bool {
    forall|k: int|
        #![trigger a.found[k]]
        0 <= k < sv.items.len() && columns_upto(sv, a, bounds, k) is Ok ==> item_asked_columns(
            grid,
            sv.items[k],
            a.found[k],
            a.has_header,
            sv.spans[k],
        )
}

/// Every item that resolution to cells reaches was asked of the grid as [`item_asked_rect`]
/// says, with the answers in `a`.
pub open spec fn cells_asked<G: Grid>(grid: &G, sv: SpecV, a: AnswersV, bounds: Bounds) -> bool {
    forall|k: int|
        #![trigger a.found[k]]
        0 <= k < sv.items.len() && cells_upto(sv, a, bounds, k) is Ok ==> item_asked_rect(
            grid,
            sv.items[k],
            a.found[k],
            a.nrows,
            a.ncols,
            a.has_header,
            sv.spans[k],
        )
}

/// Ask the grid for the column of a header name; where it has none, ask whether it has a
/// header row at all.
fn ask_name<G: Grid>(n: &String, grid: &G) -> (r: (Option<usize>, bool))
    ensures
        end_asked(grid, Some(n@), r.0, r.1),
        r.0 is Some ==> !r.1,
{
    let s = n.as_str();
    let f = grid.name_to_col(s);
    assert(call_ensures(G::name_to_col, (grid, s), f));
    match f {
        Some(i) => (Some(i), false),
        None => {
            let h = grid.header();
            assert(call_ensures(G::header, (grid,), h));
            (None, h.is_some())
        },
    }
}

/// Ask the grid what a positional needs for a whole column: its name, if it is one by name.
fn ask_pos_column<G: Grid>(p: &Pos, grid: &G) -> (r: (Option<usize>, bool))
    ensures
        end_asked(grid, column_name(Some(p@)), r.0, r.1),
        r.0 is Some || column_name(Some(p@)) is None ==> !r.1,
{
    match p {
        Pos::Column(ColRef::Name(n)) => ask_name(n, grid),
        _ => (None, false),
    }
}

fn ask_end_column<G: Grid>(p: &Option<Pos>, grid: &G) -> (r: (Option<usize>, bool))
    ensures
        end_asked(grid, column_name(opt_pos_view(*p)), r.0, r.1),
        r.0 is Some || column_name(opt_pos_view(*p)) is None ==> !r.1,
{
    match p {
        Some(q) => ask_pos_column(q, grid),
        None => (None, false),
    }
}

/// Ask the grid what a positional needs for a rectangle: its column's name, if it names one.
fn ask_pos_axes<G: Grid>(p: &Pos, grid: &G) -> (r: (Option<usize>, bool))
    ensures
        end_asked(grid, pos_header_name(p@), r.0, r.1),
        r.0 is Some || pos_header_name(p@) is None ==> !r.1,
{
    match p {
        Pos::Column(ColRef::Name(n)) => ask_name(n, grid),
        Pos::Cell { col: ColRef::Name(n), .. } => ask_name(n, grid),
        _ => (None, false),
    }
}

fn ask_end_axes<G: Grid>(p: &Option<Pos>, grid: &G) -> (r: (Option<usize>, bool))
    ensures
        end_asked(grid, end_header_name(opt_pos_view(*p)), r.0, r.1),
        r.0 is Some || end_header_name(opt_pos_view(*p)) is None ==> !r.1,
{
    match p {
        Some(q) => ask_pos_axes(q, grid),
        None => (None, false),
    }
}

fn lookup_error(message: String, span: (usize, usize)) -> (e: Error)
    ensures
        e@ == crate::error::lookup_v(message@, span.0 as int, span.1 as int),
{
    Error::lookup(message, Range { start: span.0, end: span.1 })
}

fn syntax_error(message: String, span: (usize, usize)) -> (e: Error)
    ensures
        e@ == crate::error::syntax_v(message@, span.0 as int, span.1 as int),
{
    Error::syntax(message, Range { start: span.0, end: span.1 })
}

fn col_index(c: &ColRef, found: Option<usize>, has_header: bool, span: (usize, usize)) -> (r: Result<usize, Error>)
    ensures
        result_view(r) == col_index_v(c@, found, has_header, span),
{
    match c {
        ColRef::Letters(i) => Ok(*i),
        ColRef::Name(name) => match found {
            Some(i) => Ok(i),
            None => {
                if !has_header {
                    let mut m = string_from("column name [");
                    append_str(&mut m, name.as_str());
                    append_str(&mut m, "] needs a header row (this table has none — address by letter instead)");
                    Err(lookup_error(m, span))
                } else {
                    let mut m = string_from("no column named [");
                    append_str(&mut m, name.as_str());
                    append_str(&mut m, "]");
                    Err(lookup_error(m, span))
                }
            },
        },
    }
}

/// Resolve a positional that must name a column and only a column.
fn column_only(p: &Pos, found: Option<usize>, has_header: bool, span: (usize, usize)) -> (r: Result<usize, Error>)
    ensures
        result_view(r) == column_only_v(p@, found, has_header, span),
{
    match p {
        Pos::Column(c) => col_index(c, found, has_header, span),
        Pos::Row(_) | Pos::LastRow => Err(syntax_error(string_from("this names a row, but only columns can be addressed here"), span)),
        Pos::Cell { .. } => Err(syntax_error(string_from("this names a single cell, but only columns can be addressed here"), span)),
    }
}

fn end_column(p: &Option<Pos>, found: Option<usize>, has_header: bool, span: (usize, usize)) -> (r: Result<Option<usize>, Error>)
    ensures
        result_view(r) == end_column_v(opt_pos_view(*p), found, has_header, span),
{
    match p {
        None => Ok(None),
        Some(q) => match column_only(q, found, has_header, span) {
            Ok(c) => Ok(Some(c)),
            Err(e) => Err(e),
        },
    }
}

fn check_col(c: usize, ncols: usize, span: (usize, usize)) -> (r: Result<(), Error>)
    ensures
        match check_col_v(c, ncols, span) {
            Some(e) => r matches Err(x) && x@ == e,
            None => r is Ok,
        },
{
    if ncols == 0 {
        return Err(lookup_error(string_from("the table has no columns"), span));
    }
    if c >= ncols {
        let mut m = string_from("column ");
        let letters = col_to_letter(c);
        append_str(&mut m, letters.as_str());
        append_str(&mut m, " is beyond the table's ");
        push_decimal(&mut m, ncols);
        append_str(&mut m, " columns");
        return Err(lookup_error(m, span));
    }
    Ok(())
}

fn check_row(r: usize, nrows: usize, span: (usize, usize)) -> (res: Result<(), Error>)
    requires
        r < usize::MAX,
    ensures
        match check_row_v(r, nrows, span) {
            Some(e) => res matches Err(x) && x@ == e,
            None => res is Ok,
        },
{
    if nrows == 0 {
        return Err(lookup_error(string_from("the table has no rows"), span));
    }
    if r >= nrows {
        let mut m = string_from("row ");
        push_decimal(&mut m, r + 1);
        append_str(&mut m, " is beyond the table's ");
        push_decimal(&mut m, nrows);
        append_str(&mut m, " rows");
        return Err(lookup_error(m, span));
    }
    Ok(())
}

/// The ends of a column span: a missing start is the first column, a missing end the last.
fn span_ends(lo: Option<usize>, hi: Option<usize>, ncols: usize) -> (r: (usize, usize))
    ensures
        r.0 == (match lo {
            Some(c) => c,
            None => 0usize,
        }),
        r.1 == (match hi {
            Some(c) => c,
            None => last_index(ncols),
        }),
{
    (
        match lo {
            Some(c) => c,
            None => 0,
        },
        match hi {
            Some(c) => c,
            None => ncols.saturating_sub(1),
        },
    )
}

fn ordered(a: usize, b: usize) -> (r: (usize, usize))
    ensures
        r == ordered_v(a, b),
{
    if a <= b {
        (a, b)
    } else {
        (b, a)
    }
}

/// Clamp an inclusive `[lo, hi]` span to an axis of length `len`; `None` if it starts past the
/// end, since a span wholly past the end selects nothing rather than the last cell.
fn clamp_span(lo: usize, hi: usize, len: usize) -> (r: Option<(usize, usize)>)
    ensures
        r == clamp_span_v(lo, hi, len),
{
    if len == 0 || lo >= len {
        None
    } else {
        Some((lo, if hi <= len - 1 { hi } else { len - 1 }))
    }
}

/// `lo, lo + 1, ..., hi` appended.
fn push_inclusive(out: &mut Vec<usize>, lo: usize, hi: usize)
    requires
        lo <= hi < usize::MAX,
    ensures
        final(out)@ == old(out)@ + inclusive(lo, hi),
{
    let mut c = lo;
    while c <= hi
        invariant
            lo <= c <= hi + 1,
            hi < usize::MAX,
            out@ == old(out)@ + inclusive(lo, hi).take(c - lo),
        decreases hi + 1 - c,
    {
        out.push(c);
        c = c + 1;
        assert(out@ =~= old(out)@ + inclusive(lo, hi).take(c - lo));
    }
    assert(inclusive(lo, hi).take(c - lo) =~= inclusive(lo, hi));
}

/// Append the columns one item selects.
fn item_columns(
    item: &Item,
    found: (Option<usize>, Option<usize>),
    ans: &GridAnswers,
    span: (usize, usize),
    bounds: Bounds,
    out: &mut Vec<usize>,
) -> (r: Result<(), Error>)
    ensures
        match item_columns_v(item@, found, ans@, span, bounds) {
            Ok(w) => r is Ok && final(out)@ == old(out)@ + w,
            Err(e) => r matches Err(x) && x@ == e,
        },
{
    reveal(item_columns_v);
    let ncols = ans.ncols;
    match item {
        Item::Single(p) => {
            let c = match column_only(p, found.0, ans.has_header, span) {
                Ok(c) => c,
                Err(e) => return Err(e),
            };
            match bounds {
                Bounds::Strict => {
                    match check_col(c, ncols, span) {
                        Ok(()) => {},
                        Err(e) => return Err(e),
                    }
                    out.push(c);
                },
                Bounds::Clamp => {
                    // Past the end selects nothing — no phantom columns.
                    if c < ncols {
                        out.push(c);
                    }
                },
            }
            assert(out@ =~= old(out)@ + item_columns_v(item@, found, ans@, span, bounds)->Ok_0);
            Ok(())
        },
        Item::Range { start, end } => {
            let lo = match end_column(start, found.0, ans.has_header, span) {
                Ok(c) => c,
                Err(e) => return Err(e),
            };
            let hi = match end_column(end, found.1, ans.has_header, span) {
                Ok(c) => c,
                Err(e) => return Err(e),
            };
            let (lo, hi) = span_ends(lo, hi, ncols);
            let (lo, hi) = ordered(lo, hi);
            match bounds {
                Bounds::Strict => {
                    match check_col(hi, ncols, span) {
                        Ok(()) => {},
                        Err(e) => return Err(e),
                    }
                    push_inclusive(out, lo, hi);
                },
                Bounds::Clamp => {
                    match clamp_span(lo, hi, ncols) {
                        Some((lo, hi)) => push_inclusive(out, lo, hi),
                        None => {
                            assert(out@ =~= old(out)@ + Seq::<usize>::empty());
                        },
                    }
                },
            }
            Ok(())
        },
    }
}

proof fn lemma_columns_sticky(sv: SpecV, ans: AnswersV, bounds: Bounds, k: int, m: int)
    requires
        0 <= k <= m,
        columns_upto(sv, ans, bounds, k) is Err,
    ensures
        columns_upto(sv, ans, bounds, m) == columns_upto(sv, ans, bounds, k),
    decreases m - k,
{
    if k < m {
        lemma_columns_sticky(sv, ans, bounds, k, m - 1);
    }
}

proof fn lemma_cells_sticky(sv: SpecV, ans: AnswersV, bounds: Bounds, k: int, m: int)
    requires
        0 <= k <= m,
        cells_upto(sv, ans, bounds, k) is Err,
    ensures
        cells_upto(sv, ans, bounds, m) == cells_upto(sv, ans, bounds, k),
    decreases m - k,
{
    if k < m {
        lemma_cells_sticky(sv, ans, bounds, k, m - 1);
    }
}

/// The `(row, column)` extents a positional pins, each 0-based; `None` on an axis it leaves free.
fn axes(p: &Pos, found: Option<usize>, ans: &GridAnswers, span: (usize, usize)) -> (r: Result<(Option<usize>, Option<usize>), Error>)
    ensures
        result_view(r) == axes_v(p@, found, ans@, span),
{
    match p {
        Pos::Column(c) => match col_index(c, found, ans.has_header, span) {
            Ok(i) => Ok((None, Some(i))),
            Err(e) => Err(e),
        },
        Pos::Row(r) => Ok((Some(*r), None)),
        Pos::LastRow => Ok((Some(ans.nrows.saturating_sub(1)), None)),
        Pos::Cell { col, row } => match col_index(col, found, ans.has_header, span) {
            Ok(i) => Ok((Some(*row), Some(i))),
            Err(e) => Err(e),
        },
    }
}

fn end_axes(p: &Option<Pos>, found: Option<usize>, ans: &GridAnswers, span: (usize, usize)) -> (r: Result<(Option<usize>, Option<usize>), Error>)
    ensures
        result_view(r) == end_axes_v(opt_pos_view(*p), found, ans@, span),
{
    match p {
        None => Ok((None, None)),
        Some(q) => axes(q, found, ans, span),
    }
}

/// A rectangle that can be walked cell by cell.
pub open spec fn rect_ok(r: Rect) -> bool {
    r.top <= r.bottom < usize::MAX && r.left <= r.right < usize::MAX
}

/// The rectangle one item names, under the given bounds.
fn item_rect(
    item: &Item,
    found: (Option<usize>, Option<usize>),
    ans: &GridAnswers,
    span: (usize, usize),
    bounds: Bounds,
) -> (r: Result<Option<Rect>, Error>)
    requires
        item_rows_ok(item@),
    ensures
        result_view(r) == item_rect_v(item@, found, ans@, span, bounds),
        r matches Ok(Some(x)) ==> rect_ok(x),
{
    reveal(item_rect_v);
    let nrows = ans.nrows;
    let ncols = ans.ncols;
    let (sr, sc, er, ec) = match item {
        Item::Single(p) => {
            let (r, c) = match axes(p, found.0, ans, span) {
                Ok(x) => x,
                Err(e) => return Err(e),
            };
            (r, c, r, c)
        },
        Item::Range { start, end } => {
            let (sr, sc) = match end_axes(start, found.0, ans, span) {
                Ok(x) => x,
                Err(e) => return Err(e),
            };
            let (er, ec) = match end_axes(end, found.1, ans, span) {
                Ok(x) => x,
                Err(e) => return Err(e),
            };
            (sr, sc, er, ec)
        },
    };
    let has_row = sr.is_some() || er.is_some();
    let has_col = sc.is_some() || ec.is_some();
    if !has_row && !has_col {
        return Err(syntax_error(string_from("this address pins neither a row nor a column"), span));
    }
    // An axis nobody pinned spans the whole table; a half-pinned one runs to its edge.
    let (r1, r2) = if has_row {
        ordered(
            match sr {
                Some(v) => v,
                None => 0,
            },
            match er {
                Some(v) => v,
                None => nrows.saturating_sub(1),
            },
        )
    } else {
        (0, nrows.saturating_sub(1))
    };
    let (c1, c2) = if has_col {
        ordered(
            match sc {
                Some(v) => v,
                None => 0,
            },
            match ec {
                Some(v) => v,
                None => ncols.saturating_sub(1),
            },
        )
    } else {
        (0, ncols.saturating_sub(1))
    };
    assert((r1, r2) == axis_extent(sr, er, nrows));
    assert((c1, c2) == axis_extent(sc, ec, ncols));
    match bounds {
        Bounds::Strict => {
            match check_row(r2, nrows, span) {
                Ok(()) => {},
                Err(e) => return Err(e),
            }
            match check_col(c2, ncols, span) {
                Ok(()) => {},
                Err(e) => return Err(e),
            }
            Ok(Some(Rect { top: r1, left: c1, bottom: r2, right: c2 }))
        },
        Bounds::Clamp => Ok(
            match (clamp_span(r1, r2, nrows), clamp_span(c1, c2, ncols)) {
                (Some((top, bottom)), Some((left, right))) => Some(Rect { top, left, bottom, right }),
                _ => None,
            },
        ),
    }
}

/// Add every cell of a rectangle to the set.
fn insert_rect(set: &mut BTreeSet<(usize, usize)>, r: Rect)
    requires
        rect_ok(r),
    ensures
        final(set)@ == old(set)@.union(rect_cells(r)),
{
    let mut row = r.top;
    while row <= r.bottom
        invariant
            rect_ok(r),
            r.top <= row <= r.bottom + 1,
            set@ == old(set)@.union(
                Set::new(|p: (usize, usize)| r.top <= p.0 < row && r.left <= p.1 <= r.right),
            ),
        decreases r.bottom + 1 - row,
    {
        let mut col = r.left;
        while col <= r.right
            invariant
                rect_ok(r),
                r.top <= row <= r.bottom,
                r.left <= col <= r.right + 1,
                set@ == old(set)@.union(
                    Set::new(|p: (usize, usize)| r.top <= p.0 < row && r.left <= p.1 <= r.right),
                ).union(Set::new(|p: (usize, usize)| p.0 == row && r.left <= p.1 < col)),
            decreases r.right + 1 - col,
        {
            set.insert((row, col));
            col = col + 1;
            assert(set@ =~= old(set)@.union(
                Set::new(|p: (usize, usize)| r.top <= p.0 < row && r.left <= p.1 <= r.right),
            ).union(Set::new(|p: (usize, usize)| p.0 == row && r.left <= p.1 < col)));
        }
        row = row + 1;
        assert(set@ =~= old(set)@.union(
            Set::new(|p: (usize, usize)| r.top <= p.0 < row && r.left <= p.1 <= r.right),
        ));
    }
    assert(set@ =~= old(set)@.union(rect_cells(r)));
}

impl Spec {
    /// Resolve to an ordered list of column indices, given the grid's answers, rejecting
    /// anything that names a row.
    pub fn columns_with(&self, ans: &GridAnswers, bounds: Bounds) -> (r: Result<Vec<usize>, Error>)
        requires
            ans@.found.len() == self@.items.len(),
        ensures
            result_view(r) == spec_columns(self@, ans@, bounds),
    {
        proof {
            use_type_invariant(self);
            self.lemma_view();
        }
        let ghost sv = self@;
        let mut out: Vec<usize> = Vec::new();
        let mut k: usize = 0;
        while k < self.items.len()
            invariant
                sv == self@,
                sv.items == self.items@.map_values(|i: Item| i@),
                sv.spans == self.spans@,
                self.items.len() == self.spans.len(),
                ans@.found.len() == self.items.len(),
                k <= self.items.len(),
                columns_upto(sv, ans@, bounds, k as int) == Ok::<Seq<usize>, ErrorV>(out@),
            decreases self.items.len() - k,
        {
            match item_columns(&self.items[k], ans.found[k], ans, self.spans[k], bounds, &mut out) {
                Ok(()) => {},
                Err(e) => {
                    proof {
                        lemma_columns_sticky(sv, ans@, bounds, k + 1, sv.items.len() as int);
                    }
                    return Err(e);
                },
            }
            k = k + 1;
        }
        Ok(out)
    }

    /// Resolve to a set of `(row, column)` cells, given the grid's answers. A `BTreeSet` keeps
    /// them in row-major order, which is the order a table renders in.
    pub fn cells_with(&self, ans: &GridAnswers, bounds: Bounds) -> (r: Result<BTreeSet<(usize, usize)>, Error>)
        requires
            ans@.found.len() == self@.items.len(),
        ensures
            result_view(r) == spec_cells(self@, ans@, bounds),
    {
        proof {
            use_type_invariant(self);
            self.lemma_view();
        }
        let ghost sv = self@;
        let mut set: BTreeSet<(usize, usize)> = BTreeSet::new();
        let mut k: usize = 0;
        while k < self.items.len()
            invariant
                sv == self@,
                sv.items == self.items@.map_values(|i: Item| i@),
                sv.spans == self.spans@,
                self.items.len() == self.spans.len(),
                forall|j: int| 0 <= j < self.items.len() ==> item_rows_ok(#[trigger] self.items@[j]@),
                ans@.found.len() == self.items.len(),
                k <= self.items.len(),
                cells_upto(sv, ans@, bounds, k as int) == Ok::<Set<(usize, usize)>, ErrorV>(set@),
            decreases self.items.len() - k,
        {
            assert(item_rows_ok(self.items@[k as int]@));
            match item_rect(&self.items[k], ans.found[k], ans, self.spans[k], bounds) {
                Ok(Some(r)) => insert_rect(&mut set, r),
                Ok(None) => {},
                Err(e) => {
                    proof {
                        lemma_cells_sticky(sv, ans@, bounds, k + 1, sv.items.len() as int);
                    }
                    return Err(e);
                },
            }
            k = k + 1;
        }
        Ok(set)
    }

    /// The single rectangle this spec names, given the grid's answers.
    pub fn rect_with(&self, ans: &GridAnswers, bounds: Bounds) -> (r: Result<Option<Rect>, Error>)
        requires
            ans@.found.len() == self@.items.len(),
        ensures
            result_view(r) == spec_rect(self@, ans@, bounds),
    {
        proof {
            use_type_invariant(self);
            self.lemma_view();
        }
        let n = self.items.len();
        if n == 0 {
            Ok(None)
        } else if n == 1 {
            assert(item_rows_ok(self.items@[0]@));
            item_rect(&self.items[0], ans.found[0], ans, self.spans[0], bounds)
        } else {
            let span = (self.spans[0].0, self.spans[n - 1].1);
            Err(syntax_error(string_from("this address names several separate ranges, which is not one rectangle"), span))
        }
    }

    /// Resolve to an ordered list of column indices, rejecting anything that names a row.
    ///
    /// Order is preserved and duplicates are kept: `D,B,B` gives `[3, 1, 1]`, because whether
    /// repetition is meaningful is the caller's question, not this crate's.
    ///
    /// The grid is asked for its width, then item by item for the names the items use, and
    /// for its header row only where a name is not found; nothing past a failing item is asked.
    pub fn columns<G: Grid>(&self, grid: &G, bounds: Bounds) -> (r: Result<Vec<usize>, Error>)
        ensures
            exists|a: AnswersV|
                #![trigger spec_columns(self@, a, bounds)]
                {
                    &&& a.found.len() == self@.items.len()
                    &&& call_ensures(G::ncols, (grid,), a.ncols)
                    &&& columns_asked(grid, self@, a, bounds)
                    &&& result_view(r) == spec_columns(self@, a, bounds)
                },
    {
        proof {
            use_type_invariant(self);
            self.lemma_view();
        }
        let ghost sv = self@;
        let n = self.items.len();
        let ncols = grid.ncols();
        assert(call_ensures(G::ncols, (grid,), ncols));
        let ghost mut fs: Seq<(Option<usize>, Option<usize>)> = Seq::new(
            n as nat,
            |i: int| (None::<usize>, None::<usize>),
        );
        let mut out: Vec<usize> = Vec::new();
        let mut k: usize = 0;
        while k < n
            invariant
                sv == self@,
                sv.items == self.items@.map_values(|i: Item| i@),
                sv.spans == self.spans@,
                n == self.items.len(),
                self.items.len() == self.spans.len(),
                k <= n,
                fs.len() == n,
                call_ensures(G::ncols, (grid,), ncols),
                columns_upto(sv, (AnswersV { nrows: 0, ncols, has_header: false, found: fs }), bounds, k as int)
                    == Ok::<Seq<usize>, ErrorV>(out@),
                forall|j: int, h: bool|
                    0 <= j < k ==> #[trigger] item_asked_columns(grid, sv.items[j], fs[j], h, sv.spans[j]),
            decreases n - k,
        {
            let ghost a0 = AnswersV { nrows: 0, ncols, has_header: false, found: fs };
            let (res, Ghost(f), Ghost(hh)) = ask_item_columns(
                &self.items[k],
                grid,
                ncols,
                self.spans[k],
                bounds,
                &mut out,
            );
            let ghost fs2 = fs.update(k as int, f);
            let ghost t = AnswersV { nrows: 0, ncols, has_header: hh, found: Seq::empty() };
            match res {
                Ok(()) => {
                    proof {
                        let a1 = AnswersV { nrows: 0, ncols, has_header: false, found: fs2 };
                        lemma_columns_frame(sv, a0, a1, bounds, k as int);
                        lemma_item_columns_same(sv.items[k as int], f, t, a1, sv.spans[k as int], bounds);
                        fs = fs2;
                    }
                },
                Err(e) => {
                    proof {
                        let a = AnswersV { nrows: 0, ncols, has_header: hh, found: fs2 };
                        lemma_columns_frame(sv, a0, a, bounds, k as int);
                        lemma_item_columns_same(sv.items[k as int], f, t, a, sv.spans[k as int], bounds);
                        assert(columns_upto(sv, a, bounds, k + 1) == Err::<Seq<usize>, ErrorV>(e@));
                        lemma_columns_sticky(sv, a, bounds, k + 1, n as int);
                        assert forall|j: int|
                            0 <= j < sv.items.len() && columns_upto(sv, a, bounds, j) is Ok implies
                            item_asked_columns(grid, sv.items[j], #[trigger] a.found[j], a.has_header, sv.spans[j]) by {
                            if j > k {
                                lemma_columns_sticky(sv, a, bounds, k + 1, j);
                            }
                        }
                        assert(spec_columns(sv, a, bounds) == Err::<Seq<usize>, ErrorV>(e@));
                    }
                    return Err(e);
                },
            }
            k = k + 1;
        }
        proof {
            let a = AnswersV { nrows: 0, ncols, has_header: false, found: fs };
            assert forall|j: int|
                0 <= j < sv.items.len() && columns_upto(sv, a, bounds, j) is Ok implies
                item_asked_columns(grid, sv.items[j], #[trigger] a.found[j], a.has_header, sv.spans[j]) by {
                assert(item_asked_columns(grid, sv.items[j], fs[j], false, sv.spans[j]));
            }
            assert(spec_columns(sv, a, bounds) == Ok::<Seq<usize>, ErrorV>(out@));
        }
        Ok(out)
    }

    /// Resolve to a set of `(row, column)` cells. A `BTreeSet` keeps them in row-major order,
    /// which is the order a table renders in.
    ///
    /// The grid is asked for its size once, then item by item for the names the items use, and
    /// for its header row only where a name is not found; nothing past a failing item is asked.
    pub fn cells<G: Grid>(&self, grid: &G, bounds: Bounds) -> (r: Result<BTreeSet<(usize, usize)>, Error>)
        ensures
            exists|a: AnswersV|
                #![trigger spec_cells(self@, a, bounds)]
                {
                    &&& a.found.len() == self@.items.len()
                    &&& self@.items.len() > 0 ==> call_ensures(G::nrows, (grid,), a.nrows)
                        && call_ensures(G::ncols, (grid,), a.ncols)
                    &&& cells_asked(grid, self@, a, bounds)
                    &&& result_view(r) == spec_cells(self@, a, bounds)
                },
    {
        proof {
            use_type_invariant(self);
            self.lemma_view();
        }
        let ghost sv = self@;
        let n = self.items.len();
        let mut set: BTreeSet<(usize, usize)> = BTreeSet::new();
        if n == 0 {
            proof {
                let a = AnswersV { nrows: 0, ncols: 0, has_header: false, found: Seq::empty() };
                assert(spec_cells(sv, a, bounds) == Ok::<Set<(usize, usize)>, ErrorV>(set@));
            }
            return Ok(set);
        }
        let nrows = grid.nrows();
        assert(call_ensures(G::nrows, (grid,), nrows));
        let ncols = grid.ncols();
        assert(call_ensures(G::ncols, (grid,), ncols));
        let ghost mut fs: Seq<(Option<usize>, Option<usize>)> = Seq::new(
            n as nat,
            |i: int| (None::<usize>, None::<usize>),
        );
        let mut k: usize = 0;
        while k < n
            invariant
                sv == self@,
                sv.items == self.items@.map_values(|i: Item| i@),
                sv.spans == self.spans@,
                n == self.items.len(),
                n > 0,
                self.items.len() == self.spans.len(),
                forall|j: int| 0 <= j < self.items.len() ==> item_rows_ok(#[trigger] self.items@[j]@),
                k <= n,
                fs.len() == n,
                call_ensures(G::nrows, (grid,), nrows),
                call_ensures(G::ncols, (grid,), ncols),
                cells_upto(sv, (AnswersV { nrows, ncols, has_header: false, found: fs }), bounds, k as int)
                    == Ok::<Set<(usize, usize)>, ErrorV>(set@),
                forall|j: int, h: bool|
                    0 <= j < k ==> #[trigger] item_asked_rect(grid, sv.items[j], fs[j], nrows, ncols, h, sv.spans[j]),
            decreases n - k,
        {
            let ghost a0 = AnswersV { nrows, ncols, has_header: false, found: fs };
            assert(item_rows_ok(self.items@[k as int]@));
            let (res, Ghost(f), Ghost(hh)) = ask_item_rect(
                &self.items[k],
                grid,
                nrows,
                ncols,
                self.spans[k],
                bounds,
            );
            let ghost fs2 = fs.update(k as int, f);
            let ghost t = AnswersV { nrows, ncols, has_header: hh, found: Seq::empty() };
            match res {
                Ok(opt) => {
                    proof {
                        let a1 = AnswersV { nrows, ncols, has_header: false, found: fs2 };
                        lemma_cells_frame(sv, a0, a1, bounds, k as int);
                        lemma_item_rect_same(sv.items[k as int], f, t, a1, sv.spans[k as int], bounds);
                        fs = fs2;
                    }
                    match opt {
                        Some(x) => insert_rect(&mut set, x),
                        None => {},
                    }
                },
                Err(e) => {
                    proof {
                        let a = AnswersV { nrows, ncols, has_header: hh, found: fs2 };
                        lemma_cells_frame(sv, a0, a, bounds, k as int);
                        lemma_item_rect_same(sv.items[k as int], f, t, a, sv.spans[k as int], bounds);
                        assert(cells_upto(sv, a, bounds, k + 1) == Err::<Set<(usize, usize)>, ErrorV>(e@));
                        lemma_cells_sticky(sv, a, bounds, k + 1, n as int);
                        assert forall|j: int|
                            0 <= j < sv.items.len() && cells_upto(sv, a, bounds, j) is Ok implies
                            item_asked_rect(grid, sv.items[j], #[trigger] a.found[j], a.nrows, a.ncols, a.has_header, sv.spans[j]) by {
                            if j > k {
                                lemma_cells_sticky(sv, a, bounds, k + 1, j);
                            }
                        }
                        assert(spec_cells(sv, a, bounds) == Err::<Set<(usize, usize)>, ErrorV>(e@));
                    }
                    return Err(e);
                },
            }
            k = k + 1;
        }
        proof {
            let a = AnswersV { nrows, ncols, has_header: false, found: fs };
            assert forall|j: int|
                0 <= j < sv.items.len() && cells_upto(sv, a, bounds, j) is Ok implies
                item_asked_rect(grid, sv.items[j], #[trigger] a.found[j], a.nrows, a.ncols, a.has_header, sv.spans[j]) by {
                assert(item_asked_rect(grid, sv.items[j], fs[j], nrows, ncols, false, sv.spans[j]));
            }
            assert(spec_cells(sv, a, bounds) == Ok::<Set<(usize, usize)>, ErrorV>(set@));
        }
        Ok(set)
    }

    /// The single rectangle this spec names, for callers that want a selection rather than a
    /// cell set — a grid cursor, a status bar, a copy-reference action.
    ///
    /// `Ok(None)` when the spec is empty or resolves to nothing. A spec with more than one
    /// comma-separated item is an error here: a list of disjoint ranges is not a rectangle,
    /// and quietly returning the first one would be a lie.
    ///
    /// Only a spec of one item asks the grid anything: its size, the names the item uses, and
    /// its header row where a name is not found.
    pub fn rect<G: Grid>(&self, grid: &G, bounds: Bounds) -> (r: Result<Option<Rect>, Error>)
        ensures
            exists|a: AnswersV|
                #![trigger spec_rect(self@, a, bounds)]
                {
                    &&& a.found.len() == self@.items.len()
                    &&& self@.items.len() == 1 ==> {
                        &&& call_ensures(G::nrows, (grid,), a.nrows)
                        &&& call_ensures(G::ncols, (grid,), a.ncols)
                        &&& item_asked_rect(
                            grid,
                            self@.items[0],
                            a.found[0],
                            a.nrows,
                            a.ncols,
                            a.has_header,
                            self@.spans[0],
                        )
                    }
                    &&& result_view(r) == spec_rect(self@, a, bounds)
                },
    {
        proof {
            use_type_invariant(self);
            self.lemma_view();
        }
        let ghost sv = self@;
        let n = self.items.len();
        if n != 1 {
            let ghost a = AnswersV {
                nrows: 0,
                ncols: 0,
                has_header: false,
                found: Seq::new(n as nat, |i: int| (None::<usize>, None::<usize>)),
            };
            if n == 0 {
                assert(spec_rect(sv, a, bounds) == Ok::<Option<Rect>, ErrorV>(None));
                return Ok(None);
            }
            let span = (self.spans[0].0, self.spans[n - 1].1);
            let e = syntax_error(
                string_from("this address names several separate ranges, which is not one rectangle"),
                span,
            );
            assert(result_view(Err::<Option<Rect>, Error>(e)) == spec_rect(sv, a, bounds));
            return Err(e);
        }
        let nrows = grid.nrows();
        assert(call_ensures(G::nrows, (grid,), nrows));
        let ncols = grid.ncols();
        assert(call_ensures(G::ncols, (grid,), ncols));
        assert(item_rows_ok(self.items@[0]@));
        let (res, Ghost(f), Ghost(hh)) = ask_item_rect(&self.items[0], grid, nrows, ncols, self.spans[0], bounds);
        proof {
            let t = AnswersV { nrows, ncols, has_header: hh, found: Seq::empty() };
            let a = AnswersV { nrows, ncols, has_header: hh, found: seq![f] };
            lemma_item_rect_same(sv.items[0], f, t, a, sv.spans[0], bounds);
            assert(result_view(res) == spec_rect(sv, a, bounds));
        }
        res
    }
}

/// Ask the grid what one item needs and resolve it to columns, appending them to `out`.
fn ask_item_columns<G: Grid>(
    item: &Item,
    grid: &G,
    ncols: usize,
    span: (usize, usize),
    bounds: Bounds,
    out: &mut Vec<usize>,
) -> (r: (Result<(), Error>, Ghost<(Option<usize>, Option<usize>)>, Ghost<bool>))
    ensures
        item_asked_columns(grid, item@, r.1@, r.2@, span),
        r.0 is Ok ==> forall|h: bool| #[trigger] item_asked_columns(grid, item@, r.1@, h, span),
        match item_columns_v(
            item@,
            r.1@,
            (AnswersV { nrows: 0, ncols, has_header: r.2@, found: Seq::empty() }),
            span,
            bounds,
        ) {
            Ok(w) => r.0 is Ok && final(out)@ == old(out)@ + w,
            Err(e) => r.0 matches Err(x) && x@ == e,
        },
{
    let (f0, h0, f1, h1) = match item {
        Item::Single(p) => {
            let (f, h) = ask_pos_column(p, grid);
            (f, h, None, false)
        },
        Item::Range { start, end } => {
            let (f, h) = ask_end_column(start, grid);
            match end_column(start, f, h, span) {
                Ok(_) => {
                    let (g, h2) = ask_end_column(end, grid);
                    (f, h, g, h2)
                },
                Err(_) => (f, h, None, false),
            }
        },
    };
    let hh = h0 || h1;
    let ans = GridAnswers { nrows: 0, ncols, has_header: hh, found: Vec::new() };
    let res = item_columns(item, (f0, f1), &ans, span, bounds, out);
    proof {
        reveal(item_columns_v);
        assert(ans@ == (AnswersV { nrows: 0, ncols, has_header: hh, found: Seq::empty() }));
    }
    (res, Ghost((f0, f1)), Ghost(hh))
}

/// Ask the grid what one item needs and resolve it to a rectangle.
fn ask_item_rect<G: Grid>(
    item: &Item,
    grid: &G,
    nrows: usize,
    ncols: usize,
    span: (usize, usize),
    bounds: Bounds,
) -> (r: (Result<Option<Rect>, Error>, Ghost<(Option<usize>, Option<usize>)>, Ghost<bool>))
    requires
        item_rows_ok(item@),
    ensures
        item_asked_rect(grid, item@, r.1@, nrows, ncols, r.2@, span),
        r.0 is Ok ==> forall|h: bool| #[trigger] item_asked_rect(grid, item@, r.1@, nrows, ncols, h, span),
        result_view(r.0) == item_rect_v(
            item@,
            r.1@,
            (AnswersV { nrows, ncols, has_header: r.2@, found: Seq::empty() }),
            span,
            bounds,
        ),
        r.0 matches Ok(Some(x)) ==> rect_ok(x),
{
    let ans0 = GridAnswers { nrows, ncols, has_header: false, found: Vec::new() };
    let (f0, h0, f1, h1) = match item {
        Item::Single(p) => {
            let (f, h) = ask_pos_axes(p, grid);
            (f, h, None, false)
        },
        Item::Range { start, end } => {
            let (f, h) = ask_end_axes(start, grid);
            let ans1 = GridAnswers { nrows, ncols, has_header: h, found: Vec::new() };
            match end_axes(start, f, &ans1, span) {
                Ok(_) => {
                    let (g, h2) = ask_end_axes(end, grid);
                    (f, h, g, h2)
                },
                Err(_) => (f, h, None, false),
            }
        },
    };
    let hh = h0 || h1;
    let ans = GridAnswers { nrows, ncols, has_header: hh, found: Vec::new() };
    let res = item_rect(item, (f0, f1), &ans, span, bounds);
    proof {
        reveal(item_rect_v);
        assert(ans@ == (AnswersV { nrows, ncols, has_header: hh, found: Seq::empty() }));
    }
    (res, Ghost((f0, f1)), Ghost(hh))
}

/// One item's columns read only the table's width, and its header answer only where the item
/// fails.
proof fn lemma_item_columns_same(
    item: ItemV,
    f: (Option<usize>, Option<usize>),
    a1: AnswersV,
    a2: AnswersV,
    span: (usize, usize),
    bounds: Bounds,
)
    requires
        a1.ncols == a2.ncols,
        a1.has_header == a2.has_header || item_columns_v(item, f, a1, span, bounds) is Ok,
    ensures
        item_columns_v(item, f, a2, span, bounds) == item_columns_v(item, f, a1, span, bounds),
{
    reveal(item_columns_v);
}

/// One item's rectangle reads only the table's size, and its header answer only where the item
/// fails.
proof fn lemma_item_rect_same(
    item: ItemV,
    f: (Option<usize>, Option<usize>),
    a1: AnswersV,
    a2: AnswersV,
    span: (usize, usize),
    bounds: Bounds,
)
    requires
        a1.nrows == a2.nrows,
        a1.ncols == a2.ncols,
        a1.has_header == a2.has_header || item_rect_v(item, f, a1, span, bounds) is Ok,
    ensures
        item_rect_v(item, f, a2, span, bounds) == item_rect_v(item, f, a1, span, bounds),
{
    reveal(item_rect_v);
    match item {
        ItemV::Single(p) => {
            lemma_end_axes_same(Some(p), f.0, a1, a2, span);
        },
        ItemV::Range { start, end } => {
            lemma_end_axes_same(start, f.0, a1, a2, span);
            if end_axes_v(start, f.0, a1, span) is Ok {
                lemma_end_axes_same(end, f.1, a1, a2, span);
            }
        },
    }
}

/// An end's axes read only the table's height, and its header answer only where they fail.
proof fn lemma_end_axes_same(p: Option<PosV>, f: Option<usize>, a1: AnswersV, a2: AnswersV, span: (usize, usize))
    requires
        a1.nrows == a2.nrows,
        a1.has_header == a2.has_header || end_axes_v(p, f, a1, span) is Ok,
    ensures
        end_axes_v(p, f, a2, span) == end_axes_v(p, f, a1, span),
{
}

/// Resolution of the first `k` items to columns reads only their answers.
proof fn lemma_columns_frame(sv: SpecV, a1: AnswersV, a2: AnswersV, bounds: Bounds, k: int)
    requires
        a1.ncols == a2.ncols,
        forall|j: int| 0 <= j < k ==> a1.found[j] == a2.found[j],
        columns_upto(sv, a1, bounds, k) is Ok,
    ensures
        columns_upto(sv, a2, bounds, k) == columns_upto(sv, a1, bounds, k),
    decreases k,
{
    if k > 0 {
        lemma_columns_frame(sv, a1, a2, bounds, k - 1);
        lemma_item_columns_same(sv.items[k - 1], a1.found[k - 1], a1, a2, sv.spans[k - 1], bounds);
    }
}

/// Resolution of the first `k` items to cells reads only their answers.
proof fn lemma_cells_frame(sv: SpecV, a1: AnswersV, a2: AnswersV, bounds: Bounds, k: int)
    requires
        a1.nrows == a2.nrows,
        a1.ncols == a2.ncols,
        forall|j: int| 0 <= j < k ==> a1.found[j] == a2.found[j],
        cells_upto(sv, a1, bounds, k) is Ok,
    ensures
        cells_upto(sv, a2, bounds, k) == cells_upto(sv, a1, bounds, k),
    decreases k,
{
    if k > 0 {
        lemma_cells_frame(sv, a1, a2, bounds, k - 1);
        lemma_item_rect_same(sv.items[k - 1], a1.found[k - 1], a1, a2, sv.spans[k - 1], bounds);
    }
}

} // verus!
