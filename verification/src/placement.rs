// Resolution as mathematics: what a parsed spec selects in a table, given what the table
// reported about itself.
use crate::error::{lookup_v, syntax_v, ErrorV};
use crate::grammar::{ColRefV, ItemV, PosV, SpecV};
use crate::letters::col_letters;
use crate::text::decimal;
use vstd::prelude::*;

verus! {

/// What to do about an address that runs past the edge of the table.
///
/// The two answers are both defensible and the right one depends on what the caller does next,
/// so this crate refuses to have a house style: state it at the call site.
#[derive(Debug, Clone, Copy, PartialEq, Eq, Structural)]
pub enum Bounds {
    /// Stop at the edge, sed's reading of `2,$`: addressing past the end selects up to the end
    /// and invents nothing. A span that begins past the end selects nothing at all. Right for
    /// reading, filtering, and editing in place, where a short table is not an error.
    Clamp,
    /// Refuse. Right when the address drives something destructive or structural, where
    /// silently doing less than asked is worse than stopping.
    Strict,
}

/// An inclusive rectangle of cells, 0-based on both axes.
#[derive(Debug, Clone, Copy, PartialEq, Eq, Structural)]
pub struct Rect {
    pub top: usize,
    pub left: usize,
    pub bottom: usize,
    pub right: usize,
}

impl View for Rect {
    type V = Rect;

    open spec fn view(&self) -> Rect {
        *self
    }
}

/// What a table reported, as values: its size, whether it has a header row, and for each
/// item the columns its named ends resolved to (`.0` for a single positional or a range's
/// start, `.1` for a range's end; only consulted where that end names a column by name).
pub struct AnswersV {
    pub nrows: usize,
    pub ncols: usize,
    pub has_header: bool,
    pub found: Seq<(Option<usize>, Option<usize>)>,
}

// ------------------------------------------------------------------ messages

pub open spec fn msg_only_columns_row() -> Seq<char> {
    "this names a row, but only columns can be addressed here"@
}

pub open spec fn msg_only_columns_cell() -> Seq<char> {
    "this names a single cell, but only columns can be addressed here"@
}

pub open spec fn msg_needs_header(name: Seq<char>) -> Seq<char> {
    "column name ["@ + name + "] needs a header row (this table has none — address by letter instead)"@
}

pub open spec fn msg_no_such_column(name: Seq<char>) -> Seq<char> {
    "no column named ["@ + name + "]"@
}

pub open spec fn msg_no_columns() -> Seq<char> {
    "the table has no columns"@
}

pub open spec fn msg_col_beyond(c: nat, ncols: nat) -> Seq<char> {
    "column "@ + col_letters(c) + " is beyond the table's "@ + decimal(ncols) + " columns"@
}

pub open spec fn msg_no_rows() -> Seq<char> {
    "the table has no rows"@
}

pub open spec fn msg_row_beyond(r: nat, nrows: nat) -> Seq<char> {
    "row "@ + decimal(r + 1) + " is beyond the table's "@ + decimal(nrows) + " rows"@
}

pub open spec fn msg_not_one_rect() -> Seq<char> {
    "this address names several separate ranges, which is not one rectangle"@
}

pub open spec fn msg_pins_nothing() -> Seq<char> {
    "this address pins neither a row nor a column"@
}

// ------------------------------------------------------------------- helpers

/// The last index of an axis of length `n`, or 0 for an empty axis.
pub open spec fn last_index(n: usize) -> usize {
    if n == 0 {
        0
    } else {
        (n - 1) as usize
    }
}

pub open spec fn ordered_v(a: usize, b: usize) -> (usize, usize) {
    if a <= b {
        (a, b)
    } else {
        (b, a)
    }
}

/// An inclusive span `[lo, hi]` cut to an axis of length `len`; `None` if it starts past the
/// end, since a span wholly past the end selects nothing rather than the last cell.
pub open spec fn clamp_span_v(lo: usize, hi: usize, len: usize) -> Option<(usize, usize)> {
    if len == 0 || lo >= len {
        None
    } else {
        Some((lo, if hi <= len - 1 {
            hi
        } else {
            (len - 1) as usize
        }))
    }
}

/// `lo, lo + 1, ..., hi`.
pub open spec fn inclusive(lo: usize, hi: usize) -> Seq<usize> {
    Seq::new((hi - lo + 1) as nat, |i: int| (lo + i) as usize)
}

/// The column a reference names, given what its name resolved to.
pub open spec fn col_index_v(c: ColRefV, found: Option<usize>, has_header: bool, span: (usize, usize)) -> Result<usize, ErrorV> {
    match c {
        ColRefV::Letters(i) => Ok(i),
        ColRefV::Name(n) => match found {
            Some(i) => Ok(i),
            None => Err(lookup_v(
                if has_header {
                    msg_no_such_column(n)
                } else {
                    msg_needs_header(n)
                },
                span.0 as int,
                span.1 as int,
            )),
        },
    }
}

/// The column a positional names, where only a whole column will do.
pub open spec fn column_only_v(p: PosV, found: Option<usize>, has_header: bool, span: (usize, usize)) -> Result<usize, ErrorV> {
    match p {
        PosV::Column(c) => col_index_v(c, found, has_header, span),
        PosV::Row(_) => Err(syntax_v(msg_only_columns_row(), span.0 as int, span.1 as int)),
        PosV::LastRow => Err(syntax_v(msg_only_columns_row(), span.0 as int, span.1 as int)),
        PosV::Cell { .. } => Err(syntax_v(msg_only_columns_cell(), span.0 as int, span.1 as int)),
    }
}

/// The refusal for column `c` in a table `ncols` wide, if it is past the edge.
pub open spec fn check_col_v(c: usize, ncols: usize, span: (usize, usize)) -> Option<ErrorV> {
    if ncols == 0 {
        Some(lookup_v(msg_no_columns(), span.0 as int, span.1 as int))
    } else if c >= ncols {
        Some(lookup_v(msg_col_beyond(c as nat, ncols as nat), span.0 as int, span.1 as int))
    } else {
        None
    }
}

/// The refusal for row `r` in a table `nrows` tall, if it is past the edge.
pub open spec fn check_row_v(r: usize, nrows: usize, span: (usize, usize)) -> Option<ErrorV> {
    if nrows == 0 {
        Some(lookup_v(msg_no_rows(), span.0 as int, span.1 as int))
    } else if r >= nrows {
        Some(lookup_v(msg_row_beyond(r as nat, nrows as nat), span.0 as int, span.1 as int))
    } else {
        None
    }
}

/// An optional range end as a column.
pub open spec fn end_column_v(p: Option<PosV>, found: Option<usize>, has_header: bool, span: (usize, usize)) -> Result<Option<usize>, ErrorV> {
    match p {
        None => Ok(None),
        Some(q) => match column_only_v(q, found, has_header, span) {
            Ok(c) => Ok(Some(c)),
            Err(e) => Err(e),
        },
    }
}

// -------------------------------------------------------------------- columns

/// The columns one item selects, in order.
#[verifier::opaque]
pub open spec fn item_columns_v(
    item: ItemV,
    found: (Option<usize>, Option<usize>),
    ans: AnswersV,
    span: (usize, usize),
    bounds: Bounds,
) -> Result<Seq<usize>, ErrorV> {
    let ncols = ans.ncols;
    match item {
        ItemV::Single(p) => match column_only_v(p, found.0, ans.has_header, span) {
            Err(e) => Err(e),
            Ok(c) => match bounds {
                Bounds::Strict => match check_col_v(c, ncols, span) {
                    Some(e) => Err(e),
                    None => Ok(seq![c]),
                },
                Bounds::Clamp => Ok(
                    if c < ncols {
                        seq![c]
                    } else {
                        Seq::empty()
                    },
                ),
            },
        },
        ItemV::Range { start, end } => match end_column_v(start, found.0, ans.has_header, span) {
            Err(e) => Err(e),
            Ok(lo) => match end_column_v(end, found.1, ans.has_header, span) {
                Err(e) => Err(e),
                Ok(hi) => {
                    let lo0 = match lo {
                        Some(c) => c,
                        None => 0usize,
                    };
                    let hi0 = match hi {
                        Some(c) => c,
                        None => last_index(ncols),
                    };
                    let (l, h) = ordered_v(lo0, hi0);
                    match bounds {
                        Bounds::Strict => match check_col_v(h, ncols, span) {
                            Some(e) => Err(e),
                            None => Ok(inclusive(l, h)),
                        },
                        Bounds::Clamp => match clamp_span_v(l, h, ncols) {
                            None => Ok(Seq::empty()),
                            Some((l2, h2)) => Ok(inclusive(l2, h2)),
                        },
                    }
                },
            },
        },
    }
}

/// The columns the first `k` items select, concatenated in order; the first item that fails
/// decides the error.
pub open spec fn columns_upto(sv: SpecV, ans: AnswersV, bounds: Bounds, k: int) -> Result<Seq<usize>, ErrorV>
    decreases k,
{
    if k <= 0 {
        Ok(Seq::empty())
    } else {
        match columns_upto(sv, ans, bounds, k - 1) {
            Err(e) => Err(e),
            Ok(v) => match item_columns_v(sv.items[k - 1], ans.found[k - 1], ans, sv.spans[k - 1], bounds) {
                Err(e) => Err(e),
                Ok(w) => Ok(v + w),
            },
        }
    }
}

/// What [`crate::Spec::columns`] returns, given what the table reported.
pub open spec fn spec_columns(sv: SpecV, ans: AnswersV, bounds: Bounds) -> Result<Seq<usize>, ErrorV> {
    columns_upto(sv, ans, bounds, sv.items.len() as int)
}

// ---------------------------------------------------------------- rectangles

/// The `(row, column)` extents a positional pins; `None` on an axis it leaves free.
pub open spec fn axes_v(p: PosV, found: Option<usize>, ans: AnswersV, span: (usize, usize)) -> Result<(Option<usize>, Option<usize>), ErrorV> {
    match p {
        PosV::Column(c) => match col_index_v(c, found, ans.has_header, span) {
            Ok(i) => Ok((None, Some(i))),
            Err(e) => Err(e),
        },
        PosV::Row(r) => Ok((Some(r), None)),
        PosV::LastRow => Ok((Some(last_index(ans.nrows)), None)),
        PosV::Cell { col, row } => match col_index_v(col, found, ans.has_header, span) {
            Ok(i) => Ok((Some(row), Some(i))),
            Err(e) => Err(e),
        },
    }
}

/// The axes an optional range end pins.
pub open spec fn end_axes_v(p: Option<PosV>, found: Option<usize>, ans: AnswersV, span: (usize, usize)) -> Result<(Option<usize>, Option<usize>), ErrorV> {
    match p {
        None => Ok((None, None)),
        Some(q) => axes_v(q, found, ans, span),
    }
}

/// The extent along one axis: the pinned ends ordered, a missing end running to the edge,
/// and an unpinned axis spanning the whole table.
pub open spec fn axis_extent(s: Option<usize>, e: Option<usize>, len: usize) -> (usize, usize) {
    if s is Some || e is Some {
        ordered_v(
            match s {
                Some(v) => v,
                None => 0usize,
            },
            match e {
                Some(v) => v,
                None => last_index(len),
            },
        )
    } else {
        (0, last_index(len))
    }
}

/// The rectangle one item names, under the given bounds; `None` when clamping leaves nothing.
#[verifier::opaque]
pub open spec fn item_rect_v(
    item: ItemV,
    found: (Option<usize>, Option<usize>),
    ans: AnswersV,
    span: (usize, usize),
    bounds: Bounds,
) -> Result<Option<Rect>, ErrorV> {
    let ends: Result<(Option<usize>, Option<usize>, Option<usize>, Option<usize>), ErrorV> = match item {
        ItemV::Single(p) => match axes_v(p, found.0, ans, span) {
            Err(e) => Err(e),
            Ok((r, c)) => Ok((r, c, r, c)),
        },
        ItemV::Range { start, end } => match end_axes_v(start, found.0, ans, span) {
            Err(e) => Err(e),
            Ok((sr, sc)) => match end_axes_v(end, found.1, ans, span) {
                Err(e) => Err(e),
                Ok((er, ec)) => Ok((sr, sc, er, ec)),
            },
        },
    };
    match ends {
        Err(e) => Err(e),
        Ok((sr, sc, er, ec)) => {
            if sr is None && er is None && sc is None && ec is None {
                Err(syntax_v(msg_pins_nothing(), span.0 as int, span.1 as int))
            } else {
                let (r1, r2) = axis_extent(sr, er, ans.nrows);
                let (c1, c2) = axis_extent(sc, ec, ans.ncols);
                match bounds {
                    Bounds::Strict => match check_row_v(r2, ans.nrows, span) {
                        Some(e) => Err(e),
                        None => match check_col_v(c2, ans.ncols, span) {
                            Some(e) => Err(e),
                            None => Ok(Some(Rect { top: r1, left: c1, bottom: r2, right: c2 })),
                        },
                    },
                    Bounds::Clamp => match (
                        clamp_span_v(r1, r2, ans.nrows),
                        clamp_span_v(c1, c2, ans.ncols),
                    ) {
                        (Some((top, bottom)), Some((left, right))) => Ok(
                            Some(Rect { top, left, bottom, right }),
                        ),
                        _ => Ok(None),
                    },
                }
            }
        },
    }
}

/// What [`crate::Spec::rect`] returns, given what the table reported.
pub open spec fn spec_rect(sv: SpecV, ans: AnswersV, bounds: Bounds) -> Result<Option<Rect>, ErrorV> {
    if sv.items.len() == 0 {
        Ok(None)
    } else if sv.items.len() == 1 {
        item_rect_v(sv.items[0], ans.found[0], ans, sv.spans[0], bounds)
    } else {
        Err(syntax_v(msg_not_one_rect(), sv.spans[0].0 as int, sv.spans.last().1 as int))
    }
}

/// The cells of a rectangle.
pub open spec fn rect_cells(r: Rect) -> Set<(usize, usize)> {
    Set::new(|p: (usize, usize)| r.top <= p.0 <= r.bottom && r.left <= p.1 <= r.right)
}

/// The cells the first `k` items name, together; the first item that fails decides the error.
pub open spec fn cells_upto(sv: SpecV, ans: AnswersV, bounds: Bounds, k: int) -> Result<Set<(usize, usize)>, ErrorV>
    decreases k,
{
    if k <= 0 {
        Ok(Set::empty())
    } else {
        match cells_upto(sv, ans, bounds, k - 1) {
            Err(e) => Err(e),
            Ok(set) => match item_rect_v(sv.items[k - 1], ans.found[k - 1], ans, sv.spans[k - 1], bounds) {
                Err(e) => Err(e),
                Ok(None) => Ok(set),
                Ok(Some(r)) => Ok(set.union(rect_cells(r))),
            },
        }
    }
}

/// What [`crate::Spec::cells`] returns, given what the table reported.
pub open spec fn spec_cells(sv: SpecV, ans: AnswersV, bounds: Bounds) -> Result<Set<(usize, usize)>, ErrorV> {
    cells_upto(sv, ans, bounds, sv.items.len() as int)
}

} // verus!
