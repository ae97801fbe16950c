// What a resolved address covers: the rows and columns it names, the whole table along an axis
// it leaves free, the edge for an open end, and for a list, every item's cells together.
use crate::error::ErrorV;
use crate::grammar::{ColRefV, ItemV, PosV, SpecV};
use crate::placement::{cells_upto, item_columns_v, item_rect_v, spec_cells, AnswersV, Bounds, Rect};
use crate::resolve::item_ends;
use vstd::prelude::*;

verus! {

/// The 0-based row a positional names in a table `nrows` tall (`$` the last), if it names one.
pub open spec fn named_row(p: PosV, nrows: usize) -> Option<int> {
    match p {
        PosV::Row(r) => Some(r as int),
        PosV::LastRow => Some(
            if nrows == 0 {
                0
            } else {
                nrows - 1
            },
        ),
        PosV::Cell { row, .. } => Some(row as int),
        PosV::Column(_) => None,
    }
}

/// The column a reference names, given what its name was found to be.
pub open spec fn ref_col(c: ColRefV, found: Option<usize>) -> Option<int> {
    match c {
        ColRefV::Letters(i) => Some(i as int),
        ColRefV::Name(_) => match found {
            Some(i) => Some(i as int),
            None => None,
        },
    }
}

/// The column a positional names, given what its name was found to be, if it names one.
pub open spec fn named_col(p: PosV, found: Option<usize>) -> Option<int> {
    match p {
        PosV::Column(c) => ref_col(c, found),
        PosV::Cell { col, .. } => ref_col(col, found),
        _ => None,
    }
}

pub open spec fn end_row(e: Option<PosV>, nrows: usize) -> Option<int> {
    match e {
        Some(p) => named_row(p, nrows),
        None => None,
    }
}

pub open spec fn end_col(e: Option<PosV>, found: Option<usize>) -> Option<int> {
    match e {
        Some(p) => named_col(p, found),
        None => None,
    }
}

/// Whether a rectangle holds cell `p`.
pub open spec fn holds(r: Rect, p: (usize, usize)) -> bool {
    r.top <= p.0 <= r.bottom && r.left <= p.1 <= r.right
}

// ------------------------------------------------------------- rectangles

/// An axis that no end of an item pins spans the whole table: a whole column, or a range of
/// whole columns, runs from the first row to the last, and a row or range of rows from the
/// first column to the last, under either bounds.
pub proof fn law_unpinned_axis_spans_table(
    item: ItemV,
    f: (Option<usize>, Option<usize>),
    a: AnswersV,
    span: (usize, usize),
    bounds: Bounds,
)
    ensures
        item_rect_v(item, f, a, span, bounds) matches Ok(Some(r)) ==> {
            let (st, en) = item_ends(item);
            &&& end_row(st, a.nrows) is None && end_row(en, a.nrows) is None ==> r.top == 0
                && r.bottom == a.nrows - 1
            &&& end_col(st, f.0) is None && end_col(en, f.1) is None ==> r.left == 0 && r.right
                == a.ncols - 1
        },
{
    reveal(item_rect_v);
}

/// Under `Strict`, a rectangle covers every row and column its ends name, exactly: a single
/// positional is its own row and column, two named rows (or columns) are the rectangle's
/// first and last, and all of it lies in the table. So a named row or column past the edge is
/// refused, never cut short.
pub proof fn law_strict_rect_covers(
    item: ItemV,
    f: (Option<usize>, Option<usize>),
    a: AnswersV,
    span: (usize, usize),
)
    ensures
        item_rect_v(item, f, a, span, Bounds::Strict) matches Ok(Some(r)) ==> {
            let (st, en) = item_ends(item);
            &&& r.bottom < a.nrows && r.right < a.ncols
            &&& end_row(st, a.nrows) matches Some(v) ==> r.top <= v <= r.bottom
            &&& end_row(en, a.nrows) matches Some(v) ==> r.top <= v <= r.bottom
            &&& end_col(st, f.0) matches Some(c) ==> r.left <= c <= r.right
            &&& end_col(en, f.1) matches Some(c) ==> r.left <= c <= r.right
            &&& end_row(st, a.nrows) matches Some(v) ==> end_row(en, a.nrows) matches Some(w)
                ==> r.top == (if v <= w { v } else { w }) && r.bottom == (if v <= w { w } else { v })
            &&& end_col(st, f.0) matches Some(c) ==> end_col(en, f.1) matches Some(d)
                ==> r.left == (if c <= d { c } else { d }) && r.right == (if c <= d { d } else { c })
            &&& item matches ItemV::Single(p) ==> named_row(p, a.nrows) matches Some(v) ==> r.top
                == v && r.bottom == v
            &&& item matches ItemV::Single(p) ==> named_col(p, f.0) matches Some(c) ==> r.left
                == c && r.right == c
        },
{
    reveal(item_rect_v);
    let (st, en) = item_ends(item);
    lemma_end_axes_named(st, f.0, a, span);
    lemma_end_axes_named(en, f.1, a, span);
    if let Ok(Some(r)) = item_rect_v(item, f, a, span, Bounds::Strict) {
        let (sr, sc, er, ec) = match item {
            ItemV::Single(p) => {
                lemma_end_axes_named(Some(p), f.0, a, span);
                let (x, y) = crate::placement::axes_v(p, f.0, a, span)->Ok_0;
                (x, y, x, y)
            },
            ItemV::Range { start, end } => {
                let (x, y) = crate::placement::end_axes_v(start, f.0, a, span)->Ok_0;
                let (z, w) = crate::placement::end_axes_v(end, f.1, a, span)->Ok_0;
                (x, y, z, w)
            },
        };
        assert((r.top, r.bottom) == crate::placement::axis_extent(sr, er, a.nrows));
        assert((r.left, r.right) == crate::placement::axis_extent(sc, ec, a.ncols));
    }
}

/// The axes a positional pins are the row and column it names.
proof fn lemma_end_axes_named(e: Option<PosV>, f: Option<usize>, a: AnswersV, span: (usize, usize))
    ensures
        crate::placement::end_axes_v(e, f, a, span) matches Ok((r, c)) ==> {
            &&& match r {
                Some(x) => end_row(e, a.nrows) == Some(x as int),
                None => end_row(e, a.nrows) is None,
            }
            &&& match c {
                Some(x) => end_col(e, f) == Some(x as int),
                None => end_col(e, f) is None,
            }
        },
{
}

// ---------------------------------------------------------------- columns

/// An open range runs to the table's edge: `C:` selects every column from C to the last one,
/// and `:C` every column from the first through C, under either bounds. Past the edge, `Strict`
/// refuses; under `Clamp`, `C:` reads as the range from the last column to C and keeps the last
/// column, and `:C` keeps every column.
pub proof fn law_open_range_columns(
    p: PosV,
    f: Option<usize>,
    a: AnswersV,
    span: (usize, usize),
    bounds: Bounds,
    c: usize,
)
    requires
        p is Column,
        named_col(p, f) == Some(c as int),
    ensures
        ({
            let from = item_columns_v(ItemV::Range { start: Some(p), end: None }, (f, None), a, span, bounds);
            if c < a.ncols {
                from matches Ok(v) && v.len() == a.ncols - c && forall|i: int|
                    0 <= i < v.len() ==> v[i] == c + i
            } else {
                match bounds {
                    Bounds::Strict => from is Err,
                    Bounds::Clamp => from matches Ok(v) && if a.ncols == 0 {
                        v.len() == 0
                    } else {
                        v.len() == 1 && v[0] == a.ncols - 1
                    },
                }
            }
        }),
        ({
            let upto = item_columns_v(ItemV::Range { start: None, end: Some(p) }, (None, f), a, span, bounds);
            if c < a.ncols {
                upto matches Ok(v) && v.len() == c + 1 && forall|i: int| 0 <= i < v.len() ==> v[i] == i
            } else {
                match bounds {
                    Bounds::Strict => upto is Err,
                    Bounds::Clamp => upto matches Ok(v) && v.len() == a.ncols && forall|i: int|
                        0 <= i < v.len() ==> v[i] == i,
                }
            }
        }),
{
    reveal(item_columns_v);
}

/// A whole column selects itself where the table has it; past the edge `Strict` refuses and
/// `Clamp` selects nothing.
pub proof fn law_single_column(
    p: PosV,
    f: Option<usize>,
    a: AnswersV,
    span: (usize, usize),
    bounds: Bounds,
    c: usize,
)
    requires
        p is Column,
        named_col(p, f) == Some(c as int),
    ensures
        ({
            let r = item_columns_v(ItemV::Single(p), (f, None), a, span, bounds);
            if c < a.ncols {
                r == Ok::<Seq<usize>, ErrorV>(seq![c])
            } else {
                match bounds {
                    Bounds::Strict => r is Err,
                    Bounds::Clamp => r matches Ok(v) && v.len() == 0,
                }
            }
        }),
{
    reveal(item_columns_v);
}

/// A range of whole columns selects every column between its ends, inclusive, in order from
/// the smaller, whichever end is written first; where the larger end is past the edge,
/// `Strict` refuses.
pub proof fn law_closed_range_columns(
    p: PosV,
    q: PosV,
    f: (Option<usize>, Option<usize>),
    a: AnswersV,
    span: (usize, usize),
    bounds: Bounds,
    c: usize,
    d: usize,
)
    requires
        p is Column,
        q is Column,
        named_col(p, f.0) == Some(c as int),
        named_col(q, f.1) == Some(d as int),
    ensures
        ({
            let r = item_columns_v(ItemV::Range { start: Some(p), end: Some(q) }, f, a, span, bounds);
            let lo = if c <= d { c } else { d };
            let hi = if c <= d { d } else { c };
            &&& hi < a.ncols ==> (r matches Ok(v) && v.len() == hi - lo + 1 && forall|i: int|
                0 <= i < v.len() ==> v[i] == lo + i)
            &&& hi >= a.ncols && bounds == Bounds::Strict ==> r is Err
        }),
{
    reveal(item_columns_v);
}

// ------------------------------------------------------------------ cells

/// Cell `p` lies in the rectangle item `k` resolves to.
pub open spec fn in_item(sv: SpecV, a: AnswersV, bounds: Bounds, k: int, p: (usize, usize)) -> bool {
    item_rect_v(sv.items[k], a.found[k], a, sv.spans[k], bounds) matches Ok(Some(r)) && holds(r, p)
}

/// Every item resolves.
pub open spec fn all_items_resolve(sv: SpecV, a: AnswersV, bounds: Bounds, k: int) -> bool {
    forall|j: int| 0 <= j < k ==> (#[trigger] item_rect_v(sv.items[j], a.found[j], a, sv.spans[j], bounds)) is Ok
}

proof fn lemma_cells_union_upto(sv: SpecV, a: AnswersV, bounds: Bounds, k: int)
    requires
        0 <= k,
    ensures
        (cells_upto(sv, a, bounds, k) is Ok) == all_items_resolve(sv, a, bounds, k),
        cells_upto(sv, a, bounds, k) matches Ok(set) ==> forall|p: (usize, usize)|
            set.contains(p) <==> exists|j: int| 0 <= j < k && #[trigger] in_item(sv, a, bounds, j, p),
    decreases k,
{
    if k > 0 {
        lemma_cells_union_upto(sv, a, bounds, k - 1);
        if let Ok(set) = cells_upto(sv, a, bounds, k) {
            assert forall|p: (usize, usize)|
                set.contains(p) <==> exists|j: int| 0 <= j < k && #[trigger] in_item(sv, a, bounds, j, p) by {
                if set.contains(p) {
                    let prev = cells_upto(sv, a, bounds, k - 1)->Ok_0;
                    if !prev.contains(p) {
                        assert(in_item(sv, a, bounds, k - 1, p));
                    }
                }
                if exists|j: int| 0 <= j < k && #[trigger] in_item(sv, a, bounds, j, p) {
                    let j = choose|j: int| 0 <= j < k && #[trigger] in_item(sv, a, bounds, j, p);
                    if j == k - 1 {
                        assert(crate::placement::rect_cells(
                            item_rect_v(sv.items[j], a.found[j], a, sv.spans[j], bounds)->Ok_0->Some_0,
                        ).contains(p));
                    }
                }
            }
        }
        if all_items_resolve(sv, a, bounds, k) {
            assert(item_rect_v(sv.items[k - 1], a.found[k - 1], a, sv.spans[k - 1], bounds) is Ok);
        }
    }
}

/// The cells of a list are every item's cells together: the list resolves exactly when every
/// item does, and then a cell is selected exactly when it lies in some item's rectangle.
pub proof fn law_cells_are_the_union(sv: SpecV, a: AnswersV, bounds: Bounds)
    ensures
        (spec_cells(sv, a, bounds) is Ok) == all_items_resolve(sv, a, bounds, sv.items.len() as int),
        spec_cells(sv, a, bounds) matches Ok(set) ==> forall|p: (usize, usize)|
            set.contains(p) <==> exists|k: int|
                0 <= k < sv.items.len() && #[trigger] in_item(sv, a, bounds, k, p),
{
    lemma_cells_union_upto(sv, a, bounds, sv.items.len() as int);
}

} // verus!
