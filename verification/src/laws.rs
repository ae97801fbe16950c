// Laws of the library: what holds across inputs, bounds, and functions.
use crate::error::{syntax_v, ErrorV};
use crate::grammar::{ColRefV, ItemV, PosV, SpecV};
use crate::placement::{
    msg_only_columns_cell, msg_only_columns_row, cells_upto, columns_upto, item_columns_v, item_rect_v, spec_cells, spec_columns, spec_rect,
    AnswersV, Bounds, Rect,
};
use vstd::prelude::*;

verus! {

// ------------------------------------------------------------ strict and clamp agree

proof fn lemma_item_columns_strict_is_clamp(
    item: ItemV,
    found: (Option<usize>, Option<usize>),
    ans: AnswersV,
    span: (usize, usize),
)
    requires
        item_columns_v(item, found, ans, span, Bounds::Strict) is Ok,
    ensures
        item_columns_v(item, found, ans, span, Bounds::Clamp) == item_columns_v(
            item,
            found,
            ans,
            span,
            Bounds::Strict,
        ),
{
    reveal(item_columns_v);
}

proof fn lemma_columns_prefix_ok(sv: SpecV, ans: AnswersV, bounds: Bounds, j: int, k: int)
    requires
        0 <= j <= k,
        columns_upto(sv, ans, bounds, k) is Ok,
    ensures
        columns_upto(sv, ans, bounds, j) is Ok,
    decreases k - j,
{
    if j < k {
        lemma_columns_prefix_ok(sv, ans, bounds, j + 1, k);
    }
}

proof fn lemma_columns_strict_is_clamp_upto(sv: SpecV, ans: AnswersV, k: int)
    requires
        0 <= k,
        columns_upto(sv, ans, Bounds::Strict, k) is Ok,
    ensures
        columns_upto(sv, ans, Bounds::Clamp, k) == columns_upto(sv, ans, Bounds::Strict, k),
    decreases k,
{
    if k > 0 {
        lemma_columns_prefix_ok(sv, ans, Bounds::Strict, k - 1, k);
        lemma_columns_strict_is_clamp_upto(sv, ans, k - 1);
        lemma_item_columns_strict_is_clamp(sv.items[k - 1], ans.found[k - 1], ans, sv.spans[k - 1]);
    }
}

/// Where `Strict` accepts an address, `Clamp` selects exactly the same columns: the two
/// bounds differ only on addresses that run off the edge.
pub proof fn law_columns_strict_success_is_clamp(sv: SpecV, ans: AnswersV)
    requires
        spec_columns(sv, ans, Bounds::Strict) is Ok,
    ensures
        spec_columns(sv, ans, Bounds::Clamp) == spec_columns(sv, ans, Bounds::Strict),
{
    lemma_columns_strict_is_clamp_upto(sv, ans, sv.items.len() as int);
}

proof fn lemma_item_rect_strict_is_clamp(
    item: ItemV,
    found: (Option<usize>, Option<usize>),
    ans: AnswersV,
    span: (usize, usize),
)
    requires
        item_rect_v(item, found, ans, span, Bounds::Strict) is Ok,
    ensures
        item_rect_v(item, found, ans, span, Bounds::Clamp) == item_rect_v(
            item,
            found,
            ans,
            span,
            Bounds::Strict,
        ),
{
    reveal(item_rect_v);
}

/// Where `Strict` accepts an address, `Clamp` gives the same rectangle.
pub proof fn law_rect_strict_success_is_clamp(sv: SpecV, ans: AnswersV)
    requires
        spec_rect(sv, ans, Bounds::Strict) is Ok,
    ensures
        spec_rect(sv, ans, Bounds::Clamp) == spec_rect(sv, ans, Bounds::Strict),
{
    if sv.items.len() == 1 {
        lemma_item_rect_strict_is_clamp(sv.items[0], ans.found[0], ans, sv.spans[0]);
    }
}

proof fn lemma_cells_prefix_ok(sv: SpecV, ans: AnswersV, bounds: Bounds, j: int, k: int)
    requires
        0 <= j <= k,
        cells_upto(sv, ans, bounds, k) is Ok,
    ensures
        cells_upto(sv, ans, bounds, j) is Ok,
    decreases k - j,
{
    if j < k {
        lemma_cells_prefix_ok(sv, ans, bounds, j + 1, k);
    }
}

proof fn lemma_cells_strict_is_clamp_upto(sv: SpecV, ans: AnswersV, k: int)
    requires
        0 <= k,
        cells_upto(sv, ans, Bounds::Strict, k) is Ok,
    ensures
        cells_upto(sv, ans, Bounds::Clamp, k) == cells_upto(sv, ans, Bounds::Strict, k),
    decreases k,
{
    if k > 0 {
        lemma_cells_prefix_ok(sv, ans, Bounds::Strict, k - 1, k);
        lemma_cells_strict_is_clamp_upto(sv, ans, k - 1);
        lemma_item_rect_strict_is_clamp(sv.items[k - 1], ans.found[k - 1], ans, sv.spans[k - 1]);
    }
}

/// Where `Strict` accepts an address, `Clamp` gives the same cells.
pub proof fn law_cells_strict_success_is_clamp(sv: SpecV, ans: AnswersV)
    requires
        spec_cells(sv, ans, Bounds::Strict) is Ok,
    ensures
        spec_cells(sv, ans, Bounds::Clamp) == spec_cells(sv, ans, Bounds::Strict),
{
    lemma_cells_strict_is_clamp_upto(sv, ans, sv.items.len() as int);
}

// ------------------------------------------------------------- nothing invented

proof fn lemma_item_columns_inside(
    item: ItemV,
    found: (Option<usize>, Option<usize>),
    ans: AnswersV,
    span: (usize, usize),
    bounds: Bounds,
)
    ensures
        item_columns_v(item, found, ans, span, bounds) matches Ok(w) ==> forall|i: int|
            0 <= i < w.len() ==> #[trigger] w[i] < ans.ncols,
{
    reveal(item_columns_v);
}

proof fn lemma_columns_inside_upto(sv: SpecV, ans: AnswersV, bounds: Bounds, k: int)
    requires
        0 <= k <= sv.items.len(),
    ensures
        columns_upto(sv, ans, bounds, k) matches Ok(v) ==> forall|i: int|
            0 <= i < v.len() ==> #[trigger] v[i] < ans.ncols,
    decreases k,
{
    if k > 0 {
        lemma_columns_inside_upto(sv, ans, bounds, k - 1);
        lemma_item_columns_inside(sv.items[k - 1], ans.found[k - 1], ans, sv.spans[k - 1], bounds);
        if let Ok(v) = columns_upto(sv, ans, bounds, k) {
            let prev = columns_upto(sv, ans, bounds, k - 1)->Ok_0;
            let w = item_columns_v(sv.items[k - 1], ans.found[k - 1], ans, sv.spans[k - 1], bounds)->Ok_0;
            assert(v == prev + w);
            assert forall|i: int| 0 <= i < v.len() implies #[trigger] v[i] < ans.ncols by {
                if i < prev.len() {
                    assert(v[i] == prev[i]);
                } else {
                    assert(v[i] == w[i - prev.len()]);
                }
            }
        }
    }
}

/// Resolution invents no columns: under either bounds, every column selected is one the
/// table has.
pub proof fn law_columns_inside_table(sv: SpecV, ans: AnswersV, bounds: Bounds)
    ensures
        spec_columns(sv, ans, bounds) matches Ok(v) ==> forall|i: int|
            0 <= i < v.len() ==> #[trigger] v[i] < ans.ncols,
{
    lemma_columns_inside_upto(sv, ans, bounds, sv.items.len() as int);
}

/// A rectangle inside the table, top-left corner first.
pub open spec fn rect_inside(r: Rect, nrows: usize, ncols: usize) -> bool {
    r.top <= r.bottom < nrows && r.left <= r.right < ncols
}

proof fn lemma_item_rect_inside(
    item: ItemV,
    found: (Option<usize>, Option<usize>),
    ans: AnswersV,
    span: (usize, usize),
    bounds: Bounds,
)
    ensures
        item_rect_v(item, found, ans, span, bounds) matches Ok(Some(r)) ==> rect_inside(
            r,
            ans.nrows,
            ans.ncols,
        ),
{
    reveal(item_rect_v);
}

/// A resolved rectangle lies inside the table, under either bounds.
pub proof fn law_rect_inside_table(sv: SpecV, ans: AnswersV, bounds: Bounds)
    ensures
        spec_rect(sv, ans, bounds) matches Ok(Some(r)) ==> rect_inside(r, ans.nrows, ans.ncols),
{
    if sv.items.len() == 1 {
        lemma_item_rect_inside(sv.items[0], ans.found[0], ans, sv.spans[0], bounds);
    }
}

proof fn lemma_cells_inside_upto(sv: SpecV, ans: AnswersV, bounds: Bounds, k: int)
    requires
        0 <= k <= sv.items.len(),
    ensures
        cells_upto(sv, ans, bounds, k) matches Ok(set) ==> forall|p: (usize, usize)|
            #[trigger] set.contains(p) ==> p.0 < ans.nrows && p.1 < ans.ncols,
    decreases k,
{
    if k > 0 {
        lemma_cells_inside_upto(sv, ans, bounds, k - 1);
        lemma_item_rect_inside(sv.items[k - 1], ans.found[k - 1], ans, sv.spans[k - 1], bounds);
    }
}

/// Every resolved cell is a cell of the table, under either bounds.
pub proof fn law_cells_inside_table(sv: SpecV, ans: AnswersV, bounds: Bounds)
    ensures
        spec_cells(sv, ans, bounds) matches Ok(set) ==> forall|p: (usize, usize)|
            #[trigger] set.contains(p) ==> p.0 < ans.nrows && p.1 < ans.ncols,
{
    lemma_cells_inside_upto(sv, ans, bounds, sv.items.len() as int);
}

// ----------------------------------------------------------- direction of ranges

/// A range written backwards selects what it selects written forwards: `C:A` is `A:C`. (The
/// lookup answers travel with their ends.) When either end fails, both directions fail.
pub proof fn law_reversed_range_columns(
    p: PosV,
    q: PosV,
    found: (Option<usize>, Option<usize>),
    ans: AnswersV,
    span: (usize, usize),
    bounds: Bounds,
)
    ensures
        ({
            let fwd = item_columns_v(ItemV::Range { start: Some(p), end: Some(q) }, found, ans, span, bounds);
            let rev = item_columns_v(ItemV::Range { start: Some(q), end: Some(p) }, (found.1, found.0), ans, span, bounds);
            &&& fwd is Ok <==> rev is Ok
            &&& fwd is Ok ==> fwd == rev
        }),
{
    reveal(item_columns_v);
}

/// Both positionals pin the same axes: both columns, both cells, or both rows.
pub open spec fn pins_same_axes(p: PosV, q: PosV) -> bool {
    ||| (p is Column && q is Column)
    ||| (p is Cell && q is Cell)
    ||| ((p is Row || p is LastRow) && (q is Row || q is LastRow))
}

/// A rectangle written corner-to-corner backwards is the same rectangle: `C5:B2` is `B2:C5`.
/// (Where the ends pin different axes, as in `3:C`, the unpinned side of each axis runs to
/// an edge that depends on which end is written first, so direction matters there.)
pub proof fn law_reversed_range_rect(
    p: PosV,
    q: PosV,
    found: (Option<usize>, Option<usize>),
    ans: AnswersV,
    span: (usize, usize),
    bounds: Bounds,
)
    requires
        pins_same_axes(p, q),
    ensures
        ({
            let fwd = item_rect_v(ItemV::Range { start: Some(p), end: Some(q) }, found, ans, span, bounds);
            let rev = item_rect_v(ItemV::Range { start: Some(q), end: Some(p) }, (found.1, found.0), ans, span, bounds);
            &&& fwd is Ok <==> rev is Ok
            &&& fwd is Ok ==> fwd == rev
        }),
{
    reveal(item_rect_v);
}

// ------------------------------------------------------ lists keep order and duplicates

/// Two address lists written one after the other.
pub open spec fn joined(x: SpecV, y: SpecV) -> SpecV {
    SpecV { items: x.items + y.items, spans: x.spans + y.spans }
}

/// The answers for the first `n` items, or for the items after them.
pub open spec fn answers_take(a: AnswersV, n: int) -> AnswersV {
    AnswersV { found: a.found.take(n), ..a }
}

pub open spec fn answers_skip(a: AnswersV, n: int) -> AnswersV {
    AnswersV { found: a.found.skip(n), ..a }
}

pub(crate) proof fn lemma_item_columns_same_table(
    item: ItemV,
    found: (Option<usize>, Option<usize>),
    a: AnswersV,
    b: AnswersV,
    span: (usize, usize),
    bounds: Bounds,
)
    requires
        a.nrows == b.nrows,
        a.ncols == b.ncols,
        a.has_header == b.has_header,
    ensures
        item_columns_v(item, found, a, span, bounds) == item_columns_v(item, found, b, span, bounds),
{
    reveal(item_columns_v);
}

proof fn lemma_columns_join_upto(x: SpecV, y: SpecV, a: AnswersV, bounds: Bounds, k: int)
    requires
        x.items.len() == x.spans.len(),
        y.items.len() == y.spans.len(),
        a.found.len() == x.items.len() + y.items.len(),
        0 <= k <= x.items.len() + y.items.len(),
    ensures
        k <= x.items.len() ==> columns_upto(joined(x, y), a, bounds, k) == columns_upto(
            x,
            answers_take(a, x.items.len() as int),
            bounds,
            k,
        ),
        k >= x.items.len() ==> columns_upto(joined(x, y), a, bounds, k) == match columns_upto(
            x,
            answers_take(a, x.items.len() as int),
            bounds,
            x.items.len() as int,
        ) {
            Err(e) => Err(e),
            Ok(v) => match columns_upto(
                y,
                answers_skip(a, x.items.len() as int),
                bounds,
                k - x.items.len(),
            ) {
                Err(e) => Err(e),
                Ok(w) => Ok(v + w),
            },
        },
    decreases k,
{
    let n = x.items.len() as int;
    let xy = joined(x, y);
    let ax = answers_take(a, n);
    let ay = answers_skip(a, n);
    if k > 0 {
        lemma_columns_join_upto(x, y, a, bounds, k - 1);
        if k <= n {
            assert(xy.items[k - 1] == x.items[k - 1]);
            assert(xy.spans[k - 1] == x.spans[k - 1]);
            assert(a.found[k - 1] == ax.found[k - 1]);
            lemma_item_columns_same_table(xy.items[k - 1], a.found[k - 1], a, ax, xy.spans[k - 1], bounds);
            assert(item_columns_v(xy.items[k - 1], a.found[k - 1], a, xy.spans[k - 1], bounds)
                == item_columns_v(x.items[k - 1], ax.found[k - 1], ax, x.spans[k - 1], bounds));
        } else {
            let j = k - n;
            assert(xy.items[k - 1] == y.items[j - 1]);
            assert(xy.spans[k - 1] == y.spans[j - 1]);
            assert(a.found[k - 1] == ay.found[j - 1]);
            lemma_item_columns_same_table(xy.items[k - 1], a.found[k - 1], a, ay, xy.spans[k - 1], bounds);
            assert(item_columns_v(xy.items[k - 1], a.found[k - 1], a, xy.spans[k - 1], bounds)
                == item_columns_v(y.items[j - 1], ay.found[j - 1], ay, y.spans[j - 1], bounds));
            if let Ok(v) = columns_upto(x, ax, bounds, n) {
                if let Ok(w) = columns_upto(y, ay, bounds, j - 1) {
                    if let Ok(u) = item_columns_v(y.items[j - 1], ay.found[j - 1], ay, y.spans[j - 1], bounds) {
                        assert(v + w + u =~= v + (w + u));
                    }
                }
            }
        }
    } else {
        assert(columns_upto(y, ay, bounds, 0) == Ok::<Seq<usize>, ErrorV>(Seq::empty()));
        if let Ok(v) = columns_upto(x, ax, bounds, n) {
            assert(v + Seq::<usize>::empty() =~= v);
        }
    }
}

/// Lists keep their order and their duplicates: the columns of two lists written one after
/// the other are the columns of the first followed by those of the second, and the first
/// failure, reading left to right, is the one reported.
pub proof fn law_lists_concatenate(x: SpecV, y: SpecV, a: AnswersV, bounds: Bounds)
    requires
        x.items.len() == x.spans.len(),
        y.items.len() == y.spans.len(),
        a.found.len() == x.items.len() + y.items.len(),
    ensures
        spec_columns(joined(x, y), a, bounds) == match spec_columns(
            x,
            answers_take(a, x.items.len() as int),
            bounds,
        ) {
            Err(e) => Err(e),
            Ok(v) => match spec_columns(y, answers_skip(a, x.items.len() as int), bounds) {
                Err(e) => Err(e),
                Ok(w) => Ok(v + w),
            },
        },
{
    lemma_columns_join_upto(x, y, a, bounds, (x.items.len() + y.items.len()) as int);
    assert(joined(x, y).items.len() == x.items.len() + y.items.len());
}

// ------------------------------------------------------------ rows are not columns

/// A range end that names a row or a single cell, which resolution to columns refuses.
pub open spec fn not_a_column(p: Option<PosV>) -> bool {
    p matches Some(q) && !(q is Column)
}

/// A range end that resolution to columns passes without asking the table anything.
pub open spec fn column_without_table(p: Option<PosV>) -> bool {
    p is None || p matches Some(PosV::Column(ColRefV::Letters(_)))
}

/// The refusal of a row or a cell where only columns belong, at `span`.
pub open spec fn column_refusal(p: PosV, span: (usize, usize)) -> ErrorV {
    match p {
        PosV::Cell { .. } => syntax_v(msg_only_columns_cell(), span.0 as int, span.1 as int),
        _ => syntax_v(msg_only_columns_row(), span.0 as int, span.1 as int),
    }
}

/// The item refused where only columns belong, and the end refused: the first end that names a
/// row or a cell, where nothing before it asks the table anything.
pub open spec fn refused_end(item: ItemV) -> Option<PosV> {
    match item {
        ItemV::Single(p) => if !(p is Column) {
            Some(p)
        } else {
            None
        },
        ItemV::Range { start, end } => if not_a_column(start) {
            start
        } else if column_without_table(start) && not_a_column(end) {
            end
        } else {
            None
        },
    }
}

proof fn lemma_columns_err_sticky(sv: SpecV, a: AnswersV, bounds: Bounds, k: int, m: int)
    requires
        0 <= k <= m,
        columns_upto(sv, a, bounds, k) is Err,
    ensures
        columns_upto(sv, a, bounds, m) == columns_upto(sv, a, bounds, k),
    decreases m - k,
{
    if k < m {
        lemma_columns_err_sticky(sv, a, bounds, k, m - 1);
    }
}

/// A row, `$`, or a single cell where only columns belong is a syntax error, the same whatever
/// the table answers and under either bounds, spanning its item: once resolution reaches an
/// item whose end names a row or a cell (with nothing before that end asking the table), that
/// is the error reported.
pub proof fn law_rows_refused_by_columns(sv: SpecV, a: AnswersV, bounds: Bounds, k: int)
    requires
        0 <= k < sv.items.len(),
        columns_upto(sv, a, bounds, k) is Ok,
        refused_end(sv.items[k]) is Some,
    ensures
        spec_columns(sv, a, bounds) == Err::<Seq<usize>, ErrorV>(
            column_refusal(refused_end(sv.items[k])->Some_0, sv.spans[k]),
        ),
{
    reveal(item_columns_v);
    assert(columns_upto(sv, a, bounds, k + 1) == Err::<Seq<usize>, ErrorV>(
        column_refusal(refused_end(sv.items[k])->Some_0, sv.spans[k]),
    ));
    lemma_columns_err_sticky(sv, a, bounds, k + 1, sv.items.len() as int);
}

// ------------------------------------------------------ where the table cannot refuse

/// A positional that names a whole column by letter.
pub open spec fn by_letter(p: PosV) -> bool {
    p matches PosV::Column(ColRefV::Letters(_))
}

/// Every item names whole columns by letter only.
pub open spec fn letter_columns_only(sv: SpecV) -> bool {
    forall|k: int|
        0 <= k < sv.items.len() ==> match #[trigger] sv.items[k] {
            ItemV::Single(p) => by_letter(p),
            ItemV::Range { start, end } => (start matches Some(p) ==> by_letter(p)) && (
            end matches Some(q) ==> by_letter(q)),
        }
}

proof fn lemma_letter_columns_clamp_upto(sv: SpecV, a: AnswersV, k: int)
    requires
        letter_columns_only(sv),
        0 <= k <= sv.items.len(),
    ensures
        columns_upto(sv, a, Bounds::Clamp, k) is Ok,
    decreases k,
{
    if k > 0 {
        lemma_letter_columns_clamp_upto(sv, a, k - 1);
        reveal(item_columns_v);
        let it = sv.items[k - 1];
        assert(match it {
            ItemV::Single(p) => by_letter(p),
            ItemV::Range { start, end } => (start matches Some(p) ==> by_letter(p)) && (
            end matches Some(q) ==> by_letter(q)),
        });
    }
}

/// Letters need no table and `Clamp` never refuses, so an address of column letters under
/// `Clamp` resolves against every table, whatever it reports.
pub proof fn law_letter_columns_clamp_total(sv: SpecV, a: AnswersV)
    requires
        letter_columns_only(sv),
    ensures
        spec_columns(sv, a, Bounds::Clamp) is Ok,
{
    lemma_letter_columns_clamp_upto(sv, a, sv.items.len() as int);
}

// ----------------------------------------------------- resolution errors name the item

proof fn lemma_columns_error_span_upto(sv: SpecV, a: AnswersV, bounds: Bounds, k: int)
    requires
        0 <= k <= sv.items.len(),
        sv.items.len() == sv.spans.len(),
    ensures
        columns_upto(sv, a, bounds, k) matches Err(e) ==> exists|i: int|
            0 <= i < k && e.span == #[trigger] sv.spans[i],
    decreases k,
{
    if k > 0 {
        lemma_columns_error_span_upto(sv, a, bounds, k - 1);
        if columns_upto(sv, a, bounds, k - 1) is Ok {
            if let Err(e) = columns_upto(sv, a, bounds, k) {
                reveal(item_columns_v);
                assert(e.span == sv.spans[k - 1]);
            }
        }
    }
}

proof fn lemma_cells_error_span_upto(sv: SpecV, a: AnswersV, bounds: Bounds, k: int)
    requires
        0 <= k <= sv.items.len(),
        sv.items.len() == sv.spans.len(),
    ensures
        cells_upto(sv, a, bounds, k) matches Err(e) ==> exists|i: int|
            0 <= i < k && e.span == #[trigger] sv.spans[i],
    decreases k,
{
    if k > 0 {
        lemma_cells_error_span_upto(sv, a, bounds, k - 1);
        if cells_upto(sv, a, bounds, k - 1) is Ok {
            if let Err(e) = cells_upto(sv, a, bounds, k) {
                reveal(item_rect_v);
                assert(e.span == sv.spans[k - 1]);
            }
        }
    }
}

/// Resolution errors, which have no narrower home, span the whole item they are about; a
/// list refused as a rectangle spans the whole list.
pub proof fn law_resolution_errors_span_items(sv: SpecV, a: AnswersV, bounds: Bounds)
    requires
        sv.items.len() == sv.spans.len(),
    ensures
        spec_columns(sv, a, bounds) matches Err(e) ==> exists|i: int|
            0 <= i < sv.spans.len() && e.span == #[trigger] sv.spans[i],
        spec_cells(sv, a, bounds) matches Err(e) ==> exists|i: int|
            0 <= i < sv.spans.len() && e.span == #[trigger] sv.spans[i],
        spec_rect(sv, a, bounds) matches Err(e) ==> if sv.items.len() == 1 {
            e.span == sv.spans[0]
        } else {
            e.span == (sv.spans[0].0, sv.spans.last().1)
        },
{
    lemma_columns_error_span_upto(sv, a, bounds, sv.items.len() as int);
    lemma_cells_error_span_upto(sv, a, bounds, sv.items.len() as int);
    reveal(item_rect_v);
}

} // verus!
