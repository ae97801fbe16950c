// Ranges at the level of text: `y:x` parses to the range `x:y` turned round, and selects the
// same columns.
use crate::case_laws::same_outcome;
use crate::error::ErrorV;
use crate::grammar::{
    is_cut, lead_ws, names_closed, parse_pieces, pieces, scan_state, spec_parse,
    spec_parse_item, spec_parse_piece, spec_parse_pos, trail_ws, trim, ItemV, PosV, Scan, SpecV,
};
use crate::laws::law_reversed_range_columns;
use crate::parse_laws::{
    law_parse_shape, lemma_no_cut_pieces, lemma_one_cut_pieces, lemma_pieces_len,
    lemma_sub_scan, lemma_trim, lemma_ws_before_out, lemma_ws_keeps_out, top_level_count,
};
use crate::placement::{item_columns_v, spec_columns, AnswersV, Bounds};
use crate::list_laws::{
    lemma_item_columns_spans, lemma_lead_white_bound, lemma_lead_white_prefix,
    lemma_parse_pos_shift, lemma_scan_local_end, lemma_scan_shift, lemma_ws_shift,
};
use crate::prefix_laws::{lemma_parse_pos_local, lemma_scan_local, lemma_ws_local};
use crate::text::is_ascii_space;
use vstd::prelude::*;

verus! {

/// A text that parses as a single positional, with nothing else in it.
pub open spec fn reads_as(x: Seq<char>, p: PosV) -> bool {
    spec_parse(x) matches Ok(sv) && sv.items == seq![ItemV::Single(p)]
}

proof fn lemma_no_cut_of_count(s: Seq<char>, c: char, j: int)
    requires
        0 <= j,
        top_level_count(s, c, j) == 0,
    ensures
        forall|i: int| 0 <= i < j ==> !is_cut(s, c, i),
    decreases j,
{
    if j > 0 {
        lemma_no_cut_of_count(s, c, j - 1);
    }
}

proof fn lemma_lead_stop(s: Seq<char>, x: int, y: int)
    requires
        0 <= x <= y <= s.len(),
    ensures
        0 <= lead_ws(s, x, y) <= y - x,
        lead_ws(s, x, y) < y - x ==> !is_ascii_space(s[x + lead_ws(s, x, y)]),
        forall|i: int| x <= i < x + lead_ws(s, x, y) ==> is_ascii_space(#[trigger] s[i]),
    decreases y - x,
{
    if x < y && is_ascii_space(s[x]) {
        lemma_lead_stop(s, x + 1, y);
    }
}

proof fn lemma_trail_stop(s: Seq<char>, x: int, y: int)
    requires
        0 <= x <= y <= s.len(),
    ensures
        0 <= trail_ws(s, x, y) <= y - x,
        trail_ws(s, x, y) < y - x ==> !is_ascii_space(s[y - 1 - trail_ws(s, x, y)]),
        forall|i: int| y - trail_ws(s, x, y) <= i < y ==> is_ascii_space(#[trigger] s[i]),
    decreases y - x,
{
    if x < y && is_ascii_space(s[y - 1]) {
        lemma_trail_stop(s, x, y - 1);
    }
}

/// What a text that reads as one positional holds: its positional sits at its trimmed span,
/// with white space only around it, and no `,` or `:` outside a name anywhere in it.
proof fn lemma_reads_as(x: Seq<char>, p: PosV)
    requires
        reads_as(x, p),
    ensures
        ({
            let (lx, rx) = trim(x, 0, x.len() as int);
            &&& 0 <= lx < rx <= x.len()
            &&& spec_parse_pos(x, lx, rx) == Ok::<PosV, ErrorV>(p)
            &&& names_closed(x)
            &&& lead_ws(x, 0, x.len() as int) == lx
            &&& trail_ws(x, 0, x.len() as int) == x.len() - rx
            &&& !is_ascii_space(x[lx]) && !is_ascii_space(x[rx - 1])
            &&& forall|i: int| 0 <= i < lx ==> is_ascii_space(#[trigger] x[i])
            &&& forall|i: int| rx <= i < x.len() ==> is_ascii_space(#[trigger] x[i])
            &&& forall|i: int| 0 <= i < x.len() ==> !is_cut(x, ':', i) && !is_cut(x, ',', i)
        }),
{
    let n = x.len() as int;
    law_parse_shape(x);
    lemma_no_cut_of_count(x, ',', n);
    lemma_no_cut_pieces(x, ',', n);
    reveal(spec_parse_piece);
    reveal(spec_parse_item);
    let (lx, rx) = trim(x, 0, n);
    lemma_trim(x, 0, n);
    lemma_lead_stop(x, 0, n);
    lemma_trail_stop(x, 0, n);
    assert(parse_pieces(x, seq![(0int, n)], 1) == spec_parse(x));
    let sv = spec_parse(x)->Ok_0;
    assert(parse_pieces(x, seq![(0int, n)], 0) == Ok::<SpecV, ErrorV>(
        SpecV { items: Seq::empty(), spans: Seq::empty() },
    ));
    assert(spec_parse_piece(x, (0int, n)) is Ok);
    assert(sv.items[0] == ItemV::Single(p));
    assert(spec_parse_piece(x, (0int, n))->Ok_0.0 == ItemV::Single(p));
    assert(lx < rx);
    assert(spec_parse_item(x, lx, rx) == Ok::<ItemV, ErrorV>(ItemV::Single(p)));
    let sub = x.subrange(lx, rx);
    assert(pieces(sub, ':', sub.len() as int).len() <= 1);
    lemma_pieces_len(sub, ':', sub.len() as int);
    lemma_no_cut_of_count(sub, ':', sub.len() as int);
    lemma_ws_keeps_out(x, 0, lx);
    assert forall|i: int| 0 <= i < n implies !is_cut(x, ':', i) && !is_cut(x, ',', i) by {
        if lx <= i < rx {
            lemma_sub_scan(x, lx, rx, i - lx);
            assert(sub[i - lx] == x[i]);
            assert(!is_cut(sub, ':', i - lx));
        } else {
            assert(is_ascii_space(x[i]));
        }
    }
}

/// Leading white space of a text is that of its first part, where the first part is not all
/// white space.
proof fn lemma_lead_ws_prefix(s: Seq<char>, n: int, x: int)
    requires
        0 <= x <= n <= s.len(),
        lead_ws(s.take(n), x, n) < n - x,
    ensures
        lead_ws(s, x, s.len() as int) == lead_ws(s.take(n), x, n),
    decreases n - x,
{
    assert(s.take(n)[x] == s[x]);
    if is_ascii_space(s[x]) {
        lemma_lead_ws_prefix(s, n, x + 1);
    }
}

/// Trailing white space of a text is that of its last part, where the last part is not all
/// white space.
proof fn lemma_trail_ws_suffix(p: Seq<char>, t: Seq<char>, m: int)
    requires
        0 <= m <= t.len(),
        trail_ws(t, 0, m) < m,
    ensures
        trail_ws(p + t, 0, p.len() + m) == trail_ws(t, 0, m),
    decreases m,
{
    assert((p + t)[p.len() + m - 1] == t[m - 1]);
    if is_ascii_space(t[m - 1]) {
        lemma_trail_ws_suffix(p, t, m - 1);
    }
}

/// Trailing white space, counted from a later start that it does not reach, is the same.
proof fn lemma_trail_from(s: Seq<char>, a: int, b: int, y: int)
    requires
        0 <= a <= b <= y <= s.len(),
        trail_ws(s, a, y) < y - b,
    ensures
        trail_ws(s, b, y) == trail_ws(s, a, y),
    decreases y - b,
{
    lemma_trail_stop(s, a, y);
    if b < y && is_ascii_space(s[y - 1]) {
        lemma_trail_from(s, a, b, y - 1);
    }
}

/// Leading white space, counted up to an earlier end that it does not reach, is the same.
proof fn lemma_lead_to(s: Seq<char>, x: int, b: int, y: int)
    requires
        0 <= x <= b <= y <= s.len(),
        lead_ws(s, x, y) < b - x,
    ensures
        lead_ws(s, x, b) == lead_ws(s, x, y),
    decreases b - x,
{
    lemma_lead_stop(s, x, y);
    if x < b && is_ascii_space(s[x]) {
        lemma_lead_to(s, x + 1, b, y);
    }
}

/// Two positionals written with a `:` between them read as the range from the first to the
/// second, whatever white space surrounds them.
proof fn lemma_range_text(x: Seq<char>, y: Seq<char>, px: PosV, py: PosV)
    requires
        reads_as(x, px),
        reads_as(y, py),
    ensures
        spec_parse(x + seq![':'] + y) matches Ok(sv) && sv.items == seq![
            ItemV::Range { start: Some(px), end: Some(py) },
        ],
{
    let p = x + seq![':'];
    let s = p + y;
    assert(x + seq![':'] + y =~= s);
    let nx = x.len() as int;
    let d = nx + 1;
    let len = s.len() as int;
    lemma_reads_as(x, px);
    lemma_reads_as(y, py);
    let (lx, rx) = trim(x, 0, nx);
    let (ly, ry) = trim(y, 0, y.len() as int);
    assert(s.take(nx) =~= x);
    assert(s[nx] == ':');
    lemma_scan_local_end(s, nx);
    assert(scan_state(s, d) == Scan::Out);
    assert forall|i: int| 0 <= i < len implies !is_cut(s, ',', i) && (i != nx ==> !is_cut(s, ':', i)) by {
        if i < nx {
            lemma_scan_local(s, nx, i);
            assert(s[i] == x[i]);
            assert(!is_cut(x, ':', i) && !is_cut(x, ',', i));
        } else if i > nx {
            lemma_scan_shift(p, y, i - d);
            assert(s[i] == y[i - d]);
            assert(!is_cut(y, ':', i - d) && !is_cut(y, ',', i - d));
        }
    }
    assert(is_cut(s, ':', nx));
    lemma_no_cut_pieces(s, ',', len);
    lemma_scan_shift(p, y, y.len() as int);
    assert(names_closed(s));
    lemma_lead_white_bound(x, 0, nx);
    lemma_lead_white_prefix(s, nx, 0);
    // The whole text trims to the first positional's start and the second's end.
    lemma_lead_ws_prefix(s, nx, 0);
    lemma_trail_ws_suffix(p, y, y.len() as int);
    assert(trim(s, 0, len) == (lx, d + ry));
    // The item's text: closed names, and one `:` outside them, after the first positional.
    let sub = s.subrange(lx, d + ry);
    lemma_ws_keeps_out(x, 0, lx);
    lemma_scan_local(s, nx, lx);
    if d + ry < len {
        assert(s[d + ry] == y[ry]);
    }
    lemma_sub_scan(s, lx, d + ry, sub.len() as int);
    lemma_ws_before_out(y, ry, y.len() as int);
    lemma_scan_shift(p, y, ry);
    assert(names_closed(sub));
    let k = nx - lx;
    assert forall|j: int| 0 <= j < sub.len() implies (is_cut(sub, ':', j) <==> j == k) by {
        lemma_sub_scan(s, lx, d + ry, j);
        assert(sub[j] == s[lx + j]);
        if lx + j != nx {
            assert(!is_cut(s, ':', lx + j));
        }
    }
    lemma_one_cut_pieces(sub, ':', k, sub.len() as int);
    // The first end trims to the first positional.
    lemma_ws_local(s, nx, lx, nx);
    lemma_trail_from(x, 0, lx, nx);
    assert(lead_ws(x, lx, nx) == 0);
    assert(trim(s, lx, nx) == (lx, rx));
    // The second end trims to the second positional, moved along.
    lemma_ws_shift(p, y, 0, ry);
    lemma_lead_to(y, 0, ry, y.len() as int);
    assert(trail_ws(y, 0, ry) == 0);
    assert(trim(s, d, d + ry) == (d + ly, d + ry));
    lemma_parse_pos_local(s, nx, lx, rx);
    lemma_parse_pos_shift(p, y, ly, ry);
    reveal(spec_parse_item);
    reveal(spec_parse_piece);
    assert(lx + (k + 1) == d);
    assert(lx + sub.len() == d + ry);
    assert(spec_parse_item(s, lx, d + ry) == Ok::<ItemV, ErrorV>(
        ItemV::Range { start: Some(px), end: Some(py) },
    ));
    assert(parse_pieces(s, seq![(0int, len)], 0) == Ok::<SpecV, ErrorV>(
        SpecV { items: Seq::empty(), spans: Seq::empty() },
    ));
    let r = parse_pieces(s, seq![(0int, len)], 1);
    assert(r->Ok_0.items =~= seq![ItemV::Range { start: Some(px), end: Some(py) }]);
}

/// The answers with the two ends of the first item swapped.
pub open spec fn swap_ends(a: AnswersV) -> AnswersV {
    AnswersV { found: seq![(a.found[0].1, a.found[0].0)], ..a }
}

/// A range reads the same in either direction: for two positionals `x` and `y`, the text
/// `x:y` parses to the range from `x` to `y` and `y:x` to the range from `y` to `x`, and the two
/// select the same columns, or both fail (the table's answers travelling with their ends).
pub proof fn law_reversed_range_text(
    x: Seq<char>,
    y: Seq<char>,
    px: PosV,
    py: PosV,
    ans: AnswersV,
    bounds: Bounds,
)
    requires
        reads_as(x, px),
        reads_as(y, py),
        ans.found.len() == 1,
    ensures
        spec_parse(x + seq![':'] + y) matches Ok(f) && f.items == seq![
            ItemV::Range { start: Some(px), end: Some(py) },
        ],
        spec_parse(y + seq![':'] + x) matches Ok(r) && r.items == seq![
            ItemV::Range { start: Some(py), end: Some(px) },
        ],
        same_outcome(
            spec_columns(spec_parse(x + seq![':'] + y)->Ok_0, ans, bounds),
            spec_columns(spec_parse(y + seq![':'] + x)->Ok_0, swap_ends(ans), bounds),
        ),
{
    lemma_range_text(x, y, px, py);
    lemma_range_text(y, x, py, px);
    let f = spec_parse(x + seq![':'] + y)->Ok_0;
    let r = spec_parse(y + seq![':'] + x)->Ok_0;
    law_parse_shape(x + seq![':'] + y);
    law_parse_shape(y + seq![':'] + x);
    let fwd = ItemV::Range { start: Some(px), end: Some(py) };
    let rev = ItemV::Range { start: Some(py), end: Some(px) };
    let sw = swap_ends(ans);
    lemma_item_columns_spans(fwd, ans.found[0], ans, f.spans[0], r.spans[0], bounds);
    law_reversed_range_columns(px, py, ans.found[0], ans, r.spans[0], bounds);
    crate::laws::lemma_item_columns_same_table(rev, sw.found[0], ans, sw, r.spans[0], bounds);
    assert(f.items[0] == fwd);
    assert(r.items[0] == rev);
    let wf = item_columns_v(fwd, ans.found[0], ans, f.spans[0], bounds);
    let wr = item_columns_v(rev, sw.found[0], sw, r.spans[0], bounds);
    assert(same_outcome(wf, wr));
    assert(f.items.len() == 1 && r.items.len() == 1);
    assert(crate::placement::columns_upto(f, ans, bounds, 0) == Ok::<Seq<usize>, ErrorV>(Seq::empty()));
    assert(crate::placement::columns_upto(r, sw, bounds, 0) == Ok::<Seq<usize>, ErrorV>(Seq::empty()));
    assert(spec_columns(f, ans, bounds) == match wf {
        Ok(w) => Ok::<Seq<usize>, ErrorV>(Seq::<usize>::empty() + w),
        Err(e) => Err(e),
    });
    assert(spec_columns(r, sw, bounds) == match wr {
        Ok(w) => Ok::<Seq<usize>, ErrorV>(Seq::<usize>::empty() + w),
        Err(e) => Err(e),
    });
}

} // verus!
