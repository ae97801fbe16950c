// Lists at the level of text: `a,b` parses to the items of `a` followed by those of `b`, and
// resolves to the columns of `a` followed by those of `b`.
use crate::case_laws::same_outcome;
use crate::error::ErrorV;
use crate::grammar::{
    alpha_end, is_cut, lead_white, lead_ws, names_closed, parse_pieces, pieces, read_name,
    scan_state, spec_finish_pos, spec_parse, spec_parse_item, spec_parse_piece, spec_parse_pos,
    spec_range_end, trail_ws, trim, ColRefV, ItemV, Scan, SpecV,
};
use crate::laws::{answers_skip, answers_take, joined, law_lists_concatenate};
use crate::placement::{columns_upto, item_columns_v, spec_columns, AnswersV, Bounds};
use crate::prefix_laws::{lemma_parse_piece_local, lemma_scan_local};
use crate::text::{byte_len, byte_offset, is_white_space, lemma_encode_concat};
use vstd::prelude::*;
use vstd::utf8::{encode_scalar, encode_utf8};

verus! {

/// A parse whose spans are moved `k` bytes along.
pub open spec fn shift_spans(sv: SpecV, k: int) -> SpecV {
    SpecV {
        items: sv.items,
        spans: sv.spans.map_values(|p: (usize, usize)| ((p.0 + k) as usize, (p.1 + k) as usize)),
    }
}

/// Character spans moved `d` characters along.
pub open spec fn shift_pieces(ps: Seq<(int, int)>, d: int) -> Seq<(int, int)> {
    ps.map_values(|p: (int, int)| (p.0 + d, p.1 + d))
}

// ---------------------------------------------------------------- behind a prefix

pub(crate) proof fn lemma_offset_shift(p: Seq<char>, t: Seq<char>, i: int)
    requires
        0 <= i <= t.len(),
    ensures
        byte_offset(p + t, p.len() + i) == byte_len(p) + byte_offset(t, i),
{
    assert((p + t).take(p.len() + i) =~= p + t.take(i));
    lemma_encode_concat(p, t.take(i));
}

proof fn lemma_read_name_shift(p: Seq<char>, t: Seq<char>, i: int, b: int, acc: Seq<char>)
    requires
        0 <= i,
        b <= t.len(),
    ensures
        read_name(p + t, p.len() + i, p.len() + b, acc) == match read_name(t, i, b, acc) {
            Some((n, c)) => Some((n, p.len() + c)),
            None => None,
        },
    decreases b - i,
{
    let s = p + t;
    let d = p.len() as int;
    if i < b {
        assert(s[d + i] == t[i]);
        if i + 1 < b {
            assert(s[d + i + 1] == t[i + 1]);
        }
        if t[i] == ']' {
            if i + 1 < b && t[i + 1] == ']' {
                lemma_read_name_shift(p, t, i + 2, b, acc.push(']'));
            }
        } else {
            lemma_read_name_shift(p, t, i + 1, b, acc.push(t[i]));
        }
    }
}

proof fn lemma_alpha_end_shift(p: Seq<char>, t: Seq<char>, i: int, b: int)
    requires
        0 <= i <= b <= t.len(),
    ensures
        alpha_end(p + t, p.len() + i, p.len() + b) == p.len() + alpha_end(t, i, b),
    decreases b - i,
{
    if i < b {
        assert((p + t)[p.len() + i] == t[i]);
        lemma_alpha_end_shift(p, t, i + 1, b);
    }
}

pub(crate) proof fn lemma_ws_shift(p: Seq<char>, t: Seq<char>, x: int, y: int)
    requires
        0 <= x <= y <= t.len(),
    ensures
        lead_ws(p + t, p.len() + x, p.len() + y) == lead_ws(t, x, y),
        trail_ws(p + t, p.len() + x, p.len() + y) == trail_ws(t, x, y),
    decreases y - x,
{
    if x < y {
        assert((p + t)[p.len() + x] == t[x]);
        assert((p + t)[p.len() + y - 1] == t[y - 1]);
        lemma_ws_shift(p, t, x + 1, y);
        lemma_ws_shift(p, t, x, y - 1);
    }
}

proof fn lemma_finish_pos_shift(p: Seq<char>, t: Seq<char>, col: ColRefV, c: int, b: int)
    requires
        0 <= c <= b <= t.len(),
        spec_finish_pos(t, col, c, b) is Ok,
    ensures
        spec_finish_pos(p + t, col, p.len() + c, p.len() + b) == spec_finish_pos(t, col, c, b),
{
    reveal(spec_finish_pos);
    assert((p + t).subrange(p.len() + c, p.len() + b) =~= t.subrange(c, b));
}

pub(crate) proof fn lemma_parse_pos_shift(p: Seq<char>, t: Seq<char>, a: int, b: int)
    requires
        0 <= a <= b <= t.len(),
        spec_parse_pos(t, a, b) is Ok,
    ensures
        spec_parse_pos(p + t, p.len() + a, p.len() + b) == spec_parse_pos(t, a, b),
{
    reveal(spec_parse_pos);
    let s = p + t;
    let d = p.len() as int;
    assert(s.subrange(d + a, d + b) =~= t.subrange(a, b));
    lemma_read_name_shift(p, t, a + 1, b, Seq::empty());
    lemma_alpha_end_shift(p, t, a, b);
    crate::parse_laws::lemma_alpha_end_bounds(t, a, b);
    let e = alpha_end(t, a, b);
    assert(s.subrange(d + a, d + e) =~= t.subrange(a, e));
    if let Some((name, c)) = read_name(t, a + 1, b, Seq::empty()) {
        crate::grammar::lemma_read_name_end(t, a + 1, b, Seq::empty());
        if t.subrange(a, b).len() > 0 && t.subrange(a, b)[0] == '[' && t.subrange(a, b) != seq!['$'] {
            lemma_finish_pos_shift(p, t, ColRefV::Name(name), c, b);
        }
    }
    if let Some(col) = crate::letters::spec_letter_to_col(t.subrange(a, e)) {
        if spec_finish_pos(t, ColRefV::Letters(col), e, b) is Ok {
            lemma_finish_pos_shift(p, t, ColRefV::Letters(col), e, b);
        }
    }
}

proof fn lemma_range_end_shift(p: Seq<char>, t: Seq<char>, sp: (int, int))
    requires
        0 <= sp.0 <= sp.1 <= t.len(),
        spec_range_end(t, sp) is Ok,
    ensures
        spec_range_end(p + t, (p.len() + sp.0, p.len() + sp.1)) == spec_range_end(t, sp),
{
    if sp.0 != sp.1 {
        lemma_parse_pos_shift(p, t, sp.0, sp.1);
    }
}

proof fn lemma_parse_item_shift(p: Seq<char>, t: Seq<char>, a: int, b: int)
    requires
        0 <= a <= b <= t.len(),
        spec_parse_item(t, a, b) is Ok,
    ensures
        spec_parse_item(p + t, p.len() + a, p.len() + b) == spec_parse_item(t, a, b),
{
    reveal(spec_parse_item);
    let s = p + t;
    let d = p.len() as int;
    let sub = t.subrange(a, b);
    assert(s.subrange(d + a, d + b) =~= sub);
    let parts = pieces(sub, ':', sub.len() as int);
    crate::grammar::lemma_pieces_bounds(sub, ':', sub.len() as int);
    if parts.len() <= 1 {
        lemma_parse_pos_shift(p, t, a, b);
    } else if parts.len() == 2 {
        let p0 = parts[0];
        let p1 = parts[1];
        lemma_ws_shift(p, t, a + p0.0, a + p0.1);
        lemma_ws_shift(p, t, a + p1.0, a + p1.1);
        crate::parse_laws::lemma_trim(t, a + p0.0, a + p0.1);
        crate::parse_laws::lemma_trim(t, a + p1.0, a + p1.1);
        let lo = trim(t, a + p0.0, a + p0.1);
        let hi = trim(t, a + p1.0, a + p1.1);
        assert(trim(s, d + a + p0.0, d + a + p0.1) == (d + lo.0, d + lo.1));
        assert(trim(s, d + a + p1.0, d + a + p1.1) == (d + hi.0, d + hi.1));
        lemma_range_end_shift(p, t, lo);
        if spec_range_end(t, lo) is Ok {
            lemma_range_end_shift(p, t, hi);
        }
    }
}

proof fn lemma_parse_piece_shift(p: Seq<char>, t: Seq<char>, piece: (int, int))
    requires
        0 <= piece.0 <= piece.1 <= t.len(),
        byte_len(p + t) <= usize::MAX,
        spec_parse_piece(t, piece) is Ok,
    ensures
        spec_parse_piece(p + t, (p.len() + piece.0, p.len() + piece.1)) == Ok::<
            (ItemV, (usize, usize)),
            ErrorV,
        >(
            (
                spec_parse_piece(t, piece)->Ok_0.0,
                (
                    (spec_parse_piece(t, piece)->Ok_0.1.0 + byte_len(p)) as usize,
                    (spec_parse_piece(t, piece)->Ok_0.1.1 + byte_len(p)) as usize,
                ),
            ),
        ),
{
    reveal(spec_parse_piece);
    let s = p + t;
    let d = p.len() as int;
    lemma_ws_shift(p, t, piece.0, piece.1);
    crate::parse_laws::lemma_trim(t, piece.0, piece.1);
    let sp = trim(t, piece.0, piece.1);
    assert(trim(s, d + piece.0, d + piece.1) == (d + sp.0, d + sp.1));
    lemma_offset_shift(p, t, sp.0);
    lemma_offset_shift(p, t, sp.1);
    crate::text::lemma_offset_is_boundary(t, sp.1);
    crate::text::lemma_offset_split(t, sp.0, sp.1);
    lemma_encode_concat(p, t);
    lemma_parse_item_shift(p, t, sp.0, sp.1);
}

// ------------------------------------------------------------- across the comma

/// Short of a cut that is not followed by `]`, the reader's state is the same in the cut text.
pub(crate) proof fn lemma_scan_local_end(s: Seq<char>, n: int)
    requires
        0 <= n < s.len(),
        s[n] != ']',
    ensures
        scan_state(s.take(n), n) == scan_state(s, n),
{
    if n > 0 {
        lemma_scan_local(s, n, n - 1);
        assert(s.take(n)[n - 1] == s[n - 1]);
    }
}

/// Behind a prefix that leaves the reader outside every name, it reads the rest as on its own.
pub(crate) proof fn lemma_scan_shift(p: Seq<char>, t: Seq<char>, j: int)
    requires
        scan_state(p + t, p.len() as int) == Scan::Out,
        0 <= j <= t.len(),
    ensures
        scan_state(p + t, p.len() + j) == scan_state(t, j),
    decreases j,
{
    if j > 0 {
        lemma_scan_shift(p, t, j - 1);
        assert((p + t)[p.len() + j - 1] == t[j - 1]);
        if j < t.len() {
            assert((p + t)[p.len() + j] == t[j]);
        }
    }
}

proof fn lemma_pieces_local(s: Seq<char>, n: int, c: char, j: int)
    requires
        0 <= j <= n <= s.len(),
    ensures
        pieces(s.take(n), c, j) == pieces(s, c, j),
    decreases j,
{
    if j > 0 {
        lemma_pieces_local(s, n, c, j - 1);
        lemma_scan_local(s, n, j - 1);
        assert(s.take(n)[j - 1] == s[j - 1]);
    }
}

proof fn lemma_pieces_shift(p: Seq<char>, t: Seq<char>, c: char, m: int)
    requires
        p.len() >= 1,
        is_cut(p + t, c, p.len() - 1),
        scan_state(p + t, p.len() as int) == Scan::Out,
        0 <= m <= t.len(),
    ensures
        pieces(p + t, c, p.len() + m) == pieces(p + t, c, p.len() - 1) + shift_pieces(
            pieces(t, c, m),
            p.len() as int,
        ),
    decreases m,
{
    let s = p + t;
    let d = p.len() as int;
    if m == 0 {
        assert(shift_pieces(pieces(t, c, 0), d) =~= seq![(d, d)]);
        assert(pieces(s, c, d) =~= pieces(s, c, d - 1) + seq![(d, d)]);
    } else {
        lemma_pieces_shift(p, t, c, m - 1);
        lemma_scan_shift(p, t, m - 1);
        assert(s[d + m - 1] == t[m - 1]);
        assert(is_cut(s, c, d + m - 1) == is_cut(t, c, m - 1));
        crate::grammar::lemma_pieces_bounds(t, c, m - 1);
        let x = pieces(s, c, d - 1);
        let y = pieces(t, c, m - 1);
        if is_cut(t, c, m - 1) {
            assert(pieces(s, c, d + m) =~= x + shift_pieces(pieces(t, c, m), d));
        } else {
            assert(pieces(s, c, d + m) =~= x + shift_pieces(pieces(t, c, m), d));
        }
    }
}

pub(crate) proof fn lemma_lead_white_bound(s: Seq<char>, x: int, y: int)
    requires
        x <= y,
    ensures
        0 <= lead_white(s, x, y) <= y - x,
    decreases y - x,
{
    if x < y && is_white_space(s[x]) {
        lemma_lead_white_bound(s, x + 1, y);
    }
}

/// A text that is not all white space stays so whatever follows it.
pub(crate) proof fn lemma_lead_white_prefix(s: Seq<char>, n: int, x: int)
    requires
        0 <= x <= n <= s.len(),
        lead_white(s.take(n), x, n) < n - x,
    ensures
        lead_white(s, x, s.len() as int) == lead_white(s.take(n), x, n),
    decreases n - x,
{
    let a = s.take(n);
    assert(a[x] == s[x]);
    if is_white_space(a[x]) {
        lemma_lead_white_prefix(s, n, x + 1);
    }
}

proof fn lemma_parse_pieces_ok(t: Seq<char>, ps: Seq<(int, int)>, m: int, k: int)
    requires
        0 <= m <= k,
        parse_pieces(t, ps, k) is Ok,
    ensures
        parse_pieces(t, ps, m) is Ok,
    decreases k - m,
{
    if m < k {
        lemma_parse_pieces_ok(t, ps, m, k - 1);
    }
}

/// The pieces inside the first `n` characters parse the same in the whole text.
proof fn lemma_parse_pieces_local(s: Seq<char>, n: int, ps: Seq<(int, int)>, qs: Seq<(int, int)>, k: int)
    requires
        0 <= k <= qs.len(),
        k <= ps.len(),
        n <= s.len(),
        forall|j: int| 0 <= j < k ==> ps[j] == qs[j],
        forall|j: int| 0 <= j < qs.len() ==> 0 <= #[trigger] qs[j].0 <= qs[j].1 <= n,
    ensures
        parse_pieces(s, ps, k) == parse_pieces(s.take(n), qs, k),
    decreases k,
{
    if k > 0 {
        lemma_parse_pieces_local(s, n, ps, qs, k - 1);
        lemma_parse_piece_local(s, n, qs[k - 1]);
    }
}

/// The pieces behind the comma parse as the second text's pieces, their spans moved along.
proof fn lemma_parse_pieces_behind(
    p: Seq<char>,
    t: Seq<char>,
    pa: Seq<(int, int)>,
    pb: Seq<(int, int)>,
    first: SpecV,
    m: int,
)
    requires
        byte_len(p + t) <= usize::MAX,
        0 <= m <= pb.len(),
        forall|j: int| 0 <= j < pb.len() ==> 0 <= #[trigger] pb[j].0 <= pb[j].1 <= t.len(),
        parse_pieces(p + t, pa + shift_pieces(pb, p.len() as int), pa.len() as int) == Ok::<SpecV, ErrorV>(first),
        parse_pieces(t, pb, m) is Ok,
    ensures
        parse_pieces(p + t, pa + shift_pieces(pb, p.len() as int), pa.len() + m) == Ok::<SpecV, ErrorV>(
            joined(first, shift_spans(parse_pieces(t, pb, m)->Ok_0, byte_len(p) as int)),
        ),
    decreases m,
{
    let ps = pa + shift_pieces(pb, p.len() as int);
    if m == 0 {
        let e = shift_spans(parse_pieces(t, pb, 0)->Ok_0, byte_len(p) as int);
        assert(joined(first, e) =~= first);
    } else {
        lemma_parse_pieces_ok(t, pb, m - 1, m);
        lemma_parse_pieces_behind(p, t, pa, pb, first, m - 1);
        let piece = pb[m - 1];
        assert(ps[pa.len() + m - 1] == (p.len() + piece.0, p.len() + piece.1));
        lemma_parse_piece_shift(p, t, piece);
        let prev = parse_pieces(t, pb, m - 1)->Ok_0;
        let now = parse_pieces(t, pb, m)->Ok_0;
        let k = byte_len(p) as int;
        let (it, sp) = spec_parse_piece(t, piece)->Ok_0;
        assert(now.items == prev.items.push(it));
        assert(now.spans == prev.spans.push(sp));
        let j = joined(first, shift_spans(prev, k));
        let jn = joined(first, shift_spans(now, k));
        assert(jn.items =~= j.items.push(it));
        assert(jn.spans =~= j.spans.push(((sp.0 + k) as usize, (sp.1 + k) as usize)));
    }
}

proof fn lemma_byte_len_comma(a: Seq<char>)
    ensures
        byte_len(a + seq![',']) == byte_len(a) + 1,
{
    lemma_encode_concat(a, seq![',']);
    assert(seq![','].drop_first() =~= Seq::<char>::empty());
    assert(encode_utf8(seq![',']) =~= encode_scalar(',' as u32) + encode_utf8(Seq::<char>::empty()));
}

/// A list written as two lists with a comma between them parses to the items of the first
/// followed by the items of the second, in order, the second's spans moved past the first
/// text and the comma.
pub proof fn law_list_text(a: Seq<char>, b: Seq<char>)
    requires
        byte_len(a + seq![','] + b) <= usize::MAX,
        spec_parse(a) is Ok,
        spec_parse(b) is Ok,
    ensures
        spec_parse(a + seq![','] + b) == Ok::<SpecV, ErrorV>(
            joined(spec_parse(a)->Ok_0, shift_spans(spec_parse(b)->Ok_0, (byte_len(a) + 1) as int)),
        ),
{
    let p = a + seq![','];
    let s = p + b;
    assert(a + seq![','] + b =~= s);
    let n = a.len() as int;
    let d = n + 1;
    assert(s.take(n) =~= a);
    assert(s[n] == ',');
    lemma_scan_local_end(s, n);
    assert(scan_state(s, d) == Scan::Out);
    assert(is_cut(s, ',', n));
    lemma_scan_shift(p, b, b.len() as int);
    assert(names_closed(s));
    lemma_lead_white_bound(a, 0, n);
    lemma_lead_white_prefix(s, n, 0);
    let pa = pieces(a, ',', n);
    let pb = pieces(b, ',', b.len() as int);
    lemma_pieces_local(s, n, ',', n);
    lemma_pieces_shift(p, b, ',', b.len() as int);
    let ps = pieces(s, ',', s.len() as int);
    assert(ps == pa + shift_pieces(pb, d));
    crate::grammar::lemma_pieces_bounds(a, ',', n);
    crate::grammar::lemma_pieces_bounds(b, ',', b.len() as int);
    lemma_parse_pieces_local(s, n, ps, pa, pa.len() as int);
    let first = spec_parse(a)->Ok_0;
    lemma_byte_len_comma(a);
    lemma_parse_pieces_behind(p, b, pa, pb, first, pb.len() as int);
}

pub(crate) proof fn lemma_item_columns_spans(
    item: ItemV,
    f: (Option<usize>, Option<usize>),
    ans: AnswersV,
    s1: (usize, usize),
    s2: (usize, usize),
    bounds: Bounds,
)
    ensures
        same_outcome(item_columns_v(item, f, ans, s1, bounds), item_columns_v(item, f, ans, s2, bounds)),
{
    reveal(item_columns_v);
}

/// Where the spans are reported does not change which columns are selected, nor whether.
proof fn lemma_columns_spans_upto(x: SpecV, y: SpecV, ans: AnswersV, bounds: Bounds, k: int)
    requires
        x.items == y.items,
    ensures
        same_outcome(columns_upto(x, ans, bounds, k), columns_upto(y, ans, bounds, k)),
    decreases k,
{
    if k > 0 {
        lemma_columns_spans_upto(x, y, ans, bounds, k - 1);
        lemma_item_columns_spans(x.items[k - 1], ans.found[k - 1], ans, x.spans[k - 1], y.spans[k - 1], bounds);
    }
}

/// A list written as two lists with a comma between them resolves item by item, in the order
/// written: where both resolve, to the columns of the first followed by those of the second;
/// where either fails, it fails too. (The table answers the same for each item as it would
/// for that item on its own.)
pub proof fn law_list_text_columns(a: Seq<char>, b: Seq<char>, ans: AnswersV, bounds: Bounds)
    requires
        byte_len(a + seq![','] + b) <= usize::MAX,
        spec_parse(a) is Ok,
        spec_parse(b) is Ok,
        ans.found.len() == spec_parse(a)->Ok_0.items.len() + spec_parse(b)->Ok_0.items.len(),
    ensures
        spec_parse(a + seq![','] + b) is Ok,
        match (
            spec_columns(
                spec_parse(a)->Ok_0,
                answers_take(ans, spec_parse(a)->Ok_0.items.len() as int),
                bounds,
            ),
            spec_columns(
                spec_parse(b)->Ok_0,
                answers_skip(ans, spec_parse(a)->Ok_0.items.len() as int),
                bounds,
            ),
        ) {
            (Ok(va), Ok(vb)) => spec_columns(spec_parse(a + seq![','] + b)->Ok_0, ans, bounds)
                == Ok::<Seq<usize>, ErrorV>(va + vb),
            _ => spec_columns(spec_parse(a + seq![','] + b)->Ok_0, ans, bounds) is Err,
        },
{
    law_list_text(a, b);
    let sa = spec_parse(a)->Ok_0;
    let sb = spec_parse(b)->Ok_0;
    let k = (byte_len(a) + 1) as int;
    let sbs = shift_spans(sb, k);
    crate::parse_laws::law_parse_shape(a);
    crate::parse_laws::law_parse_shape(b);
    law_lists_concatenate(sa, sbs, ans, bounds);
    let rest = answers_skip(ans, sa.items.len() as int);
    lemma_columns_spans_upto(sbs, sb, rest, bounds, sb.items.len() as int);
}

} // verus!
