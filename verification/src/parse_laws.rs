// Laws of the grammar: what every parse result and every parse error satisfies.
use crate::error::{fits_text, ErrorV, Kind};
use crate::grammar::{
    alpha_end, bracket_end, digits_end, is_cut, spec_item_extent, lead_white, lead_ws, lemma_pieces_bounds,
    lemma_read_name_end, names_closed, parse_pieces, pieces, spec_pos_extent, read_name,
    scan_state, spec_finish_pos, spec_parse, spec_parse_item, spec_parse_piece, spec_parse_pos,
    spec_parse_prefix, spec_range_end, trail_ws, trim, ColRefV, Scan, SpecV,
};
use crate::grammar::{ItemV, PosV};
use crate::grammar::{all_digits, digits_fit, digits_value};
use crate::letters::{
    all_alpha, cell_text, col_letters, escape_brackets, law_letters_round_trip, lemma_col_letters,
    quoted_text, rect_text, spec_letter_to_col, MAX_COL,
};
use crate::placement::{item_rect_v, spec_rect, AnswersV, Bounds, Rect};
use crate::text::{decimal, digit_char, is_alpha, is_digit};
use crate::text::{byte_len, byte_offset, is_ascii_space, is_white_space, lemma_offset_end, lemma_offset_is_boundary, lemma_offset_split};
use vstd::prelude::*;
use vstd::utf8::encode_utf8;

verus! {

// ------------------------------------------------------------ parse errors are syntax

proof fn lemma_finish_pos_syntax(s: Seq<char>, col: ColRefV, c: int, b: int)
    ensures
        spec_finish_pos(s, col, c, b) matches Err(e) ==> e.kind == Kind::Syntax,
{
    reveal(spec_finish_pos);
}

proof fn lemma_parse_pos_syntax(s: Seq<char>, a: int, b: int)
    ensures
        spec_parse_pos(s, a, b) matches Err(e) ==> e.kind == Kind::Syntax,
{
    reveal(spec_parse_pos);
    let t = s.subrange(a, b);
    if t == seq!['$'] {
    } else if t.len() > 0 && t[0] == '[' {
        if let Some((name, c)) = read_name(s, a + 1, b, Seq::empty()) {
            lemma_finish_pos_syntax(s, ColRefV::Name(name), c, b);
        }
    } else {
        let e = alpha_end(s, a, b);
        if e > a {
            if let Some(col) = spec_letter_to_col(s.subrange(a, e)) {
                lemma_finish_pos_syntax(s, ColRefV::Letters(col), e, b);
            }
        }
    }
}

proof fn lemma_parse_item_syntax(s: Seq<char>, a: int, b: int)
    ensures
        spec_parse_item(s, a, b) matches Err(e) ==> e.kind == Kind::Syntax,
{
    reveal(spec_parse_item);
    let sub = s.subrange(a, b);
    let parts = pieces(sub, ':', sub.len() as int);
    lemma_parse_pos_syntax(s, a, b);
    if parts.len() == 2 {
        let lo = trim(s, a + parts[0].0, a + parts[0].1);
        let hi = trim(s, a + parts[1].0, a + parts[1].1);
        lemma_parse_pos_syntax(s, lo.0, lo.1);
        lemma_parse_pos_syntax(s, hi.0, hi.1);
    }
}

proof fn lemma_parse_pieces_syntax(s: Seq<char>, ps: Seq<(int, int)>, k: int)
    ensures
        parse_pieces(s, ps, k) matches Err(e) ==> e.kind == Kind::Syntax,
    decreases k,
{
    if k > 0 {
        lemma_parse_pieces_syntax(s, ps, k - 1);
        reveal(spec_parse_piece);
        let sp = trim(s, ps[k - 1].0, ps[k - 1].1);
        lemma_parse_item_syntax(s, sp.0, sp.1);
    }
}

/// Parsing consults no table, so everything it rejects is a syntax error.
pub proof fn law_parse_errors_are_syntax(s: Seq<char>)
    ensures
        spec_parse(s) matches Err(e) ==> e.kind == Kind::Syntax,
        spec_parse_prefix(s) matches Err(e) ==> e.kind == Kind::Syntax,
{
    let ps = pieces(s, ',', s.len() as int);
    lemma_parse_pieces_syntax(s, ps, ps.len() as int);
    lemma_parse_item_syntax(s, 0, spec_item_extent(s));
}

// -------------------------------------------------------------- spans in the text

/// `span` is the bytes of some characters `x..y` lying within `a..b`.
pub open spec fn span_in(s: Seq<char>, span: (usize, usize), a: int, b: int) -> bool {
    exists|x: int, y: int|
        #![trigger byte_offset(s, x), byte_offset(s, y)]
        a <= x <= y <= b && span == (byte_offset(s, x) as usize, byte_offset(s, y) as usize)
}

proof fn lemma_span_in(s: Seq<char>, span: (usize, usize), a: int, b: int, x: int, y: int)
    requires
        a <= x <= y <= b,
        span == (byte_offset(s, x) as usize, byte_offset(s, y) as usize),
    ensures
        span_in(s, span, a, b),
{
    assert(span == (byte_offset(s, x) as usize, byte_offset(s, y) as usize));
}

proof fn lemma_span_widen(s: Seq<char>, span: (usize, usize), a: int, b: int, a2: int, b2: int)
    requires
        span_in(s, span, a, b),
        a2 <= a,
        b <= b2,
    ensures
        span_in(s, span, a2, b2),
{
    let (x, y) = choose|x: int, y: int|
        #![trigger byte_offset(s, x), byte_offset(s, y)]
        a <= x <= y <= b && span == (byte_offset(s, x) as usize, byte_offset(s, y) as usize);
    lemma_span_in(s, span, a2, b2, x, y);
}

proof fn lemma_span_fits(s: Seq<char>, span: (usize, usize))
    requires
        span_in(s, span, 0, s.len() as int),
        byte_len(s) <= usize::MAX,
    ensures
        fits_text(encode_utf8(s), span.0 as int, span.1 as int),
{
    let (x, y) = choose|x: int, y: int|
        #![trigger byte_offset(s, x), byte_offset(s, y)]
        0 <= x <= y <= s.len() && span == (byte_offset(s, x) as usize, byte_offset(s, y) as usize);
    lemma_offset_is_boundary(s, x);
    lemma_offset_is_boundary(s, y);
    lemma_offset_split(s, x, y);
    lemma_offset_end(s);
}

pub(crate) proof fn lemma_alpha_end_bounds(s: Seq<char>, i: int, b: int)
    requires
        i <= b,
    ensures
        i <= alpha_end(s, i, b) <= b,
    decreases b - i,
{
    if i < b && crate::text::is_alpha(s[i]) {
        lemma_alpha_end_bounds(s, i + 1, b);
    }
}

proof fn lemma_finish_pos_span(s: Seq<char>, col: ColRefV, c: int, b: int)
    requires
        c <= b,
    ensures
        spec_finish_pos(s, col, c, b) matches Err(e) ==> span_in(s, e.span, c, b),
{
    reveal(spec_finish_pos);
    if spec_finish_pos(s, col, c, b) is Err {
        lemma_span_in(s, spec_finish_pos(s, col, c, b)->Err_0.span, c, b, c, b);
    }
}

proof fn lemma_parse_pos_span(s: Seq<char>, a: int, b: int)
    requires
        a <= b,
    ensures
        spec_parse_pos(s, a, b) matches Err(e) ==> span_in(s, e.span, a, b),
{
    reveal(spec_parse_pos);
    let t = s.subrange(a, b);
    let r = spec_parse_pos(s, a, b);
    if r is Err {
        let sp = r->Err_0.span;
        if t == seq!['$'] {
        } else if t.len() > 0 && t[0] == '[' {
            lemma_read_name_end(s, a + 1, b, Seq::empty());
            match read_name(s, a + 1, b, Seq::empty()) {
                None => lemma_span_in(s, sp, a, b, a, b),
                Some((name, c)) => {
                    lemma_finish_pos_span(s, ColRefV::Name(name), c, b);
                    lemma_span_widen(s, sp, c, b, a, b);
                },
            }
        } else {
            lemma_alpha_end_bounds(s, a, b);
            let e = alpha_end(s, a, b);
            if e > a {
                match spec_letter_to_col(s.subrange(a, e)) {
                    None => lemma_span_in(s, sp, a, b, a, e),
                    Some(col) => {
                        lemma_finish_pos_span(s, ColRefV::Letters(col), e, b);
                        lemma_span_widen(s, sp, e, b, a, b);
                    },
                }
            } else {
                lemma_span_in(s, sp, a, b, a, b);
            }
        }
    }
}

proof fn lemma_lead_ws(s: Seq<char>, x: int, y: int)
    requires
        0 <= x <= y <= s.len(),
    ensures
        0 <= lead_ws(s, x, y) <= y - x,
        forall|i: int| x <= i < x + lead_ws(s, x, y) ==> is_ascii_space(#[trigger] s[i]),
    decreases y - x,
{
    if x < y && is_ascii_space(s[x]) {
        lemma_lead_ws(s, x + 1, y);
    }
}

proof fn lemma_trail_ws(s: Seq<char>, x: int, y: int)
    requires
        0 <= x <= y <= s.len(),
    ensures
        0 <= trail_ws(s, x, y) <= y - x,
        forall|i: int| y - trail_ws(s, x, y) <= i < y ==> is_ascii_space(#[trigger] s[i]),
    decreases y - x,
{
    if x < y && is_ascii_space(s[y - 1]) {
        lemma_trail_ws(s, x, y - 1);
    }
}

/// Trimming narrows a span, past ASCII white space only.
pub proof fn lemma_trim(s: Seq<char>, x: int, y: int)
    requires
        0 <= x <= y <= s.len(),
    ensures
        x <= trim(s, x, y).0 <= trim(s, x, y).1 <= y,
        forall|i: int| x <= i < trim(s, x, y).0 ==> is_ascii_space(#[trigger] s[i]),
        trim(s, x, y).0 < trim(s, x, y).1 ==> forall|i: int|
            trim(s, x, y).1 <= i < y ==> is_ascii_space(#[trigger] s[i]),
{
    lemma_lead_ws(s, x, y);
    lemma_trail_ws(s, x, y);
}

proof fn lemma_range_end_span(s: Seq<char>, sp: (int, int))
    requires
        sp.0 <= sp.1,
    ensures
        spec_range_end(s, sp) matches Err(e) ==> span_in(s, e.span, sp.0, sp.1),
{
    lemma_parse_pos_span(s, sp.0, sp.1);
}

proof fn lemma_parse_item_span(s: Seq<char>, a: int, b: int)
    requires
        0 <= a <= b <= s.len(),
    ensures
        spec_parse_item(s, a, b) matches Err(e) ==> (names_closed(s.subrange(a, b)) || a == 0)
            ==> span_in(s, e.span, a, b),
{
    reveal(spec_parse_item);
    let sub = s.subrange(a, b);
    let r = spec_parse_item(s, a, b);
    if r is Err {
        let sp = r->Err_0.span;
        if !names_closed(sub) {
            if a == 0 {
                assert(sub =~= s.take(b));
                lemma_offset_end(s);
                lemma_span_in(s, sp, a, b, 0, b);
            }
        } else {
            let parts = pieces(sub, ':', sub.len() as int);
            lemma_pieces_bounds(sub, ':', sub.len() as int);
            if parts.len() <= 1 {
                lemma_parse_pos_span(s, a, b);
            } else if parts.len() == 2 {
                let lo = trim(s, a + parts[0].0, a + parts[0].1);
                let hi = trim(s, a + parts[1].0, a + parts[1].1);
                lemma_trim(s, a + parts[0].0, a + parts[0].1);
                lemma_trim(s, a + parts[1].0, a + parts[1].1);
                if lo.0 == lo.1 && hi.0 == hi.1 {
                    lemma_span_in(s, sp, a, b, a, b);
                } else {
                    lemma_range_end_span(s, lo);
                    lemma_range_end_span(s, hi);
                    if spec_range_end(s, lo) is Err {
                        lemma_span_widen(s, sp, lo.0, lo.1, a, b);
                    } else {
                        lemma_span_widen(s, sp, hi.0, hi.1, a, b);
                    }
                }
            } else {
                lemma_span_in(s, sp, a, b, a, b);
            }
        }
    }
}

// ------------------------------------------------- a list item's brackets are its own

proof fn lemma_pieces_shape(s: Seq<char>, d: char, j: int)
    requires
        0 <= j <= s.len(),
        d != '[',
    ensures
        pieces(s, d, j).last().1 == j,
        forall|k: int|
            0 <= k < pieces(s, d, j).len() ==> scan_state(s, #[trigger] pieces(s, d, j)[k].0)
                == Scan::Out,
        forall|k: int|
            0 <= k < pieces(s, d, j).len() - 1 ==> is_cut(s, d, #[trigger] pieces(s, d, j)[k].1),
    decreases j,
{
    lemma_pieces_bounds(s, d, j);
    if j > 0 {
        lemma_pieces_shape(s, d, j - 1);
        lemma_pieces_bounds(s, d, j - 1);
        let p = pieces(s, d, j - 1);
        let q = pieces(s, d, j);
        if is_cut(s, d, j - 1) {
            assert(scan_state(s, j) == Scan::Out);
            assert forall|k: int| 0 <= k < q.len() - 1 implies is_cut(s, d, #[trigger] q[k].1) by {
                if k < p.len() - 1 {
                    assert(q[k] == p[k]);
                } else {
                    assert(q[k] == p.last());
                }
            }
            assert forall|k: int| 0 <= k < q.len() implies scan_state(s, #[trigger] q[k].0)
                == Scan::Out by {
                if k < p.len() {
                    assert(q[k] == p[k]);
                }
            }
        } else {
            assert forall|k: int| 0 <= k < q.len() - 1 implies is_cut(s, d, #[trigger] q[k].1) by {
                assert(q[k] == p[k]);
            }
            assert forall|k: int| 0 <= k < q.len() implies scan_state(s, #[trigger] q[k].0)
                == Scan::Out by {
                if k < p.len() - 1 {
                    assert(q[k] == p[k]);
                } else {
                    assert(q[k].0 == p[k].0);
                }
            }
        }
    }
}

pub(crate) proof fn lemma_ws_keeps_out(s: Seq<char>, x: int, y: int)
    requires
        0 <= x <= y <= s.len(),
        scan_state(s, x) == Scan::Out,
        forall|i: int| x <= i < y ==> is_ascii_space(#[trigger] s[i]),
    ensures
        scan_state(s, y) == Scan::Out,
    decreases y - x,
{
    if x < y {
        lemma_ws_keeps_out(s, x, y - 1);
        assert(is_ascii_space(s[y - 1]));
    }
}

pub(crate) proof fn lemma_ws_before_out(s: Seq<char>, b: int, p: int)
    requires
        0 <= b <= p <= s.len(),
        scan_state(s, p) == Scan::Out,
        forall|i: int| b <= i < p ==> is_ascii_space(#[trigger] s[i]),
    ensures
        scan_state(s, b) == Scan::Out,
    decreases p - b,
{
    if b < p {
        lemma_ws_before_out(s, b + 1, p);
        assert(is_ascii_space(s[b]));
    }
}

pub(crate) proof fn lemma_sub_scan(s: Seq<char>, a: int, b: int, j: int)
    requires
        0 <= a <= b <= s.len(),
        scan_state(s, a) == Scan::Out,
        b == s.len() || s[b] != ']',
        0 <= j <= b - a,
    ensures
        scan_state(s.subrange(a, b), j) == scan_state(s, a + j),
    decreases j,
{
    if j > 0 {
        lemma_sub_scan(s, a, b, j - 1);
        let sub = s.subrange(a, b);
        assert(sub[j - 1] == s[a + j - 1]);
        if j < b - a {
            assert(sub[j] == s[a + j]);
        }
    }
}

proof fn lemma_piece_closed(s: Seq<char>, p0: int, p1: int)
    requires
        0 <= p0 <= p1 <= s.len(),
        scan_state(s, p0) == Scan::Out,
        scan_state(s, p1) == Scan::Out,
        p1 == s.len() || s[p1] == ',',
        trim(s, p0, p1).0 < trim(s, p0, p1).1,
    ensures
        names_closed(s.subrange(trim(s, p0, p1).0, trim(s, p0, p1).1)),
{
    let (a, b) = trim(s, p0, p1);
    lemma_trim(s, p0, p1);
    lemma_ws_keeps_out(s, p0, a);
    lemma_ws_before_out(s, b, p1);
    if b < p1 {
        assert(is_ascii_space(s[b]));
    }
    lemma_sub_scan(s, a, b, b - a);
}

proof fn lemma_parse_pieces_span(s: Seq<char>, k: int)
    requires
        names_closed(s),
        0 <= k <= pieces(s, ',', s.len() as int).len(),
    ensures
        parse_pieces(s, pieces(s, ',', s.len() as int), k) matches Ok(sv) ==> sv.spans.len() == k
            && forall|i: int|
            0 <= i < k ==> span_in(s, #[trigger] sv.spans[i], 0, s.len() as int),
        parse_pieces(s, pieces(s, ',', s.len() as int), k) matches Err(e) ==> span_in(
            s,
            e.span,
            0,
            s.len() as int,
        ),
    decreases k,
{
    let ps = pieces(s, ',', s.len() as int);
    if k > 0 {
        lemma_parse_pieces_span(s, k - 1);
        lemma_pieces_bounds(s, ',', s.len() as int);
        lemma_pieces_shape(s, ',', s.len() as int);
        reveal(spec_parse_piece);
        let (p0, p1) = ps[k - 1];
        let (a, b) = trim(s, p0, p1);
        lemma_trim(s, p0, p1);
        if a < b {
            if k - 1 < ps.len() - 1 {
                assert(is_cut(s, ',', ps[k - 1].1));
            }
            lemma_piece_closed(s, p0, p1);
            lemma_parse_item_span(s, a, b);
        }
        match parse_pieces(s, ps, k) {
            Ok(sv) => {
                let prev = parse_pieces(s, ps, k - 1)->Ok_0;
                let sp = spec_parse_piece(s, ps[k - 1])->Ok_0.1;
                assert(sv.spans == prev.spans.push(sp));
                lemma_span_in(s, sp, 0, s.len() as int, a, b);
                assert forall|i: int| 0 <= i < k implies span_in(
                    s,
                    #[trigger] sv.spans[i],
                    0,
                    s.len() as int,
                ) by {
                    if i < k - 1 {
                        assert(sv.spans[i] == prev.spans[i]);
                    }
                }
            },
            Err(e) => {
                if parse_pieces(s, ps, k - 1) is Ok {
                    if a == b {
                        lemma_span_in(s, e.span, 0, s.len() as int, a, b);
                    } else {
                        lemma_span_widen(s, e.span, a, b, 0, s.len() as int);
                    }
                }
            },
        }
    }
}

/// Every span [`crate::parse`] reports, on an item or on an error, is a valid slice range of
/// the text it was given: in order, inside it, and on character boundaries.
pub proof fn law_parse_spans_fit(s: Seq<char>)
    requires
        byte_len(s) <= usize::MAX,
    ensures
        spec_parse(s) matches Ok(sv) ==> forall|k: int|
            0 <= k < sv.spans.len() ==> fits_text(
                encode_utf8(s),
                #[trigger] sv.spans[k].0 as int,
                sv.spans[k].1 as int,
            ),
        spec_parse(s) matches Err(e) ==> fits_text(encode_utf8(s), e.span.0 as int, e.span.1 as int),
{
    lemma_offset_end(s);
    let ps = pieces(s, ',', s.len() as int);
    if lead_white(s, 0, s.len() as int) == s.len() || !names_closed(s) {
        lemma_span_in(s, spec_parse(s)->Err_0.span, 0, s.len() as int, 0, s.len() as int);
        lemma_span_fits(s, spec_parse(s)->Err_0.span);
    } else {
        lemma_parse_pieces_span(s, ps.len() as int);
        match spec_parse(s) {
            Ok(sv) => {
                assert forall|k: int| 0 <= k < sv.spans.len() implies fits_text(
                    encode_utf8(s),
                    #[trigger] sv.spans[k].0 as int,
                    sv.spans[k].1 as int,
                ) by {
                    lemma_span_fits(s, sv.spans[k]);
                }
            },
            Err(e) => lemma_span_fits(s, e.span),
        }
    }
}

proof fn lemma_digits_end_bounds(s: Seq<char>, i: int)
    requires
        0 <= i <= s.len(),
    ensures
        i <= digits_end(s, i) <= s.len(),
    decreases s.len() - i,
{
    if i < s.len() && crate::text::is_digit(s[i]) {
        lemma_digits_end_bounds(s, i + 1);
    }
}

proof fn lemma_bracket_end_bounds(s: Seq<char>, i: int)
    requires
        0 <= i <= s.len(),
    ensures
        i <= bracket_end(s, i) <= s.len(),
    decreases s.len() - i,
{
    if i < s.len() {
        if s[i] == ']' {
            if i + 1 < s.len() && s[i + 1] == ']' {
                lemma_bracket_end_bounds(s, i + 2);
            }
        } else {
            lemma_bracket_end_bounds(s, i + 1);
        }
    }
}

proof fn lemma_pos_extent_bounds(s: Seq<char>, i: int)
    ensures
        spec_pos_extent(s, i) matches Some(e) ==> i < e <= s.len(),
{
    if 0 <= i < s.len() {
        lemma_bracket_end_bounds(s, i + 1);
        lemma_bracket_end_bounds(s, i + 1);
        if s[i] == '[' {
            lemma_digits_end_bounds(s, bracket_end(s, i + 1));
        } else if crate::text::is_alpha(s[i]) {
            lemma_alpha_end_bounds(s, i, s.len() as int);
            lemma_digits_end_bounds(s, alpha_end(s, i, s.len() as int));
            assert(alpha_end(s, i, s.len() as int) == alpha_end(s, i + 1, s.len() as int));
            lemma_alpha_end_bounds(s, i + 1, s.len() as int);
        } else {
            lemma_digits_end_bounds(s, i);
            if crate::text::is_digit(s[i]) {
                assert(digits_end(s, i) == digits_end(s, i + 1));
                lemma_digits_end_bounds(s, i + 1);
            }
        }
    }
}

/// [`crate::parse_prefix`] reads one address: exactly one item, spanning the bytes it
/// consumed from the start of the text, a valid slice range; and what it rejects, it rejects
/// with a valid slice range too.
pub proof fn law_prefix_one_item(s: Seq<char>)
    requires
        byte_len(s) <= usize::MAX,
    ensures
        spec_parse_prefix(s) matches Ok((sv, used)) ==> {
            &&& sv.items.len() == 1
            &&& sv.spans == seq![(0usize, used)]
            &&& fits_text(encode_utf8(s), 0, used as int)
        },
        spec_parse_prefix(s) matches Err(e) ==> fits_text(
            encode_utf8(s),
            e.span.0 as int,
            e.span.1 as int,
        ),
{
    lemma_offset_end(s);
    let n = spec_item_extent(s);
    lemma_pos_extent_bounds(s, 0);
    lemma_pos_extent_bounds(s, 1);
    if let Some(e) = spec_pos_extent(s, 0) {
        lemma_pos_extent_bounds(s, e + 1);
    }
    assert(0 <= n <= s.len());
    if n == 0 {
        lemma_span_in(s, (0usize, 0usize), 0, s.len() as int, 0, 0);
        lemma_span_fits(s, (0usize, 0usize));
    } else {
        lemma_parse_item_span(s, 0, n);
        match spec_parse_prefix(s) {
            Ok((sv, used)) => {
                lemma_span_in(s, (0usize, used), 0, s.len() as int, 0, n);
                lemma_span_fits(s, (0usize, used));
            },
            Err(e) => {
                lemma_span_widen(s, e.span, 0, n, 0, s.len() as int);
                lemma_span_fits(s, e.span);
            },
        }
    }
}

// ------------------------------------------------------------ the shape of a parse

/// How many top-level delimiters `d` (outside any `[name]`) `s[..j]` holds.
pub open spec fn top_level_count(s: Seq<char>, d: char, j: int) -> nat
    decreases j,
{
    if j <= 0 {
        0
    } else {
        top_level_count(s, d, j - 1) + if is_cut(s, d, j - 1) {
            1nat
        } else {
            0nat
        }
    }
}

/// An item with at least one end: never a range with neither.
pub open spec fn has_an_end(it: ItemV) -> bool {
    !(it matches ItemV::Range { start: None, end: None })
}

pub(crate) proof fn lemma_pieces_len(s: Seq<char>, d: char, j: int)
    requires
        0 <= j,
    ensures
        pieces(s, d, j).len() == 1 + top_level_count(s, d, j),
    decreases j,
{
    if j > 0 {
        lemma_pieces_len(s, d, j - 1);
    }
}

proof fn lemma_parse_pieces_shape(s: Seq<char>, ps: Seq<(int, int)>, k: int)
    requires
        0 <= k,
        parse_pieces(s, ps, k) is Ok,
    ensures
        parse_pieces(s, ps, k)->Ok_0.items.len() == k,
        parse_pieces(s, ps, k)->Ok_0.spans.len() == k,
        forall|j: int| 0 <= j < k ==> has_an_end(#[trigger] parse_pieces(s, ps, k)->Ok_0.items[j]),
    decreases k,
{
    if k > 0 {
        lemma_parse_pieces_shape(s, ps, k - 1);
        reveal(spec_parse_piece);
        reveal(spec_parse_item);
        let sv = parse_pieces(s, ps, k)->Ok_0;
        let prev = parse_pieces(s, ps, k - 1)->Ok_0;
        assert forall|j: int| 0 <= j < k implies has_an_end(#[trigger] sv.items[j]) by {
            if j < k - 1 {
                assert(sv.items[j] == prev.items[j]);
            }
        }
    }
}

/// A parse is never empty, and it has one item for each top-level comma plus one, in the order
/// written, none of them a range with neither end.
pub proof fn law_parse_shape(s: Seq<char>)
    ensures
        spec_parse(s) matches Ok(sv) ==> {
            &&& sv.items.len() == 1 + top_level_count(s, ',', s.len() as int)
            &&& sv.spans.len() == sv.items.len()
            &&& forall|k: int| 0 <= k < sv.items.len() ==> has_an_end(#[trigger] sv.items[k])
        },
{
    let ps = pieces(s, ',', s.len() as int);
    lemma_pieces_len(s, ',', s.len() as int);
    if spec_parse(s) is Ok {
        lemma_parse_pieces_shape(s, ps, ps.len() as int);
    }
}

// ------------------------------------------------------------ quoted names read back

/// What one character becomes inside a bracketed name.
pub open spec fn escaped_char(c: char) -> Seq<char> {
    if c == ']' {
        seq![']', ']']
    } else {
        seq![c]
    }
}

/// Where the `m`-th character of name `n` begins in its quoted text.
pub open spec fn name_pos(n: Seq<char>, m: int) -> int {
    1 + escape_brackets(n.take(m)).len() as int
}

proof fn lemma_escape_concat(a: Seq<char>, b: Seq<char>)
    ensures
        escape_brackets(a + b) == escape_brackets(a) + escape_brackets(b),
    decreases b.len(),
{
    if b.len() == 0 {
        assert(a + b =~= a);
        assert(escape_brackets(a) + escape_brackets(b) =~= escape_brackets(a));
    } else {
        lemma_escape_concat(a, b.drop_last());
        assert((a + b).drop_last() =~= a + b.drop_last());
        assert((a + b).last() == b.last());
        assert(escape_brackets(a + b) =~= escape_brackets(a) + escape_brackets(b));
    }
}

/// The quoted text of `n`, split at the `m`-th character of the name: the bracket, the
/// escaped first `m` characters, the escaped `m`-th character, the rest, and the bracket.
proof fn lemma_quoted_split(n: Seq<char>, m: int)
    requires
        0 <= m < n.len(),
    ensures
        quoted_text(n) == seq!['['] + escape_brackets(n.take(m)) + escaped_char(n[m])
            + escape_brackets(n.skip(m + 1)) + seq![']'],
{
    lemma_escape_concat(n.take(m), n.skip(m));
    assert(n =~= n.take(m) + n.skip(m));
    lemma_escape_concat(seq![n[m]], n.skip(m + 1));
    assert(n.skip(m) =~= seq![n[m]] + n.skip(m + 1));
    assert(seq![n[m]].drop_last() =~= Seq::<char>::empty());
    assert(seq![n[m]].last() == n[m]);
    assert(escape_brackets(Seq::<char>::empty()) =~= Seq::<char>::empty());
    assert(escape_brackets(seq![n[m]]) =~= Seq::<char>::empty() + escaped_char(n[m]));
    assert(escape_brackets(seq![n[m]]) =~= escaped_char(n[m]));
    assert(quoted_text(n) =~= seq!['['] + escape_brackets(n.take(m)) + escaped_char(n[m])
        + escape_brackets(n.skip(m + 1)) + seq![']']);
}

proof fn lemma_escape_step(n: Seq<char>, m: int)
    requires
        0 <= m < n.len(),
    ensures
        escape_brackets(n.take(m + 1)) == escape_brackets(n.take(m)) + escaped_char(n[m]),
{
    assert(n.take(m + 1).drop_last() =~= n.take(m));
    assert(n.take(m + 1).last() == n[m]);
}

proof fn lemma_escape_len(n: Seq<char>)
    ensures
        escape_brackets(n).len() >= n.len(),
    decreases n.len(),
{
    if n.len() > 0 {
        lemma_escape_len(n.drop_last());
    }
}

/// Reading the body of a quoted name from after its first `m` characters gives back the name
/// and stops just past the closing bracket.
proof fn lemma_quoted_reads_back(n: Seq<char>, m: int)
    requires
        0 <= m <= n.len(),
    ensures
        read_name(
            quoted_text(n),
            name_pos(n, m),
            quoted_text(n).len() as int,
            n.take(m),
        ) == Some((n, quoted_text(n).len() as int)),
    decreases n.len() - m,
{
    let q = quoted_text(n);
    let i = name_pos(n, m);
    if m == n.len() {
        assert(n.take(m) =~= n);
        assert(q[i] == ']');
    } else {
        lemma_quoted_split(n, m);
        lemma_escape_step(n, m);
        lemma_quoted_reads_back(n, m + 1);
        assert(n.take(m).push(n[m]) =~= n.take(m + 1));
        if n[m] == ']' {
            assert(q[i] == ']');
            assert(q[i + 1] == ']');
        } else {
            assert(q[i] == n[m]);
        }
    }
}

/// Inside a quoted name the reader is never outside brackets.
proof fn lemma_quoted_scan(n: Seq<char>, m: int)
    requires
        0 <= m <= n.len(),
    ensures
        scan_state(quoted_text(n), name_pos(n, m)) == Scan::Inside,
        forall|p: int|
            1 <= p <= name_pos(n, m) ==> scan_state(quoted_text(n), p)
                != Scan::Out,
    decreases m,
{
    let q = quoted_text(n);
    if m == 0 {
        assert(n.take(0) =~= Seq::<char>::empty());
        assert(escape_brackets(n.take(0)).len() == 0);
        assert(q[0] == '[');
    } else {
        lemma_quoted_scan(n, m - 1);
        lemma_quoted_split(n, m - 1);
        lemma_escape_step(n, m - 1);
        let i = name_pos(n, m - 1);
        if n[m - 1] == ']' {
            assert(q[i] == ']');
            assert(q[i + 1] == ']');
            assert(scan_state(q, i + 1) == Scan::Escaped);
        } else {
            assert(q[i] == n[m - 1]);
        }
    }
}

pub(crate) proof fn lemma_no_cut_pieces(s: Seq<char>, d: char, j: int)
    requires
        0 <= j <= s.len(),
        forall|i: int| 0 <= i < j ==> !is_cut(s, d, i),
    ensures
        pieces(s, d, j) == seq![(0int, j)],
    decreases j,
{
    if j > 0 {
        lemma_no_cut_pieces(s, d, j - 1);
        assert(pieces(s, d, j) =~= seq![(0int, j)]);
    }
}

/// A quoted name parses back to the name it quotes: `quote_name` and `parse` are inverse on
/// every column name, brackets and commas and colons included.
pub proof fn law_quoted_name_reads_back(n: Seq<char>)
    ensures
        spec_parse(quoted_text(n)) == Ok::<SpecV, ErrorV>(
            SpecV {
                items: seq![ItemV::Single(PosV::Column(ColRefV::Name(n)))],
                spans: seq![(0usize, byte_len(quoted_text(n)) as usize)],
            },
        ),
{
    let q = quoted_text(n);
    let len = q.len() as int;
    lemma_escape_len(n);
    assert(n.take(n.len() as int) =~= n);
    lemma_quoted_scan(n, n.len() as int);
    lemma_quoted_reads_back(n, 0);
    assert(n.take(0) =~= Seq::<char>::empty());
    assert(escape_brackets(n.take(0)) =~= Seq::<char>::empty());
    assert(q[0] == '[');
    assert(q[len - 1] == ']');
    // Brackets are closed: the final `]` leaves the name.
    assert(scan_state(q, len) == Scan::Out);
    assert(names_closed(q));
    // No delimiter is outside the name.
    assert forall|i: int| 0 <= i < len implies !is_cut(q, ',', i) && !is_cut(q, ':', i) by {
        if i > 0 {
            assert(scan_state(q, i) != Scan::Out);
        }
    }
    lemma_no_cut_pieces(q, ',', len);
    lemma_no_cut_pieces(q, ':', len);
    assert(q.subrange(0, len) =~= q);
    // Nothing to trim.
    assert(lead_ws(q, 0, len) == 0);
    assert(trail_ws(q, 0, len) == 0);
    assert(trim(q, 0, len) == (0int, len));
    // The one item is the name as a column.
    reveal(spec_parse_pos);
    assert(q.subrange(0, len) != seq!['$']) by {
        assert(q.subrange(0, len)[0] == '[');
    }
    reveal(spec_finish_pos);
    assert(q.subrange(len, len) =~= Seq::<char>::empty());
    assert(spec_parse_pos(q, 0, len) == Ok::<PosV, ErrorV>(PosV::Column(ColRefV::Name(n))));
    reveal(spec_parse_item);
    assert(spec_parse_item(q, 0, len) == Ok::<ItemV, ErrorV>(ItemV::Single(PosV::Column(ColRefV::Name(n)))));
    reveal(spec_parse_piece);
    lemma_offset_end(q);
    let ps = pieces(q, ',', len);
    assert(parse_pieces(q, ps, 0) == Ok::<SpecV, ErrorV>(SpecV { items: Seq::empty(), spans: Seq::empty() }));
    assert(parse_pieces(q, ps, 1) =~= Ok::<SpecV, ErrorV>(
        SpecV {
            items: seq![ItemV::Single(PosV::Column(ColRefV::Name(n)))],
            spans: seq![(0usize, byte_len(q) as usize)],
        },
    ));
}

// ------------------------------------------------------ rendered cells read back

proof fn lemma_decimal(v: nat)
    ensures
        decimal(v).len() >= 1,
        all_digits(decimal(v)),
        digits_value(decimal(v)) == v,
    decreases v,
{
    let d = decimal(v);
    if v < 10 {
        assert(((48 + v) as u8) as char as nat == 48 + v);
        assert(d.drop_last() =~= Seq::<char>::empty());
        assert(d.last() == digit_char(v));
        assert(digits_value(d) == digits_value(d.drop_last()) * 10 + (d.last() as nat - 48) as nat);
    } else {
        lemma_decimal(v / 10);
        assert(((48 + v % 10) as u8) as char as nat == 48 + v % 10);
        assert(d.drop_last() =~= decimal(v / 10));
        assert(d.last() == digit_char(v % 10));
        assert(digits_value(d) == digits_value(d.drop_last()) * 10 + (d.last() as nat - 48) as nat);
        assert(v == (v / 10) * 10 + v % 10) by (nonlinear_arith);
        assert forall|i: int| 0 <= i < d.len() implies is_digit(#[trigger] d[i]) by {
            if i < d.len() - 1 {
                assert(d[i] == decimal(v / 10)[i]);
            }
        }
    }
}

/// Every character of a rendered cell is a letter or a digit.
pub open spec fn alnum(t: Seq<char>) -> bool {
    forall|i: int| 0 <= i < t.len() ==> is_alpha(#[trigger] t[i]) || is_digit(t[i])
}

proof fn lemma_cell_text(r: nat, c: nat)
    ensures
        cell_text(r, c) == col_letters(c) + decimal(r + 1),
        col_letters(c).len() >= 1,
        all_alpha(col_letters(c)),
        decimal(r + 1).len() >= 1,
        all_digits(decimal(r + 1)),
        digits_value(decimal(r + 1)) == r + 1,
        alnum(cell_text(r, c)),
        is_alpha(cell_text(r, c)[0]),
        is_digit(cell_text(r, c).last()),
{
    lemma_col_letters(c);
    lemma_decimal(r + 1);
    let t = cell_text(r, c);
    let l = col_letters(c);
    let d = decimal(r + 1);
    assert forall|i: int| 0 <= i < t.len() implies is_alpha(#[trigger] t[i]) || is_digit(t[i]) by {
        if i < l.len() {
            assert(t[i] == l[i]);
        } else {
            assert(t[i] == d[i - l.len()]);
        }
    }
    assert(t[0] == l[0]);
    assert(t.last() == d[d.len() - 1]);
}

proof fn lemma_alpha_run(s: Seq<char>, i: int, e: int, b: int)
    requires
        0 <= i <= e <= b <= s.len(),
        forall|k: int| i <= k < e ==> is_alpha(#[trigger] s[k]),
        e == b || !is_alpha(s[e]),
    ensures
        alpha_end(s, i, b) == e,
    decreases e - i,
{
    if i < e {
        lemma_alpha_run(s, i + 1, e, b);
    }
}

/// A rendered cell, wherever it sits in a text, parses as that cell.
proof fn lemma_cell_pos(s: Seq<char>, a: int, b: int, r: usize, c: usize)
    requires
        0 <= a <= b <= s.len(),
        s.subrange(a, b) == cell_text(r as nat, c as nat),
        c <= MAX_COL,
        r < usize::MAX,
    ensures
        spec_parse_pos(s, a, b) == Ok::<PosV, ErrorV>(PosV::Cell { col: ColRefV::Letters(c), row: r }),
{
    lemma_cell_text(r as nat, c as nat);
    law_letters_round_trip(c);
    let t = s.subrange(a, b);
    let l = col_letters(c as nat);
    let d = decimal((r + 1) as nat);
    let e = a + l.len();
    assert forall|k: int| a <= k < e implies is_alpha(#[trigger] s[k]) by {
        assert(s[k] == t[k - a]);
        assert(t[k - a] == l[k - a]);
    }
    assert(s[e] == t[l.len() as int]);
    assert(t[l.len() as int] == d[0]);
    assert(!is_alpha(s[e]));
    lemma_alpha_run(s, a, e, b);
    assert(s.subrange(a, e) =~= l);
    assert(t.len() == l.len() + d.len());
    assert forall|i: int| 0 <= i < d.len() implies #[trigger] s.subrange(e, b)[i] == d[i] by {
        assert(s[e + i] == t[l.len() + i]);
    }
    assert(s.subrange(e, b) =~= d);
    reveal(spec_parse_pos);
    reveal(spec_finish_pos);
    assert(t != seq!['$']) by {
        if t == seq!['$'] {
            assert(is_alpha(t[0]));
        }
    }
    assert(t[0] != '[');
    assert(digits_fit(d));
}

proof fn lemma_no_bracket_out(s: Seq<char>, j: int)
    requires
        0 <= j <= s.len(),
        forall|i: int| 0 <= i < j ==> s[i] != '[',
    ensures
        scan_state(s, j) == Scan::Out,
    decreases j,
{
    if j > 0 {
        lemma_no_bracket_out(s, j - 1);
    }
}

pub(crate) proof fn lemma_one_cut_pieces(s: Seq<char>, d: char, k: int, j: int)
    requires
        0 <= k < j <= s.len(),
        is_cut(s, d, k),
        forall|i: int| 0 <= i < j && i != k ==> !is_cut(s, d, i),
    ensures
        pieces(s, d, j) == seq![(0int, k), (k + 1, j)],
    decreases j,
{
    if j == k + 1 {
        lemma_no_cut_pieces(s, d, k);
        assert(pieces(s, d, j) =~= seq![(0int, k), (k + 1, j)]);
    } else {
        lemma_one_cut_pieces(s, d, k, j - 1);
        assert(pieces(s, d, j) =~= seq![(0int, k), (k + 1, j)]);
    }
}

/// The parse of a lone well-formed item that fills the whole text.
proof fn lemma_single_item_spec(s: Seq<char>, it: ItemV)
    requires
        s.len() > 0,
        !is_white_space(s[0]),
        !is_white_space(s.last()),
        names_closed(s),
        pieces(s, ',', s.len() as int) == seq![(0int, s.len() as int)],
        spec_parse_item(s, 0, s.len() as int) == Ok::<ItemV, ErrorV>(it),
    ensures
        spec_parse(s) == Ok::<SpecV, ErrorV>(
            SpecV { items: seq![it], spans: seq![(0usize, byte_len(s) as usize)] },
        ),
{
    let len = s.len() as int;
    assert(lead_ws(s, 0, len) == 0);
    assert(trail_ws(s, 0, len) == 0);
    reveal(spec_parse_piece);
    lemma_offset_end(s);
    let ps = pieces(s, ',', len);
    assert(parse_pieces(s, ps, 0) == Ok::<SpecV, ErrorV>(SpecV { items: Seq::empty(), spans: Seq::empty() }));
    assert(parse_pieces(s, ps, 1) =~= Ok::<SpecV, ErrorV>(
        SpecV { items: seq![it], spans: seq![(0usize, byte_len(s) as usize)] },
    ));
}

/// A rendered cell parses back to that cell: `cell_ref` and `parse` are inverse on every
/// cell whose column letters round-trip.
pub proof fn law_cell_ref_reads_back(r: usize, c: usize)
    requires
        c <= MAX_COL,
        r < usize::MAX,
    ensures
        spec_parse(cell_text(r as nat, c as nat)) == Ok::<SpecV, ErrorV>(
            SpecV {
                items: seq![ItemV::Single(PosV::Cell { col: ColRefV::Letters(c), row: r })],
                spans: seq![(0usize, byte_len(cell_text(r as nat, c as nat)) as usize)],
            },
        ),
{
    let t = cell_text(r as nat, c as nat);
    let len = t.len() as int;
    lemma_cell_text(r as nat, c as nat);
    assert forall|i: int| 0 <= i < len implies t[i] != '[' && t[i] != ',' && t[i] != ':' by {
        assert(is_alpha(t[i]) || is_digit(t[i]));
    }
    lemma_no_bracket_out(t, len);
    assert forall|i: int| 0 <= i < len implies !is_cut(t, ',', i) && !is_cut(t, ':', i) by {}
    lemma_no_cut_pieces(t, ',', len);
    lemma_no_cut_pieces(t, ':', len);
    assert(t.subrange(0, len) =~= t);
    lemma_cell_pos(t, 0, len, r, c);
    reveal(spec_parse_item);
    lemma_single_item_spec(t, ItemV::Single(PosV::Cell { col: ColRefV::Letters(c), row: r }));
}

/// A row number written as itself reads back as that row: the decimal text of `n` parses to
/// the single whole row `n`, counted from 1 as written, spanning the whole text.
pub proof fn law_row_reads_back(n: usize)
    requires
        1 <= n,
    ensures
        spec_parse(decimal(n as nat)) == Ok::<SpecV, ErrorV>(
            SpecV {
                items: seq![ItemV::Single(PosV::Row((n - 1) as usize))],
                spans: seq![(0usize, byte_len(decimal(n as nat)) as usize)],
            },
        ),
{
    let t = decimal(n as nat);
    let len = t.len() as int;
    lemma_decimal(n as nat);
    assert forall|i: int| 0 <= i < len implies t[i] != '[' && t[i] != ',' && t[i] != ':' && !is_alpha(
        t[i],
    ) && !is_white_space(t[i]) by {
        assert(is_digit(t[i]));
    }
    lemma_no_bracket_out(t, len);
    assert forall|i: int| 0 <= i < len implies !is_cut(t, ',', i) && !is_cut(t, ':', i) by {}
    lemma_no_cut_pieces(t, ',', len);
    lemma_no_cut_pieces(t, ':', len);
    assert(t.subrange(0, len) =~= t);
    lemma_alpha_run(t, 0, 0, len);
    reveal(spec_parse_pos);
    assert(t != seq!['$']) by {
        if t == seq!['$'] {
            assert(is_digit(t[0]));
        }
    }
    assert(digits_fit(t));
    assert(spec_parse_pos(t, 0, len) == Ok::<PosV, ErrorV>(PosV::Row((n - 1) as usize)));
    reveal(spec_parse_item);
    assert(!is_white_space(t[0]) && !is_white_space(t.last()));
    lemma_single_item_spec(t, ItemV::Single(PosV::Row((n - 1) as usize)));
}

/// The smaller and larger of two indices.
pub open spec fn lo(a: usize, b: usize) -> usize {
    if a <= b {
        a
    } else {
        b
    }
}

pub open spec fn hi(a: usize, b: usize) -> usize {
    if a <= b {
        b
    } else {
        a
    }
}

/// The characters of two rendered cells joined by a colon: letters and digits, but for the
/// colon between them.
proof fn lemma_two_cells_chars(a: Seq<char>, b: Seq<char>)
    requires
        alnum(a),
        alnum(b),
    ensures
        forall|i: int|
            0 <= i < (a + seq![':'] + b).len() ==> (#[trigger] (a + seq![':'] + b)[i]) != '['
                && (a + seq![':'] + b)[i] != ',' && (i != a.len() ==> (a + seq![':'] + b)[i]
                != ':'),
        (a + seq![':'] + b)[a.len() as int] == ':',
{
    let text = a + seq![':'] + b;
    let k = a.len() as int;
    assert forall|i: int| 0 <= i < text.len() implies (#[trigger] text[i]) != '[' && text[i]
        != ',' && (i != k ==> text[i] != ':') by {
        if i < k {
            assert(text[i] == a[i]);
            assert(is_alpha(a[i]) || is_digit(a[i]));
        } else if i > k {
            assert(text[i] == b[i - k - 1]);
            assert(is_alpha(b[i - k - 1]) || is_digit(b[i - k - 1]));
        }
    }
}

/// The shape of two rendered cells joined by a colon: no brackets, no commas, one colon.
proof fn lemma_two_cells_pieces(text: Seq<char>, k: int)
    requires
        0 < k < text.len(),
        text[k] == ':',
        forall|i: int|
            0 <= i < text.len() ==> (#[trigger] text[i]) != '[' && text[i] != ',' && (i != k
                ==> text[i] != ':'),
    ensures
        names_closed(text),
        pieces(text, ',', text.len() as int) == seq![(0int, text.len() as int)],
        pieces(text, ':', text.len() as int) == seq![(0int, k), (k + 1, text.len() as int)],
{
    let len = text.len() as int;
    lemma_no_bracket_out(text, len);
    assert forall|i: int| 0 <= i < len implies !is_cut(text, ',', i) && (i != k ==> !is_cut(
        text,
        ':',
        i,
    )) by {
        assert(text[i] != ',');
    }
    lemma_no_bracket_out(text, k);
    lemma_no_cut_pieces(text, ',', len);
    lemma_one_cut_pieces(text, ':', k, len);
}

/// A span starting with a letter and ending with a digit trims to itself.
proof fn lemma_trim_alnum(text: Seq<char>, x: int, y: int)
    requires
        0 <= x < y <= text.len(),
        is_alpha(text[x]),
        is_digit(text[y - 1]),
    ensures
        trim(text, x, y) == (x, y),
{
    assert(lead_ws(text, x, y) == 0);
    assert(trail_ws(text, x, y) == 0);
}

/// Two rendered cells joined by a colon parse as the range between them.
proof fn lemma_two_cells_parse(top: usize, left: usize, bottom: usize, right: usize)
    requires
        left <= MAX_COL,
        right <= MAX_COL,
        top < usize::MAX,
        bottom < usize::MAX,
    ensures
        spec_parse(cell_text(top as nat, left as nat) + seq![':'] + cell_text(bottom as nat, right as nat))
            == Ok::<SpecV, ErrorV>(
            SpecV {
                items: seq![
                    ItemV::Range {
                        start: Some(PosV::Cell { col: ColRefV::Letters(left), row: top }),
                        end: Some(PosV::Cell { col: ColRefV::Letters(right), row: bottom }),
                    },
                ],
                spans: seq![(0usize, byte_len(cell_text(top as nat, left as nat) + seq![':'] + cell_text(bottom as nat, right as nat)) as usize)],
            },
        ),
{
    let a = cell_text(top as nat, left as nat);
    let b = cell_text(bottom as nat, right as nat);
    let text = a + seq![':'] + b;
    let k = a.len() as int;
    let len = text.len() as int;
    lemma_cell_text(top as nat, left as nat);
    lemma_cell_text(bottom as nat, right as nat);
    lemma_two_cells_chars(a, b);
    lemma_two_cells_pieces(text, k);
    assert(text.subrange(0, len) =~= text);
    assert(text.subrange(0, k) =~= a);
    assert(text.subrange(k + 1, len) =~= b);
    assert(text[0] == a[0]);
    assert(text[k - 1] == a.last());
    assert(text[k + 1] == b[0]);
    assert(text.last() == b.last());
    lemma_trim_alnum(text, 0, k);
    lemma_trim_alnum(text, k + 1, len);
    lemma_cell_pos(text, 0, k, top, left);
    lemma_cell_pos(text, k + 1, len, bottom, right);
    reveal(spec_parse_item);
    let it = ItemV::Range {
        start: Some(PosV::Cell { col: ColRefV::Letters(left), row: top }),
        end: Some(PosV::Cell { col: ColRefV::Letters(right), row: bottom }),
    };
    assert(spec_parse_item(text, 0, len) == Ok::<ItemV, ErrorV>(it));
    lemma_single_item_spec(text, it);
}

/// A rendered rectangle parses and resolves back to the same rectangle, corners normalised:
/// `rect_ref` and `parse` followed by `rect` are inverse on every rectangle inside the table.
pub proof fn law_rect_ref_round_trip(r1: usize, c1: usize, r2: usize, c2: usize, ans: AnswersV)
    requires
        c1 <= MAX_COL,
        c2 <= MAX_COL,
        r1 < ans.nrows,
        r2 < ans.nrows,
        c1 < ans.ncols,
        c2 < ans.ncols,
        ans.found.len() == 1,
    ensures
        spec_parse(rect_text(r1 as nat, c1 as nat, r2 as nat, c2 as nat)) is Ok,
        spec_rect(
            spec_parse(rect_text(r1 as nat, c1 as nat, r2 as nat, c2 as nat))->Ok_0,
            ans,
            Bounds::Strict,
        ) == Ok::<Option<Rect>, ErrorV>(
            Some(Rect { top: lo(r1, r2), left: lo(c1, c2), bottom: hi(r1, r2), right: hi(c1, c2) }),
        ),
{
    let top = lo(r1, r2);
    let bottom = hi(r1, r2);
    let left = lo(c1, c2);
    let right = hi(c1, c2);
    let text = rect_text(r1 as nat, c1 as nat, r2 as nat, c2 as nat);
    reveal(item_rect_v);
    if top == bottom && left == right {
        law_cell_ref_reads_back(top, left);
        assert(text == cell_text(top as nat, left as nat));
    } else {
        lemma_two_cells_parse(top, left, bottom, right);
        assert(text == cell_text(top as nat, left as nat) + seq![':'] + cell_text(bottom as nat, right as nat));
    }
}

} // verus!
