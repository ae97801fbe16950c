// Case-insensitivity of the whole grammar: outside `[names]`, an address reads the same in
// upper case.
use crate::error::ErrorV;
use crate::grammar::{
    alpha_end, all_digits, is_cut, lead_white, lead_ws, parse_pieces, pieces, scan_state,
    spec_finish_pos, spec_parse, spec_parse_item, spec_parse_piece, spec_parse_pos,
    spec_range_end, trail_ws, trim, ColRefV, Scan,
};
use crate::letters::{law_letters_case_insensitive, spec_letter_to_col, upper, upper_text};
use crate::text::{byte_offset, char_width, is_alpha, is_digit};
use vstd::prelude::*;
use vstd::utf8::{encode_scalar, encode_utf8};

verus! {

/// Two results with the same outcome: both succeed with the same value, or both fail (the
/// messages of the failures may quote the text as written).
pub open spec fn same_outcome<T>(r1: Result<T, ErrorV>, r2: Result<T, ErrorV>) -> bool {
    match (r1, r2) {
        (Ok(x), Ok(y)) => x == y,
        (Err(_), Err(_)) => true,
        _ => false,
    }
}

/// A text with no `[`, so no bracketed name.
pub open spec fn no_bracket(s: Seq<char>) -> bool {
    forall|i: int| 0 <= i < s.len() ==> #[trigger] s[i] != '['
}

/// Upper-casing keeps every character that is not an ASCII letter, and keeps letters letters
/// of the same width.
proof fn lemma_upper_char(c: char)
    ensures
        upper(c) == c || (is_alpha(c) && is_alpha(upper(c))),
        is_alpha(upper(c)) == is_alpha(c),
        char_width(upper(c)) == char_width(c),
{
    if 'a' <= c && c <= 'z' {
        assert(((c as u32 - 32) as u8) as char as nat == c as nat - 32);
        assert(encode_scalar(upper(c) as u32).len() == 1);
        assert(encode_scalar(c as u32).len() == 1);
    }
}

proof fn lemma_upper_at(s: Seq<char>, i: int)
    requires
        0 <= i < s.len(),
    ensures
        upper_text(s).len() == s.len(),
        upper_text(s)[i] == upper(s[i]),
        upper_text(s)[i] == s[i] || (is_alpha(s[i]) && is_alpha(upper_text(s)[i])),
        is_alpha(upper_text(s)[i]) == is_alpha(s[i]),
{
    lemma_upper_char(s[i]);
}

proof fn lemma_no_bracket_upper(s: Seq<char>)
    requires
        no_bracket(s),
    ensures
        no_bracket(upper_text(s)),
        upper_text(s).len() == s.len(),
{
    assert forall|i: int| 0 <= i < upper_text(s).len() implies #[trigger] upper_text(s)[i] != '[' by {
        lemma_upper_at(s, i);
    }
}

proof fn lemma_scan_out(s: Seq<char>, j: int)
    requires
        no_bracket(s),
        0 <= j <= s.len(),
    ensures
        scan_state(s, j) == Scan::Out,
    decreases j,
{
    if j > 0 {
        lemma_scan_out(s, j - 1);
    }
}

proof fn lemma_pieces_upper(s: Seq<char>, d: char, j: int)
    requires
        no_bracket(s),
        !is_alpha(d),
        0 <= j <= s.len(),
    ensures
        pieces(upper_text(s), d, j) == pieces(s, d, j),
    decreases j,
{
    if j > 0 {
        lemma_pieces_upper(s, d, j - 1);
        lemma_no_bracket_upper(s);
        lemma_scan_out(s, j - 1);
        lemma_scan_out(upper_text(s), j - 1);
        lemma_upper_at(s, j - 1);
        assert(is_cut(upper_text(s), d, j - 1) == is_cut(s, d, j - 1));
    }
}

proof fn lemma_ws_upper(s: Seq<char>, x: int, y: int)
    requires
        0 <= x <= y <= s.len(),
    ensures
        lead_ws(upper_text(s), x, y) == lead_ws(s, x, y),
        trail_ws(upper_text(s), x, y) == trail_ws(s, x, y),
        lead_white(upper_text(s), x, y) == lead_white(s, x, y),
    decreases y - x,
{
    if x < y {
        lemma_upper_at(s, x);
        lemma_upper_at(s, y - 1);
        lemma_ws_upper(s, x + 1, y);
        lemma_ws_upper(s, x, y - 1);
    }
}

proof fn lemma_encode_len_upper(t: Seq<char>)
    ensures
        encode_utf8(upper_text(t)).len() == encode_utf8(t).len(),
    decreases t.len(),
{
    if t.len() > 0 {
        let u = upper_text(t);
        lemma_encode_len_upper(t.drop_first());
        assert(u.drop_first() =~= upper_text(t.drop_first()));
        lemma_upper_char(t[0]);
        assert(u[0] == upper(t[0]));
    }
}

proof fn lemma_offset_upper(s: Seq<char>, i: int)
    requires
        0 <= i <= s.len(),
    ensures
        byte_offset(upper_text(s), i) == byte_offset(s, i),
{
    assert(upper_text(s).take(i) =~= upper_text(s.take(i)));
    lemma_encode_len_upper(s.take(i));
}

proof fn lemma_alpha_end_upper(s: Seq<char>, i: int, b: int)
    requires
        0 <= i,
        b <= s.len(),
    ensures
        alpha_end(upper_text(s), i, b) == alpha_end(s, i, b),
    decreases b - i,
{
    if i < b {
        lemma_upper_at(s, i);
        lemma_alpha_end_upper(s, i + 1, b);
    }
}

/// Upper-casing digits leaves them as they are; any other text keeps its non-digits.
proof fn lemma_digits_upper(t: Seq<char>)
    ensures
        all_digits(upper_text(t)) == all_digits(t),
        all_digits(t) ==> upper_text(t) == t,
        upper_text(t) == seq!['$'] <==> t == seq!['$'],
{
    let u = upper_text(t);
    assert forall|i: int| 0 <= i < t.len() implies (#[trigger] is_digit(u[i])) == is_digit(t[i])
        && (is_digit(t[i]) ==> u[i] == t[i]) by {
        lemma_upper_at(t, i);
    }
    if all_digits(t) {
        assert(u =~= t);
    }
    if all_digits(u) {
        assert forall|i: int| 0 <= i < t.len() implies is_digit(#[trigger] t[i]) by {
            assert(is_digit(u[i]));
        }
    }
    if t.len() == 1 {
        lemma_upper_at(t, 0);
        if u == seq!['$'] {
            assert(u[0] == '$');
            assert(t =~= seq!['$']);
        }
        if t == seq!['$'] {
            assert(u =~= seq!['$']);
        }
    }
}

proof fn lemma_finish_pos_upper(s: Seq<char>, col: ColRefV, c: int, b: int)
    requires
        0 <= c <= b <= s.len(),
    ensures
        same_outcome(spec_finish_pos(upper_text(s), col, c, b), spec_finish_pos(s, col, c, b)),
{
    reveal(spec_finish_pos);
    let t = s.subrange(c, b);
    assert(upper_text(s).subrange(c, b) =~= upper_text(t));
    lemma_digits_upper(t);
}

proof fn lemma_parse_pos_upper(s: Seq<char>, a: int, b: int)
    requires
        no_bracket(s),
        0 <= a <= b <= s.len(),
    ensures
        same_outcome(spec_parse_pos(upper_text(s), a, b), spec_parse_pos(s, a, b)),
{
    reveal(spec_parse_pos);
    let u = upper_text(s);
    let t = s.subrange(a, b);
    assert(u.subrange(a, b) =~= upper_text(t));
    lemma_digits_upper(t);
    lemma_alpha_end_upper(s, a, b);
    crate::parse_laws::lemma_alpha_end_bounds(s, a, b);
    let e = alpha_end(s, a, b);
    assert(u.subrange(a, e) =~= upper_text(s.subrange(a, e)));
    law_letters_case_insensitive(s.subrange(a, e));
    if t.len() > 0 {
        assert(t[0] == s[a]);
        lemma_upper_at(s, a);
    }
    if let Some(col) = spec_letter_to_col(s.subrange(a, e)) {
        lemma_finish_pos_upper(s, ColRefV::Letters(col), e, b);
    }
}

proof fn lemma_range_end_upper(s: Seq<char>, sp: (int, int))
    requires
        no_bracket(s),
        0 <= sp.0 <= sp.1 <= s.len(),
    ensures
        same_outcome(spec_range_end(upper_text(s), sp), spec_range_end(s, sp)),
{
    if sp.0 != sp.1 {
        lemma_parse_pos_upper(s, sp.0, sp.1);
    }
}

proof fn lemma_parse_item_upper(s: Seq<char>, a: int, b: int)
    requires
        no_bracket(s),
        0 <= a <= b <= s.len(),
    ensures
        same_outcome(spec_parse_item(upper_text(s), a, b), spec_parse_item(s, a, b)),
{
    reveal(spec_parse_item);
    let u = upper_text(s);
    let sub = s.subrange(a, b);
    assert(u.subrange(a, b) =~= upper_text(sub));
    assert(no_bracket(sub));
    lemma_no_bracket_upper(sub);
    lemma_scan_out(sub, sub.len() as int);
    lemma_scan_out(upper_text(sub), sub.len() as int);
    lemma_pieces_upper(sub, ':', sub.len() as int);
    lemma_offset_upper(s, a);
    lemma_offset_upper(s, b);
    let parts = pieces(sub, ':', sub.len() as int);
    crate::grammar::lemma_pieces_bounds(sub, ':', sub.len() as int);
    if parts.len() <= 1 {
        lemma_parse_pos_upper(s, a, b);
    } else if parts.len() == 2 {
        lemma_ws_upper(s, a + parts[0].0, a + parts[0].1);
        lemma_ws_upper(s, a + parts[1].0, a + parts[1].1);
        let lo = trim(s, a + parts[0].0, a + parts[0].1);
        let hi = trim(s, a + parts[1].0, a + parts[1].1);
        crate::parse_laws::lemma_trim(s, a + parts[0].0, a + parts[0].1);
        crate::parse_laws::lemma_trim(s, a + parts[1].0, a + parts[1].1);
        lemma_range_end_upper(s, lo);
        lemma_range_end_upper(s, hi);
    }
}

proof fn lemma_parse_piece_upper(s: Seq<char>, piece: (int, int))
    requires
        no_bracket(s),
        0 <= piece.0 <= piece.1 <= s.len(),
    ensures
        same_outcome(spec_parse_piece(upper_text(s), piece), spec_parse_piece(s, piece)),
{
    reveal(spec_parse_piece);
    lemma_ws_upper(s, piece.0, piece.1);
    crate::parse_laws::lemma_trim(s, piece.0, piece.1);
    let sp = trim(s, piece.0, piece.1);
    lemma_offset_upper(s, sp.0);
    lemma_offset_upper(s, sp.1);
    lemma_parse_item_upper(s, sp.0, sp.1);
}

proof fn lemma_parse_pieces_upper(s: Seq<char>, ps: Seq<(int, int)>, k: int)
    requires
        no_bracket(s),
        0 <= k <= ps.len(),
        forall|j: int| 0 <= j < ps.len() ==> 0 <= #[trigger] ps[j].0 <= ps[j].1 <= s.len(),
    ensures
        same_outcome(parse_pieces(upper_text(s), ps, k), parse_pieces(s, ps, k)),
    decreases k,
{
    if k > 0 {
        lemma_parse_pieces_upper(s, ps, k - 1);
        lemma_parse_piece_upper(s, ps[k - 1]);
    }
}

/// Outside bracketed names an address is case-insensitive: a text without `[` parses exactly
/// when its ASCII upper-casing does, to the same items and spans (only the wording of an
/// error may differ, where it quotes the text).
pub proof fn law_parse_case_insensitive(s: Seq<char>)
    requires
        no_bracket(s),
    ensures
        same_outcome(spec_parse(upper_text(s)), spec_parse(s)),
{
    let u = upper_text(s);
    lemma_no_bracket_upper(s);
    lemma_ws_upper(s, 0, s.len() as int);
    lemma_scan_out(s, s.len() as int);
    lemma_scan_out(u, s.len() as int);
    lemma_pieces_upper(s, ',', s.len() as int);
    let ps = pieces(s, ',', s.len() as int);
    crate::grammar::lemma_pieces_bounds(s, ',', s.len() as int);
    lemma_parse_pieces_upper(s, ps, ps.len() as int);
}

} // verus!
