// The prefix law: what `parse_prefix` measures is exactly a text that `parse` reads as the same
// single item.
use crate::error::ErrorV;
use crate::grammar::{
    alpha_end, bracket_end, digits_end, is_cut, lead_white, lead_ws, names_closed, parse_pieces,
    pieces, read_name, scan_state, spec_finish_pos, spec_item_extent, spec_parse,
    spec_parse_item, spec_parse_piece, spec_parse_pos, spec_parse_prefix, spec_pos_extent,
    trail_ws, trim, Scan, SpecV,
};
use crate::text::{byte_len, byte_offset, is_alpha, is_ascii_space, is_digit, is_white_space};
use vstd::prelude::*;
use vstd::utf8::{encode_scalar, encode_utf8};

verus! {

// ---------------------------------------------------------------- locality

/// Offsets inside the first `n` characters are the same in the text cut there.
pub(crate) proof fn lemma_offset_local(s: Seq<char>, n: int, i: int)
    requires
        0 <= i <= n <= s.len(),
    ensures
        byte_offset(s.take(n), i) == byte_offset(s, i),
{
    assert(s.take(n).take(i) =~= s.take(i));
}

proof fn lemma_read_name_local(s: Seq<char>, n: int, i: int, b: int, acc: Seq<char>)
    requires
        0 <= i,
        b <= n <= s.len(),
    ensures
        read_name(s.take(n), i, b, acc) == read_name(s, i, b, acc),
    decreases b - i,
{
    let q = s.take(n);
    if i < b {
        assert(q[i] == s[i]);
        if s[i] == ']' {
            if i + 1 < b {
                assert(q[i + 1] == s[i + 1]);
            }
            if i + 1 < b && s[i + 1] == ']' {
                lemma_read_name_local(s, n, i + 2, b, acc.push(']'));
            }
        } else {
            lemma_read_name_local(s, n, i + 1, b, acc.push(s[i]));
        }
    }
}

proof fn lemma_alpha_end_local(s: Seq<char>, n: int, i: int, b: int)
    requires
        0 <= i,
        b <= n <= s.len(),
    ensures
        alpha_end(s.take(n), i, b) == alpha_end(s, i, b),
    decreases b - i,
{
    if i < b {
        assert(s.take(n)[i] == s[i]);
        lemma_alpha_end_local(s, n, i + 1, b);
    }
}

proof fn lemma_finish_pos_local(s: Seq<char>, n: int, col: crate::grammar::ColRefV, c: int, b: int)
    requires
        0 <= c <= b <= n <= s.len(),
    ensures
        spec_finish_pos(s.take(n), col, c, b) == spec_finish_pos(s, col, c, b),
{
    reveal(spec_finish_pos);
    assert(s.take(n).subrange(c, b) =~= s.subrange(c, b));
    lemma_offset_local(s, n, c);
    lemma_offset_local(s, n, b);
}

pub(crate) proof fn lemma_parse_pos_local(s: Seq<char>, n: int, a: int, b: int)
    requires
        0 <= a <= b <= n <= s.len(),
    ensures
        spec_parse_pos(s.take(n), a, b) == spec_parse_pos(s, a, b),
{
    reveal(spec_parse_pos);
    let q = s.take(n);
    assert(q.subrange(a, b) =~= s.subrange(a, b));
    lemma_offset_local(s, n, a);
    lemma_offset_local(s, n, b);
    lemma_read_name_local(s, n, a + 1, b, Seq::empty());
    lemma_alpha_end_local(s, n, a, b);
    let e = alpha_end(s, a, b);
    crate::parse_laws::lemma_alpha_end_bounds(s, a, b);
    assert(q.subrange(a, e) =~= s.subrange(a, e));
    lemma_offset_local(s, n, e);
    if let Some((name, c)) = read_name(s, a + 1, b, Seq::empty()) {
        crate::grammar::lemma_read_name_end(s, a + 1, b, Seq::empty());
        lemma_finish_pos_local(s, n, crate::grammar::ColRefV::Name(name), c, b);
    }
    if let Some(col) = crate::letters::spec_letter_to_col(s.subrange(a, e)) {
        lemma_finish_pos_local(s, n, crate::grammar::ColRefV::Letters(col), e, b);
    }
}

pub(crate) proof fn lemma_ws_local(s: Seq<char>, n: int, x: int, y: int)
    requires
        0 <= x <= y <= n <= s.len(),
    ensures
        lead_ws(s.take(n), x, y) == lead_ws(s, x, y),
        trail_ws(s.take(n), x, y) == trail_ws(s, x, y),
    decreases y - x,
{
    if x < y {
        assert(s.take(n)[x] == s[x]);
        assert(s.take(n)[y - 1] == s[y - 1]);
        lemma_ws_local(s, n, x + 1, y);
        lemma_ws_local(s, n, x, y - 1);
    }
}

pub(crate) proof fn lemma_parse_item_local(s: Seq<char>, n: int, a: int, b: int)
    requires
        0 <= a <= b <= n <= s.len(),
    ensures
        spec_parse_item(s.take(n), a, b) == spec_parse_item(s, a, b),
{
    reveal(spec_parse_item);
    let q = s.take(n);
    let sub = s.subrange(a, b);
    assert(q.subrange(a, b) =~= sub);
    lemma_offset_local(s, n, a);
    lemma_offset_local(s, n, b);
    let parts = crate::grammar::pieces(sub, ':', sub.len() as int);
    crate::grammar::lemma_pieces_bounds(sub, ':', sub.len() as int);
    if parts.len() == 2 {
        let p0 = parts[0];
        let p1 = parts[1];
        lemma_ws_local(s, n, a + p0.0, a + p0.1);
        lemma_ws_local(s, n, a + p1.0, a + p1.1);
        let lo = trim(s, a + p0.0, a + p0.1);
        let hi = trim(s, a + p1.0, a + p1.1);
        crate::parse_laws::lemma_trim(s, a + p0.0, a + p0.1);
        crate::parse_laws::lemma_trim(s, a + p1.0, a + p1.1);
        lemma_parse_pos_local(s, n, lo.0, lo.1);
        lemma_parse_pos_local(s, n, hi.0, hi.1);
    } else if parts.len() <= 1 {
        lemma_parse_pos_local(s, n, a, b);
    }
}

/// A list piece inside the first `n` characters reads the same in the text cut there.
pub(crate) proof fn lemma_parse_piece_local(s: Seq<char>, n: int, piece: (int, int))
    requires
        0 <= piece.0 <= piece.1 <= n <= s.len(),
    ensures
        spec_parse_piece(s.take(n), piece) == spec_parse_piece(s, piece),
{
    reveal(spec_parse_piece);
    lemma_ws_local(s, n, piece.0, piece.1);
    crate::parse_laws::lemma_trim(s, piece.0, piece.1);
    let sp = trim(s, piece.0, piece.1);
    lemma_offset_local(s, n, sp.0);
    lemma_offset_local(s, n, sp.1);
    lemma_parse_item_local(s, n, sp.0, sp.1);
}

// ------------------------------------------------------ no comma at top level

/// Characters that never open a name nor separate list items keep the reader outside names.
proof fn lemma_run_out(s: Seq<char>, i: int, e: int)
    requires
        0 <= i <= e <= s.len(),
        scan_state(s, i) == Scan::Out,
        forall|j: int| i <= j < e ==> s[j] != '[',
    ensures
        forall|j: int| i <= j <= e ==> scan_state(s, j) == Scan::Out,
    decreases e - i,
{
    if i < e {
        assert(scan_state(s, i + 1) == Scan::Out);
        lemma_run_out(s, i + 1, e);
    }
}

proof fn lemma_alpha_chars(s: Seq<char>, i: int, b: int)
    requires
        0 <= i <= b <= s.len(),
    ensures
        i <= alpha_end(s, i, b) <= b,
        forall|j: int| i <= j < alpha_end(s, i, b) ==> is_alpha(#[trigger] s[j]),
    decreases b - i,
{
    if i < b && is_alpha(s[i]) {
        lemma_alpha_chars(s, i + 1, b);
    }
}

proof fn lemma_digit_chars(s: Seq<char>, i: int)
    requires
        0 <= i <= s.len(),
    ensures
        i <= digits_end(s, i) <= s.len(),
        forall|j: int| i <= j < digits_end(s, i) ==> is_digit(#[trigger] s[j]),
    decreases s.len() - i,
{
    if i < s.len() && is_digit(s[i]) {
        lemma_digit_chars(s, i + 1);
    }
}

/// Inside a name, the reader stays inside until the name's closing `]`; if none comes, it is
/// still inside at the end of the text.
proof fn lemma_bracket_walk(s: Seq<char>, i: int)
    requires
        0 <= i <= s.len(),
        scan_state(s, i) == Scan::Inside,
    ensures
        i <= bracket_end(s, i) <= s.len(),
        forall|j: int| i <= j < bracket_end(s, i) ==> scan_state(s, j) != Scan::Out,
        (bracket_end(s, i) > i && scan_state(s, bracket_end(s, i)) == Scan::Out
            && s[bracket_end(s, i) - 1] == ']') || (bracket_end(s, i) == s.len() && scan_state(
            s,
            s.len() as int,
        ) != Scan::Out),
    decreases s.len() - i,
{
    if i < s.len() {
        if s[i] == ']' {
            if i + 1 < s.len() && s[i + 1] == ']' {
                assert(scan_state(s, i + 1) == Scan::Escaped);
                assert(scan_state(s, i + 2) == Scan::Inside);
                lemma_bracket_walk(s, i + 2);
            } else {
                assert(scan_state(s, i + 1) == Scan::Out);
            }
        } else {
            assert(scan_state(s, i + 1) == Scan::Inside);
            lemma_bracket_walk(s, i + 1);
        }
    }
}

/// What the reader meets over one positional: no comma outside a name, and at its end either
/// outside every name, just past a character that is not white space, or at the end of a text
/// whose last name never closes.
pub open spec fn walk_ends_well(s: Seq<char>, e: int) -> bool {
    ||| scan_state(s, e) == Scan::Out && e > 0 && !is_ascii_space(s[e - 1])
    ||| e == s.len() && scan_state(s, e) != Scan::Out
}

pub open spec fn no_top_comma(s: Seq<char>, i: int, e: int) -> bool {
    forall|j: int| i <= j < e && scan_state(s, j) == Scan::Out ==> s[j] != ','
}

proof fn lemma_pos_walk(s: Seq<char>, i: int)
    requires
        0 <= i,
        scan_state(s, i) == Scan::Out,
        spec_pos_extent(s, i) is Some,
    ensures
        i < spec_pos_extent(s, i)->Some_0 <= s.len(),
        no_top_comma(s, i, spec_pos_extent(s, i)->Some_0),
        walk_ends_well(s, spec_pos_extent(s, i)->Some_0),
        !is_white_space(s[i]),
{
    let e = spec_pos_extent(s, i)->Some_0;
    let len = s.len() as int;
    if s[i] == '$' {
        assert(scan_state(s, i + 1) == Scan::Out);
    } else if s[i] == '[' {
        assert(scan_state(s, i + 1) == Scan::Inside);
        lemma_bracket_walk(s, i + 1);
        let be = bracket_end(s, i + 1);
        lemma_digit_chars(s, be);
        if be < len || scan_state(s, be) == Scan::Out {
            lemma_run_out(s, be, e);
            if e > be {
                assert(is_digit(s[e - 1]));
            }
        } else {
            assert(digits_end(s, be) == be);
        }
        assert forall|j: int| i <= j < e && scan_state(s, j) == Scan::Out implies s[j] != ',' by {
            if j >= be {
                assert(is_digit(s[j]));
            }
        }
    } else if is_alpha(s[i]) {
        lemma_alpha_chars(s, i, len);
        let ae = alpha_end(s, i, len);
        assert(ae == alpha_end(s, i + 1, len));
        lemma_alpha_chars(s, i + 1, len);
        lemma_digit_chars(s, ae);
        lemma_run_out(s, i, e);
        assert forall|j: int| i <= j < e && scan_state(s, j) == Scan::Out implies s[j] != ',' by {
            if j < ae {
                assert(is_alpha(s[j]));
            } else {
                assert(is_digit(s[j]));
            }
        }
        if e > ae {
            assert(is_digit(s[e - 1]));
        } else {
            assert(is_alpha(s[e - 1]));
        }
    } else {
        lemma_digit_chars(s, i);
        assert(e == digits_end(s, i + 1));
        lemma_digit_chars(s, i + 1);
        lemma_run_out(s, i, e);
        assert(is_digit(s[e - 1]));
    }
}

/// Over the whole measured prefix: no comma outside a name, and a good end.
proof fn lemma_extent_walk(s: Seq<char>)
    requires
        spec_item_extent(s) != 0,
    ensures
        0 < spec_item_extent(s) <= s.len(),
        no_top_comma(s, 0, spec_item_extent(s)),
        walk_ends_well(s, spec_item_extent(s)),
        !is_white_space(s[0]),
{
    let n = spec_item_extent(s);
    if s.len() > 0 && s[0] == ':' {
        assert(scan_state(s, 1) == Scan::Out);
        if spec_pos_extent(s, 1) is Some {
            lemma_pos_walk(s, 1);
        }
    } else {
        lemma_pos_walk(s, 0);
        let e = spec_pos_extent(s, 0)->Some_0;
        if e < s.len() && s[e] == ':' {
            assert(scan_state(s, e + 1) == Scan::Out);
            if spec_pos_extent(s, e + 1) is Some {
                lemma_pos_walk(s, e + 1);
            }
        }
    }
}

/// The reader's state is the same in a text cut short, short of the cut.
pub(crate) proof fn lemma_scan_local(s: Seq<char>, n: int, j: int)
    requires
        0 <= j < n <= s.len(),
    ensures
        scan_state(s.take(n), j) == scan_state(s, j),
    decreases j,
{
    if j > 0 {
        lemma_scan_local(s, n, j - 1);
        assert(s.take(n)[j - 1] == s[j - 1]);
        assert(s.take(n)[j] == s[j]);
    }
}

// ------------------------------------------------------------------ the law

/// A text of at least one character takes at least one byte.
proof fn lemma_offset_positive(s: Seq<char>, n: int)
    requires
        0 < n <= s.len(),
    ensures
        byte_offset(s, n) > 0,
{
    let t = s.take(n);
    assert(encode_utf8(t) == encode_scalar(t[0] as u32) + encode_utf8(t.drop_first()));
    assert(encode_scalar(t[0] as u32).len() >= 1);
}

/// What [`crate::parse_prefix`] measures is exactly an address: it consumes at least one
/// character, and [`crate::parse`] of the characters it consumed (the slice `s[..used]`) gives
/// the same spec.
pub proof fn law_prefix_is_parse_of_slice(s: Seq<char>)
    requires
        byte_len(s) <= usize::MAX,
    ensures
        spec_parse_prefix(s) matches Ok((sv, used)) ==> {
            let n = spec_item_extent(s);
            &&& 0 < n <= s.len()
            &&& used == byte_offset(s, n)
            &&& used > 0
            &&& spec_parse(s.take(n)) == Ok::<SpecV, ErrorV>(sv)
        },
{
    let n = spec_item_extent(s);
    if let Ok((sv, used)) = spec_parse_prefix(s) {
        lemma_extent_walk(s);
        let q = s.take(n);
        lemma_parse_item_local(s, n, 0, n);
        reveal(spec_parse_item);
        assert(s.subrange(0, n) =~= q);
        assert(names_closed(q));
        assert forall|i: int| 0 <= i < n implies !is_cut(q, ',', i) by {
            lemma_scan_local(s, n, i);
        }
        crate::parse_laws::lemma_no_cut_pieces(q, ',', n);
        // The text does not end inside an open name, so its last character is not white space.
        if n == s.len() {
            assert(q =~= s);
        }
        assert(!is_ascii_space(q[n - 1]) && !is_ascii_space(q[0]) && !is_white_space(q[0]));
        assert(lead_ws(q, 0, n) == 0);
        assert(trail_ws(q, 0, n) == 0);
        assert(lead_white(q, 0, n) == 0);
        reveal(spec_parse_piece);
        lemma_offset_local(s, n, 0);
        lemma_offset_local(s, n, n);
        let ps = pieces(q, ',', n);
        assert(parse_pieces(q, ps, 0) == Ok::<SpecV, ErrorV>(
            SpecV { items: Seq::empty(), spans: Seq::empty() },
        ));
        assert(parse_pieces(q, ps, 1) =~= Ok::<SpecV, ErrorV>(sv));
        assert(q.take(n) =~= q);
        lemma_offset_positive(s, n);
        crate::text::lemma_offset_is_boundary(s, n);
    }
}

} // verus!
