// The address grammar as mathematics: what `parse` and `parse_prefix` return for a text,
// read as characters, with every reported span converted to bytes.
use crate::error::{syntax_v, ErrorV};
use crate::letters::spec_letter_to_col;
use crate::text::{
    byte_len, byte_offset, debug_text, is_alpha, is_ascii_space, is_digit, is_white_space,
};
use vstd::prelude::*;

verus! {

/// A column reference as a value.
pub enum ColRefV {
    Letters(usize),
    Name(Seq<char>),
}

/// A positional as a value.
pub enum PosV {
    Column(ColRefV),
    Row(usize),
    LastRow,
    Cell { col: ColRefV, row: usize },
}

/// A list item as a value.
pub enum ItemV {
    Single(PosV),
    Range { start: Option<PosV>, end: Option<PosV> },
}

/// A parsed address as a value: its items, and the byte span of each.
pub struct SpecV {
    pub items: Seq<ItemV>,
    pub spans: Seq<(usize, usize)>,
}

/// Every row a positional names is below `usize::MAX` (rows are written 1-based).
pub open spec fn pos_rows_ok(p: PosV) -> bool {
    match p {
        PosV::Row(r) => r < usize::MAX,
        PosV::Cell { row, .. } => row < usize::MAX,
        _ => true,
    }
}

pub open spec fn end_rows_ok(p: Option<PosV>) -> bool {
    match p {
        Some(q) => pos_rows_ok(q),
        None => true,
    }
}

pub open spec fn item_rows_ok(i: ItemV) -> bool {
    match i {
        ItemV::Single(p) => pos_rows_ok(p),
        ItemV::Range { start, end } => end_rows_ok(start) && end_rows_ok(end),
    }
}

// ------------------------------------------------------------------ messages

pub open spec fn msg_empty_address() -> Seq<char> {
    "empty address"@
}

pub open spec fn msg_empty_item() -> Seq<char> {
    "empty item in the address list — two commas with nothing between them"@
}

pub open spec fn msg_unterminated() -> Seq<char> {
    "unterminated [name] — a bracketed column name needs a closing ]"@
}

pub open spec fn msg_no_end() -> Seq<char> {
    "a range needs at least one end — write `A:` from A to the last column, `:C` from the first through C"@
}

pub open spec fn msg_too_many() -> Seq<char> {
    "too many `:` in one address — a range has two ends"@
}

pub open spec fn msg_col_past(letters: Seq<char>) -> Seq<char> {
    "column "@ + letters + " is past the largest column this addresses"@
}

pub open spec fn msg_row_too_large(text: Seq<char>) -> Seq<char> {
    "row "@ + text + " is too large a number"@
}

pub open spec fn msg_row_zero() -> Seq<char> {
    "row numbers start at 1, not 0"@
}

pub open spec fn msg_unrecognized(text: Seq<char>) -> Seq<char> {
    "unrecognized address "@ + debug_text(text)
        + " — use a column letter (C, AF), a bracketed name ([first name]), a row number (5), a cell (C5), or $ for the last row"@
}

pub open spec fn msg_unexpected(text: Seq<char>) -> Seq<char> {
    "unexpected "@ + debug_text(text) + " after a column — a column takes only a row number"@
}

pub open spec fn msg_row_number_too_large() -> Seq<char> {
    "row number is too large"@
}

pub open spec fn msg_expected() -> Seq<char> {
    "expected an address — a cell (C5), column (C or [name]), row (5), or $"@
}

// ------------------------------------------------------------- brackets and lists

/// Where a left-to-right reader stands with respect to `[name]` brackets.
pub enum Scan {
    /// Outside any name.
    Out,
    /// Inside a name.
    Inside,
    /// On the second `]` of an escaped `]]` inside a name.
    Escaped,
}

/// The reader's state just before character `j`. A `[` opens a name; inside one, `]]` is a
/// literal `]` and a lone `]` closes it. Names do not nest.
pub open spec fn scan_state(s: Seq<char>, j: int) -> Scan
    decreases j,
{
    if j <= 0 {
        Scan::Out
    } else {
        let i = j - 1;
        match scan_state(s, i) {
            Scan::Out => if s[i] == '[' {
                Scan::Inside
            } else {
                Scan::Out
            },
            Scan::Inside => if s[i] == ']' {
                if i + 1 < s.len() && s[i + 1] == ']' {
                    Scan::Escaped
                } else {
                    Scan::Out
                }
            } else {
                Scan::Inside
            },
            Scan::Escaped => Scan::Inside,
        }
    }
}

/// Every `[` in `s` is closed.
pub open spec fn names_closed(s: Seq<char>) -> bool {
    scan_state(s, s.len() as int) == Scan::Out
}

/// Character `i` is the delimiter `d`, outside any name.
pub open spec fn is_cut(s: Seq<char>, d: char, i: int) -> bool {
    scan_state(s, i) == Scan::Out && s[i] == d
}

/// The pieces of `s[..j]` between top-level delimiters `d`, as character spans; the last
/// piece ends at `j`.
pub open spec fn pieces(s: Seq<char>, d: char, j: int) -> Seq<(int, int)>
    decreases j,
{
    if j <= 0 {
        seq![(0, 0)]
    } else {
        let p = pieces(s, d, j - 1);
        if is_cut(s, d, j - 1) {
            p.push((j, j))
        } else {
            p.update(p.len() - 1, (p.last().0, j))
        }
    }
}

/// How many characters of Unicode white space begin `s[a..b]` (what `str::trim` passes over).
pub open spec fn lead_white(s: Seq<char>, a: int, b: int) -> int
    decreases b - a,
{
    if a < b && is_white_space(s[a]) {
        1 + lead_white(s, a + 1, b)
    } else {
        0
    }
}

/// How many characters of ASCII white space begin `s[a..b]`.
pub open spec fn lead_ws(s: Seq<char>, a: int, b: int) -> int
    decreases b - a,
{
    if a < b && is_ascii_space(s[a]) {
        1 + lead_ws(s, a + 1, b)
    } else {
        0
    }
}

/// How many characters of ASCII white space end `s[a..b]`.
pub open spec fn trail_ws(s: Seq<char>, a: int, b: int) -> int
    decreases b - a,
{
    if a < b && is_ascii_space(s[b - 1]) {
        1 + trail_ws(s, a, b - 1)
    } else {
        0
    }
}

/// `a..b` narrowed past leading and trailing ASCII white space; an all-white span narrows to the
/// empty span at its end.
pub open spec fn trim(s: Seq<char>, a: int, b: int) -> (int, int) {
    let l = lead_ws(s, a, b);
    let t = trail_ws(s, a, b);
    if l + t >= b - a {
        (a + l, a + l)
    } else {
        (a + l, b - t)
    }
}

// ------------------------------------------------------------------ positionals

/// Reads a bracketed name body from `i` up to `b`, `acc` being what was read so far:
/// the name, and the index just past its closing `]`; `None` if it never closes.
pub open spec fn read_name(s: Seq<char>, i: int, b: int, acc: Seq<char>) -> Option<
    (Seq<char>, int),
>
    decreases b - i,
{
    if i >= b {
        None
    } else if s[i] == ']' {
        if i + 1 < b && s[i + 1] == ']' {
            read_name(s, i + 2, b, acc.push(']'))
        } else {
            Some((acc, i + 1))
        }
    } else {
        read_name(s, i + 1, b, acc.push(s[i]))
    }
}

/// The end of the run of ASCII letters starting at `i`, stopping at `b`.
pub open spec fn alpha_end(s: Seq<char>, i: int, b: int) -> int
    decreases b - i,
{
    if i < b && is_alpha(s[i]) {
        alpha_end(s, i + 1, b)
    } else {
        i
    }
}

pub open spec fn all_digits(t: Seq<char>) -> bool {
    forall|i: int| 0 <= i < t.len() ==> is_digit(#[trigger] t[i])
}

/// The number written by decimal digits.
pub open spec fn digits_value(t: Seq<char>) -> nat
    decreases t.len(),
{
    if t.len() == 0 {
        0
    } else {
        digits_value(t.drop_last()) * 10 + (t.last() as nat - 48) as nat
    }
}

/// Whether `usize`'s `FromStr` accepts digits `t`: some digit, and a value that fits.
pub open spec fn digits_fit(t: Seq<char>) -> bool {
    t.len() > 0 && digits_value(t) <= usize::MAX
}

/// A column reference followed by the text `s[c..b]`: nothing (a column), or a 1-based row
/// (a cell).
#[verifier::opaque]
pub open spec fn spec_finish_pos(s: Seq<char>, col: ColRefV, c: int, b: int) -> Result<
    PosV,
    ErrorV,
> {
    let t = s.subrange(c, b);
    let start = byte_offset(s, c) as int;
    let end = byte_offset(s, b) as int;
    if t.len() == 0 {
        Ok(PosV::Column(col))
    } else if !all_digits(t) {
        Err(syntax_v(msg_unexpected(t), start, end))
    } else if !digits_fit(t) {
        Err(syntax_v(msg_row_number_too_large(), start, end))
    } else if digits_value(t) == 0 {
        Err(syntax_v(msg_row_zero(), start, end))
    } else {
        Ok(PosV::Cell { col, row: (digits_value(t) - 1) as usize })
    }
}

/// One positional, the whole of `s[a..b]`.
#[verifier::opaque]
pub open spec fn spec_parse_pos(s: Seq<char>, a: int, b: int) -> Result<PosV, ErrorV> {
    let t = s.subrange(a, b);
    let start = byte_offset(s, a) as int;
    let end = byte_offset(s, b) as int;
    if t == seq!['$'] {
        Ok(PosV::LastRow)
    } else if t.len() > 0 && t[0] == '[' {
        match read_name(s, a + 1, b, Seq::empty()) {
            None => Err(syntax_v(msg_unterminated(), start, end)),
            Some((name, c)) => spec_finish_pos(s, ColRefV::Name(name), c, b),
        }
    } else if alpha_end(s, a, b) > a {
        let e = alpha_end(s, a, b);
        match spec_letter_to_col(s.subrange(a, e)) {
            None => Err(syntax_v(msg_col_past(s.subrange(a, e)), start, byte_offset(s, e) as int)),
            Some(col) => spec_finish_pos(s, ColRefV::Letters(col), e, b),
        }
    } else if all_digits(t) {
        if !digits_fit(t) {
            Err(syntax_v(msg_row_too_large(t), start, end))
        } else if digits_value(t) == 0 {
            Err(syntax_v(msg_row_zero(), start, end))
        } else {
            Ok(PosV::Row((digits_value(t) - 1) as usize))
        }
    } else {
        Err(syntax_v(msg_unrecognized(t), start, end))
    }
}

/// An optional end of a range: absent when its trimmed span is empty.
pub open spec fn spec_range_end(s: Seq<char>, span: (int, int)) -> Result<Option<PosV>, ErrorV> {
    if span.0 == span.1 {
        Ok(None)
    } else {
        match spec_parse_pos(s, span.0, span.1) {
            Ok(p) => Ok(Some(p)),
            Err(e) => Err(e),
        }
    }
}

/// One list item, the whole of `s[a..b]`: a positional, or a range with at least one end.
#[verifier::opaque]
pub open spec fn spec_parse_item(s: Seq<char>, a: int, b: int) -> Result<ItemV, ErrorV> {
    let sub = s.subrange(a, b);
    let start = byte_offset(s, a) as int;
    let end = byte_offset(s, b) as int;
    if !names_closed(sub) {
        Err(syntax_v(msg_unterminated(), start, end))
    } else {
        let parts = pieces(sub, ':', sub.len() as int);
        if parts.len() <= 1 {
            match spec_parse_pos(s, a, b) {
                Ok(p) => Ok(ItemV::Single(p)),
                Err(e) => Err(e),
            }
        } else if parts.len() == 2 {
            let lo = trim(s, a + parts[0].0, a + parts[0].1);
            let hi = trim(s, a + parts[1].0, a + parts[1].1);
            if lo.0 == lo.1 && hi.0 == hi.1 {
                Err(syntax_v(msg_no_end(), start, end))
            } else {
                match spec_range_end(s, lo) {
                    Err(e) => Err(e),
                    Ok(st) => match spec_range_end(s, hi) {
                        Err(e) => Err(e),
                        Ok(en) => Ok(ItemV::Range { start: st, end: en }),
                    },
                }
            }
        } else {
            Err(syntax_v(msg_too_many(), start, end))
        }
    }
}

/// One comma-separated piece `s[piece.0..piece.1]`, trimmed and parsed: the item and its
/// byte span.
#[verifier::opaque]
pub open spec fn spec_parse_piece(s: Seq<char>, piece: (int, int)) -> Result<
    (ItemV, (usize, usize)),
    ErrorV,
> {
    let sp = trim(s, piece.0, piece.1);
    let start = byte_offset(s, sp.0);
    let end = byte_offset(s, sp.1);
    if sp.0 == sp.1 {
        Err(syntax_v(msg_empty_item(), start as int, end as int))
    } else {
        match spec_parse_item(s, sp.0, sp.1) {
            Err(e) => Err(e),
            Ok(it) => Ok((it, (start as usize, end as usize))),
        }
    }
}

/// The first `k` comma-separated pieces `ps` of `s`, each trimmed and parsed, in order; the
/// first piece that fails decides the error.
pub open spec fn parse_pieces(s: Seq<char>, ps: Seq<(int, int)>, k: int) -> Result<SpecV, ErrorV>
    decreases k,
{
    if k <= 0 {
        Ok(SpecV { items: Seq::empty(), spans: Seq::empty() })
    } else {
        match parse_pieces(s, ps, k - 1) {
            Err(e) => Err(e),
            Ok(sv) => match spec_parse_piece(s, ps[k - 1]) {
                Err(e) => Err(e),
                Ok((it, sp)) => Ok(SpecV { items: sv.items.push(it), spans: sv.spans.push(sp) }),
            },
        }
    }
}

/// What [`crate::parse`] returns for a text with these characters.
pub open spec fn spec_parse(s: Seq<char>) -> Result<SpecV, ErrorV> {
    if lead_white(s, 0, s.len() as int) == s.len() {
        Err(syntax_v(msg_empty_address(), 0, byte_len(s) as int))
    } else if !names_closed(s) {
        Err(syntax_v(msg_unterminated(), 0, byte_len(s) as int))
    } else {
        let ps = pieces(s, ',', s.len() as int);
        parse_pieces(s, ps, ps.len() as int)
    }
}

// ----------------------------------------------------------------- prefixes

/// The index just past a bracketed name body starting at `i` (its closing `]`), or the end of
/// the text if it never closes.
pub open spec fn bracket_end(s: Seq<char>, i: int) -> int
    decreases s.len() - i,
{
    if i >= s.len() {
        s.len() as int
    } else if s[i] == ']' {
        if i + 1 < s.len() && s[i + 1] == ']' {
            bracket_end(s, i + 2)
        } else {
            i + 1
        }
    } else {
        bracket_end(s, i + 1)
    }
}

/// The end of the run of decimal digits starting at `i`.
pub open spec fn digits_end(s: Seq<char>, i: int) -> int
    decreases s.len() - i,
{
    if 0 <= i < s.len() && is_digit(s[i]) {
        digits_end(s, i + 1)
    } else {
        i
    }
}

/// The end of the positional that begins at `i`, or `None` if none begins there.
pub open spec fn spec_pos_extent(s: Seq<char>, i: int) -> Option<int> {
    if i < 0 || i >= s.len() {
        None
    } else if s[i] == '$' {
        Some(i + 1)
    } else if s[i] == '[' {
        Some(digits_end(s, bracket_end(s, i + 1)))
    } else if is_alpha(s[i]) {
        Some(digits_end(s, alpha_end(s, i, s.len() as int)))
    } else if is_digit(s[i]) {
        Some(digits_end(s, i))
    } else {
        None
    }
}

/// How many characters at the front of `s` belong to one address: an optional leading `:`,
/// a positional, and at most one `:` with an optional positional after it.
pub open spec fn spec_item_extent(s: Seq<char>) -> int {
    if s.len() > 0 && s[0] == ':' {
        match spec_pos_extent(s, 1) {
            Some(e) => e,
            None => 1,
        }
    } else {
        match spec_pos_extent(s, 0) {
            None => 0,
            Some(e) => if e < s.len() && s[e] == ':' {
                match spec_pos_extent(s, e + 1) {
                    Some(f) => f,
                    None => e + 1,
                }
            } else {
                e
            },
        }
    }
}

/// What [`crate::parse_prefix`] returns for a text with these characters.
pub open spec fn spec_parse_prefix(s: Seq<char>) -> Result<(SpecV, usize), ErrorV> {
    let n = spec_item_extent(s);
    if n == 0 {
        Err(syntax_v(msg_expected(), 0, 0))
    } else {
        match spec_parse_item(s, 0, n) {
            Err(e) => Err(e),
            Ok(it) => Ok(
                (
                    SpecV { items: seq![it], spans: seq![(0usize, byte_offset(s, n) as usize)] },
                    byte_offset(s, n) as usize,
                ),
            ),
        }
    }
}

// ---------------------------------------------------------------- basic facts

pub proof fn lemma_pieces_bounds(s: Seq<char>, d: char, j: int)
    requires
        0 <= j,
    ensures
        pieces(s, d, j).len() >= 1,
        forall|k: int|
            0 <= k < pieces(s, d, j).len() ==> 0 <= #[trigger] pieces(s, d, j)[k].0 <= pieces(
                s,
                d,
                j,
            )[k].1 <= j,
    decreases j,
{
    if j > 0 {
        lemma_pieces_bounds(s, d, j - 1);
    }
}

pub proof fn lemma_read_name_end(s: Seq<char>, i: int, b: int, acc: Seq<char>)
    ensures
        read_name(s, i, b, acc) matches Some((_, c)) ==> i < c <= b,
    decreases b - i,
{
    if i < b {
        if s[i] == ']' {
            if i + 1 < b && s[i + 1] == ']' {
                lemma_read_name_end(s, i + 2, b, acc.push(']'));
            }
        } else {
            lemma_read_name_end(s, i + 1, b, acc.push(s[i]));
        }
    }
}

} // verus!
