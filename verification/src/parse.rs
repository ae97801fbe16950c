// The address grammar: text in, an unresolved spec out. No table required.
//
// Parsing is deliberately separate from resolution so a caller can validate as the user types,
// before there is anything to look the address up against.
use crate::error::{syntax_v, Error, ErrorV};
use crate::grammar::{
    alpha_end, all_digits, digits_fit, digits_value, is_cut, lead_white, lead_ws, names_closed, pieces,
    read_name, scan_state, spec_finish_pos, spec_parse_pos, spec_range_end, spec_parse_item,
    parse_pieces, spec_parse, spec_parse_piece, bracket_end, digits_end, spec_pos_extent,
    spec_item_extent, spec_parse_prefix, trail_ws, trim, ColRefV, ItemV, PosV, Scan, SpecV,
    pos_rows_ok, end_rows_ok, item_rows_ok, lemma_read_name_end, lemma_pieces_bounds,
};
use crate::letters::letters_to_col;
use crate::text::{
    alpha, append_str, ascii_space, byte_offset, debug_string, digit, is_digit, lemma_offset_end,
    lemma_offset_split, push_chars, string_from, string_of, white_space, Source,
};
use core::ops::Range;
use vstd::prelude::*;

verus! {

/// How a positional names its column: by letter, or by header name.
#[derive(Debug, PartialEq, Eq)]
pub enum ColRef {
    /// `C`, `AF` — already the 0-based index, since letters need no table to resolve.
    Letters(usize),
    /// `[first name]` — needs a header row.
    Name(String),
}

/// One address atom, and which axes it pins.
#[derive(Debug, PartialEq, Eq)]
pub enum Pos {
    /// `C`, `[first name]` — a whole column, every row.
    Column(ColRef),
    /// `5` — a whole row, every column. 0-based here, 1-based as written.
    Row(usize),
    /// `$` — the last row of the table, whatever it turns out to be.
    LastRow,
    /// `C5`, `[price]12` — a single cell. `row` is 0-based.
    Cell { col: ColRef, row: usize },
}

/// One comma-separated element of a spec.
#[derive(Debug, PartialEq, Eq)]
pub enum Item {
    Single(Pos),
    /// `A:C`, `[first]:`, `:5`. An absent side runs to the table's edge; both absent is a
    /// syntax error, so at least one is always present.
    Range { start: Option<Pos>, end: Option<Pos> },
}

/// A parsed address: an ordered list of items. Order is preserved and duplicates are kept —
/// the caller decides whether repetition is meaningful.
#[derive(Debug, PartialEq, Eq)]
pub struct Spec {
    pub(crate) items: Vec<Item>,
    /// Byte span of each item in the source, parallel to `items`, for error reporting.
    pub(crate) spans: Vec<(usize, usize)>,
}

impl Spec {
    /// Every item has its span.
    #[verifier::type_invariant]
    pub(crate) open spec fn parallel(self) -> bool {
        &&& self.items.len() == self.spans.len()
        &&& forall|k: int| 0 <= k < self.items.len() ==> item_rows_ok(#[trigger] self.items@[k]@)
    }
}

impl View for Spec {
    type V = SpecV;

    closed spec fn view(&self) -> SpecV {
        SpecV { items: self.items@.map_values(|i: Item| i@), spans: self.spans@ }
    }
}

impl Spec {
    /// The value of a spec is its items' values and its spans.
    pub(crate) proof fn lemma_view(&self)
        ensures
            self@ == (SpecV { items: self.items@.map_values(|i: Item| i@), spans: self.spans@ }),
    {
    }
}

impl View for ColRef {
    type V = ColRefV;

    open spec fn view(&self) -> ColRefV {
        match self {
            ColRef::Letters(i) => ColRefV::Letters(*i),
            ColRef::Name(n) => ColRefV::Name(n@),
        }
    }
}

impl View for Pos {
    type V = PosV;

    open spec fn view(&self) -> PosV {
        match self {
            Pos::Column(c) => PosV::Column(c@),
            Pos::Row(r) => PosV::Row(*r),
            Pos::LastRow => PosV::LastRow,
            Pos::Cell { col, row } => PosV::Cell { col: col@, row: *row },
        }
    }
}

pub open spec fn opt_pos_view(p: Option<Pos>) -> Option<PosV> {
    match p {
        Some(q) => Some(q@),
        None => None,
    }
}

impl View for Item {
    type V = ItemV;

    open spec fn view(&self) -> ItemV {
        match self {
            Item::Single(p) => ItemV::Single(p@),
            Item::Range { start, end } => ItemV::Range {
                start: opt_pos_view(*start),
                end: opt_pos_view(*end),
            },
        }
    }
}

impl Clone for ColRef {
    fn clone(&self) -> (r: ColRef)
        ensures
            r@ == self@,
    {
        match self {
            ColRef::Letters(i) => ColRef::Letters(*i),
            ColRef::Name(n) => ColRef::Name(n.clone()),
        }
    }
}

impl Clone for Pos {
    fn clone(&self) -> (r: Pos)
        ensures
            r@ == self@,
    {
        match self {
            Pos::Column(c) => Pos::Column(c.clone()),
            Pos::Row(r) => Pos::Row(*r),
            Pos::LastRow => Pos::LastRow,
            Pos::Cell { col, row } => Pos::Cell { col: col.clone(), row: *row },
        }
    }
}

fn clone_end(p: &Option<Pos>) -> (r: Option<Pos>)
    ensures
        opt_pos_view(r) == opt_pos_view(*p),
{
    match p {
        Some(q) => Some(q.clone()),
        None => None,
    }
}

impl Clone for Item {
    fn clone(&self) -> (r: Item)
        ensures
            r@ == self@,
    {
        match self {
            Item::Single(p) => Item::Single(p.clone()),
            Item::Range { start, end } => Item::Range { start: clone_end(start), end: clone_end(end) },
        }
    }
}

fn copy_spans(v: &Vec<(usize, usize)>) -> (r: Vec<(usize, usize)>)
    ensures
        r@ == v@,
{
    let mut r: Vec<(usize, usize)> = Vec::new();
    let mut i: usize = 0;
    while i < v.len()
        invariant
            i <= v.len(),
            r@ == v@.take(i as int),
        decreases v.len() - i,
    {
        r.push(v[i]);
        i = i + 1;
        assert(r@ =~= v@.take(i as int));
    }
    assert(v@.take(v.len() as int) =~= v@);
    r
}

impl Clone for Spec {
    fn clone(&self) -> (r: Spec)
        ensures
            r@ == self@,
    {
        proof {
            use_type_invariant(self);
        }
        let items = self.items.clone();
        let spans = copy_spans(&self.spans);
        proof {
            assert forall|i: int| 0 <= i < items.len() implies #[trigger] items@[i]@ == self.items@[i]@ by {
                assert(cloned::<Item>(self.items[i], items[i]));
            }
            assert(items@.map_values(|i: Item| i@) =~= self.items@.map_values(|i: Item| i@));
        }
        Spec { items, spans }
    }
}

/// A result as a value.
pub open spec fn result_view<T: View>(r: Result<T, Error>) -> Result<T::V, ErrorV> {
    match r {
        Ok(t) => Ok(t@),
        Err(e) => Err(e@),
    }
}

/// Exec spans agree with spec spans, one for one.
pub open spec fn same_spans(v: Seq<(usize, usize)>, p: Seq<(int, int)>) -> bool {
    &&& v.len() == p.len()
    &&& forall|k: int| #![trigger v[k]] 0 <= k < v.len() ==> v[k].0 == p[k].0 && v[k].1 == p[k].1
}

proof fn lemma_spans_extend(v: Seq<(usize, usize)>, start: usize, j: usize, p: Seq<(int, int)>)
    requires
        same_spans(v.push((start, j)), p),
        j < usize::MAX,
    ensures
        same_spans(v.push((start, (j + 1) as usize)), p.update(p.len() - 1, (p.last().0, j + 1))),
{
    let w = v.push((start, (j + 1) as usize));
    let q = p.update(p.len() - 1, (p.last().0, j + 1));
    assert(v.push((start, j))[v.len() as int] == (start, j));
    assert forall|k: int| 0 <= k < w.len() implies #[trigger] w[k].0 == q[k].0 && w[k].1 == q[k].1 by {
        if k < v.len() {
            assert(v.push((start, j))[k] == w[k]);
        } else {
            assert(v.push((start, j))[k].0 == p[k].0);
            assert(p.last() == p[k]);
        }
    }
}

proof fn lemma_spans_cut(v: Seq<(usize, usize)>, start: usize, j: usize, p: Seq<(int, int)>)
    requires
        same_spans(v.push((start, j)), p),
        j < usize::MAX,
    ensures
        same_spans(v.push((start, j)).push(((j + 1) as usize, (j + 1) as usize)), p.push((j + 1, j + 1))),
{
    let u = v.push((start, j));
    let w = u.push(((j + 1) as usize, (j + 1) as usize));
    let q = p.push((j + 1, j + 1));
    assert forall|k: int| 0 <= k < w.len() implies #[trigger] w[k].0 == q[k].0 && w[k].1 == q[k].1 by {
        if k < u.len() {
            assert(u[k] == w[k]);
            assert(p[k] == q[k]);
        }
    }
}

proof fn lemma_same_spans_at(v: Seq<(usize, usize)>, p: Seq<(int, int)>, k: int)
    requires
        same_spans(v, p),
        0 <= k < v.len(),
    ensures
        v[k].0 == p[k].0,
        v[k].1 == p[k].1,
{
}

/// Split `s[a..b]` on delimiter `d` where it is not inside `[...]`, returning character spans
/// relative to `a`. `]]` inside a name stays inside it.
///
/// Names do not nest, so this tracks *inside a name or not* rather than a depth. A `[` inside
/// a name is an ordinary character — a column really can be called `notes [draft]`, and
/// counting depth would leave that name looking unterminated at the end of the address.
fn split_top_level(src: &Source, a: usize, b: usize, d: char) -> (r: Option<Vec<(usize, usize)>>)
    requires
        src.wf(),
        a <= b <= src.chars.len(),
        d != '[',
    ensures
        r is Some <==> names_closed(src.text().subrange(a as int, b as int)),
        r matches Some(v) ==> same_spans(
            v@,
            pieces(src.text().subrange(a as int, b as int), d, (b - a) as int),
        ),
{
    let ghost sub = src.text().subrange(a as int, b as int);
    let mut spans: Vec<(usize, usize)> = Vec::new();
    let mut start: usize = 0;
    let mut in_name = false;
    let mut i: usize = a;
    while i < b
        invariant
            src.wf(),
            a <= i <= b <= src.chars.len(),
            sub == src.text().subrange(a as int, b as int),
            d != '[',
            start <= i - a,
            scan_state(sub, i - a) == (if in_name {
                Scan::Inside
            } else {
                Scan::Out
            }),
            same_spans(spans@.push((start, (i - a) as usize)), pieces(sub, d, i - a)),
        decreases b - i,
    {
        let c = src.chars[i];
        let ghost j = i - a;
        let ghost v0 = spans@;
        let ghost start0 = start;
        assert(sub[j] == c);
        if in_name {
            if c == ']' {
                if i + 1 < b && src.chars[i + 1] == ']' {
                    assert(sub[j + 1] == ']');
                    assert(scan_state(sub, j + 1) == Scan::Escaped);
                    assert(scan_state(sub, j + 2) == Scan::Inside);
                    assert(!is_cut(sub, d, j));
                    assert(!is_cut(sub, d, j + 1));
                    let ghost p0 = pieces(sub, d, j);
                    let ghost p1 = pieces(sub, d, j + 1);
                    assert(p1 == p0.update(p0.len() - 1, (p0.last().0, j + 1)));
                    assert(pieces(sub, d, j + 2) == p1.update(p1.len() - 1, (p1.last().0, j + 2)));
                    proof {
                        lemma_spans_extend(spans@, start, j as usize, p0);
                        lemma_spans_extend(spans@, start, (j + 1) as usize, p1);
                    }
                    i = i + 2;
                    assert(same_spans(spans@.push((start, (i - a) as usize)), pieces(sub, d, i - a)));
                    continue ;
                }
                in_name = false;
            }
        } else if c == '[' {
            in_name = true;
        } else if c == d {
            assert(is_cut(sub, d, j));
            spans.push((start, i - a));
            start = i - a + 1;
        }
        i = i + 1;
        proof {
            let p0 = pieces(sub, d, j);
            if is_cut(sub, d, j) {
                lemma_spans_cut(v0, start0, j as usize, p0);
                assert(spans@ == v0.push((start0, j as usize)));
            } else {
                lemma_spans_extend(v0, start0, j as usize, p0);
            }
            assert(same_spans(spans@.push((start, (i - a) as usize)), pieces(sub, d, i - a)));
        }
    }
    if in_name {
        return None;
    }
    spans.push((start, b - a));
    Some(spans)
}

/// Narrow `a..b` past leading and trailing ASCII white space.
fn trim_span(src: &Source, a: usize, b: usize) -> (r: (usize, usize))
    requires
        src.wf(),
        a <= b <= src.chars.len(),
    ensures
        r.0 == trim(src.text(), a as int, b as int).0,
        r.1 == trim(src.text(), a as int, b as int).1,
        a <= r.0 <= r.1 <= b,
{
    let ghost s = src.text();
    let mut i = a;
    while i < b && ascii_space(src.chars[i])
        invariant
            a <= i <= b <= src.chars.len(),
            s == src.text(),
            lead_ws(s, a as int, b as int) == (i - a) + lead_ws(s, i as int, b as int),
        decreases b - i,
    {
        i = i + 1;
    }
    let mut j = b;
    while j > a && ascii_space(src.chars[j - 1])
        invariant
            a <= j <= b <= src.chars.len(),
            s == src.text(),
            trail_ws(s, a as int, b as int) == (b - j) + trail_ws(s, a as int, j as int),
        decreases j - a,
    {
        j = j - 1;
    }
    let lead = i - a;
    let trail = b - j;
    if lead >= (b - a) - trail {
        (i, i)
    } else {
        (i, j)
    }
}

/// Whether the whole text is Unicode white space (what `str::trim` would leave empty).
fn all_white(src: &Source) -> (r: bool)
    requires
        src.wf(),
    ensures
        r == (lead_white(src.text(), 0, src.chars.len() as int) == src.chars.len()),
{
    let ghost s = src.text();
    let n = src.chars.len();
    let mut i: usize = 0;
    while i < n && white_space(src.chars[i])
        invariant
            i <= n == src.chars.len(),
            s == src.text(),
            lead_white(s, 0, n as int) == i + lead_white(s, i as int, n as int),
        decreases n - i,
    {
        i = i + 1;
    }
    i == n
}

/// Read a bracketed name body starting at `i` (just after the opening `[`), returning the
/// name and the index just past its closing `]`. `]]` is an escaped literal `]`.
fn parse_name(src: &Source, i: usize, b: usize) -> (r: Option<(String, usize)>)
    requires
        src.wf(),
        i <= b <= src.chars.len(),
    ensures
        r is None <==> read_name(src.text(), i as int, b as int, Seq::empty()) is None,
        r matches Some((name, c)) ==> read_name(src.text(), i as int, b as int, Seq::empty())
            == Some((name@, c as int)),
{
    let ghost s = src.text();
    let mut name = String::new();
    let mut k = i;
    while k < b
        invariant
            i <= k <= b <= src.chars.len(),
            s == src.text(),
            read_name(s, i as int, b as int, Seq::empty()) == read_name(
                s,
                k as int,
                b as int,
                name@,
            ),
        decreases b - k,
    {
        let c = src.chars[k];
        if c == ']' {
            if k + 1 < b && src.chars[k + 1] == ']' {
                name.push(']');
                k = k + 2;
                continue ;
            }
            return Some((name, k + 1));
        }
        name.push(c);
        k = k + 1;
    }
    None
}

/// The end of the run of ASCII letters starting at `i`, stopping at `b`.
fn alpha_end_at(src: &Source, i: usize, b: usize) -> (r: usize)
    requires
        src.wf(),
        i <= b <= src.chars.len(),
    ensures
        r == alpha_end(src.text(), i as int, b as int),
        i <= r <= b,
{
    let mut k = i;
    while k < b && alpha(src.chars[k])
        invariant
            i <= k <= b <= src.chars.len(),
            alpha_end(src.text(), i as int, b as int) == alpha_end(src.text(), k as int, b as int),
        decreases b - k,
    {
        k = k + 1;
    }
    k
}

/// Whether `cs[a..b]` is all decimal digits.
fn all_digits_in(src: &Source, a: usize, b: usize) -> (r: bool)
    requires
        src.wf(),
        a <= b <= src.chars.len(),
    ensures
        r == all_digits(src.text().subrange(a as int, b as int)),
{
    let ghost t = src.text().subrange(a as int, b as int);
    let mut k = a;
    while k < b
        invariant
            a <= k <= b <= src.chars.len(),
            t == src.text().subrange(a as int, b as int),
            forall|m: int| 0 <= m < k - a ==> is_digit(#[trigger] t[m]),
        decreases b - k,
    {
        if !digit(src.chars[k]) {
            assert(!is_digit(t[k - a]));
            return false;
        }
        k = k + 1;
    }
    true
}

proof fn lemma_digits_grow(t: Seq<char>, i: int, j: int)
    requires
        0 <= i <= j <= t.len(),
    ensures
        digits_value(t.take(i)) <= digits_value(t.take(j)),
    decreases j - i,
{
    if i < j {
        lemma_digits_grow(t, i, j - 1);
        assert(t.take(j).drop_last() =~= t.take(j - 1));
    }
}

/// `usize`'s reading of decimal digits `cs[a..b]`: `None` when there are none or the value
/// does not fit.
fn digits_value_in(src: &Source, a: usize, b: usize) -> (r: Option<usize>)
    requires
        src.wf(),
        a <= b <= src.chars.len(),
        all_digits(src.text().subrange(a as int, b as int)),
    ensures
        r is Some <==> digits_fit(src.text().subrange(a as int, b as int)),
        r matches Some(v) ==> v == digits_value(src.text().subrange(a as int, b as int)),
{
    let ghost t = src.text().subrange(a as int, b as int);
    if a == b {
        return None;
    }
    let mut v: usize = 0;
    let mut k = a;
    while k < b
        invariant
            a <= k <= b <= src.chars.len(),
            t == src.text().subrange(a as int, b as int),
            all_digits(t),
            v == digits_value(t.take(k - a)),
        decreases b - k,
    {
        let c = src.chars[k];
        assert(is_digit(t[k - a]));
        let d = (c as u32 - '0' as u32) as usize;
        assert(t.take(k - a + 1).drop_last() =~= t.take(k - a));
        assert(t.take(k - a + 1).last() == c);
        let ghost next = digits_value(t.take(k - a + 1));
        assert(next == v * 10 + d);
        match v.checked_mul(10) {
            None => {
                proof {
                    lemma_digits_grow(t, k - a + 1, t.len() as int);
                    assert(t.take(t.len() as int) =~= t);
                }
                return None;
            },
            Some(x) => match x.checked_add(d) {
                None => {
                    proof {
                        lemma_digits_grow(t, k - a + 1, t.len() as int);
                        assert(t.take(t.len() as int) =~= t);
                    }
                    return None;
                },
                Some(y) => {
                    v = y;
                },
            },
        }
        k = k + 1;
    }
    assert(t.take(k - a) =~= t);
    Some(v)
}

// ------------------------------------------------------------------- messages

fn text_message(before: &str, src: &Source, a: usize, b: usize, after: &str) -> (m: String)
    requires
        src.wf(),
        a <= b <= src.chars.len(),
    ensures
        m@ == before@ + src.text().subrange(a as int, b as int) + after@,
{
    let mut m = string_from(before);
    push_chars(&mut m, &src.chars, a, b);
    append_str(&mut m, after);
    m
}

fn debug_message(before: &str, src: &Source, a: usize, b: usize, after: &str) -> (m: String)
    requires
        src.wf(),
        a <= b <= src.chars.len(),
    ensures
        m@ == before@ + crate::text::debug_text(src.text().subrange(a as int, b as int)) + after@,
{
    let text = string_of(&src.chars, a, b);
    let shown = debug_string(&text);
    let mut m = string_from(before);
    append_str(&mut m, shown.as_str());
    append_str(&mut m, after);
    m
}

fn span_error(message: String, src: &Source, a: usize, b: usize) -> (e: Error)
    requires
        src.wf(),
        a <= b <= src.chars.len(),
    ensures
        e@ == syntax_v(message@, byte_offset(src.text(), a as int) as int, byte_offset(src.text(), b as int) as int),
{
    Error::syntax(message, Range { start: src.offs[a], end: src.offs[b] })
}

// ---------------------------------------------------------------- positionals

/// Attach an optional row number `cs[c..b]` to a column reference, giving a column or a cell.
fn finish_pos(src: &Source, col: ColRef, c: usize, b: usize) -> (r: Result<Pos, Error>)
    requires
        src.wf(),
        c <= b <= src.chars.len(),
    ensures
        result_view(r) == spec_finish_pos(src.text(), col@, c as int, b as int),
        r matches Ok(p) ==> pos_rows_ok(p@),
{
    reveal(spec_finish_pos);
    if c == b {
        return Ok(Pos::Column(col));
    }
    if !all_digits_in(src, c, b) {
        let m = debug_message("unexpected ", src, c, b, " after a column — a column takes only a row number");
        return Err(span_error(m, src, c, b));
    }
    match digits_value_in(src, c, b) {
        None => Err(span_error(string_from("row number is too large"), src, c, b)),
        Some(n) => {
            if n == 0 {
                Err(span_error(string_from("row numbers start at 1, not 0"), src, c, b))
            } else {
                Ok(Pos::Cell { col, row: n - 1 })
            }
        },
    }
}

/// Parse the positional that is the whole of `cs[a..b]`.
fn parse_pos(src: &Source, a: usize, b: usize) -> (r: Result<Pos, Error>)
    requires
        src.wf(),
        a <= b <= src.chars.len(),
    ensures
        result_view(r) == spec_parse_pos(src.text(), a as int, b as int),
        r matches Ok(p) ==> pos_rows_ok(p@),
{
    reveal(spec_parse_pos);
    let ghost s = src.text();
    let ghost t = s.subrange(a as int, b as int);
    if b == a + 1 && src.chars[a] == '$' {
        assert(t =~= seq!['$']);
        return Ok(Pos::LastRow);
    }
    assert(t != seq!['$']) by {
        if t == seq!['$'] {
            assert(t.len() == 1);
            assert(t[0] == s[a as int]);
        }
    }
    if a < b && src.chars[a] == '[' {
        assert(t[0] == '[');
        return match parse_name(src, a + 1, b) {
            None => Err(span_error(string_from("unterminated [name] — a bracketed column name needs a closing ]"), src, a, b)),
            Some((name, c)) => {
                proof {
                    lemma_read_name_end(s, (a + 1) as int, b as int, Seq::empty());
                }
                finish_pos(src, ColRef::Name(name), c, b)
            },
        };
    }
    assert(!(t.len() > 0 && t[0] == '['));
    let e = alpha_end_at(src, a, b);
    if e > a {
        return match letters_to_col(&src.chars, a, e) {
            None => {
                let m = text_message("column ", src, a, e, " is past the largest column this addresses");
                Err(span_error(m, src, a, e))
            },
            Some(col) => finish_pos(src, ColRef::Letters(col), e, b),
        };
    }
    if all_digits_in(src, a, b) {
        return match digits_value_in(src, a, b) {
            None => Err(span_error(text_message("row ", src, a, b, " is too large a number"), src, a, b)),
            Some(n) => {
                if n == 0 {
                    Err(span_error(string_from("row numbers start at 1, not 0"), src, a, b))
                } else {
                    Ok(Pos::Row(n - 1))
                }
            },
        };
    }
    let m = debug_message(
        "unrecognized address ",
        src,
        a,
        b,
        " — use a column letter (C, AF), a bracketed name ([first name]), a row number (5), a cell (C5), or $ for the last row",
    );
    Err(span_error(m, src, a, b))
}

// ---------------------------------------------------------------------- items

/// An optional end of a range, absent when its span is empty.
fn parse_range_end(src: &Source, span: (usize, usize)) -> (r: Result<Option<Pos>, Error>)
    requires
        src.wf(),
        span.0 <= span.1 <= src.chars.len(),
    ensures
        match r {
            Ok(p) => spec_range_end(src.text(), (span.0 as int, span.1 as int)) == Ok::<
                Option<PosV>,
                ErrorV,
            >(opt_pos_view(p)),
            Err(e) => spec_range_end(src.text(), (span.0 as int, span.1 as int)) == Err::<
                Option<PosV>,
                ErrorV,
            >(e@),
        },
        r matches Ok(p) ==> end_rows_ok(opt_pos_view(p)),
{
    if span.0 == span.1 {
        Ok(None)
    } else {
        match parse_pos(src, span.0, span.1) {
            Ok(p) => Ok(Some(p)),
            Err(e) => Err(e),
        }
    }
}

/// Parse the list item that is the whole of `cs[a..b]`: a positional, or a range.
fn parse_item(src: &Source, a: usize, b: usize) -> (r: Result<Item, Error>)
    requires
        src.wf(),
        a <= b <= src.chars.len(),
    ensures
        result_view(r) == spec_parse_item(src.text(), a as int, b as int),
        r matches Ok(it) ==> item_rows_ok(it@),
{
    reveal(spec_parse_item);
    let ghost s = src.text();
    let ghost sub = s.subrange(a as int, b as int);
    let parts = match split_top_level(src, a, b, ':') {
        None => {
            proof {
                lemma_offset_split(s, a as int, b as int);
            }
            let m = string_from("unterminated [name] — a bracketed column name needs a closing ]");
            return Err(Error::syntax(m, Range { start: src.offs[a], end: src.offs[b] }));
        },
        Some(p) => p,
    };
    let ghost ps = pieces(sub, ':', sub.len() as int);
    assert(sub.len() == b - a);
    assert(same_spans(parts@, ps));
    proof {
        lemma_pieces_bounds(sub, ':', sub.len() as int);
    }
    if parts.len() <= 1 {
        return match parse_pos(src, a, b) {
            Ok(p) => Ok(Item::Single(p)),
            Err(e) => Err(e),
        };
    }
    if parts.len() == 2 {
        proof {
            lemma_same_spans_at(parts@, ps, 0);
            lemma_same_spans_at(parts@, ps, 1);
        }
        let lo = trim_span(src, a + parts[0].0, a + parts[0].1);
        let hi = trim_span(src, a + parts[1].0, a + parts[1].1);
        if lo.0 == lo.1 && hi.0 == hi.1 {
            let m = string_from("a range needs at least one end — write `A:` from A to the last column, `:C` from the first through C");
            return Err(span_error(m, src, a, b));
        }
        let start = match parse_range_end(src, lo) {
            Ok(p) => p,
            Err(e) => return Err(e),
        };
        let end = match parse_range_end(src, hi) {
            Ok(p) => p,
            Err(e) => return Err(e),
        };
        return Ok(Item::Range { start, end });
    }
    let m = string_from("too many `:` in one address — a range has two ends");
    Err(span_error(m, src, a, b))
}

/// One comma-separated piece `cs[a0..b0]`, trimmed and parsed, with its byte span.
fn parse_piece(src: &Source, a0: usize, b0: usize) -> (r: Result<(Item, (usize, usize)), Error>)
    requires
        src.wf(),
        a0 <= b0 <= src.chars.len(),
    ensures
        match r {
            Ok((it, sp)) => spec_parse_piece(src.text(), (a0 as int, b0 as int)) == Ok::<
                (ItemV, (usize, usize)),
                ErrorV,
            >((it@, sp)),
            Err(e) => spec_parse_piece(src.text(), (a0 as int, b0 as int)) == Err::<
                (ItemV, (usize, usize)),
                ErrorV,
            >(e@),
        },
        r matches Ok((it, _)) ==> item_rows_ok(it@),
{
    reveal(spec_parse_piece);
    let (a, b) = trim_span(src, a0, b0);
    if a == b {
        let m = string_from("empty item in the address list — two commas with nothing between them");
        return Err(span_error(m, src, a, b));
    }
    match parse_item(src, a, b) {
        Err(e) => Err(e),
        Ok(it) => Ok((it, (src.offs[a], src.offs[b]))),
    }
}

proof fn lemma_parse_pieces_sticky(s: Seq<char>, ps: Seq<(int, int)>, k: int, m: int)
    requires
        0 <= k <= m,
        parse_pieces(s, ps, k) is Err,
    ensures
        parse_pieces(s, ps, m) == parse_pieces(s, ps, k),
    decreases m - k,
{
    if k < m {
        lemma_parse_pieces_sticky(s, ps, k, m - 1);
    }
}

impl Spec {
    pub fn items(&self) -> (r: &[Item])
        ensures
            r@.map_values(|i: Item| i@) == self@.items,
    {
        self.items.as_slice()
    }

    pub fn is_empty(&self) -> (r: bool)
        ensures
            r == (self@.items.len() == 0),
    {
        self.items.len() == 0
    }
}

/// Parse an address spec. The table is not consulted — `[name]` stays a name and out-of-range
/// letters stay indices until [`Spec::columns`](crate::Spec::columns) or
/// [`Spec::cells`](crate::Spec::cells) resolves them.
pub fn parse(spec: &str) -> (r: Result<Spec, Error>)
    ensures
        result_view(r) == spec_parse(spec@),
{
    let src = Source::new(spec);
    let n = src.chars.len();
    let ghost s = src.text();
    proof {
        lemma_offset_end(s);
        assert(s.subrange(0, n as int) =~= s);
    }
    if all_white(&src) {
        let m = string_from("empty address");
        return Err(Error::syntax(m, Range { start: 0, end: src.offs[n] }));
    }
    let parts = match split_top_level(&src, 0, n, ',') {
        None => {
            let m = string_from("unterminated [name] — a bracketed column name needs a closing ]");
            return Err(Error::syntax(m, Range { start: 0, end: src.offs[n] }));
        },
        Some(p) => p,
    };
    let ghost ps = pieces(s, ',', n as int);
    proof {
        lemma_pieces_bounds(s, ',', n as int);
        assert(names_closed(s));
    }
    let mut items: Vec<Item> = Vec::new();
    let mut spans: Vec<(usize, usize)> = Vec::new();
    let mut k: usize = 0;
    assert(items@.map_values(|i: Item| i@) =~= Seq::<ItemV>::empty());
    assert(spans@ =~= Seq::<(usize, usize)>::empty());
    while k < parts.len()
        invariant
            src.wf(),
            s == src.text(),
            s == spec@,
            n == s.len(),
            ps == pieces(s, ',', n as int),
            names_closed(s),
            lead_white(s, 0, n as int) != n,
            same_spans(parts@, ps),
            forall|j: int| 0 <= j < ps.len() ==> 0 <= #[trigger] ps[j].0 <= ps[j].1 <= n,
            k <= parts.len(),
            items.len() == spans.len(),
            forall|j: int| 0 <= j < items.len() ==> item_rows_ok(#[trigger] items@[j]@),
            parse_pieces(s, ps, k as int) == Ok::<SpecV, ErrorV>(
                SpecV { items: items@.map_values(|i: Item| i@), spans: spans@ },
            ),
        decreases parts.len() - k,
    {
        proof {
            lemma_same_spans_at(parts@, ps, k as int);
        }
        let (a0, b0) = parts[k];
        assert(ps[k as int] == (a0 as int, b0 as int));
        match parse_piece(&src, a0, b0) {
            Err(e) => {
                proof {
                    assert(parse_pieces(s, ps, k + 1) == Err::<SpecV, ErrorV>(e@));
                    lemma_parse_pieces_sticky(s, ps, k + 1, ps.len() as int);
                    assert(ps.len() == parts.len());
                    assert(parse_pieces(s, ps, ps.len() as int) == Err::<SpecV, ErrorV>(e@));
                    assert(names_closed(s));
                    assert(lead_white(s, 0, n as int) != n);
                }
                return Err(e);
            },
            Ok((it, sp)) => {
                let ghost before = items@;
                items.push(it);
                spans.push(sp);
                assert(items@.map_values(|i: Item| i@) =~= before.map_values(|i: Item| i@).push(
                    it@,
                ));
            },
        }
        k = k + 1;
    }
    Ok(Spec { items, spans })
}

// -------------------------------------------------------------------- prefixes

/// The index just past a bracketed name body starting at `i`, or the end of the text.
fn bracket_end_at(src: &Source, i: usize) -> (r: usize)
    requires
        src.wf(),
        i <= src.chars.len(),
    ensures
        r == bracket_end(src.text(), i as int),
        i <= r <= src.chars.len(),
{
    let n = src.chars.len();
    let mut k = i;
    while k < n
        invariant
            i <= k <= n,
            n == src.chars.len(),
            bracket_end(src.text(), i as int) == bracket_end(src.text(), k as int),
        decreases n - k,
    {
        if src.chars[k] == ']' {
            if k + 1 < n && src.chars[k + 1] == ']' {
                k = k + 2;
                continue ;
            }
            return k + 1;
        }
        k = k + 1;
    }
    n
}

/// The end of the run of decimal digits starting at `i`.
fn digits_end_at(src: &Source, i: usize) -> (r: usize)
    requires
        src.wf(),
        i <= src.chars.len(),
    ensures
        r == digits_end(src.text(), i as int),
        i <= r <= src.chars.len(),
{
    let n = src.chars.len();
    let mut k = i;
    while k < n && digit(src.chars[k])
        invariant
            i <= k <= n,
            n == src.chars.len(),
            digits_end(src.text(), i as int) == digits_end(src.text(), k as int),
        decreases n - k,
    {
        k = k + 1;
    }
    k
}

/// The end of the positional beginning at `i`, or `None` if none begins there.
///
/// An unterminated `[` runs to the end of the text and is left for the parser to report,
/// which keeps the "what is an address" answer in one place.
fn pos_extent(src: &Source, i: usize) -> (r: Option<usize>)
    requires
        src.wf(),
    ensures
        r matches Some(e) ==> spec_pos_extent(src.text(), i as int) == Some(e as int) && e
            <= src.chars.len(),
        r is None ==> spec_pos_extent(src.text(), i as int) is None,
{
    let n = src.chars.len();
    if i >= n {
        return None;
    }
    let c = src.chars[i];
    if c == '$' {
        Some(i + 1)
    } else if c == '[' {
        let e = bracket_end_at(src, i + 1);
        Some(digits_end_at(src, e))
    } else if alpha(c) {
        let e = alpha_end_at(src, i, n);
        Some(digits_end_at(src, e))
    } else if digit(c) {
        Some(digits_end_at(src, i))
    } else {
        None
    }
}

/// How many characters at the front of the text belong to one address: an optional leading
/// `:`, a positional, and at most one `:` with an optional positional after it. Mirrors what
/// the item parser will accept, so the slice it measures is the slice that parses.
fn item_extent(src: &Source) -> (r: usize)
    requires
        src.wf(),
    ensures
        r == spec_item_extent(src.text()),
        r <= src.chars.len(),
{
    let n = src.chars.len();
    if n > 0 && src.chars[0] == ':' {
        return match pos_extent(src, 1) {
            Some(e) => e,
            None => 1,
        };
    }
    match pos_extent(src, 0) {
        None => 0,
        Some(after_start) => {
            if after_start < n && src.chars[after_start] == ':' {
                let after_colon = after_start + 1;
                match pos_extent(src, after_colon) {
                    Some(e) => e,
                    None => after_colon,
                }
            } else {
                after_start
            }
        },
    }
}

/// Parse one address off the front of `s`, returning it and how many bytes it consumed.
///
/// For parsers that embed addresses in a larger language, where an address has no delimiter
/// and simply ends when the next character cannot continue it — `A:C s/x/y/` is an address
/// followed by a command, and `[dept]~/ops/` is an address followed by an operator.
///
/// The returned [`Spec`] holds exactly one item, so it resolves like any other. Commas are
/// *not* consumed: a host language with its own list or union syntax keeps that for itself.
pub fn parse_prefix(s: &str) -> (r: Result<(Spec, usize), Error>)
    ensures
        match r {
            Ok((spec, used)) => spec_parse_prefix(s@) == Ok::<(SpecV, usize), ErrorV>(
                (spec@, used),
            ),
            Err(e) => spec_parse_prefix(s@) == Err::<(SpecV, usize), ErrorV>(e@),
        },
{
    let src = Source::new(s);
    let n = item_extent(&src);
    if n == 0 {
        let m = string_from("expected an address — a cell (C5), column (C or [name]), row (5), or $");
        return Err(Error::syntax(m, Range { start: 0, end: 0 }));
    }
    let item = match parse_item(&src, 0, n) {
        Ok(it) => it,
        Err(e) => return Err(e),
    };
    let used = src.offs[n];
    proof {
        lemma_offset_end(src.text());
    }
    let ghost iv = item@;
    let spec = Spec { items: vec![item], spans: vec![(0, used)] };
    proof {
        spec.lemma_view();
        assert(spec@.items =~= seq![iv]);
        assert(spec@.spans =~= seq![(0usize, used)]);
    }
    Ok((spec, used))
}

} // verus!
