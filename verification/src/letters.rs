// Spreadsheet column letters, both directions, and the text forms of cells and ranges.
use crate::text::{alpha, chars_of, decimal, is_alpha, push_decimal};
use vstd::prelude::*;

verus! {

/// The largest column index [`col_to_letter`] and [`letter_to_col`] round-trip.
///
/// Bijective base 26 grows fast, so the ceiling is nowhere near a real table: it exists to
/// give absurd input (`letter_to_col("AAAAAAAAAAAA")`) a defined answer instead of an
/// arithmetic overflow. Spreadsheets stop at `XFD` (16383); this is far past that.
pub const MAX_COL: usize = 0x00FF_FFFF;

/// The digit value of a column letter in bijective base 26: `A`/`a` is 1, `Z`/`z` is 26.
pub open spec fn letter_value(c: char) -> nat {
    if 'a' <= c && c <= 'z' {
        (c as nat - 'a' as nat + 1) as nat
    } else {
        (c as nat - 'A' as nat + 1) as nat
    }
}

/// The bijective base-26 number written by `s` (one more than the 0-based column).
pub open spec fn bijective26(s: Seq<char>) -> nat
    decreases s.len(),
{
    if s.len() == 0 {
        0
    } else {
        bijective26(s.drop_last()) * 26 + letter_value(s.last())
    }
}

pub open spec fn all_alpha(s: Seq<char>) -> bool {
    forall|i: int| 0 <= i < s.len() ==> is_alpha(#[trigger] s[i])
}

/// What [`letter_to_col`] returns for text with these characters.
pub open spec fn spec_letter_to_col(s: Seq<char>) -> Option<usize> {
    if s.len() == 0 || !all_alpha(s) || bijective26(s) > MAX_COL + 1 {
        None
    } else {
        Some((bijective26(s) - 1) as usize)
    }
}

/// The upper-case letter for a digit `0..26`.
pub open spec fn letter_char(d: nat) -> char {
    ((65 + d) as u8) as char
}

/// The letters naming 0-based column `c`: `A` for 0, `Z` for 25, `AA` for 26.
pub open spec fn col_letters(c: nat) -> Seq<char>
    decreases c,
{
    if c < 26 {
        seq![letter_char(c)]
    } else {
        col_letters((c / 26 - 1) as nat).push(letter_char(c % 26))
    }
}

/// ASCII upper-casing of one character.
pub open spec fn upper(c: char) -> char {
    if 'a' <= c && c <= 'z' {
        ((c as u32 - 32) as u8) as char
    } else {
        c
    }
}

/// ASCII upper-casing of a text.
pub open spec fn upper_text(s: Seq<char>) -> Seq<char> {
    s.map_values(|c: char| upper(c))
}

/// `A1`-style text for a cell: the column letters, then the 1-based row.
pub open spec fn cell_text(row: nat, col: nat) -> Seq<char> {
    col_letters(col) + decimal(row + 1)
}

/// `A1:C5`-style text for the rectangle spanned by two corners, smaller corner first.
pub open spec fn rect_text(r1: nat, c1: nat, r2: nat, c2: nat) -> Seq<char> {
    let (top, bottom) = if r1 <= r2 { (r1, r2) } else { (r2, r1) };
    let (left, right) = if c1 <= c2 { (c1, c2) } else { (c2, c1) };
    if top == bottom && left == right {
        cell_text(top, left)
    } else {
        cell_text(top, left) + seq![':'] + cell_text(bottom, right)
    }
}

/// A name with every `]` doubled.
pub open spec fn escape_brackets(s: Seq<char>) -> Seq<char>
    decreases s.len(),
{
    if s.len() == 0 {
        Seq::empty()
    } else {
        escape_brackets(s.drop_last()) + (if s.last() == ']' {
            seq![']', ']']
        } else {
            seq![s.last()]
        })
    }
}

/// `[name]` with every `]` inside doubled.
pub open spec fn quoted_text(name: Seq<char>) -> Seq<char> {
    seq!['['] + escape_brackets(name) + seq![']']
}

proof fn lemma_bijective26_grows(s: Seq<char>, i: int, j: int)
    requires
        0 <= i <= j <= s.len(),
    ensures
        bijective26(s.take(i)) <= bijective26(s.take(j)),
    decreases j - i,
{
    if i < j {
        lemma_bijective26_grows(s, i, j - 1);
        assert(s.take(j).drop_last() =~= s.take(j - 1));
    }
}

fn letter_digit(c: char) -> (v: usize)
    requires
        is_alpha(c),
    ensures
        v == letter_value(c),
        1 <= v <= 26,
{
    if 'a' <= c && c <= 'z' {
        (c as u32 - 'a' as u32 + 1) as usize
    } else {
        (c as u32 - 'A' as u32 + 1) as usize
    }
}

/// Column letters to a 0-based index: `A` → 0, `Z` → 25, `AA` → 26. Letters are uppercased
/// first, so `af` and `AF` are the same column.
///
/// `None` when `s` is empty, holds anything but ASCII letters, or names a column past
/// [`MAX_COL`]. It is total by design — a GUI parses whatever the user has typed so far,
/// and a half-typed address must not panic.
pub fn letter_to_col(s: &str) -> (r: Option<usize>)
    ensures
        r == spec_letter_to_col(s@),
{
    let cs = chars_of(s);
    assert(cs@.subrange(0, cs@.len() as int) =~= s@);
    letters_to_col(&cs, 0, cs.len())
}

/// [`letter_to_col`] on the characters `cs[a..b]`.
pub(crate) fn letters_to_col(cs: &Vec<char>, a: usize, b: usize) -> (r: Option<usize>)
    requires
        a <= b <= cs.len(),
    ensures
        r == spec_letter_to_col(cs@.subrange(a as int, b as int)),
{
    let ghost s = cs@.subrange(a as int, b as int);
    if a == b {
        return None;
    }
    let mut n: usize = 0;
    let mut i = a;
    while i < b
        invariant
            a <= i <= b <= cs.len(),
            s == cs@.subrange(a as int, b as int),
            n == bijective26(s.take(i - a)),
            all_alpha(s.take(i - a)),
            n <= MAX_COL + 1,
        decreases b - i,
    {
        let c = cs[i];
        if !alpha(c) {
            assert(s[i - a] == c);
            return None;
        }
        let v = letter_digit(c);
        assert(s.take(i - a + 1).drop_last() =~= s.take(i - a));
        assert(s.take(i - a + 1).last() == c);
        n = n * 26 + v;
        i = i + 1;
        assert(all_alpha(s.take(i - a))) by {
            assert forall|k: int| 0 <= k < s.take(i - a).len() implies is_alpha(
                #[trigger] s.take(i - a)[k],
            ) by {
                if k < i - a - 1 {
                    assert(s.take(i - a)[k] == s.take(i - a - 1)[k]);
                }
            }
        }
        if n > MAX_COL + 1 {
            proof {
                lemma_bijective26_grows(s, i - a, s.len() as int);
                assert(s.take(s.len() as int) =~= s);
            }
            return None;
        }
    }
    assert(s.take(i - a) =~= s);
    assert(n >= 1) by {
        assert(s.take(i - a).drop_last() =~= s.take(i - a - 1));
        assert(is_alpha(s.take(i - a)[i - a - 1]));
    }
    Some(n - 1)
}

/// Appends the letters of column `c`.
fn push_col_letters(out: &mut String, c: usize)
    ensures
        final(out)@ == old(out)@ + col_letters(c as nat),
    decreases c,
{
    if c >= 26 {
        push_col_letters(out, c / 26 - 1);
    }
    let d = (c % 26) as u8;
    out.push((65u8 + d) as char);
    assert(out@ =~= old(out)@ + col_letters(c as nat));
}

/// A 0-based index to column letters. Inverse of [`letter_to_col`].
///
/// It is base 26 without a zero, which is why the carry subtracts one.
pub fn col_to_letter(c: usize) -> (r: String)
    ensures
        r@ == col_letters(c as nat),
{
    let mut r = String::new();
    push_col_letters(&mut r, c);
    assert(r@ =~= col_letters(c as nat));
    r
}

/// A cell as a user would write it: `(0, 0)` → `A1`. Rows are 0-based here and 1-based on
/// the page, matching every spreadsheet.
pub fn cell_ref(row: usize, col: usize) -> (r: String)
    requires
        row < usize::MAX,
    ensures
        r@ == cell_text(row as nat, col as nat),
{
    let mut r = String::new();
    push_col_letters(&mut r, col);
    push_decimal(&mut r, row + 1);
    assert(r@ =~= cell_text(row as nat, col as nat));
    r
}

/// A rectangle as a user would write it: `A1:C5`. A single cell renders without the colon.
pub fn rect_ref(r1: usize, c1: usize, r2: usize, c2: usize) -> (r: String)
    requires
        r1 < usize::MAX,
        r2 < usize::MAX,
    ensures
        r@ == rect_text(r1 as nat, c1 as nat, r2 as nat, c2 as nat),
{
    let (r1, r2) = if r1 <= r2 {
        (r1, r2)
    } else {
        (r2, r1)
    };
    let (c1, c2) = if c1 <= c2 {
        (c1, c2)
    } else {
        (c2, c1)
    };
    if r1 == r2 && c1 == c2 {
        cell_ref(r1, c1)
    } else {
        let mut r = cell_ref(r1, c1);
        r.push(':');
        push_col_letters(&mut r, c2);
        push_decimal(&mut r, r2 + 1);
        assert(r@ =~= cell_text(r1 as nat, c1 as nat) + seq![':'] + cell_text(
            r2 as nat,
            c2 as nat,
        ));
        r
    }
}

/// A column name, bracketed and escaped so [`crate::parse`] reads back the name given.
///
/// A literal `]` inside a name doubles, the same escape the parser accepts.
pub fn quote_name(name: &str) -> (r: String)
    ensures
        r@ == quoted_text(name@),
{
    let cs = chars_of(name);
    let mut r = String::new();
    r.push('[');
    let mut i: usize = 0;
    while i < cs.len()
        invariant
            cs@ == name@,
            i <= cs.len(),
            r@ == seq!['['] + escape_brackets(cs@.take(i as int)),
        decreases cs.len() - i,
    {
        let c = cs[i];
        if c == ']' {
            r.push(']');
            r.push(']');
        } else {
            r.push(c);
        }
        i = i + 1;
        assert(cs@.take(i as int).drop_last() =~= cs@.take(i - 1));
        assert(r@ =~= seq!['['] + escape_brackets(cs@.take(i as int)));
    }
    r.push(']');
    assert(cs@.take(cs.len() as int) =~= cs@);
    assert(r@ =~= quoted_text(name@));
    r
}

pub proof fn lemma_letter_char(d: nat)
    requires
        d < 26,
    ensures
        is_alpha(letter_char(d)),
        letter_value(letter_char(d)) == d + 1,
        upper(letter_char(d)) == letter_char(d),
        'A' <= letter_char(d) <= 'Z',
{
    assert(((65 + d) as u8) as char as nat == 65 + d);
}

pub proof fn lemma_col_letters(c: nat)
    ensures
        bijective26(col_letters(c)) == c + 1,
        all_alpha(col_letters(c)),
        col_letters(c).len() >= 1,
        upper_text(col_letters(c)) == col_letters(c),
    decreases c,
{
    if c < 26 {
        lemma_letter_char(c);
        let l = col_letters(c);
        assert(l.drop_last() =~= Seq::<char>::empty());
        assert(l.last() == letter_char(c));
        assert(bijective26(l.drop_last()) == 0);
        assert(bijective26(l) == c + 1);
        assert(upper_text(l) =~= l);
    } else {
        let q = (c / 26 - 1) as nat;
        let r = c % 26;
        lemma_col_letters(q);
        lemma_letter_char(r);
        let l = col_letters(c);
        let p = col_letters(q);
        assert(l.drop_last() =~= p);
        assert(l.last() == letter_char(r));
        assert(c == (c / 26) * 26 + c % 26) by (nonlinear_arith);
        assert(c / 26 >= 1) by (nonlinear_arith)
            requires
                c >= 26,
        ;
        assert(q + 1 == c / 26);
        assert(bijective26(l) == bijective26(p) * 26 + r + 1);
        assert(bijective26(p) * 26 == (c / 26) * 26);
        assert forall|i: int| 0 <= i < l.len() implies is_alpha(#[trigger] l[i]) by {
            if i < p.len() {
                assert(l[i] == p[i]);
            }
        }
        assert(upper_text(l) =~= l) by {
            assert forall|i: int| 0 <= i < l.len() implies #[trigger] upper_text(l)[i] == l[i] by {
                if i < p.len() {
                    assert(upper_text(p)[i] == p[i]);
                }
            }
        }
    }
}

/// Column letters round-trip: reading back the letters of column `c` gives `c`, for every
/// column up to [`MAX_COL`], and nothing past it.
pub proof fn law_letters_round_trip(c: usize)
    ensures
        spec_letter_to_col(col_letters(c as nat)) == (if c <= MAX_COL {
            Some(c)
        } else {
            None::<usize>
        }),
{
    lemma_col_letters(c as nat);
}

proof fn lemma_bijective26_upper(s: Seq<char>)
    ensures
        bijective26(upper_text(s)) == bijective26(s),
        all_alpha(upper_text(s)) == all_alpha(s),
        upper_text(s).len() == s.len(),
    decreases s.len(),
{
    let u = upper_text(s);
    if s.len() > 0 {
        lemma_bijective26_upper(s.drop_last());
        assert(u.drop_last() =~= upper_text(s.drop_last()));
        let c = s.last();
        if 'a' <= c && c <= 'z' {
            assert(((c as u32 - 32) as u8) as char as nat == c as nat - 32);
        }
    }
    assert(all_alpha(u) == all_alpha(s)) by {
        if all_alpha(s) {
            assert forall|i: int| 0 <= i < u.len() implies is_alpha(#[trigger] u[i]) by {
                assert(is_alpha(s[i]));
                if 'a' <= s[i] && s[i] <= 'z' {
                    assert(((s[i] as u32 - 32) as u8) as char as nat == s[i] as nat - 32);
                }
            }
        }
        if all_alpha(u) {
            assert forall|i: int| 0 <= i < s.len() implies is_alpha(#[trigger] s[i]) by {
                assert(is_alpha(u[i]));
            }
        }
    }
}

/// Letters are case-insensitive: a text names the same column as its upper-cased form.
pub proof fn law_letters_case_insensitive(s: Seq<char>)
    ensures
        spec_letter_to_col(s) == spec_letter_to_col(upper_text(s)),
{
    lemma_bijective26_upper(s);
}

/// Letters are the inverse of [`letter_to_col`]: any text that names a column is, upper-cased,
/// exactly the letters of that column.
pub proof fn law_letters_inverse(s: Seq<char>)
    requires
        spec_letter_to_col(s) is Some,
    ensures
        col_letters(spec_letter_to_col(s).unwrap() as nat) == upper_text(s),
    decreases s.len(),
{
    let p = s.drop_last();
    let x = s.last();
    let v = letter_value(x);
    assert(is_alpha(x)) by {
        assert(is_alpha(s[s.len() - 1]));
    }
    assert(1 <= v <= 26);
    let c = (bijective26(s) - 1) as nat;
    if p.len() == 0 {
        assert(bijective26(p) == 0);
        assert(c == v - 1);
        lemma_letter_char((v - 1) as nat);
        if 'a' <= x && x <= 'z' {
            assert(((x as u32 - 32) as u8) as char as nat == x as nat - 32);
            assert(((65 + (v - 1)) as u8) as char as nat == 65 + (v - 1));
        } else {
            assert(((65 + (v - 1)) as u8) as char as nat == 65 + (v - 1));
        }
        assert(upper_text(s) =~= seq![upper(x)]);
    } else {
        assert(all_alpha(p)) by {
            assert forall|i: int| 0 <= i < p.len() implies is_alpha(#[trigger] p[i]) by {
                assert(is_alpha(s[i]));
            }
        }
        lemma_bijective26_grows(s, p.len() as int, s.len() as int);
        assert(s.take(p.len() as int) =~= p);
        assert(s.take(s.len() as int) =~= s);
        assert(bijective26(p) >= 1) by {
            assert(p.drop_last().len() < p.len());
            assert(is_alpha(p.last()));
        }
        law_letters_inverse(p);
        let b = bijective26(p);
        assert(c == b * 26 + v - 1);
        assert(c / 26 == b && c % 26 == v - 1) by (nonlinear_arith)
            requires
                c == b * 26 + v - 1,
                1 <= v <= 26,
        ;
        lemma_letter_char((v - 1) as nat);
        if 'a' <= x && x <= 'z' {
            assert(((x as u32 - 32) as u8) as char as nat == x as nat - 32);
            assert(((65 + (v - 1)) as u8) as char as nat == 65 + (v - 1));
        } else {
            assert(((65 + (v - 1)) as u8) as char as nat == 65 + (v - 1));
        }
        assert(upper_text(s) =~= upper_text(p).push(upper(x)));
    }
}

} // verus!
