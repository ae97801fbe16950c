// Characters, their UTF-8 widths, and the strings this crate builds.
//
// Addresses are read as characters, but every span handed back to a caller is a byte range
// into the text it came from. `Source` holds both views of an input side by side.
use vstd::prelude::*;
use vstd::utf8::*;
use vstd::std_specs::iter::IteratorSpec;
use vstd::string::StringSliceAdditionalSpecFns;

verus! {

broadcast use vstd::string::group_string_axioms;

/// Number of bytes in the UTF-8 encoding of `c`.
pub open spec fn char_width(c: char) -> nat {
    encode_scalar(c as u32).len()
}

/// Byte offset, in the UTF-8 encoding of `s`, of the character at index `i`.
pub open spec fn byte_offset(s: Seq<char>, i: int) -> nat {
    encode_utf8(s.take(i)).len()
}

/// Number of bytes in the UTF-8 encoding of `s`.
pub open spec fn byte_len(s: Seq<char>) -> nat {
    encode_utf8(s).len()
}

/// Encoding a concatenation encodes each part in turn.
pub proof fn lemma_encode_concat(a: Seq<char>, b: Seq<char>)
    ensures
        encode_utf8(a + b) == encode_utf8(a) + encode_utf8(b),
    decreases a.len(),
{
    if a.len() == 0 {
        assert(a + b =~= b);
        assert(encode_utf8(a) + encode_utf8(b) =~= encode_utf8(b));
    } else {
        lemma_encode_concat(a.drop_first(), b);
        assert((a + b).drop_first() =~= a.drop_first() + b);
        assert((a + b)[0] == a[0]);
        assert(encode_utf8(a + b) =~= encode_utf8(a) + encode_utf8(b));
    }
}

/// The offset of the next character is the offset of this one plus its width.
pub proof fn lemma_offset_step(s: Seq<char>, i: int)
    requires
        0 <= i < s.len(),
    ensures
        byte_offset(s, i + 1) == byte_offset(s, i) + char_width(s[i]),
{
    assert(s.take(i + 1) =~= s.take(i) + seq![s[i]]);
    lemma_encode_concat(s.take(i), seq![s[i]]);
    assert(seq![s[i]].drop_first() =~= Seq::<char>::empty());
    assert(encode_utf8(Seq::<char>::empty()) =~= Seq::<u8>::empty());
    assert(encode_utf8(seq![s[i]]) =~= encode_scalar(s[i] as u32));
}

/// The bytes between two character offsets encode the characters between them.
pub proof fn lemma_offset_split(s: Seq<char>, i: int, j: int)
    requires
        0 <= i <= j <= s.len(),
    ensures
        byte_offset(s, j) == byte_offset(s, i) + byte_len(s.subrange(i, j)),
        byte_offset(s, i) <= byte_offset(s, j),
{
    assert(s.take(j) =~= s.take(i) + s.subrange(i, j));
    lemma_encode_concat(s.take(i), s.subrange(i, j));
}

/// The end of a text is at its full byte length.
pub proof fn lemma_offset_end(s: Seq<char>)
    ensures
        byte_offset(s, s.len() as int) == byte_len(s),
        byte_offset(s, 0) == 0,
{
    assert(s.take(s.len() as int) =~= s);
    assert(s.take(0) =~= Seq::<char>::empty());
}

/// Every character offset falls on a character boundary of the encoding, inside it.
pub proof fn lemma_offset_is_boundary(s: Seq<char>, i: int)
    requires
        0 <= i <= s.len(),
    ensures
        is_char_boundary(encode_utf8(s), byte_offset(s, i) as int),
        byte_offset(s, i) <= byte_len(s),
    decreases s.len(),
{
    broadcast use encode_utf8_valid_utf8;

    lemma_offset_split(s, i, s.len() as int);
    lemma_offset_end(s);
    if i > 0 {
        let bytes = encode_utf8(s);
        let rest = s.drop_first();
        encode_utf8_first_scalar(s);
        assert(pop_first_scalar(bytes) =~= encode_utf8(rest));
        lemma_offset_is_boundary(rest, i - 1);
        assert(s.take(i) =~= seq![s[0]] + rest.take(i - 1));
        lemma_encode_concat(seq![s[0]], rest.take(i - 1));
        assert(seq![s[0]].drop_first() =~= Seq::<char>::empty());
        assert(encode_utf8(Seq::<char>::empty()) =~= Seq::<u8>::empty());
        assert(encode_utf8(seq![s[0]]) =~= encode_scalar(s[0] as u32));
        assert(byte_offset(s, i) == char_width(s[0]) + byte_offset(rest, i - 1));
        assert(byte_offset(s, i) > 0);
    }
}

/// UTF-8 width of a character.
pub fn width_of(c: char) -> (w: usize)
    ensures
        w == char_width(c),
        1 <= w <= 4,
{
    proof {
        broadcast use char_is_scalar;
        assert(is_scalar(c as u32));
    }
    let u = c as u32;
    if u <= 0x7F {
        1
    } else if u <= 0x7FF {
        2
    } else if u <= 0xFFFF {
        3
    } else {
        4
    }
}

/// The characters of `s`, in order.
pub fn chars_of(s: &str) -> (v: Vec<char>)
    ensures
        v@ == s@,
{
    let mut it = s.chars();
    let mut v: Vec<char> = Vec::new();
    loop
        invariant_except_break
            it.remaining() == s@.skip(v.len() as int),
            v@ == s@.take(v.len() as int),
            v.len() <= s@.len(),
            it.obeys_prophetic_iter_laws(),
        ensures
            v@ == s@,
        decreases s@.len() - v.len(),
    {
        match it.next() {
            Some(c) => {
                assert(s@.skip(v.len() as int).len() > 0);
                v.push(c);
                assert(s@.skip((v.len() - 1) as int).drop_first() =~= s@.skip(v.len() as int));
                assert(v@ =~= s@.take(v.len() as int));
            },
            None => {
                assert(s@.skip(v.len() as int).len() == 0);
                assert(v@ =~= s@);
                break ;
            },
        }
    }
    v
}

/// A text read once as characters, with the byte offset of every character boundary.
pub struct Source {
    pub chars: Vec<char>,
    pub offs: Vec<usize>,
}

impl Source {
    /// `offs[i]` is the byte offset of `chars[i]`; `offs[len]` is the byte length.
    pub open spec fn wf(&self) -> bool {
        &&& self.offs.len() == self.chars.len() + 1
        &&& forall|i: int|
            0 <= i <= self.chars.len() ==> #[trigger] self.offs@[i] == byte_offset(self.chars@, i)
    }

    pub open spec fn text(&self) -> Seq<char> {
        self.chars@
    }

    pub fn new(s: &str) -> (src: Source)
        ensures
            src.wf(),
            src.text() == s@,
            src.offs@[src.text().len() as int] == s.spec_bytes().len(),
    {
        let chars = chars_of(s);
        let total = s.as_bytes().len();
        proof {
            lemma_offset_end(s@);
        }
        let mut offs: Vec<usize> = Vec::new();
        offs.push(0);
        let mut i: usize = 0;
        let mut at: usize = 0;
        while i < chars.len()
            invariant
                chars@ == s@,
                total == byte_len(s@),
                i <= chars.len(),
                offs.len() == i + 1,
                at == byte_offset(chars@, i as int),
                forall|k: int| 0 <= k <= i ==> #[trigger] offs@[k] == byte_offset(chars@, k),
            decreases chars.len() - i,
        {
            let w = width_of(chars[i]);
            proof {
                lemma_offset_step(chars@, i as int);
                lemma_offset_split(chars@, i + 1, chars@.len() as int);
                lemma_offset_end(chars@);
            }
            at = at + w;
            i = i + 1;
            offs.push(at);
        }
        proof {
            lemma_offset_end(chars@);
        }
        Source { chars, offs }
    }
}

/// `String::push` appends one character: the text afterwards is the text before with `ch` at
/// the end (std documents it as "Appends the given char to the end of this String").
pub assume_specification[ String::push ](string: &mut String, ch: char)
    ensures
        final(string)@ == old(string)@.push(ch),
;

/// Appends the characters `cs[a..b]`.
pub fn push_chars(r: &mut String, cs: &Vec<char>, a: usize, b: usize)
    requires
        a <= b <= cs.len(),
    ensures
        final(r)@ == old(r)@ + cs@.subrange(a as int, b as int),
{
    let mut i = a;
    while i < b
        invariant
            a <= i <= b <= cs.len(),
            r@ == old(r)@ + cs@.subrange(a as int, i as int),
        decreases b - i,
    {
        r.push(cs[i]);
        i = i + 1;
        assert(r@ =~= old(r)@ + cs@.subrange(a as int, i as int));
    }
}

/// The characters `cs[a..b]` as a `String`.
pub fn string_of(cs: &Vec<char>, a: usize, b: usize) -> (r: String)
    requires
        a <= b <= cs.len(),
    ensures
        r@ == cs@.subrange(a as int, b as int),
{
    let mut r = String::new();
    push_chars(&mut r, cs, a, b);
    assert(r@ =~= cs@.subrange(a as int, b as int));
    r
}

/// `s` followed by the characters of `t`.
pub fn append_str(s: &mut String, t: &str)
    ensures
        final(s)@ == old(s)@ + t@,
{
    let cs = chars_of(t);
    let mut i: usize = 0;
    while i < cs.len()
        invariant
            cs@ == t@,
            i <= cs.len(),
            s@ == old(s)@ + cs@.take(i as int),
        decreases cs.len() - i,
    {
        s.push(cs[i]);
        i = i + 1;
        assert(s@ =~= old(s)@ + cs@.take(i as int));
    }
    assert(cs@.take(cs.len() as int) =~= cs@);
}

/// A `String` holding exactly the characters of `t`.
pub fn string_from(t: &str) -> (r: String)
    ensures
        r@ == t@,
{
    let mut r = String::new();
    append_str(&mut r, t);
    assert(r@ =~= t@);
    r
}

/// The character for a decimal digit.
pub open spec fn digit_char(d: nat) -> char {
    ((48 + d) as u8) as char
}

/// The decimal digits of `n`, most significant first, with no leading zeros.
pub open spec fn decimal(n: nat) -> Seq<char>
    decreases n,
{
    if n < 10 {
        seq![digit_char(n)]
    } else {
        decimal(n / 10).push(digit_char(n % 10))
    }
}

/// Appends the decimal digits of `n`.
pub fn push_decimal(s: &mut String, n: usize)
    ensures
        final(s)@ == old(s)@ + decimal(n as nat),
    decreases n,
{
    if n >= 10 {
        push_decimal(s, n / 10);
    }
    let d = (n % 10) as u8;
    s.push((48u8 + d) as char);
    assert(s@ =~= old(s)@ + decimal(n as nat));
}

/// What `format!("{:?}", ..)` renders for a text with these characters: quoted and escaped.
pub uninterp spec fn debug_text(text: Seq<char>) -> Seq<char>;

/// The text's `Debug` rendering (`str`'s quoting and escaping), made by `format!("{:?}", ..)`
/// through `<String as Debug>::fmt`. Its result depends on the text alone and is named
/// [`debug_text`]; how std escapes each character is left unsaid.
#[verifier::external_body]
pub(crate) fn debug_string(text: &String) -> (r: String)
    ensures
        r@ == debug_text(text@),
{
    format!("{:?}", text)
}

/// Unicode `White_Space`, the set `str::trim` removes.
pub open spec fn is_white_space(c: char) -> bool {
    let u = c as u32;
    ||| 0x09 <= u <= 0x0D
    ||| u == 0x20
    ||| u == 0x85
    ||| u == 0xA0
    ||| u == 0x1680
    ||| 0x2000 <= u <= 0x200A
    ||| u == 0x2028
    ||| u == 0x2029
    ||| u == 0x202F
    ||| u == 0x205F
    ||| u == 0x3000
}

pub fn white_space(c: char) -> (b: bool)
    ensures
        b == is_white_space(c),
{
    let u = c as u32;
    (0x09 <= u && u <= 0x0D) || u == 0x20 || u == 0x85 || u == 0xA0 || u == 0x1680 || (0x2000
        <= u && u <= 0x200A) || u == 0x2028 || u == 0x2029 || u == 0x202F || u == 0x205F || u
        == 0x3000
}

/// ASCII white space, the set `char::is_ascii_whitespace` accepts: space, tab, line feed,
/// form feed and carriage return.
pub open spec fn is_ascii_space(c: char) -> bool {
    let u = c as u32;
    u == 0x20 || u == 0x09 || u == 0x0A || u == 0x0C || u == 0x0D
}

pub fn ascii_space(c: char) -> (b: bool)
    ensures
        b == is_ascii_space(c),
{
    let u = c as u32;
    u == 0x20 || u == 0x09 || u == 0x0A || u == 0x0C || u == 0x0D
}

pub open spec fn is_alpha(c: char) -> bool {
    ('a' <= c && c <= 'z') || ('A' <= c && c <= 'Z')
}

pub open spec fn is_digit(c: char) -> bool {
    '0' <= c && c <= '9'
}

pub fn alpha(c: char) -> (b: bool)
    ensures
        b == is_alpha(c),
{
    ('a' <= c && c <= 'z') || ('A' <= c && c <= 'Z')
}

pub fn digit(c: char) -> (b: bool)
    ensures
        b == is_digit(c),
{
    '0' <= c && c <= '9'
}

} // verus!
