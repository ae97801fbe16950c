// Addressing errors, carrying where in the input they happened.
use core::ops::Range;
use vstd::prelude::*;
use vstd::string::StringSliceAdditionalSpecFns;
use vstd::utf8::*;

verus! {

/// Which stage rejected the address.
///
/// The split matters to callers with two error paths: a `Syntax` error is wrong no matter what
/// table it is aimed at, while a `Lookup` error is about *this* table and would succeed against
/// another. A GUI can mark syntax red as the user types and defer lookup until resolution.
#[derive(Debug, Clone, Copy, PartialEq, Eq, Structural)]
pub enum Kind {
    /// The text is not a well-formed address.
    Syntax,
    /// Well-formed, but it does not name anything in this table.
    Lookup,
}

/// A rejected address, with the byte range of the input responsible.
#[derive(Debug, PartialEq, Eq)]
pub struct Error {
    pub kind: Kind,
    pub message: String,
    /// Byte range into the spec passed to [`crate::parse`]. Resolution errors, which have no
    /// narrower home, span the whole item.
    pub span: Range<usize>,
}

/// An error as a value: its kind, the characters of its message, and its byte span.
pub struct ErrorV {
    pub kind: Kind,
    pub message: Seq<char>,
    pub span: (usize, usize),
}

impl View for Error {
    type V = ErrorV;

    open spec fn view(&self) -> ErrorV {
        ErrorV { kind: self.kind, message: self.message@, span: (self.span.start, self.span.end) }
    }
}

/// A syntax error value.
pub open spec fn syntax_v(message: Seq<char>, start: int, end: int) -> ErrorV {
    ErrorV { kind: Kind::Syntax, message, span: (start as usize, end as usize) }
}

/// A lookup error value.
pub open spec fn lookup_v(message: Seq<char>, start: int, end: int) -> ErrorV {
    ErrorV { kind: Kind::Lookup, message, span: (start as usize, end as usize) }
}

/// Whether `start..end` is a range `str::get` accepts on text with these bytes: in order,
/// inside the text, and on character boundaries at both ends.
pub open spec fn fits_text(bytes: Seq<u8>, start: int, end: int) -> bool {
    &&& 0 <= start <= end <= bytes.len()
    &&& is_char_boundary(bytes, start)
    &&& is_char_boundary(bytes, end)
}

proof fn lemma_boundary_in_prefix(bytes: Seq<u8>, start: int, end: int)
    requires
        valid_utf8(bytes),
        fits_text(bytes, start, end),
    ensures
        valid_utf8(bytes.subrange(0, end)),
        is_char_boundary(bytes.subrange(0, end), start),
{
    broadcast use valid_utf8_split;

    let pre = bytes.subrange(0, end);
    assert(valid_utf8(pre));
    if start < end {
        is_char_boundary_iff_not_is_continuation_byte(bytes, start);
        is_char_boundary_iff_not_is_continuation_byte(pre, start);
    } else {
        is_char_boundary_start_end_of_seq(pre);
    }
}

impl Clone for Error {
    fn clone(&self) -> (e: Error)
        ensures
            e@ == self@,
    {
        Error {
            kind: self.kind,
            message: self.message.clone(),
            span: Range { start: self.span.start, end: self.span.end },
        }
    }
}

impl Error {
    pub(crate) fn syntax(message: String, span: Range<usize>) -> (e: Error)
        ensures
            e@ == syntax_v(message@, span.start as int, span.end as int),
    {
        Error { kind: Kind::Syntax, message, span }
    }

    pub(crate) fn lookup(message: String, span: Range<usize>) -> (e: Error)
        ensures
            e@ == lookup_v(message@, span.start as int, span.end as int),
    {
        Error { kind: Kind::Lookup, message, span }
    }

    /// The offending text, given the spec the error came from.
    ///
    /// Returns `""` if handed a different string that the span does not fit, rather than
    /// panicking — an error is a poor place to acquire a second failure mode.
    pub fn snippet<'a>(&self, spec: &'a str) -> (r: &'a str)
        ensures
            fits_text(spec.spec_bytes(), self.span.start as int, self.span.end as int)
                ==> r.spec_bytes() == spec.spec_bytes().subrange(
                self.span.start as int,
                self.span.end as int,
            ),
            !fits_text(spec.spec_bytes(), self.span.start as int, self.span.end as int)
                ==> r@.len() == 0,
    {
        let start = self.span.start;
        let end = self.span.end;
        if start <= end && end <= spec.as_bytes().len() && spec.is_char_boundary(start)
            && spec.is_char_boundary(end) {
            proof {
                broadcast use encode_utf8_valid_utf8;

                lemma_boundary_in_prefix(spec.spec_bytes(), start as int, end as int);
            }
            let (head, _) = spec.split_at(end);
            proof {
                assert(head.spec_bytes() =~= spec.spec_bytes().subrange(0, end as int));
            }
            let (_, piece) = head.split_at(start);
            assert(piece.spec_bytes() =~= spec.spec_bytes().subrange(start as int, end as int));
            piece
        } else {
            proof {
                reveal_strlit("");
            }
            ""
        }
    }
}

/// A result whose error is an [`Error`].
pub type Result<T> = core::result::Result<T, Error>;

} // verus!
