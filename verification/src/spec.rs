use vstd::prelude::*;
use vstd::utf8::*;
use crate::error::EscapeError;
use crate::mode::Mode;

verus! {

/// Number of bytes in the UTF-8 encoding of `c`.
pub open spec fn char_width(c: char) -> nat {
    let v = c as u32;
    if v <= 0x7F {
        1
    } else if v <= 0x7FF {
        2
    } else if v <= 0xFFFF {
        3
    } else {
        4
    }
}

/// Byte offset, in the UTF-8 encoding of `chars`, of the character with index `k`
/// (the length of the encoding of the first `k` characters).
pub open spec fn byte_offset(chars: Seq<char>, k: int) -> nat {
    encode_utf8(chars.take(k)).len()
}

/// The value of `c` read as a hexadecimal digit, if it is one.
pub open spec fn hex_value(c: char) -> Option<u32> {
    let v = c as u32;
    if '0' as u32 <= v <= '9' as u32 {
        Some((v - '0' as u32) as u32)
    } else if 'a' as u32 <= v <= 'f' as u32 {
        Some((v - 'a' as u32 + 10) as u32)
    } else if 'A' as u32 <= v <= 'F' as u32 {
        Some((v - 'A' as u32 + 10) as u32)
    } else {
        None
    }
}

/// Whether `v` is a Unicode scalar value, i.e. the code of some `char`.
pub open spec fn is_char_value(v: nat) -> bool {
    v <= 0x10FFFF && !(0xD800 <= v <= 0xDFFF)
}

/// The character that a backslash followed by `c` stands for, where that is a
/// one-character escape.
pub open spec fn simple_escape(c: char) -> Option<char> {
    if c == '"' {
        Some('"')
    } else if c == 'n' {
        Some('\n')
    } else if c == 'r' {
        Some('\r')
    } else if c == 't' {
        Some('\t')
    } else if c == '\\' {
        Some('\\')
    } else if c == '\'' {
        Some('\'')
    } else if c == '0' {
        Some('\0')
    } else {
        None
    }
}

/// Outcome of scanning one (possibly escaped) character: the character or the
/// error, and the index of the first character that the scan did not read.
pub type Scanned = (Result<char, EscapeError>, int);

/// The digits of a `\u{..}` escape from index `i` on, where `value` is the value of
/// the `n_digits` digits read so far.
pub open spec fn scan_unicode_digits(
    chars: Seq<char>,
    i: int,
    value: nat,
    n_digits: nat,
    mode: Mode,
) -> Scanned
    decreases chars.len() - i,
{
    if i >= chars.len() {
        (Err(EscapeError::UnclosedUnicodeEscape), i)
    } else if chars[i] == '_' {
        scan_unicode_digits(chars, i + 1, value, n_digits, mode)
    } else if chars[i] == '}' {
        if !mode.allow_unicode() {
            (Err(EscapeError::UnicodeEscapeInByte), i + 1)
        } else if is_char_value(value) {
            (Ok(value as char), i + 1)
        } else if value > 0x10FFFF {
            (Err(EscapeError::OutOfRangeUnicodeEscape), i + 1)
        } else {
            (Err(EscapeError::LoneSurrogateUnicodeEscape), i + 1)
        }
    } else {
        match hex_value(chars[i]) {
            None => (Err(EscapeError::InvalidCharInUnicodeEscape), i + 1),
            Some(d) => if n_digits + 1 > 6 {
                (Err(EscapeError::OverlongUnicodeEscape), i + 1)
            } else {
                scan_unicode_digits(chars, i + 1, value * 16 + d as nat, n_digits + 1, mode)
            },
        }
    }
}

/// A `\u` escape whose `u` stands just before index `i`.
pub open spec fn scan_unicode(chars: Seq<char>, i: int, mode: Mode) -> Scanned {
    if i >= chars.len() {
        (Err(EscapeError::InvalidUnicodeEscape), i)
    } else if chars[i] != '{' {
        (Err(EscapeError::InvalidUnicodeEscape), i + 1)
    } else if i + 1 >= chars.len() {
        (Err(EscapeError::UnclosedUnicodeEscape), i + 1)
    } else if chars[i + 1] == '_' {
        (Err(EscapeError::LeadingUnderscoreUnicodeEscape), i + 2)
    } else if chars[i + 1] == '}' {
        (Err(EscapeError::EmptyUnicodeEscape), i + 2)
    } else {
        match hex_value(chars[i + 1]) {
            None => (Err(EscapeError::InvalidCharInUnicodeEscape), i + 2),
            Some(d) => scan_unicode_digits(chars, i + 2, d as nat, 1, mode),
        }
    }
}

/// A `\x` escape whose `x` stands just before index `i`.
pub open spec fn scan_hex(chars: Seq<char>, i: int) -> Scanned {
    if i >= chars.len() {
        (Err(EscapeError::TooShortHexEscape), i)
    } else {
        match hex_value(chars[i]) {
            None => (Err(EscapeError::InvalidCharInHexEscape), i + 1),
            Some(hi) => if i + 1 >= chars.len() {
                (Err(EscapeError::TooShortHexEscape), i + 1)
            } else {
                match hex_value(chars[i + 1]) {
                    None => (Err(EscapeError::InvalidCharInHexEscape), i + 2),
                    Some(lo) => if hi * 16 + lo > 0x7F {
                        (Err(EscapeError::OutOfRangeHexEscape), i + 2)
                    } else {
                        (Ok((hi * 16 + lo) as char), i + 2)
                    },
                }
            },
        }
    }
}

/// One character of a literal: `first` has been read, and `pos` is the index of
/// the character after it.
pub open spec fn scan_escape_spec(first: char, chars: Seq<char>, pos: int, mode: Mode) -> Scanned {
    if first != '\\' {
        let r = if first == '\t' || first == '\n' {
            Err(EscapeError::EscapeOnlyChar)
        } else if first == '\r' {
            if pos < chars.len() && chars[pos] == '\n' {
                Err(EscapeError::EscapeOnlyChar)
            } else {
                Err(EscapeError::BareCarriageReturn)
            }
        } else if first == '\'' && mode.in_single_quotes() {
            Err(EscapeError::EscapeOnlyChar)
        } else if first == '"' && mode.in_double_quotes() {
            Err(EscapeError::EscapeOnlyChar)
        } else if !mode.allow_unicode() && first as u32 > 0x7F {
            Err(EscapeError::NonAsciiCharInByte)
        } else {
            Ok(first)
        };
        (r, pos)
    } else if pos >= chars.len() {
        (Err(EscapeError::LoneSlash), pos)
    } else if chars[pos] == 'x' {
        scan_hex(chars, pos + 1)
    } else if chars[pos] == 'u' {
        scan_unicode(chars, pos + 1, mode)
    } else {
        match simple_escape(chars[pos]) {
            Some(c) => (Ok(c), pos + 1),
            None => (Err(EscapeError::InvalidEscape), pos + 1),
        }
    }
}

} // verus!

verus! {

/// Characters skipped after a backslash that ends a line.
pub open spec fn is_skipped_whitespace(c: char) -> bool {
    c == ' ' || c == '\t' || c == '\n' || c == '\r'
}

/// Index of the first character at or after `j` that is not skipped whitespace
/// (the length of `chars` when there is none).
pub open spec fn skip_whitespace(chars: Seq<char>, j: int) -> int
    decreases chars.len() - j,
{
    if j >= chars.len() {
        j
    } else if is_skipped_whitespace(chars[j]) {
        skip_whitespace(chars, j + 1)
    } else {
        j
    }
}

/// Whether the character at `i` is a backslash that ends its line: it is followed by a
/// line feed, or by a carriage return and a line feed.
pub open spec fn is_line_continuation(chars: Seq<char>, i: int) -> bool {
    &&& chars[i] == '\\'
    &&& i + 1 < chars.len()
    &&& (chars[i + 1] == '\n' || (chars[i + 1] == '\r' && i + 2 < chars.len() && chars[i + 2]
        == '\n'))
}

/// One step through the contents of a string literal, from the character at `i`: what
/// it yields (nothing for a line continuation) and the index where the next step starts.
pub open spec fn str_step(chars: Seq<char>, i: int, mode: Mode) -> (
    Option<Result<char, EscapeError>>,
    int,
) {
    if is_line_continuation(chars, i) {
        (None, skip_whitespace(chars, i + 1))
    } else if chars[i] == '\n' {
        (Some(Ok('\n')), i + 1)
    } else if chars[i] == '\r' && i + 1 < chars.len() && chars[i + 1] == '\n' {
        (Some(Ok('\n')), i + 2)
    } else {
        let (r, j) = scan_escape_spec(chars[i], chars, i + 1, mode);
        (Some(r), j)
    }
}

/// An unescaped unit of a string literal: the byte range of the source it was read
/// from, and the character or the error it gives.
pub type Event = (int, int, Result<char, EscapeError>);

/// What unescaping the contents of a string literal yields, from character index `i`
/// on: one event per step that yields something, in order.
pub open spec fn str_events(chars: Seq<char>, i: int, mode: Mode) -> Seq<Event>
    decreases chars.len() - i,
{
    if i < 0 || i >= chars.len() {
        Seq::empty()
    } else {
        let (r, j) = str_step(chars, i, mode);
        proof {
            lemma_str_step_advances(chars, i, mode);
        }
        let head: Seq<Event> = match r {
            Some(res) => seq![(byte_offset(chars, i) as int, byte_offset(chars, j) as int, res)],
            None => Seq::empty(),
        };
        head + str_events(chars, j, mode)
    }
}

/// What unescaping the contents of a char (or byte, by `mode`) literal gives: the
/// character, or the error with the byte offset at which it was found.
pub open spec fn char_literal(chars: Seq<char>, mode: Mode) -> Result<char, (int, EscapeError)> {
    if chars.len() == 0 {
        Err((0, EscapeError::ZeroChars))
    } else {
        let (r, p) = scan_escape_spec(chars[0], chars, 1, mode);
        match r {
            Err(e) => Err((byte_offset(chars, p) as int, e)),
            Ok(c) => if p < chars.len() {
                Err((byte_offset(chars, p + 1) as int, EscapeError::MoreThanOneChar))
            } else {
                Ok(c)
            },
        }
    }
}

/// What unescaping the contents of a byte literal gives.
pub open spec fn byte_literal(chars: Seq<char>) -> Result<u8, (int, EscapeError)> {
    match char_literal(chars, Mode::Byte) {
        Ok(c) => Ok(c as u8),
        Err(e) => Err(e),
    }
}

/// A result whose error offset is given as a `usize`.
pub open spec fn with_usize_offset<T>(r: Result<T, (int, EscapeError)>) -> Result<T, (usize, EscapeError)> {
    match r {
        Ok(v) => Ok(v),
        Err((o, e)) => Err((o as usize, e)),
    }
}

/// The event that a byte-string literal yields for `e`: a character becomes its byte.
pub open spec fn byte_event(e: Event) -> (int, int, Result<u8, EscapeError>) {
    (
        e.0,
        e.1,
        match e.2 {
            Ok(c) => Ok(c as u8),
            Err(err) => Err(err),
        },
    )
}

/// Whether every character among `events` fits in a byte.
pub open spec fn chars_fit_in_bytes(events: Seq<Event>) -> bool {
    forall|k: int| 0 <= k < events.len() ==> ((#[trigger] events[k]).2 matches Ok(c) ==> c as u32 <= 0xFF)
}

/// Scanning never reads before `pos` or past the end.
pub proof fn lemma_scan_bounds(first: char, chars: Seq<char>, pos: int, mode: Mode)
    requires
        0 <= pos <= chars.len(),
    ensures
        pos <= scan_escape_spec(first, chars, pos, mode).1 <= chars.len(),
{
    if first == '\\' && pos < chars.len() && chars[pos] == 'u' && pos + 2 < chars.len() {
        match hex_value(chars[pos + 2]) {
            Some(d) => lemma_unicode_digits_bounds(chars, pos + 3, d as nat, 1, mode),
            None => {},
        }
    }
}

proof fn lemma_unicode_digits_bounds(chars: Seq<char>, i: int, value: nat, n: nat, mode: Mode)
    requires
        0 <= i <= chars.len(),
    ensures
        i <= scan_unicode_digits(chars, i, value, n, mode).1 <= chars.len(),
    decreases chars.len() - i,
{
    if i < chars.len() {
        lemma_unicode_digits_bounds(chars, i + 1, value, n, mode);
        match hex_value(chars[i]) {
            Some(d) => lemma_unicode_digits_bounds(chars, i + 1, value * 16 + d as nat, n + 1, mode),
            None => {},
        }
    }
}

proof fn lemma_skip_whitespace_bounds(chars: Seq<char>, j: int)
    requires
        0 <= j <= chars.len(),
    ensures
        j <= skip_whitespace(chars, j) <= chars.len(),
    decreases chars.len() - j,
{
    if j < chars.len() {
        lemma_skip_whitespace_bounds(chars, j + 1);
    }
}

/// Each step moves forward by at least one character, and stays within the text.
pub proof fn lemma_str_step_advances(chars: Seq<char>, i: int, mode: Mode)
    requires
        0 <= i < chars.len(),
    ensures
        i < str_step(chars, i, mode).1 <= chars.len(),
{
    lemma_scan_bounds(chars[i], chars, i + 1, mode);
    lemma_skip_whitespace_bounds(chars, i + 1);
}

} // verus!
