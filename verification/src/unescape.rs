use vstd::prelude::*;
use vstd::utf8::encode_utf8;
use core::ops::Range;
use crate::error::EscapeError;
use crate::mode::Mode;
use crate::scan::scan_escape;
use crate::spec::{
    byte_event, byte_literal, byte_offset, char_literal, chars_fit_in_bytes, scan_escape_spec,
    scan_unicode_digits, skip_whitespace, str_events, with_usize_offset, Event,
};
use crate::text::{advance_offset, literal_chars};

verus! {

/// The events that a vector of unescaped units stands for.
pub open spec fn events_of<T>(v: Seq<(Range<usize>, Result<T, EscapeError>)>) -> Seq<
    (int, int, Result<T, EscapeError>),
> {
    v.map_values(|e: (Range<usize>, Result<T, EscapeError>)| (e.0.start as int, e.0.end as int, e.1))
}

pub proof fn lemma_unicode_digits_no_byte(chars: Seq<char>, i: int, value: nat, n: nat, mode: Mode)
    requires
        !mode.allow_unicode(),
    ensures
        scan_unicode_digits(chars, i, value, n, mode).0 is Err,
    decreases chars.len() - i,
{
    if i < chars.len() {
        lemma_unicode_digits_no_byte(chars, i + 1, value, n, mode);
        match crate::spec::hex_value(chars[i]) {
            Some(d) => lemma_unicode_digits_no_byte(chars, i + 1, value * 16 + d as nat, n + 1, mode),
            None => {},
        }
    }
}

/// Where the literal may not denote characters outside ASCII, every character that
/// scanning gives is ASCII.
pub proof fn lemma_scan_ascii(first: char, chars: Seq<char>, pos: int, mode: Mode)
    requires
        !mode.allow_unicode(),
        0 <= pos <= chars.len(),
    ensures
        scan_escape_spec(first, chars, pos, mode).0 matches Ok(c) ==> c as u32 <= 0x7F,
{
    if first == '\\' && pos < chars.len() && chars[pos] == 'u' && pos + 2 < chars.len() {
        match crate::spec::hex_value(chars[pos + 2]) {
            Some(d) => lemma_unicode_digits_no_byte(chars, pos + 3, d as nat, 1, mode),
            None => {},
        }
    }
}

/// Skips spaces, tabs, line feeds and carriage returns from index `j` on.
fn skip_ascii_whitespace(chars: &[char], j: usize) -> (r: usize)
    requires
        j <= chars@.len(),
    ensures
        r == skip_whitespace(chars@, j as int),
{
    let mut k = j;
    while k < chars.len() && (chars[k] == ' ' || chars[k] == '\t' || chars[k] == '\n' || chars[k]
        == '\r')
        invariant
            j <= k <= chars@.len(),
            skip_whitespace(chars@, j as int) == skip_whitespace(chars@, k as int),
        decreases chars@.len() - k,
    {
        k = k + 1;
    }
    k
}

/// Takes the contents of a string literal (without quotes) and produces the sequence
/// of unescaped characters or errors, each with the byte range of `src` it comes from.
pub fn unescape_str_or_byte_str(src: &str, mode: Mode) -> (out: Vec<
    (Range<usize>, Result<char, EscapeError>),
>)
    ensures
        events_of(out@) == str_events(src@, 0, mode),
{
    let chars_vec = literal_chars(src);
    let chars = chars_vec.as_slice();
    let mut out: Vec<(Range<usize>, Result<char, EscapeError>)> = Vec::new();
    let mut i: usize = 0;
    let mut offset: usize = 0;
    assert(chars@.take(0) =~= Seq::<char>::empty());
    assert(events_of(out@) =~= Seq::<Event>::empty());
    while i < chars.len()
        invariant
            i <= chars@.len(),
            chars@ == src@,
            encode_utf8(chars@).len() <= usize::MAX,
            offset == byte_offset(chars@, i as int),
            events_of(out@) + str_events(chars@, i as int, mode) == str_events(chars@, 0, mode),
        decreases chars@.len() - i,
    {
        let first_char = chars[i];
        let start = offset;
        let next = i + 1;
        proof {
            crate::spec::lemma_str_step_advances(chars@, i as int, mode);
        }
        let (escaped_char, end_index) = if first_char == '\\' {
            let second_char = if next < chars.len() {
                Some(chars[next])
            } else {
                None
            };
            let third_char = if chars.len() - next >= 2 {
                Some(chars[next + 1])
            } else {
                None
            };
            if second_char == Some('\n') || (second_char == Some('\r') && third_char == Some(
                '\n',
            )) {
                let j = skip_ascii_whitespace(chars, next);
                offset = advance_offset(chars, i, j, offset);
                assert(str_events(chars@, i as int, mode) == str_events(chars@, j as int, mode));
                i = j;
                continue ;
            }
            scan_escape(first_char, chars, next, mode)
        } else if first_char == '\n' {
            (Ok('\n'), next)
        } else if first_char == '\r' {
            if next < chars.len() && chars[next] == '\n' {
                (Ok('\n'), next + 1)
            } else {
                scan_escape(first_char, chars, next, mode)
            }
        } else {
            scan_escape(first_char, chars, next, mode)
        };
        let end = advance_offset(chars, i, end_index, offset);
        let ghost old_events = events_of(out@);
        out.push((start..end, escaped_char));
        assert(events_of(out@) =~= old_events.push(
            (byte_offset(chars@, i as int) as int, byte_offset(chars@, end_index as int) as int, escaped_char),
        ));
        assert(events_of(out@) + str_events(chars@, end_index as int, mode) =~= old_events
            + str_events(chars@, i as int, mode));
        offset = end;
        i = end_index;
    }
    out
}

/// Takes the contents of a string literal (without quotes) and produces the sequence
/// of unescaped characters or errors, each with its byte range in `literal_text`.
pub fn unescape_str(literal_text: &str) -> (out: Vec<(Range<usize>, Result<char, EscapeError>)>)
    ensures
        events_of(out@) == str_events(literal_text@, 0, Mode::Str),
{
    unescape_str_or_byte_str(literal_text, Mode::Str)
}

/// The byte that a character of a byte literal stands for.
pub fn byte_from_char(c: char) -> (b: u8)
    requires
        c as u32 <= 0xFF,
    ensures
        b == c as u8,
{
    let res = c as u32;
    res as u8
}

/// Takes the contents of a byte-string literal (without quotes) and produces the
/// sequence of unescaped bytes or errors, each with its byte range in `literal_text`,
/// up to the first character that does not fit in a byte. The contents are read as
/// those of a string literal. The flag tells whether every unit was produced, that is
/// whether every character the contents give fits in a byte.
pub fn unescape_byte_str_checked(literal_text: &str) -> (out: (
    Vec<(Range<usize>, Result<u8, EscapeError>)>,
    bool,
))
    ensures
        ({
            let events = str_events(literal_text@, 0, Mode::Str);
            let n = out.0@.len() as int;
            &&& n <= events.len()
            &&& events_of(out.0@) == events.take(n).map_values(|e: Event| byte_event(e))
            &&& chars_fit_in_bytes(events.take(n))
            &&& out.1 == chars_fit_in_bytes(events)
            &&& out.1 ==> n == events.len()
            &&& !out.1 ==> (events[n].2 matches Ok(c) && c as u32 > 0xFF)
        }),
{
    let units = unescape_str_or_byte_str(literal_text, Mode::Str);
    let ghost events = str_events(literal_text@, 0, Mode::Str);
    let mut out: Vec<(Range<usize>, Result<u8, EscapeError>)> = Vec::new();
    let mut k: usize = 0;
    assert(events.take(0) =~= Seq::<Event>::empty());
    assert(events_of(out@) =~= Seq::<(int, int, Result<u8, EscapeError>)>::empty());
    while k < units.len()
        invariant
            k <= units@.len(),
            events_of(units@) == events,
            events_of(out@) == events.take(k as int).map_values(|e: Event| byte_event(e)),
            out@.len() == k,
            chars_fit_in_bytes(events.take(k as int)),
            events == str_events(literal_text@, 0, Mode::Str),
        decreases units@.len() - k,
    {
        let (range, res) = &units[k];
        assert(events[k as int] == (range.start as int, range.end as int, *res));
        let wide = match res {
            Ok(c) => *c as u32 > 0xFF,
            Err(_) => false,
        };
        if wide {
            proof {
                assert(events_of(units@).len() == units@.len());
                assert(events[k as int].2 matches Ok(c) && c as u32 > 0xFF);
                assert(!chars_fit_in_bytes(events));
            }
            return (out, false);
        }
        let byte_res = match res {
            Ok(c) => Ok(byte_from_char(*c)),
            Err(e) => Err(*e),
        };
        let ghost before = events_of(out@);
        out.push((range.start..range.end, byte_res));
        assert(byte_event(events[k as int]) == (range.start as int, range.end as int, byte_res));
        assert(events_of(out@) =~= before.push(byte_event(events[k as int])));
        assert(events.take(k + 1) =~= events.take(k as int).push(events[k as int]));
        assert(events_of(out@) =~= events.take(k as int + 1).map_values(|e: Event| byte_event(e)));
        assert(chars_fit_in_bytes(events.take(k + 1))) by {
            assert forall|j: int| 0 <= j < k + 1 implies ((#[trigger] events.take(k + 1)[j]).2 matches Ok(
                c,
            ) ==> c as u32 <= 0xFF) by {
                if j < k {
                    assert(events.take(k + 1)[j] == events.take(k as int)[j]);
                }
            }
        }
        k = k + 1;
    }
    assert(events.take(units@.len() as int) =~= events);
    (out, true)
}

/// Takes the contents of a byte-string literal (without quotes) and produces the
/// sequence of unescaped bytes or errors, each with its byte range in `literal_text`.
/// The contents are read as those of a string literal; every character they give
/// must fit in a byte (`unescape_byte_str_checked` tells whether they do).
pub fn unescape_byte_str(literal_text: &str) -> (out: Vec<(Range<usize>, Result<u8, EscapeError>)>)
    requires
        chars_fit_in_bytes(str_events(literal_text@, 0, Mode::Str)),
    ensures
        events_of(out@) == str_events(literal_text@, 0, Mode::Str).map_values(
            |e: Event| byte_event(e),
        ),
{
    let (out, complete) = unescape_byte_str_checked(literal_text);
    assert(str_events(literal_text@, 0, Mode::Str).take(out@.len() as int) =~= str_events(
        literal_text@,
        0,
        Mode::Str,
    ));
    out
}

/// Takes the contents of a char literal (without quotes) and returns the character it
/// stands for, or the error with the byte offset at which it was found.
pub fn unescape_char(literal_text: &str) -> (r: Result<char, (usize, EscapeError)>)
    ensures
        r == with_usize_offset(char_literal(literal_text@, Mode::Char)),
        r matches Err((o, _)) ==> o <= encode_utf8(literal_text@).len(),
{
    unescape_single(literal_text, Mode::Char)
}

/// Takes the contents of a byte literal (without quotes) and returns the byte it
/// stands for, or the error with the byte offset at which it was found.
pub fn unescape_byte(literal_text: &str) -> (r: Result<u8, (usize, EscapeError)>)
    ensures
        r == with_usize_offset(byte_literal(literal_text@)),
        r matches Err((o, _)) ==> o <= encode_utf8(literal_text@).len(),
{
    proof {
        if literal_text@.len() > 0 {
            lemma_scan_ascii(literal_text@[0], literal_text@, 1, Mode::Byte);
        }
    }
    match unescape_single(literal_text, Mode::Byte) {
        Ok(c) => Ok(byte_from_char(c)),
        Err(e) => Err(e),
    }
}

/// The single character of a char or byte literal.
fn unescape_single(literal_text: &str, mode: Mode) -> (r: Result<char, (usize, EscapeError)>)
    ensures
        r == with_usize_offset(char_literal(literal_text@, mode)),
        r matches Err((o, _)) ==> o <= encode_utf8(literal_text@).len(),
{
    let chars_vec = literal_chars(literal_text);
    let chars = chars_vec.as_slice();
    if chars.len() == 0 {
        return Err((0, EscapeError::ZeroChars));
    }
    let (res, p) = scan_escape(chars[0], chars, 1, mode);
    proof {
        crate::spec::lemma_scan_bounds(chars@[0], chars@, 1, mode);
        assert(chars@.take(0) =~= Seq::<char>::empty());
    }
    match res {
        Err(e) => {
            let off = advance_offset(chars, 0, p, 0);
            proof {
                crate::text::lemma_byte_offset_mono(chars@, p as int, chars@.len() as int);
            }
            Err((off, e))
        },
        Ok(c) => if p < chars.len() {
            let off = advance_offset(chars, 0, p + 1, 0);
            proof {
                crate::text::lemma_byte_offset_mono(chars@, p as int + 1, chars@.len() as int);
            }
            Err((off, EscapeError::MoreThanOneChar))
        } else {
            Ok(c)
        },
    }
}

} // verus!
