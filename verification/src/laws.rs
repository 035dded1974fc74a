use vstd::prelude::*;
use vstd::utf8::encode_utf8;
use crate::error::EscapeError;
use crate::mode::Mode;
use crate::spec::{
    byte_literal, byte_offset, char_literal, char_width, hex_value, is_skipped_whitespace,
    lemma_str_step_advances, scan_escape_spec, scan_unicode_digits, skip_whitespace, str_events,
    str_step, Event,
};
use crate::unescape::{lemma_scan_ascii, lemma_unicode_digits_no_byte};
use crate::text::{
    lemma_byte_offset_mono, lemma_byte_offset_step, lemma_encode_char_len, lemma_encode_utf8_concat,
};

verus! {

/// Byte offsets grow strictly with the character index.
proof fn lemma_byte_offset_strict(chars: Seq<char>, i: int, j: int)
    requires
        0 <= i < j <= chars.len(),
    ensures
        byte_offset(chars, i) < byte_offset(chars, j),
{
    lemma_byte_offset_step(chars, i);
    lemma_byte_offset_mono(chars, i + 1, j);
}

proof fn lemma_events_ordered_from(chars: Seq<char>, i: int, mode: Mode)
    requires
        0 <= i <= chars.len(),
    ensures
        forall|k: int|
            0 <= k < str_events(chars, i, mode).len() ==> {
                let e = #[trigger] str_events(chars, i, mode)[k];
                byte_offset(chars, i) <= e.0 < e.1 <= encode_utf8(chars).len()
            },
        forall|j: int, k: int|
            0 <= j < k < str_events(chars, i, mode).len() ==> (#[trigger] str_events(
                chars,
                i,
                mode,
            )[j]).1 <= (#[trigger] str_events(chars, i, mode)[k]).0,
    decreases chars.len() - i,
{
    if i < chars.len() {
        let (r, j) = str_step(chars, i, mode);
        lemma_str_step_advances(chars, i, mode);
        lemma_events_ordered_from(chars, j, mode);
        lemma_byte_offset_strict(chars, i, j);
        lemma_byte_offset_mono(chars, j, chars.len() as int);
        let rest = str_events(chars, j, mode);
        let all = str_events(chars, i, mode);
        match r {
            Some(res) => {
                let head: Seq<Event> = seq![
                    (byte_offset(chars, i) as int, byte_offset(chars, j) as int, res),
                ];
                assert(all == head + rest);
                assert forall|k: int| 1 <= k < all.len() implies all[k] == rest[k - 1] by {}
            },
            None => {
                assert(all =~= rest);
            },
        }
    }
}

/// The byte ranges that unescaping a string literal's contents reports are non-empty,
/// lie within the contents, and come in order without overlapping.
pub proof fn law_str_ranges_ordered(chars: Seq<char>, mode: Mode)
    ensures
        forall|k: int|
            0 <= k < str_events(chars, 0, mode).len() ==> {
                let e = #[trigger] str_events(chars, 0, mode)[k];
                0 <= e.0 < e.1 <= encode_utf8(chars).len()
            },
        forall|j: int, k: int|
            0 <= j < k < str_events(chars, 0, mode).len() ==> (#[trigger] str_events(
                chars,
                0,
                mode,
            )[j]).1 <= (#[trigger] str_events(chars, 0, mode)[k]).0,
{
    lemma_events_ordered_from(chars, 0, mode);
}


/// Where scanning in a byte literal succeeds, scanning in a char literal reads the
/// same characters and gives the same result.
proof fn lemma_scan_byte_is_char(first: char, chars: Seq<char>, pos: int)
    requires
        0 <= pos <= chars.len(),
        scan_escape_spec(first, chars, pos, Mode::Byte).0 is Ok,
    ensures
        scan_escape_spec(first, chars, pos, Mode::Char) == scan_escape_spec(first, chars, pos, Mode::Byte),
{
    if first == '\\' && pos < chars.len() && chars[pos] == 'u' && pos + 2 < chars.len() {
        match hex_value(chars[pos + 2]) {
            Some(d) => lemma_unicode_digits_no_byte(chars, pos + 3, d as nat, 1, Mode::Byte),
            None => {},
        }
    }
}

/// Every byte literal that is accepted is also accepted as a char literal, and
/// stands for the character with the byte's value.
pub proof fn law_byte_literal_is_char_literal(chars: Seq<char>)
    ensures
        byte_literal(chars) matches Ok(b) ==> char_literal(chars, Mode::Char) == Ok::<char, (int, EscapeError)>(b as char),
{
    if chars.len() > 0 && scan_escape_spec(chars[0], chars, 1, Mode::Byte).0 is Ok {
        lemma_scan_byte_is_char(chars[0], chars, 1);
        lemma_scan_ascii(chars[0], chars, 1, Mode::Byte);
        let c = scan_escape_spec(chars[0], chars, 1, Mode::Byte).0->Ok_0;
        assert(c as u32 <= 0x7F);
        assert((c as u8) as char == c) by {
            vstd::utf8::char_u32_cast(c, c as u32);
        }
    }
}

proof fn lemma_ascii_char_as_byte(c: char)
    requires
        c as u32 <= 0x7F,
    ensures
        c as u8 <= 0x7F,
{
    assert((c as u32) as u8 == c as u8);
}

/// A byte literal that is accepted stands for an ASCII byte.
pub proof fn law_byte_literal_ascii(chars: Seq<char>)
    ensures
        byte_literal(chars) matches Ok(b) ==> b <= 0x7F,
{
    if chars.len() > 0 {
        lemma_scan_ascii(chars[0], chars, 1, Mode::Byte);
        let r = scan_escape_spec(chars[0], chars, 1, Mode::Byte).0;
        if r is Ok {
            let c = r->Ok_0;
            lemma_ascii_char_as_byte(c);
        }
    }
}

/// A char literal holding one character that needs no escape (anything but a
/// backslash, a line feed, a carriage return, a tab or a single quote) stands for that
/// character; so does a byte literal, where the character is ASCII.
pub proof fn law_plain_char_literal(c: char)
    requires
        c != '\\' && c != '\n' && c != '\r' && c != '\t' && c != '\'',
    ensures
        char_literal(seq![c], Mode::Char) == Ok::<char, (int, EscapeError)>(c),
        c as u32 <= 0x7F ==> byte_literal(seq![c]) == Ok::<u8, (int, EscapeError)>(c as u8),
{
}

/// A character that stands for itself in the contents of a string literal.
pub open spec fn is_plain_str_char(c: char) -> bool {
    c != '\\' && c != '\r' && c != '\t' && c != '"'
}

proof fn lemma_plain_str_from(chars: Seq<char>, i: int)
    requires
        0 <= i <= chars.len(),
        forall|k: int| 0 <= k < chars.len() ==> is_plain_str_char(#[trigger] chars[k]),
    ensures
        str_events(chars, i, Mode::Str) == Seq::new(
            (chars.len() - i) as nat,
            |k: int| (byte_offset(chars, i + k) as int, byte_offset(chars, i + k + 1) as int, Ok::<char, EscapeError>(chars[i + k])),
        ),
    decreases chars.len() - i,
{
    if i < chars.len() {
        lemma_plain_str_from(chars, i + 1);
        assert(is_plain_str_char(chars[i]));
        assert(str_events(chars, i, Mode::Str) =~= Seq::new(
            (chars.len() - i) as nat,
            |k: int| (byte_offset(chars, i + k) as int, byte_offset(chars, i + k + 1) as int, Ok::<char, EscapeError>(chars[i + k])),
        ));
    } else {
        assert(str_events(chars, i, Mode::Str) =~= Seq::<Event>::empty());
    }
}

/// The contents of a string literal with no backslash, carriage return, tab or double
/// quote stand for themselves: every character gives itself, with its own byte range.
pub proof fn law_plain_str(chars: Seq<char>)
    requires
        forall|k: int| 0 <= k < chars.len() ==> is_plain_str_char(#[trigger] chars[k]),
    ensures
        str_events(chars, 0, Mode::Str) == Seq::new(
            chars.len(),
            |k: int| (byte_offset(chars, k) as int, byte_offset(chars, k + 1) as int, Ok::<char, EscapeError>(chars[k])),
        ),
{
    lemma_plain_str_from(chars, 0);
    assert(str_events(chars, 0, Mode::Str) =~= Seq::new(
        chars.len(),
        |k: int| (byte_offset(chars, k) as int, byte_offset(chars, k + 1) as int, Ok::<char, EscapeError>(chars[k])),
    ));
}


/// `events` with every byte range moved `k` bytes to the right.
pub open spec fn shift_events(events: Seq<Event>, k: int) -> Seq<Event> {
    events.map_values(|e: Event| (e.0 + k, e.1 + k, e.2))
}

proof fn lemma_digits_shift(p: Seq<char>, b: Seq<char>, i: int, value: nat, n: nat, mode: Mode)
    requires
        0 <= i,
    ensures
        scan_unicode_digits(p + b, p.len() + i, value, n, mode) == (
            scan_unicode_digits(b, i, value, n, mode).0,
            scan_unicode_digits(b, i, value, n, mode).1 + p.len(),
        ),
    decreases b.len() - i,
{
    if i < b.len() {
        assert((p + b)[p.len() + i] == b[i]);
        lemma_digits_shift(p, b, i + 1, value, n, mode);
        match hex_value(b[i]) {
            Some(d) => lemma_digits_shift(p, b, i + 1, value * 16 + d as nat, n + 1, mode),
            None => {},
        }
    }
}

proof fn lemma_scan_shift(first: char, p: Seq<char>, b: Seq<char>, pos: int, mode: Mode)
    requires
        0 <= pos,
    ensures
        scan_escape_spec(first, p + b, p.len() + pos, mode) == (
            scan_escape_spec(first, b, pos, mode).0,
            scan_escape_spec(first, b, pos, mode).1 + p.len(),
        ),
{
    let t = p + b;
    let q = p.len() + pos;
    if pos < b.len() {
        assert(t[q] == b[pos]);
    }
    if pos + 1 < b.len() {
        assert(t[q + 1] == b[pos + 1]);
    }
    if pos + 2 < b.len() {
        assert(t[q + 2] == b[pos + 2]);
        match hex_value(b[pos + 2]) {
            Some(d) => lemma_digits_shift(p, b, pos + 3, d as nat, 1, mode),
            None => {},
        }
    }
}

proof fn lemma_skip_shift(p: Seq<char>, b: Seq<char>, j: int)
    requires
        0 <= j,
    ensures
        skip_whitespace(p + b, p.len() + j) == skip_whitespace(b, j) + p.len(),
    decreases b.len() - j,
{
    if j < b.len() {
        assert((p + b)[p.len() + j] == b[j]);
        lemma_skip_shift(p, b, j + 1);
    }
}

proof fn lemma_step_shift(p: Seq<char>, b: Seq<char>, i: int, mode: Mode)
    requires
        0 <= i < b.len(),
    ensures
        str_step(p + b, p.len() + i, mode) == (
            str_step(b, i, mode).0,
            str_step(b, i, mode).1 + p.len(),
        ),
{
    let t = p + b;
    let q = p.len() + i;
    assert(t[q] == b[i]);
    if i + 1 < b.len() {
        assert(t[q + 1] == b[i + 1]);
    }
    if i + 2 < b.len() {
        assert(t[q + 2] == b[i + 2]);
    }
    lemma_scan_shift(b[i], p, b, i + 1, mode);
    lemma_skip_shift(p, b, i + 1);
}

pub proof fn lemma_offset_shift(p: Seq<char>, b: Seq<char>, k: int)
    requires
        0 <= k <= b.len(),
    ensures
        byte_offset(p + b, p.len() + k) == encode_utf8(p).len() + byte_offset(b, k),
{
    assert((p + b).take(p.len() + k) =~= p + b.take(k));
    lemma_encode_utf8_concat(p, b.take(k));
}

/// What the contents of a string literal give after a prefix `p` does not depend on
/// `p`: the same units, with their byte ranges moved by the length of `p`'s encoding.
pub proof fn lemma_events_shift(p: Seq<char>, b: Seq<char>, i: int, mode: Mode)
    requires
        0 <= i <= b.len(),
    ensures
        str_events(p + b, p.len() + i, mode) == shift_events(
            str_events(b, i, mode),
            encode_utf8(p).len() as int,
        ),
    decreases b.len() - i,
{
    let t = p + b;
    let k = encode_utf8(p).len() as int;
    if i == b.len() {
        assert(str_events(t, p.len() + i, mode) =~= Seq::<Event>::empty());
        assert(shift_events(str_events(b, i, mode), k) =~= Seq::<Event>::empty());
    } else {
        let (r, j) = str_step(b, i, mode);
        lemma_str_step_advances(b, i, mode);
        lemma_step_shift(p, b, i, mode);
        lemma_events_shift(p, b, j, mode);
        lemma_offset_shift(p, b, i);
        lemma_offset_shift(p, b, j);
        let rest = str_events(b, j, mode);
        match r {
            Some(res) => {
                let head: Seq<Event> = seq![
                    (byte_offset(b, i) as int, byte_offset(b, j) as int, res),
                ];
                assert(str_events(b, i, mode) == head + rest);
                assert(shift_events(head + rest, k) =~= shift_events(head, k) + shift_events(
                    rest,
                    k,
                ));
            },
            None => {
                assert(str_events(b, i, mode) =~= rest);
                assert(str_events(t, p.len() + i, mode) =~= str_events(t, p.len() + j, mode));
            },
        }
    }
}

/// Text free of backslashes and carriage returns: each of its characters is a step of
/// its own that looks at nothing after it.
pub open spec fn no_escape_or_cr(a: Seq<char>) -> bool {
    forall|k: int| 0 <= k < a.len() ==> (#[trigger] a[k]) != '\\' && a[k] != '\r'
}

proof fn lemma_plain_prefix(a: Seq<char>, r: Seq<char>, i: int, mode: Mode)
    requires
        0 <= i <= a.len(),
        no_escape_or_cr(a),
    ensures
        str_events(a + r, i, mode) == str_events(a, i, mode) + str_events(a + r, a.len() as int, mode),
    decreases a.len() - i,
{
    let t = a + r;
    if i == a.len() {
        assert(str_events(a, i, mode) =~= Seq::<Event>::empty());
        assert(str_events(t, i, mode) =~= Seq::<Event>::empty() + str_events(t, i, mode));
    } else {
        assert(t[i] == a[i]);
        assert(a[i] != '\\' && a[i] != '\r');
        assert(str_step(t, i, mode) == str_step(a, i, mode));
        assert(str_step(a, i, mode).1 == i + 1);
        lemma_plain_prefix(a, r, i + 1, mode);
        assert(t.take(i) =~= a.take(i));
        assert(t.take(i + 1) =~= a.take(i + 1));
        let tail = str_events(t, a.len() as int, mode);
        let res = str_step(a, i, mode).0->Some_0;
        let head: Seq<Event> = seq![
            (byte_offset(a, i) as int, byte_offset(a, i + 1) as int, res),
        ];
        assert(str_events(a, i, mode) == head + str_events(a, i + 1, mode));
        assert(str_events(t, i, mode) == head + str_events(t, i + 1, mode));
        assert(head + (str_events(a, i + 1, mode) + tail) =~= (head + str_events(a, i + 1, mode))
            + tail);
    }
}

/// Text made only of ASCII characters encodes to one byte per character.
pub proof fn lemma_ascii_len(s: Seq<char>)
    requires
        forall|k: int| 0 <= k < s.len() ==> (#[trigger] s[k]) as u32 <= 0x7F,
    ensures
        encode_utf8(s).len() == s.len(),
    decreases s.len(),
{
    if s.len() > 0 {
        assert(forall|k: int| 0 <= k < s.drop_first().len() ==> s.drop_first()[k] == s[k + 1]);
        lemma_ascii_len(s.drop_first());
    }
}

proof fn lemma_skip_run(s: Seq<char>, j: int, e: int)
    requires
        0 <= j <= e <= s.len(),
        forall|k: int| j <= k < e ==> is_skipped_whitespace(#[trigger] s[k]),
        e < s.len() ==> !is_skipped_whitespace(s[e]),
    ensures
        skip_whitespace(s, j) == e,
    decreases e - j,
{
    if j < e {
        lemma_skip_run(s, j + 1, e);
    }
}

/// A backslash that ends its line (followed by a line feed, or a carriage return and a
/// line feed), with the whitespace after it, gives nothing: the contents split there
/// into what comes before and what comes after, whose byte ranges are moved by the
/// bytes before them.
pub proof fn law_str_line_continuation(
    a: Seq<char>,
    nl: Seq<char>,
    w: Seq<char>,
    b: Seq<char>,
    mode: Mode,
)
    requires
        no_escape_or_cr(a),
        nl == seq!['\n'] || nl == seq!['\r', '\n'],
        forall|k: int|
            0 <= k < w.len() ==> (#[trigger] w[k] == ' ' || w[k] == '\t' || w[k] == '\n' || w[k]
                == '\r'),
        b.len() > 0 ==> b[0] != ' ' && b[0] != '\t' && b[0] != '\n' && b[0] != '\r',
    ensures
        str_events(a + seq!['\\'] + nl + w + b, 0, mode) == str_events(a, 0, mode)
            + shift_events(
            str_events(b, 0, mode),
            (encode_utf8(a).len() + 1 + nl.len() + w.len()) as int,
        ),
{
    let src = a + seq!['\\'] + nl + w + b;
    let mid = seq!['\\'] + nl + w;
    let pre = a + mid;
    let la = a.len() as int;
    assert(src =~= a + (mid + b));
    assert(src =~= pre + b);
    lemma_plain_prefix(a, mid + b, 0, mode);
    // the backslash ends its line
    assert(src[la] == '\\');
    assert(src[la + 1] == nl[0]);
    if nl.len() == 2 {
        assert(src[la + 2] == '\n');
    }
    assert forall|k: int| la + 1 <= k < pre.len() implies is_skipped_whitespace(#[trigger] src[k]) by {
        if k < la + 1 + nl.len() {
            assert(src[k] == nl[k - la - 1]);
        } else {
            assert(src[k] == w[k - la - 1 - nl.len()]);
        }
    }
    if pre.len() < src.len() {
        assert(src[pre.len() as int] == b[0]);
    }
    lemma_skip_run(src, la + 1, pre.len() as int);
    assert(str_step(src, la, mode) == (None::<Result<char, EscapeError>>, pre.len() as int));
    assert(str_events(src, la, mode) =~= str_events(src, pre.len() as int, mode));
    lemma_events_shift(pre, b, 0, mode);
    assert(forall|k: int| 0 <= k < mid.len() ==> (#[trigger] mid[k]) as u32 <= 0x7F) by {
        assert forall|k: int| 0 <= k < mid.len() implies (#[trigger] mid[k]) as u32 <= 0x7F by {
            if k >= 1 && k < 1 + nl.len() {
                assert(mid[k] == nl[k - 1]);
            } else if k >= 1 + nl.len() {
                assert(mid[k] == w[k - 1 - nl.len()]);
            }
        }
    }
    lemma_ascii_len(mid);
    lemma_encode_utf8_concat(a, mid);
}

/// A backslash followed by a character that starts no escape is an invalid escape
/// covering both characters; what follows is read on its own, its byte ranges moved by
/// the bytes of the two.
pub proof fn law_str_invalid_escape(c: char, b: Seq<char>, mode: Mode)
    requires
        c != '"' && c != 'n' && c != 'r' && c != 't' && c != '\\' && c != '\'' && c != '0' && c
            != 'x' && c != 'u' && c != '\n' && c != '\r',
    ensures
        str_events(seq!['\\', c] + b, 0, mode) == seq![
            (0int, 1 + char_width(c) as int, Err::<char, EscapeError>(EscapeError::InvalidEscape)),
        ] + shift_events(str_events(b, 0, mode), 1 + char_width(c) as int),
{
    let p = seq!['\\', c];
    let src = p + b;
    assert(src[0] == '\\');
    assert(src[1] == c);
    assert(str_step(src, 0, mode) == (
        Some(Err::<char, EscapeError>(EscapeError::InvalidEscape)),
        2int,
    ));
    assert(src.take(0) =~= Seq::<char>::empty());
    assert(byte_offset(src, 0) == 0);
    lemma_offset_shift(p, b, 0);
    assert(b.take(0) =~= Seq::<char>::empty());
    assert(p =~= seq!['\\'] + seq![c]);
    lemma_encode_utf8_concat(seq!['\\'], seq![c]);
    lemma_encode_char_len('\\');
    lemma_encode_char_len(c);
    lemma_events_shift(p, b, 0, mode);
}

/// A carriage return followed by a line feed gives one line feed covering both; a
/// carriage return followed by anything else is a bare carriage return. Either way
/// what comes before and what follows are read on their own, with byte ranges moved
/// by the bytes before them.
pub proof fn law_str_carriage_return(a: Seq<char>, b: Seq<char>, mode: Mode)
    requires
        no_escape_or_cr(a),
    ensures
        ({
            let n = encode_utf8(a).len() as int;
            str_events(a + seq!['\r'] + b, 0, mode) == str_events(a, 0, mode) + if b.len() > 0
                && b[0] == '\n' {
                seq![(n, n + 2, Ok::<char, EscapeError>('\n'))] + shift_events(
                    str_events(b.drop_first(), 0, mode),
                    n + 2,
                )
            } else {
                seq![(n, n + 1, Err::<char, EscapeError>(EscapeError::BareCarriageReturn))]
                    + shift_events(str_events(b, 0, mode), n + 1)
            }
        }),
{
    let src = a + seq!['\r'] + b;
    let la = a.len() as int;
    let n = encode_utf8(a).len() as int;
    assert(src =~= a + (seq!['\r'] + b));
    lemma_plain_prefix(a, seq!['\r'] + b, 0, mode);
    assert(src[la] == '\r');
    assert(src.take(la) =~= a);
    if b.len() > 0 && b[0] == '\n' {
        let p = a + seq!['\r', '\n'];
        let rest = b.drop_first();
        assert(src =~= p + rest);
        assert(src[la + 1] == '\n');
        assert(str_step(src, la, mode) == (Some(Ok::<char, EscapeError>('\n')), la + 2));
        lemma_offset_shift(p, rest, 0);
        assert(rest.take(0) =~= Seq::<char>::empty());
        lemma_encode_utf8_concat(a, seq!['\r', '\n']);
        lemma_ascii_len(seq!['\r', '\n']);
        lemma_events_shift(p, rest, 0, mode);
        let tail = str_events(src, la + 2, mode);
        assert(str_events(src, la, mode) == seq![(n, n + 2, Ok::<char, EscapeError>('\n'))] + tail);
    } else {
        let p = a + seq!['\r'];
        assert(src =~= p + b);
        if b.len() > 0 {
            assert(src[la + 1] == b[0]);
        }
        assert(str_step(src, la, mode) == (
            Some(Err::<char, EscapeError>(EscapeError::BareCarriageReturn)),
            la + 1,
        ));
        lemma_offset_shift(p, b, 0);
        assert(b.take(0) =~= Seq::<char>::empty());
        lemma_encode_utf8_concat(a, seq!['\r']);
        lemma_encode_char_len('\r');
        lemma_events_shift(p, b, 0, mode);
        let tail = str_events(src, la + 1, mode);
        assert(str_events(src, la, mode) == seq![
            (n, n + 1, Err::<char, EscapeError>(EscapeError::BareCarriageReturn)),
        ] + tail);
    }
}

} // verus!
