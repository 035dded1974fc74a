use vstd::prelude::*;
use crate::error::EscapeError;
use crate::mode::Mode;
use crate::scan::digit_bound;
use crate::spec::{
    byte_event, byte_literal, byte_offset, char_literal, char_width, hex_value, is_char_value,
    lemma_scan_bounds, scan_escape_spec, scan_unicode_digits, str_events, str_step, Event,
};
use crate::laws::{lemma_ascii_len, lemma_events_shift, lemma_offset_shift, shift_events};
use crate::text::{lemma_encode_char_len, lemma_encode_utf8_concat};
use vstd::utf8::encode_utf8;

verus! {

/// The lower-case hexadecimal digit for `d`, where `d < 16`.
pub open spec fn hex_digit_char(d: nat) -> char {
    if d < 10 {
        ('0' as u32 + d) as char
    } else {
        ('a' as u32 + d - 10) as char
    }
}

/// The hexadecimal digits of `v`, most significant first, with no leading zero.
pub open spec fn hex_digits(v: nat) -> Seq<char>
    decreases v,
{
    if v < 16 {
        seq![hex_digit_char(v)]
    } else {
        hex_digits(v / 16).push(hex_digit_char(v % 16))
    }
}

/// How `c` is written in the contents of a literal, escaped the way the standard
/// library's `char::escape_default` escapes it: tab, carriage return, line feed,
/// backslash and both quotes by a backslash, printable ASCII as itself, and every other
/// character by `\u{..}` with its code in hexadecimal.
pub open spec fn escape_char(c: char) -> Seq<char> {
    if c == '\t' {
        seq!['\\', 't']
    } else if c == '\r' {
        seq!['\\', 'r']
    } else if c == '\n' {
        seq!['\\', 'n']
    } else if c == '\\' {
        seq!['\\', '\\']
    } else if c == '\'' {
        seq!['\\', '\'']
    } else if c == '"' {
        seq!['\\', '"']
    } else if 0x20 <= c as u32 <= 0x7E {
        seq![c]
    } else {
        unicode_escape(hex_digits(c as u32 as nat))
    }
}

/// The escape `\u{..}` with the hexadecimal digits `ds`.
pub open spec fn unicode_escape(ds: Seq<char>) -> Seq<char> {
    seq!['\\', 'u', '{'] + ds + seq!['}']
}

/// The characters of `cs`, each escaped by `escape_char`, one after the other.
pub open spec fn escape_chars(cs: Seq<char>) -> Seq<char>
    decreases cs.len(),
{
    if cs.len() == 0 {
        Seq::empty()
    } else {
        escape_char(cs[0]) + escape_chars(cs.drop_first())
    }
}

/// The value of the hexadecimal digits `ds`, read after the digits of value `value`.
pub open spec fn fold_hex(value: nat, ds: Seq<char>) -> nat
    decreases ds.len(),
{
    if ds.len() == 0 {
        value
    } else {
        fold_hex(value * 16 + hex_value(ds[0]).unwrap() as nat, ds.drop_first())
    }
}

proof fn lemma_hex_digit_char(d: nat)
    requires
        d < 16,
    ensures
        hex_value(hex_digit_char(d)) == Some(d as u32),
{
}

proof fn lemma_fold_hex_push(value: nat, ds: Seq<char>, c: char)
    ensures
        fold_hex(value, ds.push(c)) == fold_hex(value, ds) * 16 + hex_value(c).unwrap() as nat,
    decreases ds.len(),
{
    if ds.len() == 0 {
        assert(ds.push(c).drop_first() =~= Seq::<char>::empty());
        assert(ds.push(c)[0] == c);
        assert(fold_hex(value * 16 + hex_value(c).unwrap() as nat, Seq::<char>::empty()) == value * 16
            + hex_value(c).unwrap() as nat);
    } else {
        assert(ds.push(c).drop_first() =~= ds.drop_first().push(c));
        assert(ds.push(c)[0] == ds[0]);
        lemma_fold_hex_push(value * 16 + hex_value(ds[0]).unwrap() as nat, ds.drop_first(), c);
    }
}

proof fn lemma_hex_digits(v: nat)
    ensures
        fold_hex(0, hex_digits(v)) == v,
        hex_digits(v).len() >= 1,
        forall|k: int| 0 <= k < hex_digits(v).len() ==> hex_value(#[trigger] hex_digits(v)[k]) is Some,
    decreases v,
{
    if v < 16 {
        lemma_hex_digit_char(v);
        assert(seq![hex_digit_char(v)].drop_first() =~= Seq::<char>::empty());
        assert(fold_hex(v, Seq::<char>::empty()) == v);
    } else {
        lemma_hex_digits(v / 16);
        lemma_hex_digit_char(v % 16);
        lemma_fold_hex_push(0, hex_digits(v / 16), hex_digit_char(v % 16));
        assert(v == (v / 16) * 16 + v % 16);
        let ds = hex_digits(v / 16);
        assert(hex_digits(v) == ds.push(hex_digit_char(v % 16)));
        assert forall|k: int| 0 <= k < hex_digits(v).len() implies hex_value(
            #[trigger] hex_digits(v)[k],
        ) is Some by {
            if k < ds.len() {
                assert(hex_digits(v)[k] == ds[k]);
            }
        }
    }
}

proof fn lemma_hex_digits_len(v: nat, k: nat)
    requires
        k >= 1,
        v < digit_bound(k),
    ensures
        hex_digits(v).len() <= k,
    decreases v,
{
    if v >= 16 {
        if k == 1 {
            reveal_with_fuel(digit_bound, 2);
        } else {
            assert(digit_bound(k) == 16 * digit_bound((k - 1) as nat));
            assert(v / 16 < digit_bound((k - 1) as nat));
            lemma_hex_digits_len(v / 16, (k - 1) as nat);
        }
    }
}

/// Reading the hexadecimal digits at `i..e` of a `\u{..}` escape adds them to the value.
proof fn lemma_scan_digits(chars: Seq<char>, i: int, e: int, value: nat, n: nat, mode: Mode)
    requires
        0 <= i <= e < chars.len(),
        forall|k: int| i <= k < e ==> hex_value(#[trigger] chars[k]) is Some,
        n + (e - i) <= 6,
    ensures
        scan_unicode_digits(chars, i, value, n, mode) == scan_unicode_digits(
            chars,
            e,
            fold_hex(value, chars.subrange(i, e)),
            n + (e - i) as nat,
            mode,
        ),
    decreases e - i,
{
    if i < e {
        let d = hex_value(chars[i]).unwrap();
        assert(chars.subrange(i, e).drop_first() =~= chars.subrange(i + 1, e));
        lemma_scan_digits(chars, i + 1, e, value * 16 + d as nat, n + 1, mode);
    } else {
        assert(chars.subrange(i, e) =~= Seq::<char>::empty());
    }
}

/// An escaped character, found at index `s` of `text`, is scanned back to itself.
proof fn lemma_scan_escaped(text: Seq<char>, s: int, c: char, mode: Mode)
    requires
        mode is Char || mode is Str,
        0 <= s,
        s + escape_char(c).len() <= text.len(),
        text.subrange(s, s + escape_char(c).len()) == escape_char(c),
    ensures
        scan_escape_spec(text[s], text, s + 1, mode) == (
            Ok::<char, EscapeError>(c),
            s + escape_char(c).len(),
        ),
{
    let esc = escape_char(c);
    assert(forall|k: int| 0 <= k < esc.len() ==> text[s + k] == #[trigger] esc[k]) by {
        assert forall|k: int| 0 <= k < esc.len() implies text[s + k] == #[trigger] esc[k] by {
            assert(text.subrange(s, s + esc.len())[k] == text[s + k]);
        }
    }
    if c == '\t' || c == '\r' || c == '\n' || c == '\\' || c == '\'' || c == '"' {
        assert(esc[0] == '\\');
        assert(text[s] == esc[0]);
        assert(text[s + 1] == esc[1]);
    } else if 0x20 <= c as u32 <= 0x7E {
        assert(text[s] == esc[0]);
    } else {
        let v = c as u32 as nat;
        let ds = hex_digits(v);
        vstd::utf8::char_is_scalar(c);
        lemma_hex_digits(v);
        reveal_with_fuel(digit_bound, 7);
        lemma_hex_digits_len(v, 6);
        lemma_scan_unicode_seq(text, s, ds, mode);
        vstd::utf8::char_u32_cast(c, c as u32);
    }
}

/// A `\u{..}` escape with one to six hexadecimal digits, found at index `s` of `text`,
/// is scanned over its whole length to what the value the digits spell gives.
proof fn lemma_scan_unicode_seq(text: Seq<char>, s: int, ds: Seq<char>, mode: Mode)
    requires
        1 <= ds.len() <= 6,
        forall|k: int| 0 <= k < ds.len() ==> hex_value(#[trigger] ds[k]) is Some,
        0 <= s,
        s + ds.len() + 4 <= text.len(),
        text.subrange(s, s + ds.len() + 4) == unicode_escape(ds),
    ensures
        scan_escape_spec(text[s], text, s + 1, mode) == (
            if !mode.allow_unicode() {
                Err(EscapeError::UnicodeEscapeInByte)
            } else if is_char_value(fold_hex(0, ds)) {
                Ok::<char, EscapeError>(fold_hex(0, ds) as char)
            } else if fold_hex(0, ds) > 0x10FFFF {
                Err(EscapeError::OutOfRangeUnicodeEscape)
            } else {
                Err(EscapeError::LoneSurrogateUnicodeEscape)
            },
            s + ds.len() + 4,
        ),
{
    let esc = unicode_escape(ds);
    let m = ds.len() as int;
    assert(forall|k: int| 0 <= k < esc.len() ==> text[s + k] == #[trigger] esc[k]) by {
        assert forall|k: int| 0 <= k < esc.len() implies text[s + k] == #[trigger] esc[k] by {
            assert(text.subrange(s, s + esc.len())[k] == text[s + k]);
        }
    }
    assert(esc.len() == m + 4);
    assert(text[s] == esc[0] && esc[0] == '\\');
    assert(text[s + 1] == esc[1] && esc[1] == 'u');
    assert(text[s + 2] == esc[2] && esc[2] == '{');
    assert(text[s + 3] == esc[3] && esc[3] == ds[0]);
    assert(text[s + 3 + m] == esc[3 + m] && esc[3 + m] == '}');
    let d0 = hex_value(ds[0]).unwrap();
    assert forall|k: int| s + 4 <= k < s + 3 + m implies hex_value(#[trigger] text[k]) is Some by {
        assert(text[k] == esc[k - s]);
        assert(esc[k - s] == ds[k - s - 3]);
    }
    lemma_scan_digits(text, s + 4, s + 3 + m, d0 as nat, 1, mode);
    assert(text.subrange(s + 4, s + 3 + m) =~= ds.drop_first()) by {
        assert forall|k: int| 0 <= k < m - 1 implies text.subrange(s + 4, s + 3 + m)[k]
            == ds.drop_first()[k] by {
            assert(text[s + 4 + k] == esc[4 + k]);
        }
    }
    assert(fold_hex(0, ds) == fold_hex(d0 as nat, ds.drop_first()));
}

/// A char literal holding one escaped character stands for that character.
pub proof fn law_char_escape_roundtrip(c: char)
    ensures
        char_literal(escape_char(c), Mode::Char) == Ok::<char, (int, EscapeError)>(c),
{
    let text = escape_char(c);
    assert(text.subrange(0, text.len() as int) =~= text);
    lemma_scan_escaped(text, 0, c, Mode::Char);
}


/// An escaped character, found at index `s` of the contents of a string literal, is one
/// step that gives the character back.
proof fn lemma_str_step_escaped(text: Seq<char>, s: int, c: char)
    requires
        0 <= s,
        s + escape_char(c).len() <= text.len(),
        text.subrange(s, s + escape_char(c).len()) == escape_char(c),
    ensures
        str_step(text, s, Mode::Str) == (
            Some(Ok::<char, EscapeError>(c)),
            s + escape_char(c).len(),
        ),
{
    let esc = escape_char(c);
    lemma_scan_escaped(text, s, c, Mode::Str);
    assert(text[s] == text.subrange(s, s + esc.len())[0]);
    if esc.len() > 1 {
        assert(text[s + 1] == text.subrange(s, s + esc.len())[1]);
    }
}

proof fn lemma_str_escaped_from(pre: Seq<char>, cs: Seq<char>)
    ensures
        str_events(pre + escape_chars(cs), pre.len() as int, Mode::Str).map_values(|e: Event| e.2)
            == cs.map_values(|c: char| Ok::<char, EscapeError>(c)),
    decreases cs.len(),
{
    let text = pre + escape_chars(cs);
    let s = pre.len() as int;
    if cs.len() == 0 {
        assert(text =~= pre);
        assert(str_events(text, s, Mode::Str) =~= Seq::<Event>::empty());
        assert(cs.map_values(|c: char| Ok::<char, EscapeError>(c)) =~= Seq::<Result<char, EscapeError>>::empty());
    } else {
        let c = cs[0];
        let rest = cs.drop_first();
        let esc = escape_char(c);
        let pre2 = pre + esc;
        assert(text =~= pre2 + escape_chars(rest));
        assert(text.subrange(s, s + esc.len()) =~= esc);
        lemma_str_step_escaped(text, s, c);
        lemma_str_escaped_from(pre2, rest);
        let tail = str_events(text, s + esc.len(), Mode::Str);
        assert(str_events(text, s, Mode::Str) == seq![
            (crate::spec::byte_offset(text, s) as int, crate::spec::byte_offset(text, s + esc.len()) as int, Ok::<char, EscapeError>(c)),
        ] + tail);
        assert(str_events(text, s, Mode::Str).map_values(|e: Event| e.2) =~= seq![Ok::<char, EscapeError>(c)]
            + tail.map_values(|e: Event| e.2));
        assert(cs.map_values(|c: char| Ok::<char, EscapeError>(c)) =~= seq![Ok::<char, EscapeError>(c)]
            + rest.map_values(|c: char| Ok::<char, EscapeError>(c)));
    }
}

/// The contents of a string literal made of escaped characters, one after the other,
/// give back exactly those characters, in order, and no error.
pub proof fn law_str_escape_roundtrip(cs: Seq<char>)
    ensures
        str_events(escape_chars(cs), 0, Mode::Str).map_values(|e: Event| e.2) == cs.map_values(
            |c: char| Ok::<char, EscapeError>(c),
        ),
{
    assert(Seq::<char>::empty() + escape_chars(cs) =~= escape_chars(cs));
    lemma_str_escaped_from(Seq::empty(), cs);
}


/// A `\x` escape with two hexadecimal digits of a value up to `0x7F` stands for the
/// character, and in a byte literal for the byte, with that value.
pub proof fn law_hex_escape(v: nat)
    requires
        v <= 0x7F,
    ensures
        char_literal(seq!['\\', 'x', hex_digit_char(v / 16), hex_digit_char(v % 16)], Mode::Char)
            == Ok::<char, (int, EscapeError)>(v as char),
        crate::spec::byte_literal(seq!['\\', 'x', hex_digit_char(v / 16), hex_digit_char(v % 16)])
            == Ok::<u8, (int, EscapeError)>(v as u8),
{
    lemma_hex_digit_char(v / 16);
    lemma_hex_digit_char(v % 16);
    assert(v == (v / 16) * 16 + v % 16);
}


/// The upper-case hexadecimal digit for `d`, where `d < 16`.
pub open spec fn hex_digit_upper(d: nat) -> char {
    if d < 10 {
        ('0' as u32 + d) as char
    } else {
        ('A' as u32 + d - 10) as char
    }
}

/// Whether `c` is the hexadecimal digit for `d`, in lower or upper case.
pub open spec fn is_hex_digit_of(c: char, d: nat) -> bool {
    d < 16 && (c == hex_digit_char(d) || c == hex_digit_upper(d))
}

/// The value of the hexadecimal number whose digit values are `dv`, most significant
/// first.
pub open spec fn digits_value(dv: Seq<nat>) -> nat
    decreases dv.len(),
{
    if dv.len() == 0 {
        0
    } else {
        digits_value(dv.drop_last()) * 16 + dv.last()
    }
}

/// The hexadecimal digits are `0`-`9`, `a`-`f` and `A`-`F`, with their usual values,
/// upper and lower case alike; no other character is one.
pub proof fn law_hex_value(c: char, d: nat)
    ensures
        is_hex_digit_of(c, d) ==> hex_value(c) == Some(d as u32),
        hex_value(c) matches Some(v) ==> is_hex_digit_of(c, v as nat),
{
    vstd::utf8::char_u32_cast(c, c as u32);
}

proof fn lemma_fold_digits(ds: Seq<char>, dv: Seq<nat>)
    requires
        ds.len() == dv.len(),
        forall|k: int| 0 <= k < ds.len() ==> is_hex_digit_of(#[trigger] ds[k], dv[k]),
    ensures
        fold_hex(0, ds) == digits_value(dv),
        forall|k: int| 0 <= k < ds.len() ==> hex_value(#[trigger] ds[k]) is Some,
    decreases ds.len(),
{
    assert forall|k: int| 0 <= k < ds.len() implies hex_value(#[trigger] ds[k]) == Some(
        dv[k] as u32,
    ) by {
        law_hex_value(ds[k], dv[k]);
    }
    if ds.len() > 0 {
        let n = ds.len() - 1;
        lemma_fold_digits(ds.drop_last(), dv.drop_last());
        assert(ds =~= ds.drop_last().push(ds[n]));
        lemma_fold_hex_push(0, ds.drop_last(), ds[n]);
    } else {
        assert(fold_hex(0, ds) == 0);
    }
}

/// A unit `p` that the contents `p + b` of a literal start with, read in one step,
/// is reported with the range of `p`'s bytes, and what follows is read on its own.
proof fn lemma_first_unit(p: Seq<char>, b: Seq<char>, mode: Mode, r: Result<char, EscapeError>)
    requires
        p.len() >= 1,
        str_step(p + b, 0, mode) == (Some(r), p.len() as int),
    ensures
        str_events(p + b, 0, mode) == seq![(0int, encode_utf8(p).len() as int, r)]
            + shift_events(str_events(b, 0, mode), encode_utf8(p).len() as int),
{
    lemma_events_shift(p, b, 0, mode);
    lemma_offset_shift(p, b, 0);
    assert(b.take(0) =~= Seq::<char>::empty());
    assert((p + b).take(0) =~= Seq::<char>::empty());
    assert(byte_offset(p + b, 0) == 0);
}

/// The character that a backslash followed by `e` stands for, where `e` is one of
/// `"`, `n`, `r`, `t`, `\`, `'`, `0`.
pub open spec fn is_simple_escape(e: char) -> bool {
    e == '"' || e == 'n' || e == 'r' || e == 't' || e == '\\' || e == '\'' || e == '0'
}

/// A backslash followed by `"`, `n`, `r`, `t`, `\`, `'` or `0` stands, in every kind of
/// literal, for a double quote, line feed, carriage return, tab, backslash, single
/// quote or NUL: a char or byte literal holding it gives that character or byte, and
/// the contents of a string literal that start with it give that character over its
/// two bytes, then what follows, read on its own.
pub proof fn law_simple_escape(e: char, b: Seq<char>, mode: Mode)
    requires
        is_simple_escape(e),
    ensures
        ({
            let val = if e == 'n' {
                '\n'
            } else if e == 'r' {
                '\r'
            } else if e == 't' {
                '\t'
            } else if e == '0' {
                '\0'
            } else {
                e
            };
            &&& str_events(seq!['\\', e] + b, 0, mode) == seq![(0int, 2int, Ok::<char, EscapeError>(val))]
                + shift_events(str_events(b, 0, mode), 2)
            &&& char_literal(seq!['\\', e], Mode::Char) == Ok::<char, (int, EscapeError)>(val)
            &&& byte_literal(seq!['\\', e]) == Ok::<u8, (int, EscapeError)>(val as u8)
        }),
{
    let p = seq!['\\', e];
    let t = p + b;
    assert(t[0] == '\\');
    assert(t[1] == e);
    lemma_ascii_len(p);
    let val = scan_escape_spec('\\', t, 1, mode).0->Ok_0;
    lemma_first_unit(p, b, mode, Ok(val));
}

/// A `\x` escape with two hexadecimal digits, of either case, stands in every kind of
/// literal for the value they spell where it is at most `0x7F`, and is out of range
/// above: as a char or byte literal, and at the start of the contents of a string or
/// byte-string literal, where it covers its four bytes and what follows is read on its
/// own.
pub proof fn law_hex_escape_digits(v: nat, hi: char, lo: char, b: Seq<char>, mode: Mode)
    requires
        is_hex_digit_of(hi, v / 16),
        is_hex_digit_of(lo, v % 16),
    ensures
        ({
            let p = seq!['\\', 'x', hi, lo];
            let r = if v <= 0x7F {
                Ok::<char, EscapeError>(v as char)
            } else {
                Err(EscapeError::OutOfRangeHexEscape)
            };
            &&& str_events(p + b, 0, mode) == seq![(0int, 4int, r)] + shift_events(
                str_events(b, 0, mode),
                4,
            )
            &&& byte_event(str_events(p + b, 0, mode)[0]) == (0int, 4int, if v <= 0x7F {
                Ok::<u8, EscapeError>(v as u8)
            } else {
                Err(EscapeError::OutOfRangeHexEscape)
            })
            &&& char_literal(p, Mode::Char) == if v <= 0x7F {
                Ok::<char, (int, EscapeError)>(v as char)
            } else {
                Err((4, EscapeError::OutOfRangeHexEscape))
            }
            &&& byte_literal(p) == if v <= 0x7F {
                Ok::<u8, (int, EscapeError)>(v as u8)
            } else {
                Err((4, EscapeError::OutOfRangeHexEscape))
            }
        }),
{
    let p = seq!['\\', 'x', hi, lo];
    let t = p + b;
    law_hex_value(hi, v / 16);
    law_hex_value(lo, v % 16);
    assert(v == (v / 16) * 16 + v % 16);
    assert(t[0] == '\\' && t[1] == 'x' && t[2] == hi && t[3] == lo);
    assert(forall|k: int| 0 <= k < p.len() ==> (#[trigger] p[k]) as u32 <= 0x7F);
    lemma_ascii_len(p);
    assert(p.take(4) =~= p);
    let r = scan_escape_spec('\\', t, 1, mode).0;
    lemma_first_unit(p, b, mode, r);
}

/// A `\u{..}` escape with one to six hexadecimal digits, of either case, that spell the
/// code of a character stands for that character in a char literal, and at the start
/// of the contents of a string literal, where it covers its bytes and what follows is
/// read on its own.
pub proof fn law_unicode_escape(c: char, ds: Seq<char>, dv: Seq<nat>, b: Seq<char>, mode: Mode)
    requires
        1 <= ds.len() <= 6,
        dv.len() == ds.len(),
        forall|k: int| 0 <= k < ds.len() ==> is_hex_digit_of(#[trigger] ds[k], dv[k]),
        digits_value(dv) == c as u32,
        mode is Char || mode is Str,
    ensures
        char_literal(unicode_escape(ds), Mode::Char) == Ok::<char, (int, EscapeError)>(c),
        str_events(unicode_escape(ds) + b, 0, mode) == seq![
            (0int, ds.len() + 4int, Ok::<char, EscapeError>(c)),
        ] + shift_events(str_events(b, 0, mode), ds.len() + 4int),
{
    let p = unicode_escape(ds);
    lemma_fold_digits(ds, dv);
    vstd::utf8::char_is_scalar(c);
    vstd::utf8::char_u32_cast(c, c as u32);
    assert(forall|k: int| 0 <= k < p.len() ==> (#[trigger] p[k]) as u32 <= 0x7F) by {
        assert forall|k: int| 0 <= k < p.len() implies (#[trigger] p[k]) as u32 <= 0x7F by {
            if 3 <= k < 3 + ds.len() {
                assert(p[k] == ds[k - 3]);
                assert(is_hex_digit_of(ds[k - 3], dv[k - 3]));
            }
        }
    }
    lemma_ascii_len(p);
    assert(p.subrange(0, p.len() as int) =~= p);
    lemma_scan_unicode_seq(p, 0, ds, Mode::Char);
    let t = p + b;
    assert(t.subrange(0, p.len() as int) =~= p);
    lemma_scan_unicode_seq(t, 0, ds, mode);
    assert(t[0] == '\\' && t[1] == 'u');
    lemma_first_unit(p, b, mode, Ok(c));
}

proof fn lemma_digits_extend(u: Seq<char>, d: Seq<char>, i: int, value: nat, n: nat, mode: Mode)
    requires
        0 <= i,
        scan_unicode_digits(u, i, value, n, mode).0 is Ok,
    ensures
        scan_unicode_digits(u + d, i, value, n, mode) == scan_unicode_digits(u, i, value, n, mode),
    decreases u.len() - i,
{
    if i < u.len() {
        assert((u + d)[i] == u[i]);
        if u[i] == '_' {
            lemma_digits_extend(u, d, i + 1, value, n, mode);
        } else if u[i] != '}' {
            match hex_value(u[i]) {
                Some(x) => if n + 1 <= 6 {
                    lemma_digits_extend(u, d, i + 1, value * 16 + x as nat, n + 1, mode);
                },
                None => {},
            }
        }
    }
}

/// Scanning that succeeds within `u` reads nothing past it: text after `u` changes
/// nothing.
proof fn lemma_scan_extend(first: char, u: Seq<char>, d: Seq<char>, pos: int, mode: Mode)
    requires
        0 <= pos <= u.len(),
        scan_escape_spec(first, u, pos, mode).0 is Ok,
    ensures
        scan_escape_spec(first, u + d, pos, mode) == scan_escape_spec(first, u, pos, mode),
{
    let t = u + d;
    if pos < u.len() {
        assert(t[pos] == u[pos]);
    }
    if pos + 1 < u.len() {
        assert(t[pos + 1] == u[pos + 1]);
    }
    if pos + 2 < u.len() {
        assert(t[pos + 2] == u[pos + 2]);
        if first == '\\' && u[pos] == 'u' && u[pos + 1] == '{' && u[pos + 2] != '_' && u[pos + 2]
            != '}' {
            match hex_value(u[pos + 2]) {
                Some(x) => lemma_digits_extend(u, d, pos + 3, x as nat, 1, mode),
                None => {},
            }
        }
    }
}

/// A char or byte literal is accepted only when its first character or escape takes up
/// all of it, and it then stands for what that character or escape gives.
pub proof fn law_char_literal_is_one_unit(chars: Seq<char>, mode: Mode)
    ensures
        char_literal(chars, mode) matches Ok(c) ==> chars.len() >= 1 && scan_escape_spec(
            chars[0],
            chars,
            1,
            mode,
        ) == (Ok::<char, EscapeError>(c), chars.len() as int),
{
    if chars.len() >= 1 {
        lemma_scan_bounds(chars[0], chars, 1, mode);
    }
}

/// Anything after an accepted char or byte literal's contents makes them hold more
/// than one character: the error comes at the end of the first character after them.
pub proof fn law_char_literal_extension(u: Seq<char>, d: Seq<char>, mode: Mode)
    requires
        char_literal(u, mode) is Ok,
        d.len() > 0,
    ensures
        char_literal(u + d, mode) == Err::<char, (int, EscapeError)>(
            (byte_offset(u + d, u.len() + 1int) as int, EscapeError::MoreThanOneChar),
        ),
{
    law_char_literal_is_one_unit(u, mode);
    assert((u + d)[0] == u[0]);
    lemma_scan_extend(u[0], u, d, 1, mode);
}


/// A `\u{..}` escape with one to six hexadecimal digits, of either case, spelling the
/// value `v`: in a char literal or string contents it stands for the character with
/// code `v`, is out of range above `0x10FFFF`, and names a lone surrogate in
/// `0xD800..=0xDFFF`; in a byte literal or byte-string contents it is refused. At the
/// start of a literal's contents it covers all its bytes, and what follows is read on
/// its own.
pub proof fn law_unicode_escape_value(ds: Seq<char>, dv: Seq<nat>, b: Seq<char>, mode: Mode)
    requires
        1 <= ds.len() <= 6,
        dv.len() == ds.len(),
        forall|k: int| 0 <= k < ds.len() ==> is_hex_digit_of(#[trigger] ds[k], dv[k]),
    ensures
        ({
            let v = digits_value(dv);
            let r = if mode is Byte || mode is ByteStr {
                Err(EscapeError::UnicodeEscapeInByte)
            } else if v > 0x10FFFF {
                Err(EscapeError::OutOfRangeUnicodeEscape)
            } else if 0xD800 <= v <= 0xDFFF {
                Err(EscapeError::LoneSurrogateUnicodeEscape)
            } else {
                Ok::<char, EscapeError>(v as char)
            };
            let n = ds.len() + 4int;
            &&& str_events(unicode_escape(ds) + b, 0, mode) == seq![(0int, n, r)] + shift_events(
                str_events(b, 0, mode),
                n,
            )
            &&& char_literal(unicode_escape(ds), mode) == match r {
                Ok(c) => Ok::<char, (int, EscapeError)>(c),
                Err(e) => Err((n, e)),
            }
        }),
{
    let p = unicode_escape(ds);
    lemma_fold_digits(ds, dv);
    assert(forall|k: int| 0 <= k < p.len() ==> (#[trigger] p[k]) as u32 <= 0x7F) by {
        assert forall|k: int| 0 <= k < p.len() implies (#[trigger] p[k]) as u32 <= 0x7F by {
            if 3 <= k < 3 + ds.len() {
                assert(p[k] == ds[k - 3]);
                assert(is_hex_digit_of(ds[k - 3], dv[k - 3]));
            }
        }
    }
    lemma_ascii_len(p);
    assert(p.subrange(0, p.len() as int) =~= p);
    assert(p.take(p.len() as int) =~= p);
    lemma_scan_unicode_seq(p, 0, ds, mode);
    let t = p + b;
    assert(t.subrange(0, p.len() as int) =~= p);
    lemma_scan_unicode_seq(t, 0, ds, mode);
    assert(t[0] == '\\' && t[1] == 'u');
    let r = scan_escape_spec(t[0], t, 1, mode).0;
    lemma_first_unit(p, b, mode, r);
}

/// A single character other than a backslash, carriage return or line feed, at the
/// start of a literal's contents: a tab must always be escaped, a single quote in char
/// and byte literals, a double quote in string and byte-string literals; a character
/// above `0x7F` is refused in byte and byte-string literals; any other character
/// stands for itself. It covers its own bytes, and what follows is read on its own;
/// as a whole char or byte literal an error comes after its bytes.
pub proof fn law_single_char(c: char, b: Seq<char>, mode: Mode)
    requires
        c != '\\' && c != '\r' && c != '\n',
    ensures
        ({
            let r = if c == '\t' {
                Err(EscapeError::EscapeOnlyChar)
            } else if c == '\'' && (mode is Char || mode is Byte) {
                Err(EscapeError::EscapeOnlyChar)
            } else if c == '"' && (mode is Str || mode is ByteStr) {
                Err(EscapeError::EscapeOnlyChar)
            } else if (mode is Byte || mode is ByteStr) && c as u32 > 0x7F {
                Err(EscapeError::NonAsciiCharInByte)
            } else {
                Ok::<char, EscapeError>(c)
            };
            let w = char_width(c) as int;
            &&& str_events(seq![c] + b, 0, mode) == seq![(0int, w, r)] + shift_events(
                str_events(b, 0, mode),
                w,
            )
            &&& char_literal(seq![c], mode) == match r {
                Ok(x) => Ok::<char, (int, EscapeError)>(x),
                Err(e) => Err((w, e)),
            }
        }),
{
    let p = seq![c];
    let t = p + b;
    assert(t[0] == c);
    lemma_encode_char_len(c);
    assert(p.take(1) =~= p);
    let r = scan_escape_spec(c, t, 1, mode).0;
    lemma_first_unit(p, b, mode, r);
}


/// Whether `c` is a hexadecimal digit: `0`-`9`, `a`-`f` or `A`-`F`.
pub open spec fn is_hex_char(c: char) -> bool {
    ||| '0' as u32 <= c as u32 <= '9' as u32
    ||| 'a' as u32 <= c as u32 <= 'f' as u32
    ||| 'A' as u32 <= c as u32 <= 'F' as u32
}

/// Byte length of ASCII text followed by one character.
proof fn lemma_ascii_then_char_len(a: Seq<char>, c: char)
    requires
        forall|k: int| 0 <= k < a.len() ==> (#[trigger] a[k]) as u32 <= 0x7F,
    ensures
        encode_utf8(a.push(c)).len() == a.len() + char_width(c),
{
    lemma_ascii_len(a);
    assert(a.push(c) =~= a + seq![c]);
    lemma_encode_utf8_concat(a, seq![c]);
    lemma_encode_char_len(c);
}

/// Empty contents, a lone backslash, and a backslash before a character that starts no
/// escape are refused in every kind of char or byte literal; the error comes after the
/// characters read.
pub proof fn law_char_literal_bad_start(c: char, mode: Mode)
    ensures
        char_literal(Seq::empty(), mode) == Err::<char, (int, EscapeError)>((0, EscapeError::ZeroChars)),
        char_literal(seq!['\\'], mode) == Err::<char, (int, EscapeError)>((1, EscapeError::LoneSlash)),
        !is_simple_escape(c) && c != 'x' && c != 'u' ==> char_literal(seq!['\\', c], mode)
            == Err::<char, (int, EscapeError)>((1 + char_width(c) as int, EscapeError::InvalidEscape)),
{
    assert(Seq::<char>::empty().take(0) =~= Seq::<char>::empty());
    assert(seq!['\\'].take(1) =~= seq!['\\']);
    lemma_ascii_len(seq!['\\']);
    assert(seq!['\\', c].take(2) =~= seq!['\\'].push(c));
    lemma_ascii_then_char_len(seq!['\\'], c);
}

/// A `\x` escape cut short, or with a character that is no hexadecimal digit, is
/// refused in every kind of literal; the error comes after the characters read.
pub proof fn law_hex_escape_malformed(h0: char, h1: char, mode: Mode)
    ensures
        char_literal(seq!['\\', 'x'], mode) == Err::<char, (int, EscapeError)>(
            (2, EscapeError::TooShortHexEscape),
        ),
        !is_hex_char(h0) ==> char_literal(seq!['\\', 'x', h0], mode) == Err::<char, (int, EscapeError)>(
            (2 + char_width(h0) as int, EscapeError::InvalidCharInHexEscape),
        ),
        is_hex_char(h0) ==> char_literal(seq!['\\', 'x', h0], mode) == Err::<char, (int, EscapeError)>(
            (3, EscapeError::TooShortHexEscape),
        ),
        is_hex_char(h0) && !is_hex_char(h1) ==> char_literal(seq!['\\', 'x', h0, h1], mode) == Err::<
            char,
            (int, EscapeError),
        >((3 + char_width(h1) as int, EscapeError::InvalidCharInHexEscape)),
{
    let a2 = seq!['\\', 'x'];
    lemma_ascii_len(a2);
    assert(a2.take(2) =~= a2);
    assert(seq!['\\', 'x', h0].take(3) =~= a2.push(h0));
    lemma_ascii_then_char_len(a2, h0);
    if is_hex_char(h0) {
        let a3 = seq!['\\', 'x', h0];
        assert(forall|k: int| 0 <= k < a3.len() ==> (#[trigger] a3[k]) as u32 <= 0x7F);
        lemma_ascii_len(a3);
        assert(a3.take(3) =~= a3);
        assert(seq!['\\', 'x', h0, h1].take(4) =~= a3.push(h1));
        lemma_ascii_then_char_len(a3, h1);
    }
}

/// A `\u` escape not followed by `{`, left open, starting with `_`, empty, or with more
/// than six digits is refused in every kind of literal; the error comes after the
/// characters read.
pub proof fn law_unicode_escape_malformed(c: char, ds: Seq<char>, mode: Mode)
    ensures
        char_literal(seq!['\\', 'u'], mode) == Err::<char, (int, EscapeError)>(
            (2, EscapeError::InvalidUnicodeEscape),
        ),
        c != '{' ==> char_literal(seq!['\\', 'u', c], mode) == Err::<char, (int, EscapeError)>(
            (2 + char_width(c) as int, EscapeError::InvalidUnicodeEscape),
        ),
        char_literal(seq!['\\', 'u', '{'], mode) == Err::<char, (int, EscapeError)>(
            (3, EscapeError::UnclosedUnicodeEscape),
        ),
        char_literal(seq!['\\', 'u', '{', '_'], mode) == Err::<char, (int, EscapeError)>(
            (4, EscapeError::LeadingUnderscoreUnicodeEscape),
        ),
        char_literal(seq!['\\', 'u', '{', '}'], mode) == Err::<char, (int, EscapeError)>(
            (4, EscapeError::EmptyUnicodeEscape),
        ),
        (1 <= ds.len() <= 6 && forall|k: int| 0 <= k < ds.len() ==> is_hex_char(#[trigger] ds[k]))
            ==> char_literal(seq!['\\', 'u', '{'] + ds, mode) == Err::<char, (int, EscapeError)>(
            (3 + ds.len() as int, EscapeError::UnclosedUnicodeEscape),
        ),
        (ds.len() == 7 && forall|k: int| 0 <= k < ds.len() ==> is_hex_char(#[trigger] ds[k]))
            ==> char_literal(seq!['\\', 'u', '{'] + ds + seq!['}'], mode) == Err::<
            char,
            (int, EscapeError),
        >((10, EscapeError::OverlongUnicodeEscape)),
{
    let a2 = seq!['\\', 'u'];
    lemma_ascii_len(a2);
    assert(a2.take(2) =~= a2);
    assert(seq!['\\', 'u', c].take(3) =~= a2.push(c));
    lemma_ascii_then_char_len(a2, c);
    let a3 = seq!['\\', 'u', '{'];
    lemma_ascii_len(a3);
    assert(a3.take(3) =~= a3);
    let a4 = seq!['\\', 'u', '{', '_'];
    lemma_ascii_len(a4);
    assert(a4.take(4) =~= a4);
    let a5 = seq!['\\', 'u', '{', '}'];
    lemma_ascii_len(a5);
    assert(a5.take(4) =~= a5);
    if forall|k: int| 0 <= k < ds.len() ==> is_hex_char(#[trigger] ds[k]) {
        assert forall|k: int| 0 <= k < ds.len() implies hex_value(#[trigger] ds[k]) is Some by {
            let x = ds[k];
            assert(is_hex_char(x));
        }
        if 1 <= ds.len() <= 6 {
            let t = a3 + ds;
            let m = ds.len() as int;
            assert(forall|k: int| 0 <= k < t.len() ==> (#[trigger] t[k]) as u32 <= 0x7F) by {
                assert forall|k: int| 0 <= k < t.len() implies (#[trigger] t[k]) as u32 <= 0x7F by {
                    if k >= 3 {
                        assert(t[k] == ds[k - 3]);
                        assert(is_hex_char(ds[k - 3]));
                    }
                }
            }
            lemma_ascii_len(t);
            assert(t.take(t.len() as int) =~= t);
            assert(t[3] == ds[0]);
            assert(is_hex_char(ds[0]));
            assert forall|k: int| 4 <= k < 3 + m implies hex_value(#[trigger] t[k]) is Some by {
                assert(t[k] == ds[k - 3]);
            }
            let d0 = hex_value(ds[0]).unwrap();
            lemma_digits_unclosed(t, 4, d0 as nat, 1, mode);
        }
        if ds.len() == 7 {
            let t = a3 + ds + seq!['}'];
            assert(forall|k: int| 0 <= k < t.len() ==> (#[trigger] t[k]) as u32 <= 0x7F) by {
                assert forall|k: int| 0 <= k < t.len() implies (#[trigger] t[k]) as u32 <= 0x7F by {
                    if 3 <= k < 10 {
                        assert(t[k] == ds[k - 3]);
                        assert(is_hex_char(ds[k - 3]));
                    }
                }
            }
            assert(t.take(10) =~= a3 + ds);
            assert(forall|k: int| 0 <= k < (a3 + ds).len() ==> (#[trigger] (a3 + ds)[k]) as u32 <= 0x7F) by {
                assert forall|k: int| 0 <= k < (a3 + ds).len() implies (#[trigger] (a3 + ds)[k]) as u32 <= 0x7F by {
                    assert((a3 + ds)[k] == t[k]);
                }
            }
            lemma_ascii_len(a3 + ds);
            assert(t[3] == ds[0]);
            assert(is_hex_char(ds[0]));
            assert forall|k: int| 4 <= k < 9 implies hex_value(#[trigger] t[k]) is Some by {
                assert(t[k] == ds[k - 3]);
            }
            assert(t[9] == ds[6]);
            assert(hex_value(t[9]) is Some);
            let d0 = hex_value(ds[0]).unwrap();
            lemma_scan_digits(t, 4, 9, d0 as nat, 1, mode);
        }
    }
}

/// Hexadecimal digits of a `\u{..}` escape that run to the end of the text leave it
/// unclosed.
proof fn lemma_digits_unclosed(t: Seq<char>, i: int, value: nat, n: nat, mode: Mode)
    requires
        0 <= i <= t.len(),
        forall|k: int| i <= k < t.len() ==> hex_value(#[trigger] t[k]) is Some,
        n + (t.len() - i) <= 6,
    ensures
        scan_unicode_digits(t, i, value, n, mode) == (
            Err::<char, EscapeError>(EscapeError::UnclosedUnicodeEscape),
            t.len() as int,
        ),
    decreases t.len() - i,
{
    if i < t.len() {
        let d = hex_value(t[i]).unwrap();
        lemma_digits_unclosed(t, i + 1, value * 16 + d as nat, n + 1, mode);
    }
}

} // verus!
