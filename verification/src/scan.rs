use vstd::prelude::*;
use crate::error::EscapeError;
use crate::mode::Mode;
use crate::spec::{hex_value, scan_escape_spec, scan_hex, scan_unicode, scan_unicode_digits};
use crate::text::{char_from_u32, hex_digit_value};

verus! {

/// `16^n`: every value written with `n` hexadecimal digits is below it.
pub open spec fn digit_bound(n: nat) -> nat
    decreases n,
{
    if n == 0 {
        1
    } else {
        16 * digit_bound((n - 1) as nat)
    }
}

proof fn lemma_digit_bound(n: nat)
    requires
        n <= 5,
    ensures
        digit_bound(n) <= 0x100000,
{
    reveal_with_fuel(digit_bound, 6);
}

/// Scans the two digits of a `\x` escape, which start at index `i`.
fn scan_hex_escape(chars: &[char], i: usize) -> (r: (Result<char, EscapeError>, usize))
    requires
        i <= chars@.len(),
    ensures
        (r.0, r.1 as int) == scan_hex(chars@, i as int),
{
    if i >= chars.len() {
        return (Err(EscapeError::TooShortHexEscape), i);
    }
    let hi = match hex_digit_value(chars[i]) {
        None => return (Err(EscapeError::InvalidCharInHexEscape), i + 1),
        Some(h) => h,
    };
    if i + 1 >= chars.len() {
        return (Err(EscapeError::TooShortHexEscape), i + 1);
    }
    let lo = match hex_digit_value(chars[i + 1]) {
        None => return (Err(EscapeError::InvalidCharInHexEscape), i + 2),
        Some(l) => l,
    };
    let value = hi * 16 + lo;
    if value > 0x7F {
        return (Err(EscapeError::OutOfRangeHexEscape), i + 2);
    }
    let byte = value as u8;
    (Ok(byte as char), i + 2)
}

/// Scans a `\u{..}` escape whose `{` is expected at index `i`.
fn scan_unicode_escape(chars: &[char], i: usize, mode: Mode) -> (r: (
    Result<char, EscapeError>,
    usize,
))
    requires
        i <= chars@.len(),
    ensures
        (r.0, r.1 as int) == scan_unicode(chars@, i as int, mode),
{
    if i >= chars.len() {
        return (Err(EscapeError::InvalidUnicodeEscape), i);
    }
    if chars[i] != '{' {
        return (Err(EscapeError::InvalidUnicodeEscape), i + 1);
    }
    if i + 1 >= chars.len() {
        return (Err(EscapeError::UnclosedUnicodeEscape), i + 1);
    }
    let c = chars[i + 1];
    if c == '_' {
        return (Err(EscapeError::LeadingUnderscoreUnicodeEscape), i + 2);
    }
    if c == '}' {
        return (Err(EscapeError::EmptyUnicodeEscape), i + 2);
    }
    let first_digit = match hex_digit_value(c) {
        None => return (Err(EscapeError::InvalidCharInUnicodeEscape), i + 2),
        Some(d) => d,
    };
    let mut k = i + 2;
    let mut value: u32 = first_digit;
    let mut n_digits: u32 = 1;
    proof {
        reveal_with_fuel(digit_bound, 2);
    }
    loop
        invariant
            k <= chars@.len(),
            1 <= n_digits <= 6,
            value < digit_bound(n_digits as nat),
            scan_unicode_digits(chars@, k as int, value as nat, n_digits as nat, mode)
                == scan_unicode(chars@, i as int, mode),
        decreases chars@.len() - k,
    {
        if k >= chars.len() {
            return (Err(EscapeError::UnclosedUnicodeEscape), k);
        }
        let c = chars[k];
        if c == '_' {
            k = k + 1;
        } else if c == '}' {
            if !mode.allow_unicode() {
                return (Err(EscapeError::UnicodeEscapeInByte), k + 1);
            }
            return match char_from_u32(value) {
                Some(ch) => (Ok(ch), k + 1),
                None => if value > 0x10FFFF {
                    (Err(EscapeError::OutOfRangeUnicodeEscape), k + 1)
                } else {
                    (Err(EscapeError::LoneSurrogateUnicodeEscape), k + 1)
                },
            };
        } else {
            match hex_digit_value(c) {
                None => return (Err(EscapeError::InvalidCharInUnicodeEscape), k + 1),
                Some(digit) => {
                    n_digits = n_digits + 1;
                    if n_digits > 6 {
                        return (Err(EscapeError::OverlongUnicodeEscape), k + 1);
                    }
                    proof {
                        lemma_digit_bound((n_digits - 1) as nat);
                    }
                    value = value * 16 + digit;
                    k = k + 1;
                },
            }
        }
    }
}

/// Scans one character of a literal's contents: `first_char` has been read, and
/// `pos` is the index in `chars` of the character after it. Returns the character
/// it stands for, or the error, with the index of the first character not read.
pub fn scan_escape(first_char: char, chars: &[char], pos: usize, mode: Mode) -> (r: (
    Result<char, EscapeError>,
    usize,
))
    requires
        pos <= chars@.len(),
    ensures
        (r.0, r.1 as int) == scan_escape_spec(first_char, chars@, pos as int, mode),
{
    if first_char != '\\' {
        let r = if first_char == '\t' || first_char == '\n' {
            Err(EscapeError::EscapeOnlyChar)
        } else if first_char == '\r' {
            if pos < chars.len() && chars[pos] == '\n' {
                Err(EscapeError::EscapeOnlyChar)
            } else {
                Err(EscapeError::BareCarriageReturn)
            }
        } else if first_char == '\'' && mode.in_single_quotes() {
            Err(EscapeError::EscapeOnlyChar)
        } else if first_char == '"' && mode.in_double_quotes() {
            Err(EscapeError::EscapeOnlyChar)
        } else if !mode.allow_unicode() && first_char as u32 > 0x7F {
            Err(EscapeError::NonAsciiCharInByte)
        } else {
            Ok(first_char)
        };
        return (r, pos);
    }
    if pos >= chars.len() {
        return (Err(EscapeError::LoneSlash), pos);
    }
    match chars[pos] {
        'x' => scan_hex_escape(chars, pos + 1),
        'u' => scan_unicode_escape(chars, pos + 1, mode),
        '"' => (Ok('"'), pos + 1),
        'n' => (Ok('\n'), pos + 1),
        'r' => (Ok('\r'), pos + 1),
        't' => (Ok('\t'), pos + 1),
        '\\' => (Ok('\\'), pos + 1),
        '\'' => (Ok('\''), pos + 1),
        '0' => (Ok('\0'), pos + 1),
        _ => (Err(EscapeError::InvalidEscape), pos + 1),
    }
}

} // verus!
