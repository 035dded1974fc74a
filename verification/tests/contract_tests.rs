use unescape::error::EscapeError;
use unescape::mode::Mode;
use unescape::scan::scan_escape;
use unescape::text::{advance_offset, char_len_utf8, chars_of, hex_digit_value, literal_chars};
use unescape::unescape::{
    byte_from_char, unescape_byte, unescape_byte_str, unescape_byte_str_checked, unescape_char,
    unescape_str, unescape_str_or_byte_str,
};

#[test]
fn char_error_offsets() {
    assert_eq!(unescape_char(""), Err((0, EscapeError::ZeroChars)));
    assert_eq!(unescape_char("ab"), Err((2, EscapeError::MoreThanOneChar)));
    assert_eq!(unescape_char("ыы"), Err((4, EscapeError::MoreThanOneChar)));
    assert_eq!(unescape_char("\\"), Err((1, EscapeError::LoneSlash)));
    assert_eq!(unescape_char("\\x0"), Err((3, EscapeError::TooShortHexEscape)));
    assert_eq!(unescape_char("\\xg1"), Err((3, EscapeError::InvalidCharInHexEscape)));
    assert_eq!(unescape_char("\\x1g"), Err((4, EscapeError::InvalidCharInHexEscape)));
    assert_eq!(unescape_char("\\x80"), Err((4, EscapeError::OutOfRangeHexEscape)));
    assert_eq!(unescape_char("\\ы"), Err((3, EscapeError::InvalidEscape)));
    assert_eq!(unescape_char("\r"), Err((1, EscapeError::BareCarriageReturn)));
    assert_eq!(unescape_char("\r\n"), Err((1, EscapeError::EscapeOnlyChar)));
    assert_eq!(unescape_char("\\u"), Err((2, EscapeError::InvalidUnicodeEscape)));
    assert_eq!(unescape_char("\\u("), Err((3, EscapeError::InvalidUnicodeEscape)));
    assert_eq!(unescape_char("\\u{d800}"), Err((8, EscapeError::LoneSurrogateUnicodeEscape)));
    assert_eq!(unescape_char("\\u{110000}"), Err((10, EscapeError::OutOfRangeUnicodeEscape)));
    assert_eq!(unescape_char("\\u{0000000}"), Err((10, EscapeError::OverlongUnicodeEscape)));
    assert_eq!(unescape_char("\\u{12"), Err((5, EscapeError::UnclosedUnicodeEscape)));
    assert_eq!(unescape_char("\\u{1z}"), Err((5, EscapeError::InvalidCharInUnicodeEscape)));
    assert_eq!(unescape_char("\\u{10FFFF}"), Ok('\u{10FFFF}'));
    assert_eq!(unescape_char("\""), Ok('"'));
}

#[test]
fn byte_error_offsets() {
    assert_eq!(unescape_byte("ы"), Err((2, EscapeError::NonAsciiCharInByte)));
    assert_eq!(unescape_byte("\\u{41}"), Err((6, EscapeError::UnicodeEscapeInByte)));
    assert_eq!(unescape_byte("\""), Ok(b'"'));
    assert_eq!(unescape_byte("ab"), Err((2, EscapeError::MoreThanOneChar)));
}

#[test]
fn str_ranges_and_results() {
    assert_eq!(
        unescape_str("a\\tы\\u{41}"),
        vec![(0..1, Ok('a')), (1..3, Ok('\t')), (3..5, Ok('ы')), (5..11, Ok('A'))]
    );
    assert_eq!(
        unescape_str("a\tb"),
        vec![(0..1, Ok('a')), (1..2, Err(EscapeError::EscapeOnlyChar)), (2..3, Ok('b'))]
    );
    assert_eq!(unescape_str("\""), vec![(0..1, Err(EscapeError::EscapeOnlyChar))]);
    assert_eq!(unescape_str("'"), vec![(0..1, Ok('\''))]);
    assert_eq!(unescape_str("x\\\n  \t\ny"), vec![(0..1, Ok('x')), (7..8, Ok('y'))]);
    assert_eq!(unescape_str("\r"), vec![(0..1, Err(EscapeError::BareCarriageReturn))]);
    assert_eq!(unescape_str("\r\n"), vec![(0..2, Ok('\n'))]);
    assert_eq!(unescape_str("\\"), vec![(0..1, Err(EscapeError::LoneSlash))]);
    assert_eq!(unescape_str("\\\r"), vec![(0..2, Err(EscapeError::InvalidEscape))]);
    assert_eq!(unescape_str("\\\n"), vec![]);
}

#[test]
fn str_modes() {
    assert_eq!(
        unescape_str_or_byte_str("'\"", Mode::Char),
        vec![(0..1, Err(EscapeError::EscapeOnlyChar)), (1..2, Ok('"'))]
    );
    assert_eq!(
        unescape_str_or_byte_str("aы", Mode::ByteStr),
        vec![(0..1, Ok('a')), (1..3, Err(EscapeError::NonAsciiCharInByte))]
    );
}

#[test]
fn byte_str_ranges() {
    assert_eq!(unescape_byte_str("\\x41\\n"), vec![(0..4, Ok(0x41u8)), (4..6, Ok(10u8))]);
    assert_eq!(unescape_byte_str("\\u{ff}"), vec![(0..6, Ok(0xFFu8))]);
    assert_eq!(unescape_byte_str("\t"), vec![(0..1, Err(EscapeError::EscapeOnlyChar))]);
}

#[test]
fn byte_from_char_values() {
    assert_eq!(byte_from_char('A'), 65);
    assert_eq!(byte_from_char('\u{ff}'), 255);
    assert_eq!(byte_from_char('\0'), 0);
}

#[test]
fn mode_predicates() {
    assert!(Mode::Char.in_single_quotes());
    assert!(Mode::Byte.in_single_quotes());
    assert!(!Mode::Str.in_single_quotes());
    assert!(Mode::ByteStr.in_double_quotes());
    assert!(!Mode::Char.in_double_quotes());
    assert!(Mode::Char.allow_unicode());
    assert!(Mode::Str.allow_unicode());
    assert!(!Mode::Byte.allow_unicode());
    assert!(!Mode::ByteStr.allow_unicode());
}

#[test]
fn scan_escape_positions() {
    let chars = ['\\', 'x', '4', '1', 'z'];
    assert_eq!(scan_escape('\\', &chars, 1, Mode::Char), (Ok('A'), 4));
    assert_eq!(scan_escape('z', &chars, 5, Mode::Char), (Ok('z'), 5));
    let chars = ['\\', 'u', '{', '_', '}'];
    assert_eq!(scan_escape('\\', &chars, 1, Mode::Char), (Err(EscapeError::LeadingUnderscoreUnicodeEscape), 4));
    let chars = ['\\', 'u', '{', '4', '_', '1', '}'];
    assert_eq!(scan_escape('\\', &chars, 1, Mode::Byte), (Err(EscapeError::UnicodeEscapeInByte), 7));
}

#[test]
fn text_helpers() {
    assert_eq!(chars_of("aы🦀"), vec!['a', 'ы', '🦀']);
    assert_eq!(literal_chars(""), Vec::<char>::new());
    assert_eq!(char_len_utf8('a'), 1);
    assert_eq!(char_len_utf8('ы'), 2);
    assert_eq!(char_len_utf8('●'), 3);
    assert_eq!(char_len_utf8('🦀'), 4);
    assert_eq!(hex_digit_value('7'), Some(7));
    assert_eq!(hex_digit_value('b'), Some(11));
    assert_eq!(hex_digit_value('F'), Some(15));
    assert_eq!(hex_digit_value('g'), None);
    assert_eq!(hex_digit_value('_'), None);
    let chars = ['a', 'ы', '🦀', '●'];
    assert_eq!(advance_offset(&chars, 0, 4, 0), 10);
    assert_eq!(advance_offset(&chars, 1, 3, 1), 7);
}

#[test]
fn char_escape_roundtrip() {
    for c in ['a', '\t', '\r', '\n', '\\', '\'', '"', ' ', '~', '\0', '\u{7}', '\u{7f}', 'é', 'ы', '●', '🦀', '\u{10FFFF}'] {
        let escaped = c.escape_default().to_string();
        assert_eq!(unescape_char(&escaped), Ok(c));
    }
}

#[test]
fn str_escape_roundtrip() {
    let text = "héllo\t\"wörld\"\n\\ 'q' \u{1}🦀";
    let escaped = text.escape_default().to_string();
    let results: Vec<Result<char, EscapeError>> =
        unescape_str(&escaped).into_iter().map(|(_, r)| r).collect();
    let expected: Vec<Result<char, EscapeError>> = text.chars().map(Ok).collect();
    assert_eq!(results, expected);
}

#[test]
fn hex_escape_values() {
    assert_eq!(unescape_char("\\x7f"), Ok('\u{7f}'));
    assert_eq!(unescape_byte("\\x7f"), Ok(0x7f));
    assert_eq!(unescape_char("\\x2a"), Ok('*'));
    assert_eq!(unescape_byte("\\x2a"), Ok(b'*'));
}

#[test]
fn byte_accepted_is_char_accepted() {
    for text in ["a", "\\n", "\\x41", "\\\\", "\\'", "~"] {
        let b = unescape_byte(text).unwrap();
        assert!(b <= 0x7F);
        assert_eq!(unescape_char(text), Ok(b as char));
    }
}

#[test]
fn plain_literals_stand_for_themselves() {
    assert_eq!(unescape_char("é"), Ok('é'));
    assert_eq!(unescape_char("\""), Ok('"'));
    assert_eq!(unescape_byte("z"), Ok(b'z'));
    assert_eq!(
        unescape_str("ab é'"),
        vec![(0..1, Ok('a')), (1..2, Ok('b')), (2..3, Ok(' ')), (3..5, Ok('é')), (5..6, Ok('\''))]
    );
}

#[test]
fn str_ranges_are_ordered() {
    let units = unescape_str("a\\u{1F600}\\\n  b\tc\\q\r\nd");
    let mut last_end = 0;
    for (range, _) in units {
        assert!(range.start < range.end);
        assert!(last_end <= range.start);
        last_end = range.end;
    }
    assert!(last_end <= "a\\u{1F600}\\\n  b\tc\\q\r\nd".len());
}

fn shifted<T: Clone>(units: Vec<(std::ops::Range<usize>, T)>, k: usize) -> Vec<(std::ops::Range<usize>, T)> {
    units.into_iter().map(|(r, t)| (r.start + k..r.end + k, t)).collect()
}

#[test]
fn byte_str_checked_stops_at_wide_char() {
    let (units, complete) = unescape_byte_str_checked(r"a\x41ыb");
    assert_eq!(units, vec![(0..1, Ok(b'a')), (1..5, Ok(0x41u8))]);
    assert!(!complete);
    let (units, complete) = unescape_byte_str_checked(r"a\u{e9}\t");
    assert_eq!(units, vec![(0..1, Ok(b'a')), (1..7, Ok(0xE9u8)), (7..9, Ok(b'\t'))]);
    assert!(complete);
    let (units, complete) = unescape_byte_str_checked(r"\u{100}");
    assert_eq!(units, vec![]);
    assert!(!complete);
}

#[test]
fn line_continuation_splits_contents() {
    let a = "ab ы";
    let b = "x\\y";
    for nl in ["\n", "\r\n"] {
        for w in ["", "  \t\n ", "\r"] {
            let src = format!("{}\\{}{}{}", a, nl, w, b);
            for mode in [Mode::Str, Mode::Char, Mode::ByteStr] {
                let mut expected = unescape_str_or_byte_str(a, mode);
                expected.extend(shifted(unescape_str_or_byte_str(b, mode), a.len() + 1 + nl.len() + w.len()));
                assert_eq!(unescape_str_or_byte_str(&src, mode), expected);
            }
        }
    }
}

#[test]
fn invalid_escape_then_rest() {
    for c in ['v', 'ы', '🦀', ' '] {
        let b = "q\\n";
        let src = format!("\\{}{}", c, b);
        let mut expected = vec![(0..1 + c.len_utf8(), Err(EscapeError::InvalidEscape))];
        expected.extend(shifted(unescape_str(b), 1 + c.len_utf8()));
        assert_eq!(unescape_str(&src), expected);
    }
}

#[test]
fn carriage_return_in_contents() {
    let a = "zы";
    let n = a.len();
    let src = format!("{}\r\n\\t", a);
    let mut expected = unescape_str(a);
    expected.push((n..n + 2, Ok('\n')));
    expected.extend(shifted(unescape_str("\\t"), n + 2));
    assert_eq!(unescape_str(&src), expected);
    let src = format!("{}\rq", a);
    let mut expected = unescape_str(a);
    expected.push((n..n + 1, Err(EscapeError::BareCarriageReturn)));
    expected.extend(shifted(unescape_str("q"), n + 1));
    assert_eq!(unescape_str(&src), expected);
}
