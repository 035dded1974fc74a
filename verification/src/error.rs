use vstd::prelude::*;

verus! {

/// Why the contents of a literal could not be unescaped.
#[derive(Debug, Clone, Copy, PartialEq, Eq, Structural)]
pub enum EscapeError {
    /// A char or byte literal with nothing in it.
    ZeroChars,
    /// A char or byte literal holding more than one character.
    MoreThanOneChar,
    /// A backslash with nothing after it.
    LoneSlash,
    /// A backslash followed by a character that starts no escape.
    InvalidEscape,
    /// A carriage return not followed by a line feed.
    BareCarriageReturn,
    /// A character that may only appear escaped (tab, line feed, a quote).
    EscapeOnlyChar,
    /// `\x` followed by fewer than two characters.
    TooShortHexEscape,
    /// `\x` followed by a character that is no hexadecimal digit.
    InvalidCharInHexEscape,
    /// `\x` with a value above `0x7F`.
    OutOfRangeHexEscape,
    /// `\u` not followed by `{`.
    InvalidUnicodeEscape,
    /// `\u{` followed by a character that is no hexadecimal digit, `_` or `}`.
    InvalidCharInUnicodeEscape,
    /// `\u{}`.
    EmptyUnicodeEscape,
    /// `\u{` with no closing `}`.
    UnclosedUnicodeEscape,
    /// `\u{_`.
    LeadingUnderscoreUnicodeEscape,
    /// `\u{` with more than six hexadecimal digits.
    OverlongUnicodeEscape,
    /// `\u{..}` naming a surrogate code point.
    LoneSurrogateUnicodeEscape,
    /// `\u{..}` naming a value above `0x10FFFF`.
    OutOfRangeUnicodeEscape,
    /// A `\u{..}` escape in a byte literal.
    UnicodeEscapeInByte,
    /// A character above `0x7F` in a byte literal.
    NonAsciiCharInByte,
}

} // verus!
