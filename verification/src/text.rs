use vstd::prelude::*;
use vstd::utf8::*;
use vstd::std_specs::iter::IteratorSpec;
use crate::spec::{byte_offset, char_width, hex_value, is_char_value};

verus! {

broadcast use vstd::string::axiom_spec_iter, vstd::string::next_postcondition, vstd::slice::axiom_spec_len;

/// The UTF-8 encoding of a concatenation is the concatenation of the encodings.
pub proof fn lemma_encode_utf8_concat(a: Seq<char>, b: Seq<char>)
    ensures
        encode_utf8(a + b) == encode_utf8(a) + encode_utf8(b),
    decreases a.len(),
{
    if a.len() == 0 {
        assert(a + b =~= b);
        assert(encode_utf8(a) =~= Seq::<u8>::empty());
        assert(encode_utf8(a) + encode_utf8(b) =~= encode_utf8(b));
    } else {
        assert((a + b).drop_first() =~= a.drop_first() + b);
        assert((a + b)[0] == a[0]);
        lemma_encode_utf8_concat(a.drop_first(), b);
        assert(encode_utf8(a + b) =~= encode_utf8(a) + encode_utf8(b));
    }
}

/// One character encodes to `char_width` bytes.
pub proof fn lemma_encode_char_len(c: char)
    ensures
        encode_utf8(seq![c]).len() == char_width(c),
{
    char_is_scalar(c);
    assert(seq![c].drop_first() =~= Seq::<char>::empty());
    assert(encode_utf8(seq![c]) =~= encode_scalar(c as u32) + encode_utf8(Seq::<char>::empty()));
}

/// The byte offset of the next character is that of the current one plus its width.
pub proof fn lemma_byte_offset_step(chars: Seq<char>, k: int)
    requires
        0 <= k < chars.len(),
    ensures
        byte_offset(chars, k + 1) == byte_offset(chars, k) + char_width(chars[k]),
{
    assert(chars.take(k + 1) =~= chars.take(k) + seq![chars[k]]);
    lemma_encode_utf8_concat(chars.take(k), seq![chars[k]]);
    lemma_encode_char_len(chars[k]);
}

/// Byte offsets grow with the character index, up to the length of the whole encoding.
pub proof fn lemma_byte_offset_mono(chars: Seq<char>, j: int, k: int)
    requires
        0 <= j <= k <= chars.len(),
    ensures
        byte_offset(chars, j) <= byte_offset(chars, k) <= encode_utf8(chars).len(),
    decreases k - j,
{
    if j < k {
        lemma_byte_offset_step(chars, k - 1);
        lemma_byte_offset_mono(chars, j, k - 1);
    }
    assert(chars =~= chars.take(k) + chars.skip(k));
    lemma_encode_utf8_concat(chars.take(k), chars.skip(k));
}

/// The characters of `s`, in order.
pub fn chars_of(s: &str) -> (v: Vec<char>)
    ensures
        v@ == s@,
{
    let mut it = s.chars();
    let mut v: Vec<char> = Vec::new();
    loop
        invariant
            v@ + it.remaining() == s@,
            it.decrease() is Some,
        decreases it.decrease()->0,
    {
        match it.next() {
            Some(c) => {
                v.push(c);
            },
            None => {
                assert(v@ =~= s@);
                return v;
            },
        }
    }
}

/// The characters of `s`, whose UTF-8 encoding, being that of a string in memory,
/// has a length that fits in a `usize`.
pub fn literal_chars(s: &str) -> (v: Vec<char>)
    ensures
        v@ == s@,
        encode_utf8(v@).len() <= usize::MAX,
{
    // The encoding lies in memory as a slice, so its length is a `usize`.
    let bytes = s.as_bytes();
    let _byte_len = bytes.len();
    chars_of(s)
}

/// Number of bytes in the UTF-8 encoding of `c`.
pub fn char_len_utf8(c: char) -> (n: usize)
    ensures
        n == char_width(c),
{
    let v = c as u32;
    if v <= 0x7F {
        1
    } else if v <= 0x7FF {
        2
    } else if v <= 0xFFFF {
        3
    } else {
        4
    }
}

/// The value of `c` as a hexadecimal digit, if it is one.
pub fn hex_digit_value(c: char) -> (d: Option<u32>)
    ensures
        d == hex_value(c),
{
    let v = c as u32;
    if '0' as u32 <= v && v <= '9' as u32 {
        Some(v - '0' as u32)
    } else if 'a' as u32 <= v && v <= 'f' as u32 {
        Some(v - 'a' as u32 + 10)
    } else if 'A' as u32 <= v && v <= 'F' as u32 {
        Some(v - 'A' as u32 + 10)
    } else {
        None
    }
}

/// `std::char::from_u32`: the `char` whose code is `v`, or `None` where `v` is no
/// Unicode scalar value (above `0x10FFFF`, or a surrogate in `0xD800..=0xDFFF`), as the
/// standard library documents it.
#[verifier::external_body]
pub(crate) fn char_from_u32(v: u32) -> (c: Option<char>)
    ensures
        c == (if is_char_value(v as nat) { Some(v as char) } else { None::<char> }),
{
    std::char::from_u32(v)
}

/// Advances a byte offset over the characters with indices `from..to`.
pub fn advance_offset(chars: &[char], from: usize, to: usize, offset: usize) -> (r: usize)
    requires
        from <= to <= chars@.len(),
        offset == byte_offset(chars@, from as int),
        encode_utf8(chars@).len() <= usize::MAX,
    ensures
        r == byte_offset(chars@, to as int),
{
    let mut k = from;
    let mut off = offset;
    while k < to
        invariant
            from <= k <= to <= chars@.len(),
            off == byte_offset(chars@, k as int),
            encode_utf8(chars@).len() <= usize::MAX,
        decreases to - k,
    {
        proof {
            lemma_byte_offset_step(chars@, k as int);
            lemma_byte_offset_mono(chars@, k as int + 1, chars@.len() as int);
        }
        off = off + char_len_utf8(chars[k]);
        k = k + 1;
    }
    off
}

} // verus!
