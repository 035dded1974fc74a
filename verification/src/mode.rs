use vstd::prelude::*;

verus! {

/// The kind of literal whose contents are being unescaped.
#[derive(Debug, Clone, Copy, PartialEq, Eq, Structural)]
pub enum Mode {
    Char,
    Str,
    Byte,
    ByteStr,
}

impl Mode {
    /// Whether the literal is delimited by single quotes (char and byte literals).
    #[verifier::allow_in_spec]
    pub fn in_single_quotes(self) -> bool
        returns
            self is Char || self is Byte,
    {
        match self {
            Mode::Char | Mode::Byte => true,
            Mode::Str | Mode::ByteStr => false,
        }
    }

    /// Whether the literal is delimited by double quotes (string and byte-string literals).
    #[verifier::allow_in_spec]
    pub fn in_double_quotes(self) -> bool
        returns
            !self.in_single_quotes(),
    {
        !self.in_single_quotes()
    }

    /// Whether the literal may denote characters outside ASCII.
    #[verifier::allow_in_spec]
    pub fn allow_unicode(self) -> bool
        returns
            self is Char || self is Str,
    {
        match self {
            Mode::Byte | Mode::ByteStr => false,
            Mode::Char | Mode::Str => true,
        }
    }
}

} // verus!
