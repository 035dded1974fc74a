//! Validation of the contents of char, byte, string and byte-string
//! literals, and their translation into the values they denote.
pub mod error;
pub mod mode;
pub mod spec;
pub mod text;
pub mod scan;
pub mod unescape;
pub mod laws;
pub mod escape;
