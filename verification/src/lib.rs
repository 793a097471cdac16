//! A compact, JSON-derived text codec for structured data.
//!
//! The decoder ([`de::Deserializer`]) reads a text buffer left to right, one
//! token per operation; the encoder ([`ser::Serializer`]) appends fragments
//! to an output sink. Both are specified over the sequence of characters
//! that they read or write:
//!
//! - [`grammar`] says what each kind of token denotes at the start of a text;
//! - [`escape`] and [`number`] say the same of string literals and of
//!   decimal literals, and hold the functions that read and write them;
//! - [`bytes`] names what the `base64` crate makes of a byte string;
//! - [`laws`] proves that what the encoder writes is read back by the
//!   decoder, and that whitespace before a token changes nothing;
//! - [`error`] holds the failure kinds and their messages.
//!
//! The wire format differs from JSON where that saves space or precision:
//! booleans are `1` and `0`, integers of 64 bits and more are quoted, byte
//! strings are URL-safe base64, and a float may be `null`.

pub mod bytes;
pub mod de;
pub mod error;
pub mod escape;
pub mod grammar;
pub mod laws;
pub mod number;
pub mod ser;
pub mod text;
