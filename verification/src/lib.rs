//! A verified decoder for the legacy `typedstream` binary archival
//! format, as used to carry attributed-string message bodies, together
//! with the attachment-metadata lookups that accompany such messages.
//!
//! The decoder turns an untyped byte buffer into an ordered sequence of
//! typed values while walking inline class chains and resolving
//! back-references through two append-only tables. Every decoding
//! function is bounds-checked, never panics on malformed input, and
//! carries a contract tying it to the mathematical decoder in [`model`],
//! which pins the whole parse down as a function of the input bytes.

pub mod archive;
pub mod attachment;
pub mod model;
pub mod typedstream;
