//! Codec for a line-oriented tabular data format: a text header of
//! `key<TAB>value` attribute lines, a `[DATA]` marker, a tab-separated
//! column-name line, and rows of tab-separated numeric fields.
//!
//! The codec works on bytes and is exact: decoding and encoding are
//! specified against a sequence model, and the round-trip, blank-line,
//! ordering and determinism laws are proved about that model ([`laws`]).
//! Each data value is carried as its numeric text, checked against the
//! documented floating-point literal grammar ([`number`]); turning that
//! text into a machine float, and rendering a float back into text, is the
//! caller's business at the edge. This keeps the codec byte-faithful — what
//! was read is what is written back — and keeps floating point out of the
//! verified core.
pub mod codec;
pub mod laws;
pub mod model;
pub mod number;
pub mod text;

pub use codec::Attr;
pub use codec::DatFile;
pub use codec::ReadError;
pub use codec::Signal;
