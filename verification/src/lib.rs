//! Incremental, push-driven lossy text decoding.
//!
//! Byte chunks are fed to a decoder one at a time, with chunk boundaries
//! allowed to fall anywhere, even in the middle of a multi-byte character.
//! Decoded text is pushed to a downstream sink; malformed input is repaired
//! by substituting U+FFFD and reported through the sink's error channel.

use vstd::prelude::*;

pub mod emits;
pub mod ext;
pub mod laws;
pub mod lossy_decoder;
pub mod sink;
pub mod toks;
pub mod utf8_decoder;

pub use sink::Accumulate;
pub use sink::TendrilSink;
pub use lossy_decoder::Encoding;
pub use lossy_decoder::EncodingRaw;
pub use lossy_decoder::LossyDecoder;
pub use utf8_decoder::Utf8LossyDecoder;

verus! {

/// The Unicode replacement character, substituted for each ill-formed
/// byte sequence.
pub open spec fn replacement_char() -> char {
    '\u{fffd}'
}

} // verus!
