//! Decoding core for a Bell 103 audio-frequency-shift-keyed signal.
//!
//! Per fixed-length block of PCM samples, a tone comparator (driven by a
//! pair of Goertzel estimators) yields one bit; this crate's verified core
//! turns that bit sequence into the transmitted text: bits are grouped into
//! 10-bit frames, each frame's start/stop pattern is validated, and the
//! seven data bits are packed least-significant-bit first into a character
//! code.

pub mod blocks;
pub mod decoder;
pub mod frame;

pub use blocks::split_blocks;
pub use decoder::decode_bitstream;
pub use decoder::decoded_chars;
pub use decoder::BitStreamAssembler;
pub use decoder::MessageBuilder;
pub use frame::decode_frame;
