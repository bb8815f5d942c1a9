//! A streaming UTF-8 decoder: pulls bytes one at a time from an abstract
//! byte source and produces characters together with the byte spans they
//! were decoded from, validating the encoding strictly and recovering
//! from errors byte by byte.

mod decode;
mod decoder;
mod laws;
mod source;

pub use decode::{DecodeResult, ErrorKind, Span};
pub use decode::{
    attempt, continuation_need, continue_attempt, finish_bytes, init_state, run_from, Attempt,
    DecSt,
};
pub use decoder::{ReadChars, DEFAULT_CAPACITY};
pub use laws::{
    chars_of, decoded_items, events_of_bytes, lemma_ascii_identity, lemma_decode_valid_utf8,
    lemma_decoded_items_shape, lemma_empty_input, lemma_round_trip,
};
pub use source::{ByteSource, PullEvent, ScriptedSource, SliceSource};
