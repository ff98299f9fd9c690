//! Decoder for the HTTP/1.1 "chunked" transfer coding.
//!
//! A chunked body is a run of chunks, each a hexadecimal size line ended by
//! CRLF, that many data bytes, and a trailing CRLF, closed by a zero-size
//! chunk with one final CRLF. [`Decoder`] consumes such a body from an
//! in-memory source and hands the plain data bytes back through a streaming
//! read operation.

mod hex;
mod machine;
mod encoding;
mod decoder;

pub use decoder::Decoder;
pub use decoder::DecoderView;
pub use decoder::decode_all_with;

pub use machine::CR;
pub use machine::LF;
pub use machine::DecoderError;
pub use machine::DecoderState;
pub use machine::DecodeOutcome;
pub use machine::ReadStep;
pub use machine::SizeLine;
pub use machine::decode_rest;
pub use machine::chunk_data_rest;
pub use machine::read_step;
pub use machine::data_step;
pub use machine::pending;
pub use machine::state_wf;
pub use machine::size_line;
pub use machine::crlf_error_at;
pub use machine::find_cr;
pub use machine::min_nat;
pub use machine::lemma_read_step_drains;
pub use machine::lemma_size_line_bounds;
pub use machine::lemma_data_step_consumed;
pub use machine::lemma_find_cr_bounds;
pub use machine::lemma_find_cr_at;
pub use machine::lemma_find_cr_none;
pub use hex::is_hex_digit;
pub use hex::hex_digit_value;
pub use hex::all_hex_digits;
pub use hex::hex_value;
pub use hex::lemma_hex_value_step;
pub use hex::lemma_hex_value_prefix_le;
pub use encoding::hex_digit_ascii;
pub use encoding::hex_repr;
pub use encoding::encode_chunk;
pub use encoding::terminal_chunk;
pub use encoding::encode_chunks;
pub use encoding::lemma_encode_decode_round_trip;
