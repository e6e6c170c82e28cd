//! Running n-gram statistics over a stream of typed characters, with a
//! line-oriented text encoding for persisting them.
pub mod table;
pub mod codec;
pub mod grams;
pub mod ingest;

pub use table::FreqTable;
pub use codec::{FormatError, decode, encode};
pub use grams::{CountOverflow, Log, SENTINEL};
pub use ingest::{Decoder, Transition, count_decoded, decoder_keycode, handle_event};
