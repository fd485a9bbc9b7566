//! A term dictionary: a sorted, immutable map from terms (byte strings) to
//! `TermInfo` records, stored as a delta-encoded stream of entries with a
//! checkpoint table and a sparse block index.
//!
//! A dictionary file holds, in this order:
//!
//! * one byte that tells whether the records hold positions, `0xff` or `0`;
//! * the stream, one record for each entry, each key written as what it
//!   shares with the key before it and what follows, each offset as its
//!   distance from the offset before it;
//! * four zero bytes;
//! * the block index, a transducer from the first key of each block of
//!   1024 entries to the place of the block's checkpoint;
//! * the checkpoint table, twelve bytes for each block and twelve more for
//!   the end of the stream;
//! * a footer of two little-endian `u64`: where the block index starts and
//!   where the checkpoint table starts.
//!
//! [`TermDictionaryBuilderImpl`] writes such a file, [`TermDictionaryImpl`]
//! opens one, and a [`TermStreamerImpl`] yields its entries in the order of
//! their keys, from a checkpoint on. The contracts are stated over the list
//! of entries that a dictionary holds; `layout` says what the file of a
//! list of entries is, and `laws` what follows for lookups and streams.

pub mod block_index;
pub mod builder;
pub mod checkpoint;
pub mod common;
pub mod delta_encoder;
pub mod error;
pub mod laws;
pub mod layout;
pub mod order;
pub mod postings;
pub mod record;
pub mod schema;
pub mod stream;
pub mod streamer;
pub mod termdict;
pub mod validate;

pub use crate::builder::TermDictionaryBuilderImpl;
pub use crate::checkpoint::CheckPoint;
pub use crate::error::DictError;
pub use crate::postings::TermInfo;
pub use crate::streamer::{TermStreamerBuilderImpl, TermStreamerImpl};
pub use crate::termdict::TermDictionaryImpl;
