//! Inspection and selective migration of a blockchain node's key-value state.
//!
//! The term codec reads and writes the tagged binary term format in three modes;
//! the entry extractor reads chain metadata through it; the chain walker and the
//! replicator decide what to copy between two stores, while the caller does the I/O.
pub mod canonical;
pub mod decode;
pub mod decode_spec;
pub mod encode;
pub mod entry;
pub mod external;
pub mod fields;
pub mod keys;
pub mod migrate;
pub mod numeric;
pub mod order;
pub mod reorder;
pub mod roundtrip;
pub mod term;
pub mod walker;
pub mod wire;

pub use canonical::compare_terms;
pub use decode::{decode, DecodeError};
pub use encode::{encode_native, encode_safe, encode_safe_deterministic, Mode};
pub use entry::get_prev_height_from_vecpak_entry;
pub use term::{Pid, Term};
