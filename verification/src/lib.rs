//! Byte-buffer handling with verified contracts.
//!
//! The crate offers three related capabilities for working with raw byte
//! buffers:
//!
//! - a casting layer ([`Pod`]) that views a byte buffer as a typed value or a
//!   slice of typed values, validated for size and alignment;
//! - a deduplicating, offset-addressed blob store ([`OffsetSet`]) and its
//!   UTF-8 specialization ([`StringTable`]), which intern repeated byte
//!   sequences behind stable integer offsets;
//! - a position-tracking [`Writer`] that can pad its output up to a requested
//!   alignment.
//!
//! A machine address is not observable from verified code, so every operation
//! that depends on a buffer's alignment takes the buffer's distance from an
//! aligned origin (for example, its offset within a buffer that the caller
//! knows to be maximally aligned) as an explicit `pos` argument.

mod offset_set;
mod pod;
mod string_table;
mod utils;
mod varint;
mod writer;

pub use offset_set::OffsetSet;
pub use offset_set::ReadOffsetSetError;
pub use offset_set::ValidationError;
pub use offset_set::entry_encoding;
pub use offset_set::entry_end_at;
pub use offset_set::entry_items_at;
pub use offset_set::entry_read_result;
pub use offset_set::entry_scan;
pub use offset_set::lemma_content_indexed_once;
pub use offset_set::lemma_entry_round_trip;
pub use offset_set::lemma_indexed_offset_unique;
pub use offset_set::lemma_reload_keeps_offsets;
pub use offset_set::lemma_wf_scan;
pub use pod::Pod;
pub use pod::as_bytes;
pub use pod::bytes_of_items;
pub use pod::items_of_bytes;
pub use pod::ref_from_bytes;
pub use pod::ref_from_prefix;
pub use pod::slice_as_bytes;
pub use pod::slice_from_bytes;
pub use pod::slice_from_prefix;
pub use string_table::ReadStringError;
pub use string_table::StringTable;
pub use string_table::lemma_string_round_trip;
pub use utils::align_to;
pub use utils::align_to_type;
pub use utils::is_aligned_to;
pub use utils::is_power_of_two;
pub use utils::padding_len;
pub use utils::padding_needed;
pub use varint::leb128_decode;
pub use varint::leb128_encode;
pub use varint::read_leb128;
pub use varint::write_leb128;
pub use writer::Writer;
pub use writer::zero_bytes;
