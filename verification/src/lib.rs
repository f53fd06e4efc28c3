//! An embedded, fixed-capacity, in-memory file system.
//!
//! A byte-addressable storage arena is divided into fixed-size pages; a
//! bounded table of named files is backed by contiguous runs of pages
//! ("extents"); the whole state can be persisted to and restored from a
//! versioned binary format with an integrity checksum.

use vstd::prelude::*;

mod allocator;
mod codec;
mod crc;
mod errors;
mod flags;
mod fs;
mod ops;

pub use allocator::Extent;
pub use allocator::PageAllocator;
pub use codec::lemma_dump_restore_round_trip;
pub use codec::spec_dump;
pub use codec::spec_dump_body;
pub use codec::spec_entries_bytes;
pub use codec::spec_entry_bytes;
pub use codec::spec_header_bytes;
pub use codec::spec_parse_entries;
pub use codec::spec_parse_entry;
pub use codec::spec_restore;
pub use codec::FORMAT_VERSION;
pub use crc::crc32_cksum;
pub use crc::crc_state;
pub use errors::FsError;
pub use errors::NameFault;
pub use flags::FLAG_APPEND_ONLY;
pub use flags::FLAG_CHECKSUMMED;
pub use flags::FLAG_DO_NOT_FRAGMENT;
pub use flags::FLAG_IMMUTABLE;
pub use flags::FLAG_SEALED_NAMES;
pub use flags::is_immutable;
pub use flags::is_append_only;
pub use flags::is_sealed;
pub use fs::create_result;
pub use fs::delete_result;
pub use fs::lemma_allocator_partition;
pub use fs::lemma_files_do_not_alias;
pub use fs::lemma_write_within_file_preserves_others;
pub use fs::lemma_names_unique;
pub use fs::rename_result;
pub use fs::valid_name;
pub use fs::AbsEntry;
pub use fs::AbsFs;
pub use fs::FileEntry;
pub use fs::MemoryFs;
pub use ops::append_result;
pub use ops::grow_result;
pub use ops::reserve_result;
pub use ops::truncate_result;
pub use ops::write_at_result;
pub use ops::write_result;

verus! {

/// Total size of the storage arena in bytes.
pub const STORAGE_SIZE: usize = 4096;

/// Size of one allocation page in bytes.
pub const PAGE_SIZE: usize = 32;

/// Number of pages in the storage arena.
pub const NUM_PAGES: usize = 128;

/// Number of 32-bit words in the page bitmap.
pub const BITMAP_WORDS: usize = 4;

/// Maximum number of live file entries.
pub const MAX_NUM_FILES: usize = 32;

/// Maximum length of a file name, in UTF-8 bytes.
pub const MAX_FILE_NAME_LENGTH: usize = 255;

} // verus!
