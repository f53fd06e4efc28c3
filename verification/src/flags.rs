//! The flag bits of a file entry and their named predicates.
//!
//! Flags are fixed when the entry is created and never change afterwards.

use vstd::prelude::*;

verus! {

/// Blocks `write`, `write_at`, `append`, `truncate`, `reserve` and `delete`
/// (but not `rename`).
pub const FLAG_IMMUTABLE: u32 = 0x1;

/// Blocks `write_at`.
pub const FLAG_APPEND_ONLY: u32 = 0x2;

/// Blocks `rename`.
pub const FLAG_SEALED_NAMES: u32 = 0x4;

/// Reserved intent: appends must stay contiguous or fail. Expressed through
/// the strict append variants rather than enforced automatically.
pub const FLAG_DO_NOT_FRAGMENT: u32 = 0x8;

/// Reserved for content verification on read; defined for format
/// compatibility but not wired to any check.
pub const FLAG_CHECKSUMMED: u32 = 0x10;

/// Whether the immutable bit is set.
pub open spec fn spec_is_immutable(flags: u32) -> bool {
    flags & FLAG_IMMUTABLE != 0
}

/// Whether the append-only bit is set.
pub open spec fn spec_is_append_only(flags: u32) -> bool {
    flags & FLAG_APPEND_ONLY != 0
}

/// Whether the sealed-names bit is set.
pub open spec fn spec_is_sealed(flags: u32) -> bool {
    flags & FLAG_SEALED_NAMES != 0
}

/// Whether the immutable bit is set.
pub fn is_immutable(flags: u32) -> (r: bool)
    ensures
        r == spec_is_immutable(flags),
{
    flags & FLAG_IMMUTABLE != 0
}

/// Whether the append-only bit is set.
pub fn is_append_only(flags: u32) -> (r: bool)
    ensures
        r == spec_is_append_only(flags),
{
    flags & FLAG_APPEND_ONLY != 0
}

/// Whether the sealed-names bit is set.
pub fn is_sealed(flags: u32) -> (r: bool)
    ensures
        r == spec_is_sealed(flags),
{
    flags & FLAG_SEALED_NAMES != 0
}

} // verus!
