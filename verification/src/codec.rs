//! The versioned binary dump/restore format, with its integrity checksum.
//!
//! The format, all integers little-endian: a 5-byte magic and a version
//! byte; `page_size`, `num_pages` and `entry_count` as `u32`; per entry a
//! `u16` name length, the name's UTF-8 bytes, and `size`, `flags`,
//! `extent_start_page`, `extent_len_pages` as `u32` (the extent fields zero
//! for an entry without one); then `storage_len` as `u32` and the raw
//! storage arena; and a footer of an 8-byte magic, the `u32` total length
//! of everything before the footer (wrapping), and a CRC-32 over those same
//! bytes.

use vstd::prelude::*;
use vstd::bytes::spec_u16_from_le_bytes;
use vstd::bytes::spec_u16_to_le_bytes;
use vstd::bytes::spec_u32_from_le_bytes;
use vstd::bytes::spec_u32_to_le_bytes;

use crate::allocator::Extent;
use crate::crc::crc32_cksum;
use crate::crc::crc_state;
use crate::crc::crc_update;
use crate::errors::FsError;
use crate::fs::matches_covers;
use crate::fs::valid_name;
use crate::fs::AbsEntry;
use crate::fs::AbsFs;
use crate::MAX_FILE_NAME_LENGTH;
use crate::MAX_NUM_FILES;
use crate::NUM_PAGES;
use crate::PAGE_SIZE;
use crate::STORAGE_SIZE;

verus! {

/// The format's version byte.
pub const FORMAT_VERSION: u8 = 2;

/// The 5 header magic bytes, "MEMFS".
pub open spec fn magic_bytes() -> Seq<u8> {
    seq![77u8, 69u8, 77u8, 70u8, 83u8]
}

/// The 8 footer magic bytes, "MEMFSEND".
pub open spec fn footer_magic_bytes() -> Seq<u8> {
    seq![77u8, 69u8, 77u8, 70u8, 83u8, 69u8, 78u8, 68u8]
}

/// The serialized header for `count` entries.
pub open spec fn spec_header_bytes(count: nat) -> Seq<u8> {
    magic_bytes() + seq![FORMAT_VERSION] + spec_u32_to_le_bytes(PAGE_SIZE as u32)
        + spec_u32_to_le_bytes(NUM_PAGES as u32) + spec_u32_to_le_bytes(count as u32)
}

/// The serialized form of one entry.
pub open spec fn spec_entry_bytes(e: AbsEntry) -> Seq<u8> {
    spec_u16_to_le_bytes(e.name.len() as u16) + e.name + spec_u32_to_le_bytes(e.size as u32)
        + spec_u32_to_le_bytes(e.flags) + spec_u32_to_le_bytes(
        match e.extent {
            Some(x) => x.start_page as u32,
            None => 0u32,
        },
    ) + spec_u32_to_le_bytes(
        match e.extent {
            Some(x) => x.len_pages as u32,
            None => 0u32,
        },
    )
}

/// The serialized entry table, in table order.
pub open spec fn spec_entries_bytes(entries: Seq<AbsEntry>) -> Seq<u8>
    decreases entries.len(),
{
    if entries.len() == 0 {
        Seq::empty()
    } else {
        spec_entry_bytes(entries.first()) + spec_entries_bytes(entries.drop_first())
    }
}

/// Everything before the footer: header, entry table, arena length, arena.
pub open spec fn spec_dump_body(a: AbsFs) -> Seq<u8> {
    spec_header_bytes(a.entries.len()) + spec_entries_bytes(a.entries) + spec_u32_to_le_bytes(
        STORAGE_SIZE as u32,
    ) + a.storage
}

/// The whole dump: the body, then the footer magic, the wrapped total
/// length of the body, and the body's checksum.
pub open spec fn spec_dump(a: AbsFs) -> Seq<u8> {
    let body = spec_dump_body(a);
    body + footer_magic_bytes() + spec_u32_to_le_bytes((body.len() % 0x1_0000_0000) as u32)
        + spec_u32_to_le_bytes(crc32_cksum(body))
}

/// The little-endian `u16` at `pos`.
pub open spec fn u16_at(b: Seq<u8>, pos: int) -> u16 {
    spec_u16_from_le_bytes(b.subrange(pos, pos + 2))
}

/// The little-endian `u32` at `pos`.
pub open spec fn u32_at(b: Seq<u8>, pos: int) -> u32 {
    spec_u32_from_le_bytes(b.subrange(pos, pos + 4))
}

/// Parses and validates one entry at `pos`: name length in range, a name
/// held to the same rules as `create` enforces, extent fields in bounds
/// and consistent with the size. An entry without an extent must carry
/// zero in both extent fields, exactly as the dump writes it.
pub open spec fn spec_parse_entry(b: Seq<u8>, pos: int) -> Option<(AbsEntry, int)> {
    if pos + 2 > b.len() {
        None
    } else {
        let nl = u16_at(b, pos) as int;
        if nl < 1 || nl > MAX_FILE_NAME_LENGTH {
            None
        } else if pos + 2 + nl + 16 > b.len() {
            None
        } else {
            let name = b.subrange(pos + 2, pos + 2 + nl);
            let size = u32_at(b, pos + 2 + nl) as nat;
            let flags = u32_at(b, pos + 2 + nl + 4);
            let start = u32_at(b, pos + 2 + nl + 8) as int;
            let lenp = u32_at(b, pos + 2 + nl + 12) as int;
            if !valid_name(name) {
                None
            } else if lenp == 0 {
                if size != 0 || start != 0 {
                    None
                } else {
                    Some(
                        (
                            AbsEntry { name, size: 0, flags, extent: None::<Extent> },
                            pos + 2 + nl + 16,
                        ),
                    )
                }
            } else if start + lenp > NUM_PAGES {
                None
            } else if size > lenp * PAGE_SIZE {
                None
            } else {
                Some(
                    (
                        AbsEntry {
                            name,
                            size,
                            flags,
                            extent: Some(
                                Extent { start_page: start as usize, len_pages: lenp as usize },
                            ),
                        },
                        pos + 2 + nl + 16,
                    ),
                )
            }
        }
    }
}

/// Parses `n` entries starting at `pos`.
pub open spec fn spec_parse_entries(b: Seq<u8>, pos: int, n: nat) -> Option<(Seq<AbsEntry>, int)>
    decreases n,
{
    if n == 0 {
        Some((Seq::empty(), pos))
    } else {
        match spec_parse_entry(b, pos) {
            None => None,
            Some((e, pos2)) => match spec_parse_entries(b, pos2, (n - 1) as nat) {
                None => None,
                Some((rest, end)) => Some((seq![e] + rest, end)),
            },
        }
    }
}

/// Parses and validates a whole dump: magic, version and configuration;
/// every entry; the arena; the footer's magic, total length and checksum;
/// and the well-formedness of the resulting state (unique names, disjoint
/// extents, a bounded table). Trailing bytes after the footer are ignored,
/// as a streaming reader would never see them.
pub open spec fn spec_restore(b: Seq<u8>) -> Option<AbsFs> {
    if b.len() < 18 {
        None
    } else if b.subrange(0, 5) != magic_bytes() {
        None
    } else if b[5] != FORMAT_VERSION {
        None
    } else if u32_at(b, 6) != PAGE_SIZE as u32 {
        None
    } else if u32_at(b, 10) != NUM_PAGES as u32 {
        None
    } else if u32_at(b, 14) > MAX_NUM_FILES as u32 {
        None
    } else {
        match spec_parse_entries(b, 18, u32_at(b, 14) as nat) {
            None => None,
            Some((entries, pos)) => {
                if pos + 4 > b.len() {
                    None
                } else if u32_at(b, pos) != STORAGE_SIZE as u32 {
                    None
                } else if pos + 4 + STORAGE_SIZE + 16 > b.len() {
                    None
                } else {
                    let storage = b.subrange(pos + 4, pos + 4 + STORAGE_SIZE);
                    let body_end = pos + 4 + STORAGE_SIZE;
                    if b.subrange(body_end, body_end + 8) != footer_magic_bytes() {
                        None
                    } else if u32_at(b, body_end + 8) != (body_end % 0x1_0000_0000) as u32 {
                        None
                    } else if u32_at(b, body_end + 12) != crc32_cksum(b.subrange(0, body_end)) {
                        None
                    } else {
                        let a = AbsFs { entries, storage };
                        if a.wf() {
                            Some(a)
                        } else {
                            None
                        }
                    }
                }
            },
        }
    }
}

/// The dump side of the streaming abstraction: a byte sink that keeps the
/// running CRC of everything written through it.
pub(crate) struct ByteWriter {
    pub(crate) out: Vec<u8>,
    pub(crate) crc: u32,
}

impl ByteWriter {
    /// The bytes written so far.
    pub(crate) open spec fn bytes(self) -> Seq<u8> {
        self.out@
    }

    /// The CRC state tracks the written bytes.
    pub(crate) open spec fn wf(self) -> bool {
        self.crc == crc_state(self.out@)
    }

    pub(crate) fn new() -> (r: ByteWriter)
        ensures
            r.wf(),
            r.bytes() =~= Seq::<u8>::empty(),
    {
        ByteWriter { out: Vec::new(), crc: 0 }
    }

    pub(crate) fn push_u8(&mut self, b: u8)
        requires
            old(self).wf(),
        ensures
            final(self).wf(),
            final(self).bytes() == old(self).bytes().push(b),
    {
        self.out.push(b);
        self.crc = crc_update(self.crc, b);
        proof {
            assert(self.out@.drop_last() =~= old(self).out@);
        }
    }

    pub(crate) fn push_u16(&mut self, x: u16)
        requires
            old(self).wf(),
        ensures
            final(self).wf(),
            final(self).bytes() == old(self).bytes() + spec_u16_to_le_bytes(x),
    {
        let bs = vstd::bytes::u16_to_le_bytes(x);
        self.push_slice(bs.as_slice());
        proof {
            assert(self.bytes() =~= old(self).bytes() + spec_u16_to_le_bytes(x));
        }
    }

    pub(crate) fn push_u32(&mut self, x: u32)
        requires
            old(self).wf(),
        ensures
            final(self).wf(),
            final(self).bytes() == old(self).bytes() + spec_u32_to_le_bytes(x),
    {
        let bs = vstd::bytes::u32_to_le_bytes(x);
        self.push_slice(bs.as_slice());
        proof {
            assert(self.bytes() =~= old(self).bytes() + spec_u32_to_le_bytes(x));
        }
    }

    pub(crate) fn push_slice(&mut self, data: &[u8])
        requires
            old(self).wf(),
        ensures
            final(self).wf(),
            final(self).bytes() == old(self).bytes() + data@,
    {
        let n = data.len();
        let mut i: usize = 0;
        while i < n
            invariant
                self.wf(),
                n == data@.len(),
                i <= n,
                self.bytes() == old(self).bytes() + data@.subrange(0, i as int),
            decreases n - i,
        {
            let b = *vstd::slice::slice_index_get(data, i);
            self.push_u8(b);
            proof {
                assert(old(self).bytes() + data@.subrange(0, i + 1) =~= (old(self).bytes()
                    + data@.subrange(0, i as int)).push(data@[i as int]));
            }
            i = i + 1;
        }
        proof {
            assert(data@.subrange(0, n as int) =~= data@);
        }
    }
}


/// Serializing a table is serializing all but the last entry, then the
/// last.
pub proof fn lemma_entries_bytes_snoc(s: Seq<AbsEntry>)
    requires
        s.len() > 0,
    ensures
        spec_entries_bytes(s) == spec_entries_bytes(s.drop_last()) + spec_entry_bytes(s.last()),
    decreases s.len(),
{
    if s.len() == 1 {
        assert(spec_entries_bytes(s.drop_first()) =~= Seq::<u8>::empty());
        assert(spec_entries_bytes(s.drop_last()) =~= Seq::<u8>::empty());
        assert(s.first() == s.last());
        assert(spec_entries_bytes(s) =~= spec_entries_bytes(s.drop_last()) + spec_entry_bytes(
            s.last(),
        ));
    } else {
        let t = s.drop_first();
        lemma_entries_bytes_snoc(t);
        assert(t.last() == s.last());
        assert(t.drop_last() =~= s.drop_last().drop_first());
        assert(s.drop_last().first() == s.first());
        assert(spec_entries_bytes(s.drop_last()) == spec_entry_bytes(s.first())
            + spec_entries_bytes(s.drop_last().drop_first()));
        assert(spec_entries_bytes(s) =~= spec_entries_bytes(s.drop_last()) + spec_entry_bytes(
            s.last(),
        ));
    }
}

/// A bound on the serialized table's length: each entry takes at most 18
/// bytes of fixed fields plus its name.
pub proof fn lemma_entries_bytes_len(s: Seq<AbsEntry>)
    requires
        forall|i: int| 0 <= i < s.len() ==> (#[trigger] s[i]).name.len() <= MAX_FILE_NAME_LENGTH,
    ensures
        spec_entries_bytes(s).len() <= s.len() * (MAX_FILE_NAME_LENGTH + 18),
    decreases s.len(),
{
    vstd::bytes::lemma_auto_spec_u16_to_from_le_bytes();
    vstd::bytes::lemma_auto_spec_u32_to_from_le_bytes();
    if s.len() > 0 {
        let t = s.drop_first();
        assert forall|i: int| 0 <= i < t.len() implies (#[trigger] t[i]).name.len()
            <= MAX_FILE_NAME_LENGTH by {
            assert(t[i] == s[i + 1]);
        }
        lemma_entries_bytes_len(t);
        assert(spec_entry_bytes(s.first()).len() <= MAX_FILE_NAME_LENGTH + 18);
        assert(s[0].name.len() <= MAX_FILE_NAME_LENGTH);
        vstd::arithmetic::mul::lemma_mul_is_distributive_add_other_way(
            (MAX_FILE_NAME_LENGTH + 18) as int,
            t.len() as int,
            1,
        );
    }
}

impl crate::fs::MemoryFs {
    /// Serializes the whole state into the versioned binary format, with a
    /// running CRC and byte counter folded into the footer.
    #[verifier::rlimit(30)]
    pub fn dump(&self) -> (out: Vec<u8>)
        requires
            self.inv(),
        ensures
            out@ == spec_dump(self.abs()),
    {
        let ghost a = self.abs();
        let mut w = ByteWriter::new();
        w.push_u8(77);
        w.push_u8(69);
        w.push_u8(77);
        w.push_u8(70);
        w.push_u8(83);
        w.push_u8(FORMAT_VERSION);
        w.push_u32(PAGE_SIZE as u32);
        w.push_u32(NUM_PAGES as u32);
        let count = self.entries.len();
        w.push_u32(count as u32);
        proof {
            assert(w.bytes() =~= spec_header_bytes(a.entries.len()));
            assert(a.entries.take(0) =~= Seq::<AbsEntry>::empty());
        }
        let mut i: usize = 0;
        while i < count
            invariant
                self.inv(),
                w.wf(),
                count == self.entries@.len(),
                a == self.abs(),
                i <= count,
                w.bytes() == spec_header_bytes(a.entries.len()) + spec_entries_bytes(
                    a.entries.take(i as int),
                ),
            decreases count - i,
        {
            proof {
                assert(a.entries[i as int].wf());
                assert(a.entries[i as int] == self.entries@[i as int].abs());
                match a.entries[i as int].extent {
                    Some(x) => {
                        assert(a.entries[i as int].size <= x.len_pages * PAGE_SIZE);
                        assert(x.len_pages * PAGE_SIZE <= NUM_PAGES * PAGE_SIZE);
                    },
                    None => {},
                }
            }
            let e = &self.entries[i];
            let nl = e.name.len();
            w.push_u16(nl as u16);
            w.push_slice(e.name.as_slice());
            w.push_u32(e.size as u32);
            w.push_u32(e.flags);
            match e.extent {
                Some(x) => {
                    w.push_u32(x.start_page as u32);
                    w.push_u32(x.len_pages as u32);
                },
                None => {
                    w.push_u32(0u32);
                    w.push_u32(0u32);
                },
            }
            proof {
                let k = i as int;
                lemma_entries_bytes_snoc(a.entries.take(k + 1));
                assert(a.entries.take(k + 1).drop_last() =~= a.entries.take(k));
                assert(a.entries.take(k + 1).last() == a.entries[k]);
                assert(w.bytes() =~= spec_header_bytes(a.entries.len()) + spec_entries_bytes(
                    a.entries.take(k + 1),
                ));
            }
            i = i + 1;
        }
        proof {
            assert(a.entries.take(count as int) =~= a.entries);
        }
        w.push_u32(STORAGE_SIZE as u32);
        w.push_slice(self.storage.as_slice());
        proof {
            assert(w.bytes() =~= spec_dump_body(a));
        }
        let body_len = w.out.len();
        let total: u32 = ((body_len as u64) % 0x1_0000_0000u64) as u32;
        let cksum: u32 = w.crc ^ 0xFFFF_FFFFu32;
        w.push_u8(77);
        w.push_u8(69);
        w.push_u8(77);
        w.push_u8(70);
        w.push_u8(83);
        w.push_u8(69);
        w.push_u8(78);
        w.push_u8(68);
        w.push_u32(total);
        w.push_u32(cksum);
        proof {
            assert(w.bytes() =~= spec_dump(a));
        }
        w.out
    }
}


/// The restore side of the streaming abstraction: a byte source over a
/// given stream that keeps the running CRC and count of everything read
/// through it, and fails on short input.
pub(crate) struct ByteReader<'a> {
    pub(crate) data: &'a [u8],
    pub(crate) pos: usize,
    pub(crate) crc: u32,
}

impl<'a> ByteReader<'a> {
    /// The CRC state tracks the bytes read so far.
    pub(crate) open spec fn wf(self) -> bool {
        &&& self.pos <= self.data@.len()
        &&& self.crc == crc_state(self.data@.subrange(0, self.pos as int))
    }

    pub(crate) fn new(data: &'a [u8]) -> (r: ByteReader<'a>)
        ensures
            r.wf(),
            r.data@ == data@,
            r.pos == 0,
    {
        let r = ByteReader { data, pos: 0, crc: 0 };
        proof {
            assert(data@.subrange(0, 0) =~= Seq::<u8>::empty());
        }
        r
    }

    pub(crate) fn read_u8(&mut self) -> (r: Option<u8>)
        requires
            old(self).wf(),
        ensures
            final(self).wf(),
            final(self).data@ == old(self).data@,
            match r {
                Some(b) => {
                    &&& old(self).pos + 1 <= old(self).data@.len()
                    &&& b == old(self).data@[old(self).pos as int]
                    &&& final(self).pos == old(self).pos + 1
                },
                None => {
                    &&& old(self).pos + 1 > old(self).data@.len()
                    &&& *final(self) == *old(self)
                },
            },
    {
        if self.pos >= self.data.len() {
            return None;
        }
        let b = *vstd::slice::slice_index_get(self.data, self.pos);
        self.crc = crc_update(self.crc, b);
        self.pos = self.pos + 1;
        proof {
            assert(self.data@.subrange(0, self.pos as int).drop_last() =~= self.data@.subrange(
                0,
                self.pos - 1,
            ));
            assert(self.data@.subrange(0, self.pos as int).last() == b);
        }
        Some(b)
    }

    pub(crate) fn read_u16(&mut self) -> (r: Option<u16>)
        requires
            old(self).wf(),
        ensures
            final(self).wf(),
            final(self).data@ == old(self).data@,
            match r {
                Some(v) => {
                    &&& old(self).pos + 2 <= old(self).data@.len()
                    &&& v == u16_at(old(self).data@, old(self).pos as int)
                    &&& final(self).pos == old(self).pos + 2
                },
                None => {
                    &&& old(self).pos + 2 > old(self).data@.len()
                    &&& *final(self) == *old(self)
                },
            },
    {
        if self.data.len() - self.pos < 2 {
            return None;
        }
        let sub = vstd::slice::slice_subrange(self.data, self.pos, self.pos + 2);
        let v = vstd::bytes::u16_from_le_bytes(sub);
        let b0 = self.read_u8();
        let b1 = self.read_u8();
        proof {
            assert(b0 is Some && b1 is Some);
        }
        Some(v)
    }

    pub(crate) fn read_u32(&mut self) -> (r: Option<u32>)
        requires
            old(self).wf(),
        ensures
            final(self).wf(),
            final(self).data@ == old(self).data@,
            match r {
                Some(v) => {
                    &&& old(self).pos + 4 <= old(self).data@.len()
                    &&& v == u32_at(old(self).data@, old(self).pos as int)
                    &&& final(self).pos == old(self).pos + 4
                },
                None => {
                    &&& old(self).pos + 4 > old(self).data@.len()
                    &&& *final(self) == *old(self)
                },
            },
    {
        if self.data.len() - self.pos < 4 {
            return None;
        }
        let sub = vstd::slice::slice_subrange(self.data, self.pos, self.pos + 4);
        let v = vstd::bytes::u32_from_le_bytes(sub);
        let b0 = self.read_u8();
        let b1 = self.read_u8();
        let b2 = self.read_u8();
        let b3 = self.read_u8();
        proof {
            assert(b0 is Some && b1 is Some && b2 is Some && b3 is Some);
        }
        Some(v)
    }

    pub(crate) fn read_bytes(&mut self, n: usize) -> (r: Option<Vec<u8>>)
        requires
            old(self).wf(),
        ensures
            final(self).wf(),
            final(self).data@ == old(self).data@,
            match r {
                Some(v) => {
                    &&& old(self).pos + n <= old(self).data@.len()
                    &&& v@ == old(self).data@.subrange(
                        old(self).pos as int,
                        old(self).pos + n,
                    )
                    &&& final(self).pos == old(self).pos + n
                },
                None => {
                    &&& old(self).pos + n > old(self).data@.len()
                    &&& *final(self) == *old(self)
                },
            },
    {
        if self.data.len() - self.pos < n {
            return None;
        }
        let mut v: Vec<u8> = Vec::new();
        let mut i: usize = 0;
        while i < n
            invariant
                self.wf(),
                self.data@ == old(self).data@,
                i <= n,
                old(self).pos + n <= self.data@.len(),
                self.pos == old(self).pos + i,
                v@.len() == i,
                v@ == self.data@.subrange(old(self).pos as int, old(self).pos + i),
            decreases n - i,
        {
            let b = match self.read_u8() {
                Some(b) => b,
                None => {
                    return vstd::pervasive::unreached();
                },
            };
            v.push(b);
            proof {
                assert(v@ =~= self.data@.subrange(old(self).pos as int, old(self).pos + i + 1));
            }
            i = i + 1;
        }
        Some(v)
    }
}


/// The abstract values of a table of concrete entries.
pub(crate) open spec fn built_abs(v: Seq<crate::fs::FileEntry>) -> Seq<AbsEntry> {
    Seq::new(v.len(), |j: int| v[j].abs())
}

/// A dump whose entry table does not parse does not restore.
proof fn lemma_restore_parse_none(b: Seq<u8>)
    requires
        spec_parse_entries(b, 18, u32_at(b, 14) as nat) is None,
    ensures
        spec_restore(b) is None,
{
}

/// A dump whose parsed state would be ill-formed does not restore.
proof fn lemma_restore_not_wf(b: Seq<u8>)
    requires
        match spec_parse_entries(b, 18, u32_at(b, 14) as nat) {
            None => true,
            Some((es, pos)) => forall|storage: Seq<u8>|
                !(#[trigger] (AbsFs { entries: es, storage }).wf()),
        },
    ensures
        spec_restore(b) is None,
{
}

impl crate::fs::MemoryFs {
    /// Restores a dumped byte stream into this (empty) instance, mirroring
    /// the write-side accounting to recheck the total length and checksum.
    /// Every validation failure, a short stream included, is `Corrupt` and
    /// leaves the instance untouched: the restore is all-or-nothing. A
    /// non-empty table is `InvalidOp`.
    #[verifier::rlimit(60)]
    pub fn restore(&mut self, bytes: &[u8]) -> (r: Result<(), FsError>)
        requires
            old(self).inv(),
        ensures
            final(self).inv(),
            ({
                let a0 = old(self).abs();
                let a2 = final(self).abs();
                if a0.entries.len() > 0 {
                    r == Err::<(), FsError>(FsError::InvalidOp) && a2 == a0
                } else {
                    match spec_restore(bytes@) {
                        Some(s) => r == Ok::<(), FsError>(()) && a2 == s,
                        None => r == Err::<(), FsError>(FsError::Corrupt) && a2 == a0,
                    }
                }
            }),
    {
        if self.entries.len() > 0 {
            return Err(FsError::InvalidOp);
        }
        let ghost b = bytes@;
        let mut rd = ByteReader::new(bytes);
        // Header magic.
        let hm = match rd.read_bytes(5) {
            None => {
                proof {
                    assert(b.len() < 18);
                }
                return Err(FsError::Corrupt);
            },
            Some(v) => v,
        };
        if hm[0] != 77 || hm[1] != 69 || hm[2] != 77 || hm[3] != 70 || hm[4] != 83 {
            proof {
                if b.len() >= 18 {
                    let bad = choose|j: int| 0 <= j < 5 && hm@[j] != magic_bytes()[j];
                    assert(b.subrange(0, 5)[bad] != magic_bytes()[bad]);
                    assert(b.subrange(0, 5) != magic_bytes());
                }
            }
            return Err(FsError::Corrupt);
        }
        proof {
            assert forall|j: int| 0 <= j < 5 implies b[j] == magic_bytes()[j] by {
                assert(hm@[j] == b.subrange(0, 5)[j]);
            }
            assert(b.len() >= 5 ==> b.subrange(0, 5) =~= magic_bytes());
        }
        // Version byte and configuration.
        match rd.read_u8() {
            None => {
                proof {
                    assert(b.len() < 18);
                }
                return Err(FsError::Corrupt);
            },
            Some(v) => {
                if v != FORMAT_VERSION {
                    return Err(FsError::Corrupt);
                }
            },
        }
        match rd.read_u32() {
            None => {
                proof {
                    assert(b.len() < 18);
                }
                return Err(FsError::Corrupt);
            },
            Some(ps) => {
                if ps != PAGE_SIZE as u32 {
                    return Err(FsError::Corrupt);
                }
            },
        }
        match rd.read_u32() {
            None => {
                proof {
                    assert(b.len() < 18);
                }
                return Err(FsError::Corrupt);
            },
            Some(np) => {
                if np != NUM_PAGES as u32 {
                    return Err(FsError::Corrupt);
                }
            },
        }
        let count32 = match rd.read_u32() {
            None => {
                proof {
                    assert(b.len() < 18);
                }
                return Err(FsError::Corrupt);
            },
            Some(c) => c,
        };
        if count32 > MAX_NUM_FILES as u32 {
            return Err(FsError::Corrupt);
        }
        let count = count32 as usize;
        proof {
            assert(b.len() >= 18);
            assert(b.subrange(0, 5) == magic_bytes());
            assert(b[5] == FORMAT_VERSION);
            assert(u32_at(b, 6) == PAGE_SIZE as u32);
            assert(u32_at(b, 10) == NUM_PAGES as u32);
            assert(u32_at(b, 14) == count as u32);
            assert(rd.pos == 18);
        }
        // The entry table, with the bitmap rebuilt as entries arrive.
        let mut new_entries: Vec<crate::fs::FileEntry> = Vec::new();
        let mut pg = crate::allocator::PageAllocator::new();
        let mut i: usize = 0;
        while i < count
            invariant
                *self == *old(self),
                old(self).inv(),
                old(self).abs().entries.len() == 0,
                rd.wf(),
                rd.data@ == b,
                b == bytes@,
                b.len() >= 18,
                b.subrange(0, 5) == magic_bytes(),
                b[5] == FORMAT_VERSION,
                u32_at(b, 6) == PAGE_SIZE as u32,
                u32_at(b, 10) == NUM_PAGES as u32,
                u32_at(b, 14) == count as u32,
                count <= MAX_NUM_FILES,
                i <= count,
                new_entries@.len() == i,
                pg.wf(),
                matches_covers(pg, built_abs(new_entries@)),
                forall|j: int| 0 <= j < i ==> (#[trigger] built_abs(new_entries@)[j]).wf(),
                forall|j1: int, j2: int|
                    0 <= j1 < j2 < i ==> built_abs(new_entries@)[j1].name != built_abs(
                        new_entries@,
                    )[j2].name,
                forall|j1: int, j2: int, p: int|
                    #![trigger built_abs(new_entries@)[j1].covers(p), built_abs(new_entries@)[j2].covers(p)]
                    0 <= j1 < i && 0 <= j2 < i && j1 != j2 ==> !(built_abs(
                        new_entries@,
                    )[j1].covers(p) && built_abs(new_entries@)[j2].covers(p)),
                match spec_parse_entries(b, rd.pos as int, (count - i) as nat) {
                    None => spec_parse_entries(b, 18, count as nat) is None,
                    Some((rest, end)) => spec_parse_entries(b, 18, count as nat) == Some(
                        (built_abs(new_entries@) + rest, end),
                    ),
                },
            decreases count - i,
        {
            let ghost pos0 = rd.pos as int;
            let ghost prefix = built_abs(new_entries@);
            let nl16 = match rd.read_u16() {
                None => {
                    proof {
                        lemma_restore_parse_none(b);
                    }
                    return Err(FsError::Corrupt);
                },
                Some(v) => v,
            };
            let nl = nl16 as usize;
            if nl < 1 || nl > MAX_FILE_NAME_LENGTH {
                proof {
                    lemma_restore_parse_none(b);
                }
                return Err(FsError::Corrupt);
            }
            let name = match rd.read_bytes(nl) {
                None => {
                    proof {
                        lemma_restore_parse_none(b);
                    }
                    return Err(FsError::Corrupt);
                },
                Some(v) => v,
            };
            let size32 = match rd.read_u32() {
                None => {
                    proof {
                        lemma_restore_parse_none(b);
                    }
                    return Err(FsError::Corrupt);
                },
                Some(v) => v,
            };
            let flags = match rd.read_u32() {
                None => {
                    proof {
                        lemma_restore_parse_none(b);
                    }
                    return Err(FsError::Corrupt);
                },
                Some(v) => v,
            };
            let start32 = match rd.read_u32() {
                None => {
                    proof {
                        lemma_restore_parse_none(b);
                    }
                    return Err(FsError::Corrupt);
                },
                Some(v) => v,
            };
            let lenp32 = match rd.read_u32() {
                None => {
                    proof {
                        lemma_restore_parse_none(b);
                    }
                    return Err(FsError::Corrupt);
                },
                Some(v) => v,
            };
            if crate::fs::validate_name(&name).is_some() {
                proof {
                    lemma_restore_parse_none(b);
                }
                return Err(FsError::Corrupt);
            }
            let size = size32 as usize;
            let start = start32 as usize;
            let lenp = lenp32 as usize;
            let extent: Option<Extent>;
            let ghost pages_before = pg;
            if lenp == 0 {
                if size32 != 0 || start32 != 0 {
                    proof {
                        lemma_restore_parse_none(b);
                    }
                    return Err(FsError::Corrupt);
                }
                extent = None;
            } else {
                if start > NUM_PAGES || lenp > NUM_PAGES - start {
                    proof {
                        lemma_restore_parse_none(b);
                    }
                    return Err(FsError::Corrupt);
                }
                if size > lenp * PAGE_SIZE {
                    proof {
                        lemma_restore_parse_none(b);
                    }
                    return Err(FsError::Corrupt);
                }
                match pg.check_neighbour_pages_free(start, lenp) {
                    None => {
                        // A page of this extent is already claimed: the
                        // parsed table would have overlapping extents.
                        proof {
                            let e_abs = AbsEntry {
                                name: name@,
                                size: size32 as nat,
                                flags,
                                extent: Some(
                                    Extent { start_page: start, len_pages: lenp },
                                ),
                            };
                            assert(spec_parse_entry(b, pos0) == Some(
                                (e_abs, rd.pos as int),
                            ));
                            assert(!pg.run_free(start as int, lenp as int));
                            let p = choose|p: int|
                                start <= p < start + lenp && pg.spec_page_used(p);
                            assert(0 <= p < NUM_PAGES);
                            assert(crate::fs::some_covers(prefix, p));
                            let j = choose|j: int|
                                0 <= j < prefix.len() && (#[trigger] prefix[j]).covers(p);
                            match spec_parse_entries(b, rd.pos as int, (count - i - 1) as nat) {
                                None => {
                                    lemma_restore_parse_none(b);
                                },
                                Some((rest2, end2)) => {
                                    let es = prefix + (seq![e_abs] + rest2);
                                    assert(spec_parse_entries(b, 18, count as nat) == Some(
                                        (es, end2),
                                    ));
                                    assert(es.len() == prefix.len() + 1 + rest2.len());
                                    assert(es[j] == prefix[j]);
                                    assert(es[i as int] == (seq![e_abs] + rest2)[0]);
                                    assert(es[i as int] == e_abs);
                                    assert(es[j].covers(p) && es[i as int].covers(p));
                                    assert forall|storage: Seq<u8>|
                                        !(#[trigger] (AbsFs { entries: es, storage }).wf()) by {
                                        let a_bad = AbsFs { entries: es, storage };
                                        assert(a_bad.entries[j].covers(p));
                                        assert(a_bad.entries[i as int].covers(p));
                                        assert(0 <= j < a_bad.entries.len());
                                        assert(0 <= i && (i as int) < a_bad.entries.len());
                                        assert(j != i as int);
                                        assert(!a_bad.extents_disjoint());
                                    }
                                    lemma_restore_not_wf(b);
                                },
                            }
                        }
                        return Err(FsError::Corrupt);
                    },
                    Some(_) => {
                        pg.mark_pages(start, lenp, true);
                        extent = Some(Extent { start_page: start, len_pages: lenp });
                    },
                }
            }
            // Duplicate names would leave the table ill-formed.
            let mut j: usize = 0;
            let dup_limit = new_entries.len();
            let mut dup = false;
            while j < dup_limit
                invariant
                    j <= dup_limit,
                    dup_limit == new_entries@.len(),
                    name@ == name@,
                    dup == exists|j2: int|
                        0 <= j2 < j && (#[trigger] new_entries@[j2]).abs().name == name@,
                decreases dup_limit - j,
            {
                if crate::fs::bytes_eq(&new_entries[j].name, &name) {
                    proof {
                        assert(new_entries@[j as int].abs().name == name@);
                    }
                    dup = true;
                }
                j = j + 1;
            }
            if dup {
                proof {
                    let e_parsed = AbsEntry {
                        name: name@,
                        size: size32 as nat,
                        flags,
                        extent: if lenp == 0 {
                            None::<Extent>
                        } else {
                            Some(Extent { start_page: start, len_pages: lenp })
                        },
                    };
                    assert(spec_parse_entry(b, pos0) == Some((e_parsed, rd.pos as int)));
                    let j2 = choose|j2: int|
                        0 <= j2 < dup_limit && (#[trigger] new_entries@[j2]).abs().name == name@;
                    match spec_parse_entries(b, rd.pos as int, (count - i - 1) as nat) {
                        None => {
                            lemma_restore_parse_none(b);
                        },
                        Some((rest2, end2)) => {
                            let es = prefix + (seq![e_parsed] + rest2);
                            assert(spec_parse_entries(b, 18, count as nat) == Some((es, end2)));
                            assert(es.len() == prefix.len() + 1 + rest2.len());
                            assert(es[j2] == prefix[j2]);
                            assert(es[i as int] == (seq![e_parsed] + rest2)[0]);
                            assert(es[i as int] == e_parsed);
                            assert(es[j2].name == es[i as int].name);
                            assert forall|storage: Seq<u8>|
                                !(#[trigger] (AbsFs { entries: es, storage }).wf()) by {
                                let a_bad = AbsFs { entries: es, storage };
                                assert(a_bad.entries[j2].name == a_bad.entries[i as int].name);
                                assert(0 <= j2 && j2 < i && (i as int) < a_bad.entries.len());
                                assert(!a_bad.names_unique());
                            }
                            lemma_restore_not_wf(b);
                        },
                    }
                }
                return Err(FsError::Corrupt);
            }
            let fe = crate::fs::FileEntry { name, size, flags, extent };
            let ghost fe_abs = fe.abs();
            new_entries.push(fe);
            proof {
                assert(built_abs(new_entries@) =~= prefix.push(fe_abs));
                assert(spec_parse_entry(b, pos0) == Some((fe_abs, rd.pos as int)));
                assert(fe_abs.wf());
                // The new entry's pages were free, so it overlaps nothing.
                assert forall|p: int| #[trigger] fe_abs.covers(p) implies !crate::fs::some_covers(
                    prefix,
                    p,
                ) by {
                    assert(!pages_before.spec_page_used(p));
                }
                // Bitmap agreement with the extended prefix.
                assert forall|p: int| 0 <= p < NUM_PAGES implies ((
                #[trigger] pg.spec_page_used(p)) <==> crate::fs::some_covers(
                    built_abs(new_entries@),
                    p,
                )) by {
                    crate::fs::lemma_covers_push(prefix, fe_abs, p);
                }
                // Composition of the parse.
                match spec_parse_entries(b, rd.pos as int, (count - i - 1) as nat) {
                    None => {},
                    Some((rest2, end2)) => {
                        assert(spec_parse_entries(b, pos0, (count - i) as nat) == Some(
                            (seq![fe_abs] + rest2, end2),
                        ));
                        assert(prefix + (seq![fe_abs] + rest2) =~= built_abs(new_entries@)
                            + rest2);
                    },
                }
                // Name uniqueness and disjointness of the extended prefix.
                assert forall|j1: int, j2: int|
                    0 <= j1 < j2 < i + 1 implies built_abs(new_entries@)[j1].name != built_abs(
                    new_entries@,
                )[j2].name by {
                    if j2 == i {
                        assert(built_abs(new_entries@)[j1] == prefix[j1]);
                        assert(!(new_entries@[j1].abs().name == fe_abs.name));
                    }
                }
                assert forall|j1: int, j2: int, p: int|
                    #![trigger built_abs(new_entries@)[j1].covers(p), built_abs(new_entries@)[j2].covers(p)]
                    0 <= j1 < i + 1 && 0 <= j2 < i + 1 && j1 != j2 implies !(built_abs(
                    new_entries@,
                )[j1].covers(p) && built_abs(new_entries@)[j2].covers(p)) by {
                    if built_abs(new_entries@)[j1].covers(p) && built_abs(
                        new_entries@,
                    )[j2].covers(p) {
                        let (jo, jn) = if j1 == i {
                            (j2, j1)
                        } else {
                            (j1, j2)
                        };
                        if j1 == i || j2 == i {
                            assert(built_abs(new_entries@)[jo] == prefix[jo]);
                            assert(fe_abs.covers(p));
                            assert(crate::fs::some_covers(prefix, p));
                        }
                    }
                }
            }
            i = i + 1;
        }
        proof {
            assert(spec_parse_entries(b, rd.pos as int, 0) == Some(
                (Seq::<AbsEntry>::empty(), rd.pos as int),
            ));
            assert(built_abs(new_entries@) + Seq::<AbsEntry>::empty() =~= built_abs(
                new_entries@,
            ));
            assert(spec_parse_entries(b, 18, count as nat) == Some(
                (built_abs(new_entries@), rd.pos as int),
            ));
        }
        let ghost parse_end = rd.pos as int;
        // Arena length and arena.
        match rd.read_u32() {
            None => {
                return Err(FsError::Corrupt);
            },
            Some(sl) => {
                if sl != STORAGE_SIZE as u32 {
                    return Err(FsError::Corrupt);
                }
            },
        }
        let new_storage = match rd.read_bytes(STORAGE_SIZE) {
            None => {
                return Err(FsError::Corrupt);
            },
            Some(v) => v,
        };
        // Footer: magic, mirrored byte count, checksum.
        let body_end = rd.pos;
        let body_crc = rd.crc;
        let ghost body_end_g = body_end as int;
        let fmagic = match rd.read_bytes(8) {
            None => {
                return Err(FsError::Corrupt);
            },
            Some(v) => v,
        };
        if fmagic[0] != 77 || fmagic[1] != 69 || fmagic[2] != 77 || fmagic[3] != 70 || fmagic[4]
            != 83 || fmagic[5] != 69 || fmagic[6] != 78 || fmagic[7] != 68 {
            proof {
                let bad = choose|j: int| 0 <= j < 8 && fmagic@[j] != footer_magic_bytes()[j];
                assert(b.subrange(body_end_g, body_end_g + 8)[bad] != footer_magic_bytes()[bad]);
                assert(b.subrange(body_end_g, body_end_g + 8) != footer_magic_bytes());
            }
            return Err(FsError::Corrupt);
        }
        proof {
            assert forall|j: int| 0 <= j < 8 implies b.subrange(body_end_g, body_end_g + 8)[j]
                == footer_magic_bytes()[j] by {
                assert(fmagic@[j] == b.subrange(body_end_g, body_end_g + 8)[j]);
            }
            assert(b.subrange(body_end_g, body_end_g + 8) =~= footer_magic_bytes());
        }
                let expected_total: u32 = ((body_end as u64) % 0x1_0000_0000u64) as u32;
        match rd.read_u32() {
            None => {
                return Err(FsError::Corrupt);
            },
            Some(t) => {
                if t != expected_total {
                    return Err(FsError::Corrupt);
                }
            },
        }
        let expected_cksum: u32 = body_crc ^ 0xFFFF_FFFFu32;
        match rd.read_u32() {
            None => {
                return Err(FsError::Corrupt);
            },
            Some(c) => {
                if c != expected_cksum {
                    return Err(FsError::Corrupt);
                }
            },
        }
        // All checks passed: commit the new state.
        let ghost a = AbsFs { entries: built_abs(new_entries@), storage: new_storage@ };
        proof {
            assert(a.wf());
            assert(spec_restore(b) == Some(a));
        }
        self.entries = new_entries;
        self.storage = new_storage;
        self.pages = pg;
        proof {
            assert(self.abs().entries =~= a.entries);
            assert(self.abs() =~= a);
        }
        Ok(())
    }
}


/// A well-formed entry's serialized bytes parse back to exactly that
/// entry.
proof fn lemma_parse_entry_round(e: AbsEntry, b: Seq<u8>, pos: int)
    requires
        e.wf(),
        0 <= pos,
        pos + spec_entry_bytes(e).len() <= b.len(),
        b.subrange(pos, pos + spec_entry_bytes(e).len()) == spec_entry_bytes(e),
    ensures
        spec_parse_entry(b, pos) == Some((e, pos + spec_entry_bytes(e).len())),
{
    vstd::bytes::lemma_auto_spec_u16_to_from_le_bytes();
    vstd::bytes::lemma_auto_spec_u32_to_from_le_bytes();
    let eb = spec_entry_bytes(e);
    let nl = e.name.len() as int;
    assert(eb.len() == 2 + nl + 16);
    assert forall|j: int| pos <= j < pos + eb.len() implies b[j] == eb[j - pos] by {
        assert(b.subrange(pos, pos + eb.len())[j - pos] == b[j]);
    }
    assert(b.subrange(pos, pos + 2) =~= spec_u16_to_le_bytes(e.name.len() as u16));
    assert(u16_at(b, pos) == e.name.len() as u16);
    assert(b.subrange(pos + 2, pos + 2 + nl) =~= e.name);
    assert(b.subrange(pos + 2 + nl, pos + 2 + nl + 4) =~= spec_u32_to_le_bytes(e.size as u32));
    assert(u32_at(b, pos + 2 + nl) == e.size as u32);
    assert(b.subrange(pos + 2 + nl + 4, pos + 2 + nl + 8) =~= spec_u32_to_le_bytes(e.flags));
    assert(u32_at(b, pos + 2 + nl + 4) == e.flags);
    let sp: u32 = match e.extent {
        Some(x) => x.start_page as u32,
        None => 0u32,
    };
    let lp: u32 = match e.extent {
        Some(x) => x.len_pages as u32,
        None => 0u32,
    };
    assert(b.subrange(pos + 2 + nl + 8, pos + 2 + nl + 12) =~= spec_u32_to_le_bytes(sp));
    assert(u32_at(b, pos + 2 + nl + 8) == sp);
    assert(b.subrange(pos + 2 + nl + 12, pos + 2 + nl + 16) =~= spec_u32_to_le_bytes(lp));
    assert(u32_at(b, pos + 2 + nl + 12) == lp);
    match e.extent {
        None => {
            assert(e.size == 0);
            assert(spec_parse_entry(b, pos) == Some((e, pos + eb.len())));
        },
        Some(x) => {
            assert(x.len_pages >= 1);
            assert(x.start_page + x.len_pages <= NUM_PAGES);
            assert(e.size <= x.len_pages * PAGE_SIZE);
            assert(x.len_pages * PAGE_SIZE <= NUM_PAGES * PAGE_SIZE);
            let parsed = AbsEntry {
                name: b.subrange(pos + 2, pos + 2 + nl),
                size: u32_at(b, pos + 2 + nl) as nat,
                flags: u32_at(b, pos + 2 + nl + 4),
                extent: Some(
                    Extent {
                        start_page: (u32_at(b, pos + 2 + nl + 8) as int) as usize,
                        len_pages: (u32_at(b, pos + 2 + nl + 12) as int) as usize,
                    },
                ),
            };
            assert(parsed =~= e);
            assert(spec_parse_entry(b, pos) == Some((e, pos + eb.len())));
        },
    }
}

/// A well-formed table's serialized bytes parse back to exactly that
/// table.
proof fn lemma_parse_entries_round(entries: Seq<AbsEntry>, b: Seq<u8>, pos: int)
    requires
        forall|i: int| 0 <= i < entries.len() ==> (#[trigger] entries[i]).wf(),
        0 <= pos,
        pos + spec_entries_bytes(entries).len() <= b.len(),
        b.subrange(pos, pos + spec_entries_bytes(entries).len()) == spec_entries_bytes(entries),
    ensures
        spec_parse_entries(b, pos, entries.len()) == Some(
            (entries, pos + spec_entries_bytes(entries).len()),
        ),
    decreases entries.len(),
{
    if entries.len() == 0 {
        assert(entries =~= Seq::<AbsEntry>::empty());
        assert(spec_parse_entries(b, pos, 0) == Some((Seq::<AbsEntry>::empty(), pos)));
    } else {
        let e0 = entries.first();
        let t = entries.drop_first();
        let eb0 = spec_entry_bytes(e0);
        let ebr = spec_entries_bytes(t);
        let all = spec_entries_bytes(entries);
        assert(all == eb0 + ebr);
        assert forall|j: int| pos <= j < pos + all.len() implies b[j] == all[j - pos] by {
            assert(b.subrange(pos, pos + all.len())[j - pos] == b[j]);
        }
        assert(b.subrange(pos, pos + eb0.len()) =~= eb0);
        lemma_parse_entry_round(e0, b, pos);
        let pos2 = pos + eb0.len();
        assert forall|i: int| 0 <= i < t.len() implies (#[trigger] t[i]).wf() by {
            assert(t[i] == entries[i + 1]);
        }
        assert(b.subrange(pos2, pos2 + ebr.len()) =~= ebr);
        lemma_parse_entries_round(t, b, pos2);
        assert(spec_parse_entries(b, pos, entries.len()) == Some(
            (seq![e0] + t, pos2 + ebr.len()),
        ));
        assert(seq![e0] + t =~= entries);
    }
}

/// The round-trip law: dumping any well-formed state and restoring the
/// resulting bytes yields exactly that state again, so every `read`,
/// `capacity` and `entries` result of the restored instance agrees with
/// the dumped one.
pub proof fn lemma_dump_restore_round_trip(a: AbsFs)
    requires
        a.wf(),
    ensures
        spec_restore(spec_dump(a)) == Some(a),
{
    vstd::bytes::lemma_auto_spec_u16_to_from_le_bytes();
    vstd::bytes::lemma_auto_spec_u32_to_from_le_bytes();
    let body = spec_dump_body(a);
    let b = spec_dump(a);
    let hdr = spec_header_bytes(a.entries.len());
    let eb = spec_entries_bytes(a.entries);
    assert(hdr.len() == 18);
    lemma_entries_bytes_len(a.entries);
    assert(body.len() == 18 + eb.len() + 4 + STORAGE_SIZE);
    assert(b.len() == body.len() + 16);
    assert(b.subrange(0, 5) =~= magic_bytes());
    assert(b[5] == FORMAT_VERSION);
    assert(b.subrange(6, 10) =~= spec_u32_to_le_bytes(PAGE_SIZE as u32));
    assert(u32_at(b, 6) == PAGE_SIZE as u32);
    assert(b.subrange(10, 14) =~= spec_u32_to_le_bytes(NUM_PAGES as u32));
    assert(u32_at(b, 10) == NUM_PAGES as u32);
    assert(b.subrange(14, 18) =~= spec_u32_to_le_bytes(a.entries.len() as u32));
    assert(u32_at(b, 14) == a.entries.len() as u32);
    assert(u32_at(b, 14) <= MAX_NUM_FILES as u32);
    assert(b.subrange(18, 18 + eb.len() as int) =~= eb);
    lemma_parse_entries_round(a.entries, b, 18);
    assert(u32_at(b, 14) as nat == a.entries.len());
    let pos: int = 18 + eb.len() as int;
    assert(b.subrange(pos, pos + 4) =~= spec_u32_to_le_bytes(STORAGE_SIZE as u32));
    assert(u32_at(b, pos) == STORAGE_SIZE as u32);
    assert(b.subrange(pos + 4, pos + 4 + STORAGE_SIZE) =~= a.storage);
    let body_end = pos + 4 + STORAGE_SIZE;
    assert(body_end == body.len());
    assert(b.subrange(body_end, body_end + 8) =~= footer_magic_bytes());
    assert(b.subrange(body_end + 8, body_end + 12) =~= spec_u32_to_le_bytes(
        (body.len() % 0x1_0000_0000) as u32,
    ));
    assert(u32_at(b, body_end + 8) == (body_end % 0x1_0000_0000) as u32);
    assert(b.subrange(body_end + 12, body_end + 16) =~= spec_u32_to_le_bytes(crc32_cksum(body)));
    assert(b.subrange(0, body_end) =~= body);
    assert(u32_at(b, body_end + 12) == crc32_cksum(b.subrange(0, body_end)));
    let a2 = AbsFs { entries: a.entries, storage: b.subrange(pos + 4, pos + 4 + STORAGE_SIZE) };
    assert(a2 =~= a);
    assert(spec_restore(b) == Some(a));
}

} // verus!
