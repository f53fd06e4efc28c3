//! The file table and the `MemoryFs` facade.
//!
//! A `MemoryFs` owns a bounded, insertion-ordered table of file entries, the
//! storage arena, and the page allocator. Every mutating operation resolves a
//! name to a table index, enforces the entry's flags, asks the allocator for
//! capacity changes, copies bytes in the arena, and updates the entry's
//! metadata — keeping the allocator partition invariant at every step.

use vstd::prelude::*;
use vstd::string::StringSliceAdditionalSpecFns;

use crate::allocator::Extent;
use crate::allocator::PageAllocator;
use crate::errors::FsError;
use crate::flags::is_immutable;
use crate::flags::is_sealed;
use crate::errors::NameFault;
use crate::MAX_FILE_NAME_LENGTH;
use crate::MAX_NUM_FILES;
use crate::NUM_PAGES;
use crate::PAGE_SIZE;
use crate::STORAGE_SIZE;

verus! {

/// The abstract value of one file entry: its name as UTF-8 bytes, its
/// logical size, its flag bits, and its extent, if any.
#[verifier::ext_equal]
pub struct AbsEntry {
    pub name: Seq<u8>,
    pub size: nat,
    pub flags: u32,
    pub extent: Option<Extent>,
}

/// The abstract value of a whole file system: the ordered entry table and
/// the raw storage arena. The page bitmap is not part of the abstract state:
/// it is determined by the entries through the partition invariant.
#[verifier::ext_equal]
pub struct AbsFs {
    pub entries: Seq<AbsEntry>,
    pub storage: Seq<u8>,
}

/// Whether `b` is an ASCII whitespace byte. In UTF-8 no multi-byte sequence
/// contains an ASCII byte, so checking bytes is the same as checking
/// characters.
pub open spec fn is_ws_byte(b: u8) -> bool {
    b == 32 || b == 9 || b == 10 || b == 13
}

/// A valid file name: non-empty, at most `MAX_FILE_NAME_LENGTH` UTF-8 bytes,
/// and free of whitespace.
pub open spec fn valid_name(name: Seq<u8>) -> bool {
    &&& 1 <= name.len() <= MAX_FILE_NAME_LENGTH
    &&& forall|i: int| 0 <= i < name.len() ==> !is_ws_byte(#[trigger] name[i])
}

/// `s` with the bytes of `d` laid over it starting at `off`.
pub open spec fn overwrite(s: Seq<u8>, off: int, d: Seq<u8>) -> Seq<u8> {
    Seq::new(s.len(), |i: int| if off <= i < off + d.len() { d[i - off] } else { s[i] })
}

/// The number of pages needed to hold `len` bytes.
pub open spec fn pages_for(len: nat) -> nat {
    ((len + PAGE_SIZE - 1) / (PAGE_SIZE as int)) as nat
}

impl AbsEntry {
    /// Allocated capacity in pages.
    pub open spec fn cap_pages(self) -> nat {
        match self.extent {
            Some(e) => e.len_pages as nat,
            None => 0,
        }
    }

    /// Allocated capacity in bytes.
    pub open spec fn cap_bytes(self) -> nat {
        (self.cap_pages() * PAGE_SIZE) as nat
    }

    /// Byte offset of the entry's first page in the arena.
    pub open spec fn offset(self) -> int {
        match self.extent {
            Some(e) => e.start_page * PAGE_SIZE,
            None => 0,
        }
    }

    /// Whether page `p` lies within this entry's extent.
    pub open spec fn covers(self, p: int) -> bool {
        match self.extent {
            Some(e) => e.start_page <= p < e.start_page + e.len_pages,
            None => false,
        }
    }

    /// Well-formedness of one entry: a valid name; an extent in bounds and
    /// large enough for the size; no extent only for size zero.
    pub open spec fn wf(self) -> bool {
        &&& valid_name(self.name)
        &&& match self.extent {
            Some(e) => {
                &&& e.len_pages >= 1
                &&& e.start_page + e.len_pages <= NUM_PAGES
                &&& self.size <= e.len_pages * PAGE_SIZE
            },
            None => self.size == 0,
        }
    }
}

/// Whether some entry of `entries` covers page `p`.
pub open spec fn some_covers(entries: Seq<AbsEntry>, p: int) -> bool {
    exists|i: int| 0 <= i < entries.len() && (#[trigger] entries[i]).covers(p)
}

/// Whether a bitmap agrees with the coverage of an entry table: a page's
/// bit is set exactly when some entry's extent covers it.
pub open spec fn matches_covers(pages: PageAllocator, entries: Seq<AbsEntry>) -> bool {
    forall|p: int|
        0 <= p < NUM_PAGES ==> ((#[trigger] pages.spec_page_used(p)) <==> some_covers(entries, p))
}

/// Whether a bitmap agrees with the coverage of every entry but the one at
/// `k`: the state of the bitmap while `k`'s pages are provisionally freed.
pub open spec fn matches_covers_except(pages: PageAllocator, entries: Seq<AbsEntry>, k: int) -> bool {
    forall|p: int|
        0 <= p < NUM_PAGES ==> ((#[trigger] pages.spec_page_used(p)) <==> covers_except(
            entries,
            k,
            p,
        ))
}

/// Whether some entry other than the one at `k` covers page `p`.
pub open spec fn covers_except(entries: Seq<AbsEntry>, k: int, p: int) -> bool {
    exists|i: int| 0 <= i < entries.len() && i != k && (#[trigger] entries[i]).covers(p)
}

/// Whether every page of `[s, s + len)` is unclaimed by every entry.
pub open spec fn abs_run_free(entries: Seq<AbsEntry>, s: int, len: int) -> bool {
    forall|p: int| s <= p < s + len ==> !some_covers(entries, p)
}

/// Whether some in-bounds run of `need` unclaimed pages exists.
pub open spec fn fit_exists(entries: Seq<AbsEntry>, need: int) -> bool {
    exists|s: int| 0 <= s && s + need <= NUM_PAGES && abs_run_free(entries, s, need)
}

/// Whether `s` is the start the first-fit policy picks for a request of
/// `need` pages: the lowest-address unclaimed run of that length.
pub open spec fn is_first_fit(entries: Seq<AbsEntry>, need: int, s: int) -> bool {
    &&& 0 <= s
    &&& s + need <= NUM_PAGES
    &&& abs_run_free(entries, s, need)
    &&& forall|t: int| 0 <= t < s ==> !abs_run_free(entries, t, need)
}

impl AbsFs {
    /// The live content of the file at index `i`: exactly `size` bytes at
    /// the extent's offset.
    pub open spec fn file_bytes(self, i: int) -> Seq<u8> {
        self.storage.subrange(
            self.entries[i].offset(),
            self.entries[i].offset() + self.entries[i].size,
        )
    }

    /// Whether a live entry has name `name`.
    pub open spec fn has_name(self, name: Seq<u8>) -> bool {
        exists|i: int| 0 <= i < self.entries.len() && (#[trigger] self.entries[i]).name == name
    }

    /// The index of the live entry named `name`. Meaningful only when
    /// `has_name(name)` holds; unique because live names are unique.
    pub open spec fn idx_of(self, name: Seq<u8>) -> int {
        choose|i: int| 0 <= i < self.entries.len() && (#[trigger] self.entries[i]).name == name
    }

    /// No two live entries share a name.
    pub open spec fn names_unique(self) -> bool {
        forall|i: int, j: int|
            0 <= i < j < self.entries.len() ==> (#[trigger] self.entries[i]).name != (
            #[trigger] self.entries[j]).name
    }

    /// No page is claimed by two live entries.
    pub open spec fn extents_disjoint(self) -> bool {
        forall|i: int, j: int, p: int|
            #![trigger self.entries[i].covers(p), self.entries[j].covers(p)]
            0 <= i < self.entries.len() && 0 <= j < self.entries.len() && i != j ==> !(
            self.entries[i].covers(p) && self.entries[j].covers(p))
    }

    /// Well-formedness of the abstract state.
    pub open spec fn wf(self) -> bool {
        &&& self.storage.len() == STORAGE_SIZE
        &&& self.entries.len() <= MAX_NUM_FILES
        &&& forall|i: int| 0 <= i < self.entries.len() ==> (#[trigger] self.entries[i]).wf()
        &&& self.names_unique()
        &&& self.extents_disjoint()
    }
}

/// One file entry of the table: name, logical size, flag set, and the
/// optional extent backing it.
pub struct FileEntry {
    pub(crate) name: Vec<u8>,
    pub(crate) size: usize,
    pub(crate) flags: u32,
    pub(crate) extent: Option<Extent>,
}

impl FileEntry {
    /// The abstract value of this entry.
    pub open(crate) spec fn abs(self) -> AbsEntry {
        AbsEntry { name: self.name@, size: self.size as nat, flags: self.flags, extent: self.extent }
    }

    /// The file's name, as UTF-8 bytes.
    pub fn name(&self) -> (r: &Vec<u8>)
        ensures
            r@ == self.abs().name,
    {
        &self.name
    }

    /// The file's logical size in bytes.
    pub fn size(&self) -> (r: usize)
        ensures
            r == self.abs().size,
    {
        self.size
    }

    /// The file's flag bits.
    pub fn flags(&self) -> (r: u32)
        ensures
            r == self.abs().flags,
    {
        self.flags
    }
}

/// The in-memory file system: the file table, the storage arena, and the
/// page allocator over it.
pub struct MemoryFs {
    pub(crate) entries: Vec<FileEntry>,
    pub(crate) storage: Vec<u8>,
    pub(crate) pages: PageAllocator,
}

impl MemoryFs {
    /// The abstract value of this file system.
    pub open(crate) spec fn abs(self) -> AbsFs {
        AbsFs {
            entries: Seq::new(self.entries@.len(), |i: int| self.entries@[i].abs()),
            storage: self.storage@,
        }
    }

    /// The allocator partition invariant: a page's bit is set exactly when
    /// some live entry's extent covers it.
    pub open(crate) spec fn partitioned(self) -> bool {
        matches_covers(self.pages, self.abs().entries)
    }

    /// The whole-state invariant: a well-formed bitmap, a well-formed
    /// abstract state, and the partition between them. Established by `new`
    /// and preserved by every operation.
    pub open(crate) spec fn inv(self) -> bool {
        &&& self.pages.wf()
        &&& self.abs().wf()
        &&& self.partitioned()
    }

    /// An empty file system: no entries, a zeroed arena, all pages free.
    pub fn new() -> (r: MemoryFs)
        ensures
            r.inv(),
            r.abs().entries =~= Seq::<AbsEntry>::empty(),
            r.abs().storage =~= Seq::new(STORAGE_SIZE as nat, |i: int| 0u8),
    {
        let mut storage: Vec<u8> = Vec::new();
        let mut i: usize = 0;
        while i < STORAGE_SIZE
            invariant
                i <= STORAGE_SIZE,
                storage@.len() == i,
                forall|j: int| 0 <= j < i ==> storage@[j] == 0u8,
            decreases STORAGE_SIZE - i,
        {
            storage.push(0u8);
            i = i + 1;
        }
        let r = MemoryFs { entries: Vec::new(), storage, pages: PageAllocator::new() };
        proof {
            assert(r.abs().entries =~= Seq::<AbsEntry>::empty());
            assert(r.abs().storage =~= Seq::new(STORAGE_SIZE as nat, |j: int| 0u8));
            assert forall|p: int| 0 <= p < NUM_PAGES implies !some_covers(r.abs().entries, p) by {}
        }
        r
    }

    /// Resolves a name to its table index, or `None` when it is absent.
    pub(crate) fn find_entry(&self, name: &Vec<u8>) -> (r: Option<usize>)
        requires
            self.abs().names_unique(),
        ensures
            match r {
                Some(i) => {
                    &&& i < self.abs().entries.len()
                    &&& self.abs().entries[i as int].name == name@
                    &&& self.abs().has_name(name@)
                    &&& self.abs().idx_of(name@) == i
                },
                None => !self.abs().has_name(name@),
            },
    {
        let n = self.entries.len();
        let mut i: usize = 0;
        while i < n
            invariant
                n == self.abs().entries.len(),
                i <= n,
                self.abs().names_unique(),
                forall|j: int| 0 <= j < i ==> (#[trigger] self.abs().entries[j]).name != name@,
            decreases n - i,
        {
            if bytes_eq(&self.entries[i].name, name) {
                proof {
                    let a = self.abs();
                    assert(a.entries[i as int].name == name@);
                    let w = a.idx_of(name@);
                    if w != i {
                        assert(a.entries[w].name == a.entries[i as int].name);
                    }
                }
                return Some(i);
            }
            i = i + 1;
        }
        None
    }

    /// Pure lookup: whether a live entry has the given name.
    pub fn file_exists(&self, name: &str) -> (r: bool)
        requires
            self.inv(),
        ensures
            r == self.abs().has_name(name.spec_bytes()),
    {
        let n = name_to_bytes(name);
        self.find_entry(&n).is_some()
    }

    /// A view into the arena of exactly `size` bytes at the file's extent,
    /// an empty view for a file that was never allocated any capacity, or
    /// `None` when the name is absent. No mutation.
    pub fn read(&self, name: &str) -> (r: Option<&[u8]>)
        requires
            self.inv(),
        ensures
            match r {
                Some(data) => {
                    &&& self.abs().has_name(name.spec_bytes())
                    &&& data@ == self.abs().file_bytes(self.abs().idx_of(name.spec_bytes()))
                },
                None => !self.abs().has_name(name.spec_bytes()),
            },
    {
        let n = name_to_bytes(name);
        match self.find_entry(&n) {
            None => None,
            Some(i) => {
                let entry = &self.entries[i];
                match entry.extent {
                    None => Some(vstd::slice::slice_subrange(self.storage.as_slice(), 0, 0)),
                    Some(e) => {
                        let off = e.start_page * PAGE_SIZE;
                        Some(
                            vstd::slice::slice_subrange(
                                self.storage.as_slice(),
                                off,
                                off + entry.size,
                            ),
                        )
                    },
                }
            },
        }
    }

    /// The allocated byte capacity of the named file (`len_pages *
    /// PAGE_SIZE`, or 0 when it has no extent), or `None` when the name is
    /// absent.
    pub fn capacity(&self, name: &str) -> (r: Option<usize>)
        requires
            self.inv(),
        ensures
            match r {
                Some(c) => {
                    &&& self.abs().has_name(name.spec_bytes())
                    &&& c == self.abs().entries[self.abs().idx_of(name.spec_bytes())].cap_bytes()
                },
                None => !self.abs().has_name(name.spec_bytes()),
            },
    {
        let n = name_to_bytes(name);
        match self.find_entry(&n) {
            None => None,
            Some(i) => match self.entries[i].extent {
                None => Some(0),
                Some(e) => Some(e.len_pages * PAGE_SIZE),
            },
        }
    }

    /// The read-only entry table, in insertion order: each entry exposes
    /// its name, size and flags, but not its raw extent addresses.
    pub fn entries(&self) -> (r: &Vec<FileEntry>)
        requires
            self.inv(),
        ensures
            r@.len() == self.abs().entries.len(),
            forall|i: int| 0 <= i < r@.len() ==> (#[trigger] r@[i]).abs() == self.abs().entries[i],
    {
        &self.entries
    }
}

/// The UTF-8 bytes of a string, as an owned vector.
pub(crate) fn name_to_bytes(name: &str) -> (r: Vec<u8>)
    ensures
        r@ == name.spec_bytes(),
{
    vstd::slice::slice_to_vec(name.as_bytes())
}

/// Byte-wise equality of two byte vectors.
pub(crate) fn bytes_eq(a: &Vec<u8>, b: &Vec<u8>) -> (r: bool)
    ensures
        r == (a@ == b@),
{
    if a.len() != b.len() {
        proof {
            assert(a@.len() != b@.len());
        }
        return false;
    }
    let n = a.len();
    let mut i: usize = 0;
    while i < n
        invariant
            n == a@.len(),
            n == b@.len(),
            i <= n,
            forall|j: int| 0 <= j < i ==> a@[j] == b@[j],
        decreases n - i,
    {
        if a[i] != b[i] {
            return false;
        }
        i = i + 1;
    }
    proof {
        assert(a@ =~= b@);
    }
    true
}

/// Validates a file name, reporting the first fault found: emptiness, then
/// excessive length, then whitespace.
pub(crate) fn validate_name(name: &Vec<u8>) -> (r: Option<NameFault>)
    ensures
        r is None <==> valid_name(name@),
        r == Some(NameFault::Empty) <==> name@.len() == 0,
        r == Some(NameFault::TooLong) <==> name@.len() > MAX_FILE_NAME_LENGTH,
        r == Some(NameFault::HasWhitespace) <==> (1 <= name@.len() <= MAX_FILE_NAME_LENGTH
            && exists|i: int| 0 <= i < name@.len() && is_ws_byte(#[trigger] name@[i])),
{
    if name.len() == 0 {
        return Some(NameFault::Empty);
    }
    if name.len() > MAX_FILE_NAME_LENGTH {
        return Some(NameFault::TooLong);
    }
    let n = name.len();
    let mut i: usize = 0;
    while i < n
        invariant
            n == name@.len(),
            1 <= n <= MAX_FILE_NAME_LENGTH,
            i <= n,
            forall|j: int| 0 <= j < i ==> !is_ws_byte(#[trigger] name@[j]),
        decreases n - i,
    {
        let b = name[i];
        if b == 32 || b == 9 || b == 10 || b == 13 {
            proof {
                assert(is_ws_byte(name@[i as int]));
            }
            return Some(NameFault::HasWhitespace);
        }
        i = i + 1;
    }
    None
}

/// Lays the bytes of `data` over `storage` starting at `offset`.
pub(crate) fn write_bytes(storage: &mut Vec<u8>, offset: usize, data: &[u8])
    requires
        offset + data@.len() <= old(storage)@.len(),
    ensures
        final(storage)@ == overwrite(old(storage)@, offset as int, data@),
{
    let n = data.len();
    let cap = storage.len();
    let mut i: usize = 0;
    while i < n
        invariant
            n == data@.len(),
            i <= n,
            offset + n <= cap,
            cap == storage@.len(),
            storage@.len() == old(storage)@.len(),
            forall|j: int|
                0 <= j < storage@.len() ==> storage@[j] == if offset <= j < offset + i {
                    data@[j - offset]
                } else {
                    old(storage)@[j]
                },
        decreases n - i,
    {
        let b = *vstd::slice::slice_index_get(data, i);
        storage[offset + i] = b;
        i = i + 1;
    }
    proof {
        assert(storage@ =~= overwrite(old(storage)@, offset as int, data@));
    }
}


/// The fault `create` and `rename` report for an invalid name: emptiness
/// first, then excessive length, then whitespace.
pub open spec fn name_fault_of(n: Seq<u8>) -> NameFault {
    if n.len() == 0 {
        NameFault::Empty
    } else if n.len() > MAX_FILE_NAME_LENGTH {
        NameFault::TooLong
    } else {
        NameFault::HasWhitespace
    }
}

/// The contract of `create_with_flags` (and of `write` on an absent name),
/// relating the state before (`a`), the state after (`a2`) and the result:
/// name validation first, then the duplicate check, then allocation, then
/// the table-capacity check.
pub open spec fn create_result(
    a: AbsFs,
    n: Seq<u8>,
    d: Seq<u8>,
    flags: u32,
    a2: AbsFs,
    r: Result<(), FsError>,
) -> bool {
    let need = pages_for(d.len()) as int;
    if !valid_name(n) {
        r == Err::<(), FsError>(FsError::FileNameInvalid(name_fault_of(n))) && a2 == a
    } else if a.has_name(n) {
        r == Err::<(), FsError>(FsError::Duplicate) && a2 == a
    } else if d.len() == 0 {
        if a.entries.len() >= MAX_NUM_FILES {
            r == Err::<(), FsError>(FsError::TooManyFiles) && a2 == a
        } else {
            &&& r == Ok::<(), FsError>(())
            &&& a2.entries == a.entries.push(
                AbsEntry { name: n, size: 0, flags, extent: None::<Extent> },
            )
            &&& a2.storage == a.storage
        }
    } else if !fit_exists(a.entries, need) {
        r == Err::<(), FsError>(FsError::TooManyExtents) && a2 == a
    } else if a.entries.len() >= MAX_NUM_FILES {
        r == Err::<(), FsError>(FsError::TooManyFiles) && a2 == a
    } else {
        &&& r == Ok::<(), FsError>(())
        &&& exists|s: int|
            {
                &&& #[trigger] is_first_fit(a.entries, need, s)
                &&& a2.entries == a.entries.push(
                    AbsEntry {
                        name: n,
                        size: d.len(),
                        flags,
                        extent: Some(Extent { start_page: s as usize, len_pages: need as usize }),
                    },
                )
                &&& a2.storage == overwrite(a.storage, s * PAGE_SIZE, d)
            }
    }
}

/// The contract of `delete`: resolve, check the immutable flag, then remove
/// the entry by compaction and free its pages. The arena is not zeroed.
pub open spec fn delete_result(a: AbsFs, n: Seq<u8>, a2: AbsFs, r: Result<(), FsError>) -> bool {
    if !a.has_name(n) {
        r == Err::<(), FsError>(FsError::NotFound) && a2 == a
    } else if crate::flags::spec_is_immutable(a.entries[a.idx_of(n)].flags) {
        r == Err::<(), FsError>(FsError::ReadOnly) && a2 == a
    } else {
        &&& r == Ok::<(), FsError>(())
        &&& a2.entries == a.entries.remove(a.idx_of(n))
        &&& a2.storage == a.storage
    }
}

/// The contract of `rename`: resolve, check the sealed flag, validate the
/// new name exactly as `create` does, then update the name alone. Renaming
/// is never blocked by the immutable flag.
pub open spec fn rename_result(
    a: AbsFs,
    n: Seq<u8>,
    n2: Seq<u8>,
    a2: AbsFs,
    r: Result<(), FsError>,
) -> bool {
    if !a.has_name(n) {
        r == Err::<(), FsError>(FsError::NotFound) && a2 == a
    } else if crate::flags::spec_is_sealed(a.entries[a.idx_of(n)].flags) {
        r == Err::<(), FsError>(FsError::FileNameSealed) && a2 == a
    } else if !valid_name(n2) {
        r == Err::<(), FsError>(FsError::FileNameInvalid(name_fault_of(n2))) && a2 == a
    } else if a.has_name(n2) {
        r == Err::<(), FsError>(FsError::Duplicate) && a2 == a
    } else {
        &&& r == Ok::<(), FsError>(())
        &&& a2.entries == a.entries.update(
            a.idx_of(n),
            AbsEntry { name: n2, ..a.entries[a.idx_of(n)] },
        )
        &&& a2.storage == a.storage
    }
}

/// Pushing an entry extends page coverage exactly by that entry's pages.
pub proof fn lemma_covers_push(entries: Seq<AbsEntry>, e: AbsEntry, p: int)
    ensures
        some_covers(entries.push(e), p) <==> (some_covers(entries, p) || e.covers(p)),
{
    let n = entries.len() as int;
    if some_covers(entries.push(e), p) {
        let i = choose|i: int| 0 <= i < entries.push(e).len() && (#[trigger] entries.push(e)[i]).covers(p);
        if i < n {
            assert(entries[i].covers(p));
        } else {
            assert(entries.push(e)[i] == e);
        }
    }
    if some_covers(entries, p) {
        let i = choose|i: int| 0 <= i < entries.len() && (#[trigger] entries[i]).covers(p);
        assert(entries.push(e)[i].covers(p));
    }
    if e.covers(p) {
        assert(entries.push(e)[n].covers(p));
    }
}

/// Removing the entry at `k` leaves exactly the coverage of the others.
pub proof fn lemma_covers_remove(entries: Seq<AbsEntry>, k: int, p: int)
    requires
        0 <= k < entries.len(),
    ensures
        some_covers(entries.remove(k), p) <==> covers_except(entries, k, p),
{
    let n = entries.len() as int;
    if some_covers(entries.remove(k), p) {
        let i = choose|i: int|
            0 <= i < entries.remove(k).len() && (#[trigger] entries.remove(k)[i]).covers(p);
        if i < k {
            assert(entries[i].covers(p));
        } else {
            assert(entries[i + 1].covers(p));
        }
    }
    if covers_except(entries, k, p) {
        let i = choose|i: int|
            0 <= i < entries.len() && i != k && (#[trigger] entries[i]).covers(p);
        if i < k {
            assert(entries.remove(k)[i].covers(p));
        } else {
            assert(entries.remove(k)[i - 1].covers(p));
        }
    }
}

/// Replacing the entry at `k` changes coverage only by swapping that
/// entry's pages for the new entry's pages.
pub proof fn lemma_covers_update(entries: Seq<AbsEntry>, k: int, e: AbsEntry, p: int)
    requires
        0 <= k < entries.len(),
    ensures
        some_covers(entries.update(k, e), p) <==> (covers_except(entries, k, p) || e.covers(p)),
{
    let u = entries.update(k, e);
    if some_covers(u, p) {
        let i = choose|i: int| 0 <= i < u.len() && (#[trigger] u[i]).covers(p);
        if i != k {
            assert(entries[i].covers(p));
        }
    }
    if covers_except(entries, k, p) {
        let i = choose|i: int|
            0 <= i < entries.len() && i != k && (#[trigger] entries[i]).covers(p);
        assert(u[i].covers(p));
    }
    if e.covers(p) {
        assert(u[k].covers(p));
    }
}

/// `pages_for` is the exact ceiling division: `len` bytes fit in
/// `pages_for(len)` pages and would not fit in one page fewer.
pub proof fn lemma_pages_for(len: nat)
    ensures
        len <= pages_for(len) * PAGE_SIZE,
        pages_for(len) * PAGE_SIZE < len + PAGE_SIZE,
        (len == 0) == (pages_for(len) == 0),
{
    vstd::arithmetic::div_mod::lemma_fundamental_div_mod((len + PAGE_SIZE - 1) as int, PAGE_SIZE as int);
}

impl MemoryFs {
    /// Under the partition invariant, a run of pages is free in the bitmap
    /// exactly when no live entry claims any of its pages.
    proof fn lemma_run_free_abs(self, s: int, len: int)
        requires
            self.inv(),
            0 <= s,
            s + len <= NUM_PAGES,
        ensures
            self.pages.run_free(s, len) <==> abs_run_free(self.abs().entries, s, len),
    {
        let entries = self.abs().entries;
        if self.pages.run_free(s, len) {
            assert forall|p: int| s <= p < s + len implies !some_covers(entries, p) by {
                assert(!self.pages.spec_page_used(p));
            }
        }
        if abs_run_free(entries, s, len) {
            assert forall|p: int| s <= p < s + len implies !self.pages.spec_page_used(p) by {
                assert(!some_covers(entries, p));
            }
        }
    }

    /// Creates a file with empty flags; see `create_with_flags`.
    pub fn create(&mut self, name: &str, data: &[u8]) -> (r: Result<(), FsError>)
        requires
            old(self).inv(),
        ensures
            final(self).inv(),
            create_result(
                old(self).abs(),
                name.spec_bytes(),
                data@,
                0,
                final(self).abs(),
                r,
            ),
    {
        self.create_with_flags(name, data, 0)
    }

    /// Creates a file named `name` holding `data`, with the given flag
    /// bits: validates the name, rejects duplicates, allocates a first-fit
    /// extent for the data (none for empty data), and copies the bytes in.
    pub fn create_with_flags(&mut self, name: &str, data: &[u8], flags: u32) -> (r: Result<
        (),
        FsError,
    >)
        requires
            old(self).inv(),
        ensures
            final(self).inv(),
            create_result(
                old(self).abs(),
                name.spec_bytes(),
                data@,
                flags,
                final(self).abs(),
                r,
            ),
    {
        let n = name_to_bytes(name);
        match validate_name(&n) {
            Some(fault) => {
                return Err(FsError::FileNameInvalid(fault));
            },
            None => {},
        }
        if self.find_entry(&n).is_some() {
            return Err(FsError::Duplicate);
        }
        let ghost a0 = self.abs();
        if data.len() == 0 {
            if self.entries.len() >= MAX_NUM_FILES {
                return Err(FsError::TooManyFiles);
            }
            let entry = FileEntry { name: n, size: 0, flags, extent: None };
            let ghost ne = entry.abs();
            self.entries.push(entry);
            proof {
                assert(self.abs().entries =~= a0.entries.push(ne));
                assert forall|p: int| 0 <= p < NUM_PAGES implies (
                    self.pages.spec_page_used(p) <==> some_covers(self.abs().entries, p)) by {
                    lemma_covers_push(a0.entries, ne, p);
                }
                assert(self.abs().wf()) by {
                    assert forall|i: int, j: int|
                        0 <= i < j < self.abs().entries.len() implies self.abs().entries[i].name
                        != self.abs().entries[j].name by {
                        if j == a0.entries.len() {
                            assert(!a0.has_name(ne.name));
                            assert(a0.entries[i].name != ne.name);
                        }
                    }
                }
            }
            return Ok(());
        }
        if data.len() > STORAGE_SIZE {
            proof {
                lemma_pages_for(data@.len());
                let need = pages_for(data@.len()) as int;
                assert(need > NUM_PAGES) by {
                    assert(need * PAGE_SIZE >= data@.len());
                };
                assert(!fit_exists(a0.entries, need));
            }
            return Err(FsError::TooManyExtents);
        }
        let required = (data.len() + PAGE_SIZE - 1) / PAGE_SIZE;
        proof {
            lemma_pages_for(data@.len());
        }
        let found = self.pages.find_free_pages(required);
        match found {
            None => {
                proof {
                    let need = required as int;
                    assert forall|s: int| 0 <= s && s + need <= NUM_PAGES implies !abs_run_free(
                        a0.entries,
                        s,
                        need,
                    ) by {
                        self.lemma_run_free_abs(s, need);
                    }
                    assert(!fit_exists(a0.entries, need));
                }
                Err(FsError::TooManyExtents)
            },
            Some(e) => {
                proof {
                    self.lemma_run_free_abs(e.start_page as int, required as int);
                    assert forall|t: int| 0 <= t < e.start_page implies !abs_run_free(
                        a0.entries,
                        t,
                        required as int,
                    ) by {
                        self.lemma_run_free_abs(t, required as int);
                    }
                    assert(is_first_fit(a0.entries, required as int, e.start_page as int));
                    assert(fit_exists(a0.entries, required as int));
                }
                if self.entries.len() >= MAX_NUM_FILES {
                    return Err(FsError::TooManyFiles);
                }
                let entry = FileEntry {
                    name: n,
                    size: data.len(),
                    flags,
                    extent: Some(e),
                };
                let ghost ne = entry.abs();
                let ghost pages0 = self.pages;
                self.entries.push(entry);
                self.pages.mark_pages(e.start_page, e.len_pages, true);
                let off = e.start_page * PAGE_SIZE;
                write_bytes(&mut self.storage, off, data);
                proof {
                    let a2 = self.abs();
                    assert(a2.entries =~= a0.entries.push(ne));
                    assert(a2.storage == overwrite(a0.storage, e.start_page * PAGE_SIZE, data@));
                    assert forall|p: int| 0 <= p < NUM_PAGES implies (
                        self.pages.spec_page_used(p) <==> some_covers(a2.entries, p)) by {
                        lemma_covers_push(a0.entries, ne, p);
                        if e.start_page <= p < e.start_page + e.len_pages {
                            assert(ne.covers(p));
                        } else {
                            assert(!ne.covers(p));
                        }
                    }
                    assert(a2.wf()) by {
                        let m = a0.entries.len() as int;
                        assert(ne.wf());
                        assert forall|i: int, j: int|
                            0 <= i < j < a2.entries.len() implies a2.entries[i].name
                            != a2.entries[j].name by {
                            if j == m {
                                assert(!a0.has_name(ne.name));
                                assert(a0.entries[i].name != ne.name);
                            }
                        }
                        assert forall|i: int, j: int, p: int|
                            #![trigger a2.entries[i].covers(p), a2.entries[j].covers(p)]
                            0 <= i < a2.entries.len() && 0 <= j < a2.entries.len() && i != j
                            implies !(a2.entries[i].covers(p) && a2.entries[j].covers(p)) by {
                            if a2.entries[i].covers(p) && a2.entries[j].covers(p) {
                                let (oi, nj) = if i == m { (j, i) } else { (i, j) };
                                if i == m || j == m {
                                    assert(a0.entries[oi].covers(p));
                                    assert(ne.covers(p));
                                    assert(0 <= p < NUM_PAGES);
                                    assert(some_covers(a0.entries, p));
                                    assert(pages0.spec_page_used(p));
                                    assert(pages0.run_free(
                                        e.start_page as int,
                                        e.len_pages as int,
                                    ));
                                }
                            }
                        }
                    }
                    assert(create_result(a0, name.spec_bytes(), data@, flags, a2, Ok(())));
                }
                Ok(())
            },
        }
    }

    /// Deletes the named file: removes its entry by compaction and frees
    /// its pages. The freed bytes are not zeroed.
    pub fn delete(&mut self, name: &str) -> (r: Result<(), FsError>)
        requires
            old(self).inv(),
        ensures
            final(self).inv(),
            delete_result(old(self).abs(), name.spec_bytes(), final(self).abs(), r),
    {
        let n = name_to_bytes(name);
        let index = match self.find_entry(&n) {
            Some(index) => index,
            None => {
                return Err(FsError::NotFound);
            },
        };
        if is_immutable(self.entries[index].flags) {
            return Err(FsError::ReadOnly);
        }
        let ghost a0 = self.abs();
        let extent = self.entries[index].extent;
        let removed = self.entries.remove(index);
        match extent {
            Some(e) => {
                self.pages.mark_pages(e.start_page, e.len_pages, false);
            },
            None => {},
        }
        proof {
            let a2 = self.abs();
            let k = index as int;
            assert(a2.entries =~= a0.entries.remove(k));
            assert forall|p: int| 0 <= p < NUM_PAGES implies (
                self.pages.spec_page_used(p) <==> some_covers(a2.entries, p)) by {
                lemma_covers_remove(a0.entries, k, p);
                if a0.entries[k].covers(p) {
                    assert(!covers_except(a0.entries, k, p));
                    assert(!self.pages.spec_page_used(p));
                } else {
                    if some_covers(a0.entries, p) {
                        let i = choose|i: int|
                            0 <= i < a0.entries.len() && (#[trigger] a0.entries[i]).covers(p);
                        assert(covers_except(a0.entries, k, p));
                    }
                    if covers_except(a0.entries, k, p) {
                        let i = choose|i: int|
                            0 <= i < a0.entries.len() && i != k && (
                            #[trigger] a0.entries[i]).covers(p);
                        assert(some_covers(a0.entries, p));
                    }
                }
            }
            assert(a2.wf()) by {
                assert forall|i: int, j: int|
                    0 <= i < j < a2.entries.len() implies a2.entries[i].name
                    != a2.entries[j].name by {
                    let i0 = if i < k { i } else { i + 1 };
                    let j0 = if j < k { j } else { j + 1 };
                    assert(a2.entries[i] == a0.entries[i0]);
                    assert(a2.entries[j] == a0.entries[j0]);
                }
                assert forall|i: int, j: int, p: int|
                    #![trigger a2.entries[i].covers(p), a2.entries[j].covers(p)]
                    0 <= i < a2.entries.len() && 0 <= j < a2.entries.len() && i != j
                    implies !(a2.entries[i].covers(p) && a2.entries[j].covers(p)) by {
                    let i0 = if i < k { i } else { i + 1 };
                    let j0 = if j < k { j } else { j + 1 };
                    assert(a2.entries[i] == a0.entries[i0]);
                    assert(a2.entries[j] == a0.entries[j0]);
                }
            }
        }
        Ok(())
    }

    /// Renames the named file after validating the new name exactly as
    /// `create` does. Flags, extent and size are untouched, and the
    /// immutable flag does not block renaming.
    pub fn rename(&mut self, name: &str, new_name: &str) -> (r: Result<(), FsError>)
        requires
            old(self).inv(),
        ensures
            final(self).inv(),
            rename_result(
                old(self).abs(),
                name.spec_bytes(),
                new_name.spec_bytes(),
                final(self).abs(),
                r,
            ),
    {
        let n = name_to_bytes(name);
        let index = match self.find_entry(&n) {
            Some(index) => index,
            None => {
                return Err(FsError::NotFound);
            },
        };
        if is_sealed(self.entries[index].flags) {
            return Err(FsError::FileNameSealed);
        }
        let n2 = name_to_bytes(new_name);
        match validate_name(&n2) {
            Some(fault) => {
                return Err(FsError::FileNameInvalid(fault));
            },
            None => {},
        }
        if self.find_entry(&n2).is_some() {
            return Err(FsError::Duplicate);
        }
        let ghost a0 = self.abs();
        let ghost k = index as int;
        self.entries[index].name = n2;
        proof {
            let a2 = self.abs();
            let ne = AbsEntry { name: new_name.spec_bytes(), ..a0.entries[k] };
            assert(a2.entries =~= a0.entries.update(k, ne));
            assert forall|p: int| 0 <= p < NUM_PAGES implies (
                self.pages.spec_page_used(p) <==> some_covers(a2.entries, p)) by {
                lemma_covers_update(a0.entries, k, ne, p);
                if some_covers(a0.entries, p) {
                    let i = choose|i: int|
                        0 <= i < a0.entries.len() && (#[trigger] a0.entries[i]).covers(p);
                    if i == k {
                        assert(ne.covers(p));
                    } else {
                        assert(covers_except(a0.entries, k, p));
                    }
                }
                if covers_except(a0.entries, k, p) {
                    let i = choose|i: int|
                        0 <= i < a0.entries.len() && i != k && (#[trigger] a0.entries[i]).covers(
                            p,
                        );
                    assert(some_covers(a0.entries, p));
                }
                if ne.covers(p) {
                    assert(a0.entries[k].covers(p));
                    assert(some_covers(a0.entries, p));
                }
            }
            assert(a2.wf()) by {
                assert forall|i: int, j: int|
                    0 <= i < j < a2.entries.len() implies a2.entries[i].name
                    != a2.entries[j].name by {
                    if i != k && j != k {
                        assert(a2.entries[i] == a0.entries[i]);
                        assert(a2.entries[j] == a0.entries[j]);
                    } else {
                        assert(!a0.has_name(ne.name));
                        if i == k {
                            assert(a2.entries[j] == a0.entries[j]);
                            assert(a0.entries[j].name != ne.name);
                        } else {
                            assert(a2.entries[i] == a0.entries[i]);
                            assert(a0.entries[i].name != ne.name);
                        }
                    }
                }
                assert forall|i: int, j: int, p: int|
                    #![trigger a2.entries[i].covers(p), a2.entries[j].covers(p)]
                    0 <= i < a2.entries.len() && 0 <= j < a2.entries.len() && i != j
                    implies !(a2.entries[i].covers(p) && a2.entries[j].covers(p)) by {
                    assert(a2.entries[i].covers(p) ==> a0.entries[i].covers(p));
                    assert(a2.entries[j].covers(p) ==> a0.entries[j].covers(p));
                }
            }
        }
        Ok(())
    }
}


/// Copies `len` bytes within `storage` from `src` to `dst`. The two
/// regions must not overlap.
pub(crate) fn copy_within(storage: &mut Vec<u8>, src: usize, dst: usize, len: usize)
    requires
        src + len <= old(storage)@.len(),
        dst + len <= old(storage)@.len(),
        dst + len <= src || src + len <= dst,
    ensures
        final(storage)@ == overwrite(
            old(storage)@,
            dst as int,
            old(storage)@.subrange(src as int, src + len),
        ),
{
    let cap = storage.len();
    let mut i: usize = 0;
    while i < len
        invariant
            cap == storage@.len(),
            storage@.len() == old(storage)@.len(),
            src + len <= cap,
            dst + len <= cap,
            dst + len <= src || src + len <= dst,
            i <= len,
            forall|j: int|
                0 <= j < storage@.len() ==> storage@[j] == if dst <= j < dst + i {
                    old(storage)@[src + (j - dst)]
                } else {
                    old(storage)@[j]
                },
        decreases len - i,
    {
        let b = storage[src + i];
        storage[dst + i] = b;
        i = i + 1;
    }
    proof {
        assert(storage@ =~= overwrite(
            old(storage)@,
            dst as int,
            old(storage)@.subrange(src as int, src + len),
        ));
    }
}


impl MemoryFs {
    /// Whether the allocator bit of page `p` is set.
    pub open(crate) spec fn page_used(self, p: int) -> bool {
        self.pages.spec_page_used(p)
    }
}


/// A consequence of disjoint extents: the byte-capacity ranges of two
/// extent-backed live files are separated in the arena.
pub proof fn lemma_files_do_not_alias(a: AbsFs, i: int, k: int)
    requires
        a.wf(),
        0 <= i < a.entries.len(),
        0 <= k < a.entries.len(),
        i != k,
        a.entries[i].extent is Some,
        a.entries[k].extent is Some,
    ensures
        a.entries[i].offset() + a.entries[i].cap_bytes() <= a.entries[k].offset()
            || a.entries[k].offset() + a.entries[k].cap_bytes() <= a.entries[i].offset(),
{
    let ei = a.entries[i].extent.unwrap();
    let ek = a.entries[k].extent.unwrap();
    if !(ei.start_page + ei.len_pages <= ek.start_page || ek.start_page + ek.len_pages
        <= ei.start_page) {
        let p: int = if ei.start_page >= ek.start_page {
            ei.start_page as int
        } else {
            ek.start_page as int
        };
        assert(a.entries[i].covers(p) && a.entries[k].covers(p));
    }
    assert(ei.start_page * PAGE_SIZE + ei.len_pages * PAGE_SIZE == (ei.start_page + ei.len_pages)
        * PAGE_SIZE);
    assert(ek.start_page * PAGE_SIZE + ek.len_pages * PAGE_SIZE == (ek.start_page + ek.len_pages)
        * PAGE_SIZE);
}

/// Why the partition invariant matters to a reader: bytes laid down within
/// one live file's allocated capacity leave every other file's content
/// exactly as it was.
pub proof fn lemma_write_within_file_preserves_others(
    a: AbsFs,
    storage2: Seq<u8>,
    k: int,
    off: int,
    d: Seq<u8>,
    i: int,
)
    requires
        a.wf(),
        0 <= k < a.entries.len(),
        0 <= i < a.entries.len(),
        i != k,
        a.entries[k].extent is Some,
        a.entries[k].offset() <= off,
        off + d.len() <= a.entries[k].offset() + a.entries[k].cap_bytes(),
        storage2 == overwrite(a.storage, off, d),
    ensures
        (AbsFs { entries: a.entries, storage: storage2 }).file_bytes(i) == a.file_bytes(i),
{
    let a2 = AbsFs { entries: a.entries, storage: storage2 };
    let e = a.entries[i];
    assert(e.wf());
    match e.extent {
        None => {
            assert(a2.file_bytes(i) =~= a.file_bytes(i));
        },
        Some(x) => {
            lemma_files_do_not_alias(a, i, k);
            assert(e.offset() + e.size <= e.offset() + e.cap_bytes());
            assert forall|j: int| e.offset() <= j < e.offset() + e.size implies storage2[j]
                == a.storage[j] by {
                assert(!(off <= j < off + d.len()));
            }
            assert(a2.file_bytes(i) =~= a.file_bytes(i));
        },
    }
}

/// The allocator partition law: between operations, a page's bit is set
/// exactly when some live entry's extent covers it, and no page is covered
/// by two entries -- so a set bit belongs to exactly one live file.
pub proof fn lemma_allocator_partition(fs: MemoryFs, p: int)
    requires
        fs.inv(),
        0 <= p < NUM_PAGES,
    ensures
        fs.page_used(p) <==> some_covers(fs.abs().entries, p),
        forall|i: int, j: int|
            #![trigger fs.abs().entries[i].covers(p), fs.abs().entries[j].covers(p)]
            0 <= i < fs.abs().entries.len() && 0 <= j < fs.abs().entries.len()
                && fs.abs().entries[i].covers(p) && fs.abs().entries[j].covers(p) ==> i == j,
{
}

/// The name uniqueness law: no two live entries ever share a name. That a
/// duplicate `create` or `rename` fails with `Duplicate` and leaves the
/// state unchanged is part of `create_result` and `rename_result`.
pub proof fn lemma_names_unique(fs: MemoryFs, i: int, j: int)
    requires
        fs.inv(),
        0 <= i < fs.abs().entries.len(),
        0 <= j < fs.abs().entries.len(),
        i != j,
    ensures
        fs.abs().entries[i].name != fs.abs().entries[j].name,
{
}

} // verus!
