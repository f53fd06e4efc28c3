//! The growth, shrink and replace operations of the file table: `write`,
//! `write_at`, the append family, `truncate` and the reserve family.
//!
//! Every operation here is an allocator transaction on one entry: it frees,
//! extends or relocates that entry's extent and keeps the partition between
//! the page bitmap and the table.

use vstd::prelude::*;
use vstd::string::StringSliceAdditionalSpecFns;

use crate::allocator::Extent;
use crate::allocator::PageAllocator;
use crate::errors::FsError;
use crate::flags::is_append_only;
use crate::flags::is_immutable;
use crate::fs::abs_run_free;
use crate::fs::covers_except;
use crate::fs::fit_exists;
use crate::fs::is_first_fit;
use crate::fs::matches_covers;
use crate::fs::matches_covers_except;
use crate::fs::overwrite;
use crate::fs::pages_for;
use crate::fs::some_covers;
use crate::fs::write_bytes;
use crate::fs::AbsEntry;
use crate::fs::AbsFs;
use crate::fs::MemoryFs;
use crate::NUM_PAGES;
use crate::PAGE_SIZE;
use crate::STORAGE_SIZE;

verus! {

/// Whether every page of `[s, s + len)` is unclaimed by every entry other
/// than the one at `k`: the run condition of the release-then-search growth
/// path, which may reuse the entry's own pages.
pub open spec fn abs_run_free_except(entries: Seq<AbsEntry>, k: int, s: int, len: int) -> bool {
    forall|p: int| s <= p < s + len ==> !covers_except(entries, k, p)
}

/// Whether some in-bounds run of `need` pages is unclaimed by every entry
/// but the one at `k`.
pub open spec fn fit_exists_except(entries: Seq<AbsEntry>, k: int, need: int) -> bool {
    exists|s: int| 0 <= s && s + need <= NUM_PAGES && abs_run_free_except(entries, k, s, need)
}

/// Whether `s` is the first-fit start for `need` pages when the entry at
/// `k` is left out of account.
pub open spec fn is_first_fit_except(entries: Seq<AbsEntry>, k: int, need: int, s: int) -> bool {
    &&& 0 <= s
    &&& s + need <= NUM_PAGES
    &&& abs_run_free_except(entries, k, s, need)
    &&& forall|t: int| 0 <= t < s ==> !abs_run_free_except(entries, k, t, need)
}

/// Whether the pages right after extent `e` can take `extra` more pages:
/// the neighbor-extension condition of the in-place growth paths.
pub open spec fn neighbor_ok(entries: Seq<AbsEntry>, e: Extent, extra: int) -> bool {
    &&& e.start_page + e.len_pages + extra <= NUM_PAGES
    &&& abs_run_free(entries, e.start_page + e.len_pages, extra)
}

/// Updating the entry at `k` preserves well-formedness when the new entry
/// is well-formed, keeps its name, and claims no page of any other entry.
pub proof fn lemma_wf_after_update(a: AbsFs, k: int, ne: AbsEntry, storage2: Seq<u8>)
    requires
        a.wf(),
        0 <= k < a.entries.len(),
        ne.wf(),
        ne.name == a.entries[k].name,
        forall|p: int| #[trigger] ne.covers(p) ==> !covers_except(a.entries, k, p),
        storage2.len() == STORAGE_SIZE,
    ensures
        (AbsFs { entries: a.entries.update(k, ne), storage: storage2 }).wf(),
{
    let a2 = AbsFs { entries: a.entries.update(k, ne), storage: storage2 };
    assert forall|i: int, j: int|
        0 <= i < j < a2.entries.len() implies a2.entries[i].name != a2.entries[j].name by {
        if i != k && j != k {
            assert(a2.entries[i] == a.entries[i]);
            assert(a2.entries[j] == a.entries[j]);
        } else if i == k {
            assert(a2.entries[j] == a.entries[j]);
        } else {
            assert(a2.entries[i] == a.entries[i]);
        }
    }
    assert forall|i: int, j: int, p: int|
        #![trigger a2.entries[i].covers(p), a2.entries[j].covers(p)]
        0 <= i < a2.entries.len() && 0 <= j < a2.entries.len() && i != j implies !(
    a2.entries[i].covers(p) && a2.entries[j].covers(p)) by {
        if a2.entries[i].covers(p) && a2.entries[j].covers(p) {
            if i != k && j != k {
                assert(a.entries[i].covers(p));
                assert(a.entries[j].covers(p));
            } else {
                let o = if i == k { j } else { i };
                assert(a2.entries[o] == a.entries[o]);
                assert(ne.covers(p));
                assert(covers_except(a.entries, k, p));
            }
        }
    }
    assert forall|i: int| 0 <= i < a2.entries.len() implies (#[trigger] a2.entries[i]).wf() by {
        if i != k {
            assert(a2.entries[i] == a.entries[i]);
        }
    }
}

/// The partition survives replacing the entry at `k` when the bitmap was
/// cleared over the pages the entry gives up and set over the pages it
/// takes, in that order.
pub proof fn lemma_partition_after_update(
    pages0: PageAllocator,
    pages2: PageAllocator,
    a: AbsFs,
    k: int,
    ne: AbsEntry,
)
    requires
        a.wf(),
        matches_covers(pages0, a.entries),
        0 <= k < a.entries.len(),
        forall|p: int|
            0 <= p < NUM_PAGES ==> (#[trigger] pages2.spec_page_used(p)) == if ne.covers(p) {
                true
            } else if a.entries[k].covers(p) {
                false
            } else {
                pages0.spec_page_used(p)
            },
    ensures
        matches_covers(pages2, a.entries.update(k, ne)),
{
    let u = a.entries.update(k, ne);
    assert forall|p: int| 0 <= p < NUM_PAGES implies ((#[trigger] pages2.spec_page_used(p))
        <==> some_covers(u, p)) by {
        crate::fs::lemma_covers_update(a.entries, k, ne, p);
        if ne.covers(p) {
        } else if a.entries[k].covers(p) {
            assert(!covers_except(a.entries, k, p));
        } else {
            if some_covers(a.entries, p) {
                let i = choose|i: int|
                    0 <= i < a.entries.len() && (#[trigger] a.entries[i]).covers(p);
                assert(covers_except(a.entries, k, p));
            }
            if covers_except(a.entries, k, p) {
                let i = choose|i: int|
                    0 <= i < a.entries.len() && i != k && (#[trigger] a.entries[i]).covers(p);
                assert(some_covers(a.entries, p));
            }
        }
    }
}

/// While the pages of the entry at `k` are provisionally freed, the bitmap
/// agrees with the coverage of the other entries.
pub proof fn lemma_cleared_matches_except(
    pages0: PageAllocator,
    pages1: PageAllocator,
    a: AbsFs,
    k: int,
)
    requires
        a.wf(),
        matches_covers(pages0, a.entries),
        0 <= k < a.entries.len(),
        forall|p: int|
            0 <= p < NUM_PAGES ==> (#[trigger] pages1.spec_page_used(p)) == if a.entries[k].covers(
                p,
            ) {
                false
            } else {
                pages0.spec_page_used(p)
            },
    ensures
        matches_covers_except(pages1, a.entries, k),
{
    assert forall|p: int| 0 <= p < NUM_PAGES implies ((#[trigger] pages1.spec_page_used(p))
        <==> covers_except(a.entries, k, p)) by {
        if a.entries[k].covers(p) {
            assert(!covers_except(a.entries, k, p));
        } else {
            if some_covers(a.entries, p) {
                let i = choose|i: int|
                    0 <= i < a.entries.len() && (#[trigger] a.entries[i]).covers(p);
                assert(covers_except(a.entries, k, p));
            }
            if covers_except(a.entries, k, p) {
                let i = choose|i: int|
                    0 <= i < a.entries.len() && i != k && (#[trigger] a.entries[i]).covers(p);
                assert(some_covers(a.entries, p));
            }
        }
    }
}

/// A bitmap that agrees with coverage-except-`k` sees a run as free exactly
/// when no entry but `k` claims any of its pages.
pub proof fn lemma_run_free_except_abs(
    pages: PageAllocator,
    entries: Seq<AbsEntry>,
    k: int,
    s: int,
    len: int,
)
    requires
        matches_covers_except(pages, entries, k),
        0 <= s,
        s + len <= NUM_PAGES,
    ensures
        pages.run_free(s, len) <==> abs_run_free_except(entries, k, s, len),
{
    if pages.run_free(s, len) {
        assert forall|p: int| s <= p < s + len implies !covers_except(entries, k, p) by {
            assert(!pages.spec_page_used(p));
        }
    }
    if abs_run_free_except(entries, k, s, len) {
        assert forall|p: int| s <= p < s + len implies !pages.spec_page_used(p) by {
            assert(!covers_except(entries, k, p));
        }
    }
}

/// A bitmap that agrees with coverage sees a run as free exactly when no
/// entry claims any of its pages.
pub proof fn lemma_run_free_abs_with(
    pages: PageAllocator,
    entries: Seq<AbsEntry>,
    s: int,
    len: int,
)
    requires
        matches_covers(pages, entries),
        0 <= s,
        s + len <= NUM_PAGES,
    ensures
        pages.run_free(s, len) <==> abs_run_free(entries, s, len),
{
    if pages.run_free(s, len) {
        assert forall|p: int| s <= p < s + len implies !some_covers(entries, p) by {
            assert(!pages.spec_page_used(p));
        }
    }
    if abs_run_free(entries, s, len) {
        assert forall|p: int| s <= p < s + len implies !pages.spec_page_used(p) by {
            assert(!some_covers(entries, p));
        }
    }
}

/// The contract of `truncate`: sizes may only shrink; truncating frees the
/// trailing pages the smaller size no longer needs, and truncating to zero
/// frees the whole extent. Arena bytes are never touched.
pub open spec fn truncate_result(
    a: AbsFs,
    n: Seq<u8>,
    new_size: nat,
    a2: AbsFs,
    r: Result<(), FsError>,
) -> bool {
    if !a.has_name(n) {
        r == Err::<(), FsError>(FsError::NotFound) && a2 == a
    } else {
        let k = a.idx_of(n);
        let e0 = a.entries[k];
        if crate::flags::spec_is_immutable(e0.flags) {
            r == Err::<(), FsError>(FsError::ReadOnly) && a2 == a
        } else if new_size > e0.size {
            r == Err::<(), FsError>(FsError::InvalidOp) && a2 == a
        } else if new_size == 0 {
            &&& r == Ok::<(), FsError>(())
            &&& a2.entries == a.entries.update(
                k,
                AbsEntry { size: 0, extent: None::<Extent>, ..e0 },
            )
            &&& a2.storage == a.storage
        } else {
            &&& r == Ok::<(), FsError>(())
            &&& a2.entries == a.entries.update(
                k,
                AbsEntry {
                    size: new_size,
                    extent: Some(
                        Extent {
                            start_page: e0.extent.unwrap().start_page,
                            len_pages: pages_for(new_size) as usize,
                        },
                    ),
                    ..e0
                },
            )
            &&& a2.storage == a.storage
        }
    }
}

impl MemoryFs {
    /// Shrinks the named file to `new_size` bytes: frees the now-unused
    /// trailing pages, keeps the start page, and rejects growth with
    /// `InvalidOp` (growth belongs to `reserve`).
    pub fn truncate(&mut self, name: &str, new_size: usize) -> (r: Result<(), FsError>)
        requires
            old(self).inv(),
        ensures
            final(self).inv(),
            truncate_result(
                old(self).abs(),
                name.spec_bytes(),
                new_size as nat,
                final(self).abs(),
                r,
            ),
    {
        let n = crate::fs::name_to_bytes(name);
        let index = match self.find_entry(&n) {
            Some(index) => index,
            None => {
                return Err(FsError::NotFound);
            },
        };
        if is_immutable(self.entries[index].flags) {
            return Err(FsError::ReadOnly);
        }
        if new_size > self.entries[index].size {
            return Err(FsError::InvalidOp);
        }
        let ghost a0 = self.abs();
        let ghost k = index as int;
        let ghost pages0 = self.pages;
        if new_size == 0 {
            let extent = self.entries[index].extent;
            self.entries[index].size = 0;
            self.entries[index].extent = None;
            match extent {
                Some(e) => {
                    self.pages.mark_pages(e.start_page, e.len_pages, false);
                },
                None => {},
            }
            proof {
                let ne = AbsEntry { size: 0, extent: None::<Extent>, ..a0.entries[k] };
                assert(self.abs().entries =~= a0.entries.update(k, ne));
                lemma_partition_after_update(pages0, self.pages, a0, k, ne);
                lemma_wf_after_update(a0, k, ne, self.storage@);
                assert(self.abs() =~= AbsFs {
                    entries: a0.entries.update(k, ne),
                    storage: a0.storage,
                });
            }
            return Ok(());
        }
        // new_size >= 1, so the entry has an extent and keeps its start.
        let e = match self.entries[index].extent {
            Some(e) => e,
            None => {
                return vstd::pervasive::unreached();
            },
        };
        let required = (new_size + PAGE_SIZE - 1) / PAGE_SIZE;
        proof {
            crate::fs::lemma_pages_for(new_size as nat);
            crate::fs::lemma_pages_for(self.entries@[k].size as nat);
            assert(required <= e.len_pages) by {
                assert(required * PAGE_SIZE < new_size + PAGE_SIZE);
                assert(new_size <= e.len_pages * PAGE_SIZE);
            }
        }
        if required < e.len_pages {
            self.pages.mark_pages(e.start_page + required, e.len_pages - required, false);
        }
        self.entries[index].size = new_size;
        self.entries[index].extent = Some(Extent { start_page: e.start_page, len_pages: required });
        proof {
            let ne = AbsEntry {
                size: new_size as nat,
                extent: Some(
                    Extent { start_page: e.start_page, len_pages: pages_for(new_size as nat) as usize },
                ),
                ..a0.entries[k]
            };
            assert(self.abs().entries =~= a0.entries.update(k, ne));
            lemma_partition_after_update(pages0, self.pages, a0, k, ne);
            assert forall|p: int| #[trigger] ne.covers(p) implies !covers_except(
                a0.entries,
                k,
                p,
            ) by {
                assert(a0.entries[k].covers(p));
                if covers_except(a0.entries, k, p) {
                    let i = choose|i: int|
                        0 <= i < a0.entries.len() && i != k && (#[trigger] a0.entries[i]).covers(
                            p,
                        );
                }
            }
            lemma_wf_after_update(a0, k, ne, self.storage@);
            assert(self.abs() =~= AbsFs { entries: a0.entries.update(k, ne), storage: a0.storage });
        }
        Ok(())
    }
}


/// An extent-backed entry whose pages all avoid the run `e2` sits in a
/// byte-separated region of the arena.
proof fn lemma_separate_extents(entry: AbsEntry, e2: Extent)
    requires
        entry.extent is Some,
        entry.extent.unwrap().len_pages >= 1,
        e2.len_pages >= 1,
        forall|p: int|
            e2.start_page <= p < e2.start_page + e2.len_pages ==> !(#[trigger] entry.covers(p)),
    ensures
        entry.extent.unwrap().start_page + entry.extent.unwrap().len_pages <= e2.start_page
            || e2.start_page + e2.len_pages <= entry.extent.unwrap().start_page,
{
    let e1 = entry.extent.unwrap();
    if !(e1.start_page + e1.len_pages <= e2.start_page || e2.start_page + e2.len_pages
        <= e1.start_page) {
        let p: int = if e1.start_page >= e2.start_page {
            e1.start_page as int
        } else {
            e2.start_page as int
        };
        assert(entry.covers(p));
        assert(e2.start_page <= p < e2.start_page + e2.len_pages);
    }
}

/// The contract of the shared growth engine: give the entry at `k` capacity
/// for `required` pages while leaving its size and live bytes alone. A file
/// without an extent gets a first-fit run; one with an extent is extended in
/// place by its free neighbor pages, or, when `repack` allows, relocated to
/// a first-fit run found while the old extent is still allocated, its live
/// bytes copied over.
pub open spec fn grow_result(
    a: AbsFs,
    k: int,
    required: int,
    repack: bool,
    a2: AbsFs,
    r: Result<(), FsError>,
) -> bool {
    let e0 = a.entries[k];
    if required <= e0.cap_pages() {
        r == Ok::<(), FsError>(()) && a2 == a
    } else {
        match e0.extent {
            None => {
                if fit_exists(a.entries, required) {
                    &&& r == Ok::<(), FsError>(())
                    &&& a2.storage == a.storage
                    &&& exists|s: int|
                        {
                            &&& #[trigger] is_first_fit(a.entries, required, s)
                            &&& a2.entries == a.entries.update(
                                k,
                                AbsEntry {
                                    extent: Some(
                                        Extent {
                                            start_page: s as usize,
                                            len_pages: required as usize,
                                        },
                                    ),
                                    ..e0
                                },
                            )
                        }
                } else {
                    r == Err::<(), FsError>(FsError::NoSpace) && a2 == a
                }
            },
            Some(e) => {
                if neighbor_ok(a.entries, e, required - e.len_pages) {
                    &&& r == Ok::<(), FsError>(())
                    &&& a2.storage == a.storage
                    &&& a2.entries == a.entries.update(
                        k,
                        AbsEntry {
                            extent: Some(
                                Extent { start_page: e.start_page, len_pages: required as usize },
                            ),
                            ..e0
                        },
                    )
                } else if repack && fit_exists(a.entries, required) {
                    &&& r == Ok::<(), FsError>(())
                    &&& exists|s: int|
                        {
                            &&& #[trigger] is_first_fit(a.entries, required, s)
                            &&& a2.entries == a.entries.update(
                                k,
                                AbsEntry {
                                    extent: Some(
                                        Extent {
                                            start_page: s as usize,
                                            len_pages: required as usize,
                                        },
                                    ),
                                    ..e0
                                },
                            )
                            &&& a2.storage == overwrite(a.storage, s * PAGE_SIZE, a.file_bytes(k))
                        }
                } else {
                    r == Err::<(), FsError>(FsError::WouldFragment) && a2 == a
                }
            },
        }
    }
}

impl MemoryFs {
    /// The shared growth engine behind `write_at`, the append family and
    /// the reserve family; see `grow_result`.
    pub(crate) fn grow_to(&mut self, index: usize, required: usize, repack: bool) -> (r: Result<
        (),
        FsError,
    >)
        requires
            old(self).inv(),
            index < old(self).entries@.len(),
            required <= NUM_PAGES,
        ensures
            final(self).inv(),
            grow_result(
                old(self).abs(),
                index as int,
                required as int,
                repack,
                final(self).abs(),
                r,
            ),
    {
        let ghost a0 = self.abs();
        let ghost k = index as int;
        let ghost pages0 = self.pages;
        proof {
            assert(a0.entries[k].wf());
        }
        let current: usize = match self.entries[index].extent {
            Some(e) => e.len_pages,
            None => 0,
        };
        if required <= current {
            return Ok(());
        }
        match self.entries[index].extent {
            None => {
                match self.pages.find_free_pages(required) {
                    None => {
                        proof {
                            assert forall|s: int|
                                0 <= s && s + required <= NUM_PAGES implies !abs_run_free(
                                a0.entries,
                                s,
                                required as int,
                            ) by {
                                lemma_run_free_abs_with(pages0, a0.entries, s, required as int);
                            }
                        }
                        Err(FsError::NoSpace)
                    },
                    Some(e2) => {
                        proof {
                            lemma_run_free_abs_with(
                                pages0,
                                a0.entries,
                                e2.start_page as int,
                                required as int,
                            );
                            assert forall|t: int| 0 <= t < e2.start_page implies !abs_run_free(
                                a0.entries,
                                t,
                                required as int,
                            ) by {
                                lemma_run_free_abs_with(pages0, a0.entries, t, required as int);
                            }
                            assert(is_first_fit(a0.entries, required as int, e2.start_page as int));
                        }
                        self.pages.mark_pages(e2.start_page, e2.len_pages, true);
                        self.entries[index].extent = Some(e2);
                        proof {
                            let ne = AbsEntry { extent: Some(e2), ..a0.entries[k] };
                            assert(self.abs().entries =~= a0.entries.update(k, ne));
                            lemma_partition_after_update(pages0, self.pages, a0, k, ne);
                            assert forall|p: int| #[trigger] ne.covers(p) implies !covers_except(
                                a0.entries,
                                k,
                                p,
                            ) by {
                                assert(!pages0.spec_page_used(p));
                                if covers_except(a0.entries, k, p) {
                                    let i = choose|i: int|
                                        0 <= i < a0.entries.len() && i != k && (
                                        #[trigger] a0.entries[i]).covers(p);
                                    assert(some_covers(a0.entries, p));
                                }
                            }
                            lemma_wf_after_update(a0, k, ne, self.storage@);
                            assert(self.abs() =~= AbsFs {
                                entries: a0.entries.update(k, ne),
                                storage: a0.storage,
                            });
                        }
                        Ok(())
                    },
                }
            },
            Some(e) => {
                let extra = required - e.len_pages;
                match self.pages.check_neighbour_pages_free(e.start_page + e.len_pages, extra) {
                    Some(_) => {
                        proof {
                            lemma_run_free_abs_with(
                                pages0,
                                a0.entries,
                                e.start_page + e.len_pages,
                                extra as int,
                            );
                            assert(neighbor_ok(a0.entries, e, extra as int));
                        }
                        self.pages.mark_pages(e.start_page + e.len_pages, extra, true);
                        self.entries[index].extent = Some(
                            Extent { start_page: e.start_page, len_pages: required },
                        );
                        proof {
                            let ne = AbsEntry {
                                extent: Some(
                                    Extent { start_page: e.start_page, len_pages: required },
                                ),
                                ..a0.entries[k]
                            };
                            assert(self.abs().entries =~= a0.entries.update(k, ne));
                            assert forall|p: int| 0 <= p < NUM_PAGES implies (
                            #[trigger] self.pages.spec_page_used(p)) == (if ne.covers(p) {
                                true
                            } else if a0.entries[k].covers(p) {
                                false
                            } else {
                                pages0.spec_page_used(p)
                            }) by {
                                if ne.covers(p) && p < e.start_page + e.len_pages {
                                    assert(a0.entries[k].covers(p));
                                    assert(pages0.spec_page_used(p));
                                }
                            }
                            lemma_partition_after_update(pages0, self.pages, a0, k, ne);
                            assert(ne.wf()) by {
                                assert(a0.entries[k].size <= e.len_pages * PAGE_SIZE);
                                assert(e.len_pages * PAGE_SIZE <= required * PAGE_SIZE);
                            }
                            assert forall|p: int| #[trigger] ne.covers(p) implies !covers_except(
                                a0.entries,
                                k,
                                p,
                            ) by {
                                if p < e.start_page + e.len_pages {
                                    assert(a0.entries[k].covers(p));
                                    if covers_except(a0.entries, k, p) {
                                        let i = choose|i: int|
                                            0 <= i < a0.entries.len() && i != k && (
                                            #[trigger] a0.entries[i]).covers(p);
                                    }
                                } else {
                                    assert(!pages0.spec_page_used(p));
                                    if covers_except(a0.entries, k, p) {
                                        let i = choose|i: int|
                                            0 <= i < a0.entries.len() && i != k && (
                                            #[trigger] a0.entries[i]).covers(p);
                                        assert(some_covers(a0.entries, p));
                                    }
                                }
                            }
                            lemma_wf_after_update(a0, k, ne, self.storage@);
                            assert(self.abs() =~= AbsFs {
                                entries: a0.entries.update(k, ne),
                                storage: a0.storage,
                            });
                        }
                        Ok(())
                    },
                    None => {
                        proof {
                            if e.start_page + e.len_pages + extra <= NUM_PAGES {
                                lemma_run_free_abs_with(
                                    pages0,
                                    a0.entries,
                                    e.start_page + e.len_pages,
                                    extra as int,
                                );
                            }
                            assert(!neighbor_ok(a0.entries, e, extra as int));
                        }
                        if !repack {
                            return Err(FsError::WouldFragment);
                        }
                        match self.pages.find_free_pages(required) {
                            None => {
                                proof {
                                    assert forall|s: int|
                                        0 <= s && s + required <= NUM_PAGES implies !abs_run_free(
                                        a0.entries,
                                        s,
                                        required as int,
                                    ) by {
                                        lemma_run_free_abs_with(
                                            pages0,
                                            a0.entries,
                                            s,
                                            required as int,
                                        );
                                    }
                                }
                                Err(FsError::WouldFragment)
                            },
                            Some(e2) => {
                                proof {
                                    lemma_run_free_abs_with(
                                        pages0,
                                        a0.entries,
                                        e2.start_page as int,
                                        required as int,
                                    );
                                    assert forall|t: int|
                                        0 <= t < e2.start_page implies !abs_run_free(
                                        a0.entries,
                                        t,
                                        required as int,
                                    ) by {
                                        lemma_run_free_abs_with(
                                            pages0,
                                            a0.entries,
                                            t,
                                            required as int,
                                        );
                                    }
                                    assert(is_first_fit(
                                        a0.entries,
                                        required as int,
                                        e2.start_page as int,
                                    ));
                                    assert forall|p: int|
                                        e2.start_page <= p < e2.start_page + e2.len_pages
                                        implies !(#[trigger] a0.entries[k].covers(p)) by {
                                        assert(!pages0.spec_page_used(p));
                                        if a0.entries[k].covers(p) {
                                            assert(some_covers(a0.entries, p));
                                        }
                                    }
                                    lemma_separate_extents(a0.entries[k], e2);
                                }
                                self.pages.mark_pages(e2.start_page, e2.len_pages, true);
                                self.pages.mark_pages(e.start_page, e.len_pages, false);
                                let size = self.entries[index].size;
                                crate::fs::copy_within(
                                    &mut self.storage,
                                    e.start_page * PAGE_SIZE,
                                    e2.start_page * PAGE_SIZE,
                                    size,
                                );
                                self.entries[index].extent = Some(e2);
                                proof {
                                    let ne = AbsEntry { extent: Some(e2), ..a0.entries[k] };
                                    assert(self.abs().entries =~= a0.entries.update(k, ne));
                                    assert forall|p: int| 0 <= p < NUM_PAGES implies (
                                    #[trigger] self.pages.spec_page_used(p)) == (if ne.covers(p) {
                                        true
                                    } else if a0.entries[k].covers(p) {
                                        false
                                    } else {
                                        pages0.spec_page_used(p)
                                    }) by {}
                                    lemma_partition_after_update(pages0, self.pages, a0, k, ne);
                                    assert(ne.wf()) by {
                                        assert(a0.entries[k].size <= e.len_pages * PAGE_SIZE);
                                        assert(e.len_pages * PAGE_SIZE <= required * PAGE_SIZE);
                                    }
                                    assert forall|p: int|
                                        #[trigger] ne.covers(p) implies !covers_except(
                                        a0.entries,
                                        k,
                                        p,
                                    ) by {
                                        assert(!pages0.spec_page_used(p));
                                        if covers_except(a0.entries, k, p) {
                                            let i = choose|i: int|
                                                0 <= i < a0.entries.len() && i != k && (
                                                #[trigger] a0.entries[i]).covers(p);
                                            assert(some_covers(a0.entries, p));
                                        }
                                    }
                                    lemma_wf_after_update(a0, k, ne, self.storage@);
                                    assert(self.abs() =~= AbsFs {
                                        entries: a0.entries.update(k, ne),
                                        storage: overwrite(
                                            a0.storage,
                                            e2.start_page * PAGE_SIZE,
                                            a0.file_bytes(k),
                                        ),
                                    });
                                }
                                Ok(())
                            },
                        }
                    },
                }
            },
        }
    }
}


/// A page is covered exactly when the entry at `k` covers it or some other
/// entry does.
pub proof fn lemma_covers_split(entries: Seq<AbsEntry>, k: int, p: int)
    requires
        0 <= k < entries.len(),
    ensures
        some_covers(entries, p) <==> (covers_except(entries, k, p) || entries[k].covers(p)),
{
    if some_covers(entries, p) {
        let i = choose|i: int| 0 <= i < entries.len() && (#[trigger] entries[i]).covers(p);
        if i != k {
            assert(covers_except(entries, k, p));
        }
    }
    if covers_except(entries, k, p) {
        let i = choose|i: int|
            0 <= i < entries.len() && i != k && (#[trigger] entries[i]).covers(p);
        assert(some_covers(entries, p));
    }
    if entries[k].covers(p) {
        assert(some_covers(entries, p));
    }
}

/// Laying two byte runs side by side is the same as laying their
/// concatenation down at once.
pub proof fn lemma_overwrite_adjacent(s0: Seq<u8>, off: int, d1: Seq<u8>, d2: Seq<u8>)
    requires
        0 <= off,
        off + d1.len() + d2.len() <= s0.len(),
    ensures
        overwrite(overwrite(s0, off, d1), off + d1.len(), d2) =~= overwrite(s0, off, d1 + d2),
{
    assert forall|i: int|
        0 <= i < s0.len() implies overwrite(overwrite(s0, off, d1), off + d1.len(), d2)[i]
        == overwrite(s0, off, d1 + d2)[i] by {
        if off <= i < off + d1.len() {
            assert((d1 + d2)[i - off] == d1[i - off]);
        } else if off + d1.len() <= i < off + d1.len() + d2.len() {
            assert((d1 + d2)[i - off] == d2[i - off - d1.len()]);
        }
    }
}

/// The contract of the reserve family: a pure capacity operation that never
/// changes the size and never writes bytes, beyond the copy a relocation
/// makes. Already-sufficient capacity is a no-op.
pub open spec fn reserve_result(
    a: AbsFs,
    n: Seq<u8>,
    new_size: nat,
    repack: bool,
    a2: AbsFs,
    r: Result<(), FsError>,
) -> bool {
    if !a.has_name(n) {
        r == Err::<(), FsError>(FsError::NotFound) && a2 == a
    } else if crate::flags::spec_is_immutable(a.entries[a.idx_of(n)].flags) {
        r == Err::<(), FsError>(FsError::ReadOnly) && a2 == a
    } else {
        grow_result(a, a.idx_of(n), pages_for(new_size) as int, repack, a2, r)
    }
}

/// The contract of the append family. In order: append in place when the
/// capacity suffices, extend by free neighbor pages otherwise, and--only
/// with `repack`--relocate the live bytes and the new bytes together to a
/// fresh first-fit run. `WouldFragment` means contiguity could not be
/// preserved; `NoSpace` is reserved for a failed first allocation.
pub open spec fn append_result(
    a: AbsFs,
    n: Seq<u8>,
    d: Seq<u8>,
    repack: bool,
    a2: AbsFs,
    r: Result<(), FsError>,
) -> bool {
    if !a.has_name(n) {
        r == Err::<(), FsError>(FsError::NotFound) && a2 == a
    } else if crate::flags::spec_is_immutable(a.entries[a.idx_of(n)].flags) {
        r == Err::<(), FsError>(FsError::ReadOnly) && a2 == a
    } else if d.len() == 0 {
        r == Ok::<(), FsError>(()) && a2 == a
    } else {
        let k = a.idx_of(n);
        let e0 = a.entries[k];
        let total = (e0.size + d.len()) as nat;
        let tp = pages_for(total) as int;
        match e0.extent {
            None => {
                if fit_exists(a.entries, tp) {
                    &&& r == Ok::<(), FsError>(())
                    &&& exists|s: int|
                        {
                            &&& #[trigger] is_first_fit(a.entries, tp, s)
                            &&& a2.entries == a.entries.update(
                                k,
                                AbsEntry {
                                    size: total,
                                    extent: Some(
                                        Extent { start_page: s as usize, len_pages: tp as usize },
                                    ),
                                    ..e0
                                },
                            )
                            &&& a2.storage == overwrite(a.storage, s * PAGE_SIZE, d)
                        }
                } else {
                    r == Err::<(), FsError>(FsError::NoSpace) && a2 == a
                }
            },
            Some(e) => {
                if total <= e0.cap_bytes() {
                    &&& r == Ok::<(), FsError>(())
                    &&& a2.entries == a.entries.update(k, AbsEntry { size: total, ..e0 })
                    &&& a2.storage == overwrite(a.storage, e0.offset() + e0.size, d)
                } else if neighbor_ok(a.entries, e, tp - e.len_pages) {
                    &&& r == Ok::<(), FsError>(())
                    &&& a2.entries == a.entries.update(
                        k,
                        AbsEntry {
                            size: total,
                            extent: Some(
                                Extent { start_page: e.start_page, len_pages: tp as usize },
                            ),
                            ..e0
                        },
                    )
                    &&& a2.storage == overwrite(a.storage, e0.offset() + e0.size, d)
                } else if repack && fit_exists(a.entries, tp) {
                    &&& r == Ok::<(), FsError>(())
                    &&& exists|s: int|
                        {
                            &&& #[trigger] is_first_fit(a.entries, tp, s)
                            &&& a2.entries == a.entries.update(
                                k,
                                AbsEntry {
                                    size: total,
                                    extent: Some(
                                        Extent { start_page: s as usize, len_pages: tp as usize },
                                    ),
                                    ..e0
                                },
                            )
                            &&& a2.storage == overwrite(
                                a.storage,
                                s * PAGE_SIZE,
                                a.file_bytes(k) + d,
                            )
                        }
                } else {
                    r == Err::<(), FsError>(FsError::WouldFragment) && a2 == a
                }
            },
        }
    }
}

impl MemoryFs {
    /// The shared body of the reserve family.
    fn reserve_core(&mut self, name: &str, new_size: usize, repack: bool) -> (r: Result<
        (),
        FsError,
    >)
        requires
            old(self).inv(),
        ensures
            final(self).inv(),
            reserve_result(
                old(self).abs(),
                name.spec_bytes(),
                new_size as nat,
                repack,
                final(self).abs(),
                r,
            ),
    {
        let n = crate::fs::name_to_bytes(name);
        let index = match self.find_entry(&n) {
            Some(index) => index,
            None => {
                return Err(FsError::NotFound);
            },
        };
        if is_immutable(self.entries[index].flags) {
            return Err(FsError::ReadOnly);
        }
        let ghost a0 = self.abs();
        let ghost k = index as int;
        proof {
            assert(a0.entries[k].wf());
        }
        if new_size > STORAGE_SIZE {
            proof {
                crate::fs::lemma_pages_for(new_size as nat);
                let req = pages_for(new_size as nat) as int;
                assert(req > NUM_PAGES) by {
                    assert(req * PAGE_SIZE >= new_size);
                }
                assert(!fit_exists(a0.entries, req)) by {
                    if fit_exists(a0.entries, req) {
                        let s = choose|s: int|
                            0 <= s && s + req <= NUM_PAGES && abs_run_free(a0.entries, s, req);
                    }
                }
            }
            return match self.entries[index].extent {
                None => Err(FsError::NoSpace),
                Some(_) => Err(FsError::WouldFragment),
            };
        }
        let required = (new_size + PAGE_SIZE - 1) / PAGE_SIZE;
        proof {
            crate::fs::lemma_pages_for(new_size as nat);
            assert(required <= NUM_PAGES) by {
                assert(required * PAGE_SIZE < new_size + PAGE_SIZE);
            }
        }
        self.grow_to(index, required, repack)
    }

    /// Reserves capacity for `new_size` bytes without changing the file's
    /// size or bytes; in-place neighbor extension only, failing
    /// `WouldFragment` when the neighbor pages are taken.
    pub fn reserve(&mut self, name: &str, new_size: usize) -> (r: Result<(), FsError>)
        requires
            old(self).inv(),
        ensures
            final(self).inv(),
            reserve_result(
                old(self).abs(),
                name.spec_bytes(),
                new_size as nat,
                false,
                final(self).abs(),
                r,
            ),
    {
        self.reserve_core(name, new_size, false)
    }

    /// Reserves capacity like `reserve`, but falls back to relocating the
    /// file (copying its live bytes) when in-place extension fails.
    pub fn reserve_or_repack(&mut self, name: &str, new_size: usize) -> (r: Result<(), FsError>)
        requires
            old(self).inv(),
        ensures
            final(self).inv(),
            reserve_result(
                old(self).abs(),
                name.spec_bytes(),
                new_size as nat,
                true,
                final(self).abs(),
                r,
            ),
    {
        self.reserve_core(name, new_size, true)
    }
}


impl MemoryFs {
    /// The shared body of the append family; see `append_result`.
    fn append_core(&mut self, name: &str, data: &[u8], repack: bool) -> (r: Result<(), FsError>)
        requires
            old(self).inv(),
        ensures
            final(self).inv(),
            append_result(
                old(self).abs(),
                name.spec_bytes(),
                data@,
                repack,
                final(self).abs(),
                r,
            ),
    {
        let n = crate::fs::name_to_bytes(name);
        let index = match self.find_entry(&n) {
            Some(index) => index,
            None => {
                return Err(FsError::NotFound);
            },
        };
        if is_immutable(self.entries[index].flags) {
            return Err(FsError::ReadOnly);
        }
        if data.len() == 0 {
            return Ok(());
        }
        let ghost a0 = self.abs();
        let ghost k = index as int;
        proof {
            assert(a0.entries[k].wf());
        }
        let size = self.entries[index].size;
        if data.len() > STORAGE_SIZE - size {
            proof {
                let total = (size + data@.len()) as nat;
                crate::fs::lemma_pages_for(total);
                let tp = pages_for(total) as int;
                assert(tp > NUM_PAGES) by {
                    assert(tp * PAGE_SIZE >= total);
                }
                assert(!fit_exists(a0.entries, tp)) by {
                    if fit_exists(a0.entries, tp) {
                        let s = choose|s: int|
                            0 <= s && s + tp <= NUM_PAGES && abs_run_free(a0.entries, s, tp);
                    }
                }
                match a0.entries[k].extent {
                    None => {},
                    Some(e) => {
                        assert(total > a0.entries[k].cap_bytes());
                        assert(!neighbor_ok(a0.entries, e, tp - e.len_pages));
                    },
                }
            }
            return match self.entries[index].extent {
                None => Err(FsError::NoSpace),
                Some(_) => Err(FsError::WouldFragment),
            };
        }
        let total = size + data.len();
        let required = (total + PAGE_SIZE - 1) / PAGE_SIZE;
        proof {
            crate::fs::lemma_pages_for(total as nat);
            assert(required <= NUM_PAGES) by {
                assert(required * PAGE_SIZE < total + PAGE_SIZE);
            }
        }
        let g = self.grow_to(index, required, repack);
        match g {
            Err(err) => {
                proof {
                    let e0 = a0.entries[k];
                    assert(required > e0.cap_pages());
                    assert(total > e0.cap_bytes()) by {
                        assert((required - 1) * PAGE_SIZE < total);
                        assert(e0.cap_pages() * PAGE_SIZE <= (required - 1) * PAGE_SIZE);
                    }
                }
                Err(err)
            },
            Ok(()) => {
                let ghost a1 = self.abs();
                let e2 = match self.entries[index].extent {
                    Some(e2) => e2,
                    None => {
                        proof {
                            assert(a1.entries[k] == self.entries@[k].abs());
                        }
                        return vstd::pervasive::unreached();
                    },
                };
                proof {
                    let e0 = a0.entries[k];
                    assert(a1.entries[k] == self.entries@[k].abs());
                    assert(a1.entries[k].wf());
                    assert(total <= e2.len_pages * PAGE_SIZE) by {
                        if required <= e0.cap_pages() {
                            assert(a1 == a0);
                            assert(e2.len_pages * PAGE_SIZE >= required * PAGE_SIZE);
                        } else {
                            assert(e2.len_pages == required);
                        }
                    }
                    assert(e2.start_page * PAGE_SIZE + total <= STORAGE_SIZE) by {
                        assert(e2.start_page + e2.len_pages <= NUM_PAGES);
                        assert(e2.start_page * PAGE_SIZE + e2.len_pages * PAGE_SIZE == (
                        e2.start_page + e2.len_pages) * PAGE_SIZE);
                    }
                }
                let off = e2.start_page * PAGE_SIZE + size;
                write_bytes(&mut self.storage, off, data);
                self.entries[index].size = total;
                proof {
                    let e0 = a0.entries[k];
                    let a2 = self.abs();
                    let ne = AbsEntry { size: total as nat, ..a1.entries[k] };
                    assert(a2.entries =~= a1.entries.update(k, ne));
                    assert forall|p: int| 0 <= p < NUM_PAGES implies ((
                    #[trigger] self.pages.spec_page_used(p)) <==> some_covers(a2.entries, p)) by {
                        lemma_covers_split(a1.entries, k, p);
                        crate::fs::lemma_covers_update(a1.entries, k, ne, p);
                    }
                    assert forall|p: int| #[trigger] ne.covers(p) implies !covers_except(
                        a1.entries,
                        k,
                        p,
                    ) by {
                        assert(a1.entries[k].covers(p));
                        if covers_except(a1.entries, k, p) {
                            let i = choose|i: int|
                                0 <= i < a1.entries.len() && i != k && (
                                #[trigger] a1.entries[i]).covers(p);
                        }
                    }
                    lemma_wf_after_update(a1, k, ne, self.storage@);
                    assert(a2.wf());
                    // Connect the growth outcome to the append contract.
                    let tp = pages_for((e0.size + data@.len()) as nat) as int;
                    assert(tp == required);
                    if required <= e0.cap_pages() {
                        assert(a1 == a0);
                        assert(total <= e0.cap_bytes()) by {
                            assert(total <= required * PAGE_SIZE);
                            assert(required * PAGE_SIZE <= e0.cap_pages() * PAGE_SIZE);
                        }
                        assert(a2.entries =~= a0.entries.update(
                            k,
                            AbsEntry { size: (e0.size + data@.len()) as nat, ..e0 },
                        ));
                        assert(a2.storage == overwrite(a0.storage, e0.offset() + e0.size, data@));
                    } else {
                        match e0.extent {
                            None => {
                                assert(e0.size == 0);
                                let s = choose|s: int|
                                    {
                                        &&& #[trigger] is_first_fit(a0.entries, required as int, s)
                                        &&& a1.entries == a0.entries.update(
                                            k,
                                            AbsEntry {
                                                extent: Some(
                                                    Extent {
                                                        start_page: s as usize,
                                                        len_pages: required as usize,
                                                    },
                                                ),
                                                ..e0
                                            },
                                        )
                                    };
                                assert(e2.start_page == s as usize);
                                assert(a2.entries =~= a0.entries.update(
                                    k,
                                    AbsEntry {
                                        size: (e0.size + data@.len()) as nat,
                                        extent: Some(
                                            Extent {
                                                start_page: s as usize,
                                                len_pages: tp as usize,
                                            },
                                        ),
                                        ..e0
                                    },
                                ));
                                assert(a2.storage == overwrite(a0.storage, s * PAGE_SIZE, data@));
                            },
                            Some(e) => {
                                assert(total > e0.cap_bytes()) by {
                                    assert((required - 1) * PAGE_SIZE < total);
                                    assert(e0.cap_pages() * PAGE_SIZE <= (required - 1)
                                        * PAGE_SIZE);
                                }
                                if neighbor_ok(a0.entries, e, required - e.len_pages) {
                                    assert(e2.start_page == e.start_page);
                                    assert(a2.entries =~= a0.entries.update(
                                        k,
                                        AbsEntry {
                                            size: (e0.size + data@.len()) as nat,
                                            extent: Some(
                                                Extent {
                                                    start_page: e.start_page,
                                                    len_pages: tp as usize,
                                                },
                                            ),
                                            ..e0
                                        },
                                    ));
                                    assert(a2.storage == overwrite(
                                        a0.storage,
                                        e0.offset() + e0.size,
                                        data@,
                                    ));
                                } else {
                                    let s = choose|s: int|
                                        {
                                            &&& #[trigger] is_first_fit(
                                                a0.entries,
                                                required as int,
                                                s,
                                            )
                                            &&& a1.entries == a0.entries.update(
                                                k,
                                                AbsEntry {
                                                    extent: Some(
                                                        Extent {
                                                            start_page: s as usize,
                                                            len_pages: required as usize,
                                                        },
                                                    ),
                                                    ..e0
                                                },
                                            )
                                            &&& a1.storage == overwrite(
                                                a0.storage,
                                                s * PAGE_SIZE,
                                                a0.file_bytes(k),
                                            )
                                        };
                                    assert(e2.start_page == s as usize);
                                    assert(a0.file_bytes(k).len() == e0.size) by {
                                        assert(e0.offset() + e0.size <= a0.storage.len());
                                    }
                                    lemma_overwrite_adjacent(
                                        a0.storage,
                                        s * PAGE_SIZE,
                                        a0.file_bytes(k),
                                        data@,
                                    );
                                    assert(a2.entries =~= a0.entries.update(
                                        k,
                                        AbsEntry {
                                            size: (e0.size + data@.len()) as nat,
                                            extent: Some(
                                                Extent {
                                                    start_page: s as usize,
                                                    len_pages: tp as usize,
                                                },
                                            ),
                                            ..e0
                                        },
                                    ));
                                    assert(a2.storage == overwrite(
                                        a0.storage,
                                        s * PAGE_SIZE,
                                        a0.file_bytes(k) + data@,
                                    ));
                                }
                            },
                        }
                    }
                }
                Ok(())
            },
        }
    }

    /// Appends `data` to the named file, relocating it to a fresh run when
    /// in-place growth is impossible.
    pub fn append(&mut self, name: &str, data: &[u8]) -> (r: Result<(), FsError>)
        requires
            old(self).inv(),
        ensures
            final(self).inv(),
            append_result(
                old(self).abs(),
                name.spec_bytes(),
                data@,
                true,
                final(self).abs(),
                r,
            ),
    {
        self.append_core(name, data, true)
    }

    /// Appends `data` only when the file's bytes can stay in place or grow
    /// into free neighbor pages; never relocates.
    pub fn append_strict(&mut self, name: &str, data: &[u8]) -> (r: Result<(), FsError>)
        requires
            old(self).inv(),
        ensures
            final(self).inv(),
            append_result(
                old(self).abs(),
                name.spec_bytes(),
                data@,
                false,
                final(self).abs(),
                r,
            ),
    {
        self.append_core(name, data, false)
    }

    /// Appends `data`, relocating when needed; behaves exactly like
    /// `append` and is exposed under this name for call-site clarity.
    pub fn append_strict_or_repack(&mut self, name: &str, data: &[u8]) -> (r: Result<(), FsError>)
        requires
            old(self).inv(),
        ensures
            final(self).inv(),
            append_result(
                old(self).abs(),
                name.spec_bytes(),
                data@,
                true,
                final(self).abs(),
                r,
            ),
    {
        self.append_core(name, data, true)
    }
}


/// The contract of `write`: full-content replace. An absent name degrades
/// to `create`; empty data shrinks the file to empty, freeing its extent;
/// data that fits the allocated pages is overwritten in place (pages beyond
/// the new size stay allocated); otherwise the old extent is released
/// first and a first-fit run -- which may reuse the released pages -- is
/// claimed, failing `NoSpace` (with the old pages re-marked) when none
/// exists.
pub open spec fn write_result(
    a: AbsFs,
    n: Seq<u8>,
    d: Seq<u8>,
    a2: AbsFs,
    r: Result<(), FsError>,
) -> bool {
    if !a.has_name(n) {
        crate::fs::create_result(a, n, d, 0, a2, r)
    } else {
        let k = a.idx_of(n);
        let e0 = a.entries[k];
        let need = pages_for(d.len()) as int;
        if crate::flags::spec_is_immutable(e0.flags) {
            r == Err::<(), FsError>(FsError::ReadOnly) && a2 == a
        } else if d.len() == 0 {
            &&& r == Ok::<(), FsError>(())
            &&& a2.entries == a.entries.update(
                k,
                AbsEntry { size: 0, extent: None::<Extent>, ..e0 },
            )
            &&& a2.storage == a.storage
        } else if need <= e0.cap_pages() {
            &&& r == Ok::<(), FsError>(())
            &&& a2.entries == a.entries.update(k, AbsEntry { size: d.len(), ..e0 })
            &&& a2.storage == overwrite(a.storage, e0.offset(), d)
        } else if fit_exists_except(a.entries, k, need) {
            &&& r == Ok::<(), FsError>(())
            &&& exists|s: int|
                {
                    &&& #[trigger] is_first_fit_except(a.entries, k, need, s)
                    &&& a2.entries == a.entries.update(
                        k,
                        AbsEntry {
                            size: d.len(),
                            extent: Some(
                                Extent { start_page: s as usize, len_pages: need as usize },
                            ),
                            ..e0
                        },
                    )
                    &&& a2.storage == overwrite(a.storage, s * PAGE_SIZE, d)
                }
        } else {
            r == Err::<(), FsError>(FsError::NoSpace) && a2 == a
        }
    }
}

/// The contract of `write_at`: an overwrite (never an insertion) at
/// `off <= size`, holes being impossible. Growth past the allocated pages
/// is by neighbor extension only -- never relocation -- failing
/// `WouldFragment`.
pub open spec fn write_at_result(
    a: AbsFs,
    n: Seq<u8>,
    off: nat,
    d: Seq<u8>,
    a2: AbsFs,
    r: Result<(), FsError>,
) -> bool {
    if !a.has_name(n) {
        r == Err::<(), FsError>(FsError::NotFound) && a2 == a
    } else {
        let k = a.idx_of(n);
        let e0 = a.entries[k];
        if crate::flags::spec_is_immutable(e0.flags) {
            r == Err::<(), FsError>(FsError::ReadOnly) && a2 == a
        } else if crate::flags::spec_is_append_only(e0.flags) {
            r == Err::<(), FsError>(FsError::InvalidOp) && a2 == a
        } else if d.len() == 0 {
            r == Ok::<(), FsError>(()) && a2 == a
        } else if off > e0.size {
            r == Err::<(), FsError>(FsError::InvalidOp) && a2 == a
        } else {
            let end = (off + d.len()) as nat;
            let tp = pages_for(end) as int;
            let nsize: nat = if end > e0.size {
                end
            } else {
                e0.size
            };
            match e0.extent {
                None => {
                    if fit_exists(a.entries, tp) {
                        &&& r == Ok::<(), FsError>(())
                        &&& exists|s: int|
                            {
                                &&& #[trigger] is_first_fit(a.entries, tp, s)
                                &&& a2.entries == a.entries.update(
                                    k,
                                    AbsEntry {
                                        size: end,
                                        extent: Some(
                                            Extent {
                                                start_page: s as usize,
                                                len_pages: tp as usize,
                                            },
                                        ),
                                        ..e0
                                    },
                                )
                                &&& a2.storage == overwrite(a.storage, s * PAGE_SIZE, d)
                            }
                    } else {
                        r == Err::<(), FsError>(FsError::NoSpace) && a2 == a
                    }
                },
                Some(e) => {
                    if end <= e0.cap_bytes() {
                        &&& r == Ok::<(), FsError>(())
                        &&& a2.entries == a.entries.update(k, AbsEntry { size: nsize, ..e0 })
                        &&& a2.storage == overwrite(a.storage, e0.offset() + off, d)
                    } else if neighbor_ok(a.entries, e, tp - e.len_pages) {
                        &&& r == Ok::<(), FsError>(())
                        &&& a2.entries == a.entries.update(
                            k,
                            AbsEntry {
                                size: end,
                                extent: Some(
                                    Extent { start_page: e.start_page, len_pages: tp as usize },
                                ),
                                ..e0
                            },
                        )
                        &&& a2.storage == overwrite(a.storage, e0.offset() + off, d)
                    } else {
                        r == Err::<(), FsError>(FsError::WouldFragment) && a2 == a
                    }
                },
            }
        }
    }
}

impl MemoryFs {
    /// Replaces the named file's whole content with `data`, creating the
    /// file when the name is absent; see `write_result`.
    pub fn write(&mut self, name: &str, data: &[u8]) -> (r: Result<(), FsError>)
        requires
            old(self).inv(),
        ensures
            final(self).inv(),
            write_result(old(self).abs(), name.spec_bytes(), data@, final(self).abs(), r),
    {
        let n = crate::fs::name_to_bytes(name);
        let index = match self.find_entry(&n) {
            Some(index) => index,
            None => {
                return self.create_with_flags(name, data, 0);
            },
        };
        if is_immutable(self.entries[index].flags) {
            return Err(FsError::ReadOnly);
        }
        let ghost a0 = self.abs();
        let ghost k = index as int;
        let ghost pages0 = self.pages;
        proof {
            assert(a0.entries[k].wf());
        }
        if data.len() == 0 {
            let extent = self.entries[index].extent;
            self.entries[index].size = 0;
            self.entries[index].extent = None;
            match extent {
                Some(e) => {
                    self.pages.mark_pages(e.start_page, e.len_pages, false);
                },
                None => {},
            }
            proof {
                let ne = AbsEntry { size: 0, extent: None::<Extent>, ..a0.entries[k] };
                assert(self.abs().entries =~= a0.entries.update(k, ne));
                lemma_partition_after_update(pages0, self.pages, a0, k, ne);
                lemma_wf_after_update(a0, k, ne, self.storage@);
                assert(self.abs() =~= AbsFs {
                    entries: a0.entries.update(k, ne),
                    storage: a0.storage,
                });
            }
            return Ok(());
        }
        if data.len() > STORAGE_SIZE {
            proof {
                crate::fs::lemma_pages_for(data@.len());
                let need = pages_for(data@.len()) as int;
                assert(need > NUM_PAGES) by {
                    assert(need * PAGE_SIZE >= data@.len());
                }
                assert(need > a0.entries[k].cap_pages());
                assert(!fit_exists_except(a0.entries, k, need)) by {
                    if fit_exists_except(a0.entries, k, need) {
                        let s = choose|s: int|
                            0 <= s && s + need <= NUM_PAGES && abs_run_free_except(
                                a0.entries,
                                k,
                                s,
                                need,
                            );
                    }
                }
            }
            return Err(FsError::NoSpace);
        }
        let required = (data.len() + PAGE_SIZE - 1) / PAGE_SIZE;
        proof {
            crate::fs::lemma_pages_for(data@.len());
            assert(required <= NUM_PAGES) by {
                assert(required * PAGE_SIZE < data@.len() + PAGE_SIZE);
            }
        }
        let current: usize = match self.entries[index].extent {
            Some(e) => e.len_pages,
            None => 0,
        };
        if required <= current {
            // Overwrite in place; pages beyond the new size stay allocated.
            let e = self.entries[index].extent.unwrap();
            proof {
                assert(e.start_page * PAGE_SIZE + data@.len() <= STORAGE_SIZE) by {
                    assert(data@.len() <= required * PAGE_SIZE);
                    assert(required * PAGE_SIZE <= e.len_pages * PAGE_SIZE);
                    assert(e.start_page * PAGE_SIZE + e.len_pages * PAGE_SIZE == (e.start_page
                        + e.len_pages) * PAGE_SIZE);
                }
            }
            write_bytes(&mut self.storage, e.start_page * PAGE_SIZE, data);
            self.entries[index].size = data.len();
            proof {
                let ne = AbsEntry { size: data@.len(), ..a0.entries[k] };
                assert(self.abs().entries =~= a0.entries.update(k, ne));
                assert forall|p: int| 0 <= p < NUM_PAGES implies ((
                #[trigger] self.pages.spec_page_used(p)) <==> some_covers(
                    self.abs().entries,
                    p,
                )) by {
                    lemma_covers_split(a0.entries, k, p);
                    crate::fs::lemma_covers_update(a0.entries, k, ne, p);
                }
                assert forall|p: int| #[trigger] ne.covers(p) implies !covers_except(
                    a0.entries,
                    k,
                    p,
                ) by {
                    assert(a0.entries[k].covers(p));
                    if covers_except(a0.entries, k, p) {
                        let i = choose|i: int|
                            0 <= i < a0.entries.len() && i != k && (
                            #[trigger] a0.entries[i]).covers(p);
                    }
                }
                lemma_wf_after_update(a0, k, ne, self.storage@);
                assert(self.abs() =~= AbsFs {
                    entries: a0.entries.update(k, ne),
                    storage: overwrite(a0.storage, a0.entries[k].offset(), data@),
                });
            }
            return Ok(());
        }
        // Release the old extent, then search for a fresh run, which may
        // reuse the released pages.
        let old_extent = self.entries[index].extent;
        match old_extent {
            Some(e) => {
                self.pages.mark_pages(e.start_page, e.len_pages, false);
            },
            None => {},
        }
        let ghost pages1 = self.pages;
        proof {
            lemma_cleared_matches_except(pages0, pages1, a0, k);
        }
        match self.pages.find_free_pages(required) {
            None => {
                match old_extent {
                    Some(e) => {
                        self.pages.mark_pages(e.start_page, e.len_pages, true);
                    },
                    None => {},
                }
                proof {
                    assert forall|s: int|
                        0 <= s && s + required <= NUM_PAGES implies !abs_run_free_except(
                        a0.entries,
                        k,
                        s,
                        required as int,
                    ) by {
                        lemma_run_free_except_abs(pages1, a0.entries, k, s, required as int);
                    }
                    assert(!fit_exists_except(a0.entries, k, required as int));
                    assert forall|p: int| 0 <= p < NUM_PAGES implies ((
                    #[trigger] self.pages.spec_page_used(p)) <==> some_covers(
                        a0.entries,
                        p,
                    )) by {
                        if a0.entries[k].covers(p) {
                            assert(some_covers(a0.entries, p));
                        } else {
                            assert(self.pages.spec_page_used(p) == pages0.spec_page_used(p));
                        }
                    }
                }
                Err(FsError::NoSpace)
            },
            Some(e2) => {
                proof {
                    lemma_run_free_except_abs(
                        pages1,
                        a0.entries,
                        k,
                        e2.start_page as int,
                        required as int,
                    );
                    assert forall|t: int| 0 <= t < e2.start_page implies !abs_run_free_except(
                        a0.entries,
                        k,
                        t,
                        required as int,
                    ) by {
                        lemma_run_free_except_abs(pages1, a0.entries, k, t, required as int);
                    }
                    assert(is_first_fit_except(
                        a0.entries,
                        k,
                        required as int,
                        e2.start_page as int,
                    ));
                    assert(fit_exists_except(a0.entries, k, required as int));
                }
                self.pages.mark_pages(e2.start_page, e2.len_pages, true);
                proof {
                    assert(e2.start_page * PAGE_SIZE + data@.len() <= STORAGE_SIZE) by {
                        assert(data@.len() <= required * PAGE_SIZE);
                        assert(e2.start_page * PAGE_SIZE + e2.len_pages * PAGE_SIZE == (
                        e2.start_page + e2.len_pages) * PAGE_SIZE);
                    }
                }
                write_bytes(&mut self.storage, e2.start_page * PAGE_SIZE, data);
                self.entries[index].size = data.len();
                self.entries[index].extent = Some(e2);
                proof {
                    let ne = AbsEntry { size: data@.len(), extent: Some(e2), ..a0.entries[k] };
                    assert(self.abs().entries =~= a0.entries.update(k, ne));
                    assert forall|p: int| 0 <= p < NUM_PAGES implies (
                    #[trigger] self.pages.spec_page_used(p)) == (if ne.covers(p) {
                        true
                    } else if a0.entries[k].covers(p) {
                        false
                    } else {
                        pages0.spec_page_used(p)
                    }) by {}
                    lemma_partition_after_update(pages0, self.pages, a0, k, ne);
                    assert(ne.wf()) by {
                        assert(data@.len() <= required * PAGE_SIZE);
                    }
                    assert forall|p: int| #[trigger] ne.covers(p) implies !covers_except(
                        a0.entries,
                        k,
                        p,
                    ) by {
                        assert(!pages1.spec_page_used(p));
                    }
                    lemma_wf_after_update(a0, k, ne, self.storage@);
                    assert(self.abs() =~= AbsFs {
                        entries: a0.entries.update(k, ne),
                        storage: overwrite(a0.storage, e2.start_page * PAGE_SIZE, data@),
                    });
                }
                Ok(())
            },
        }
    }

    /// Overwrites `data.len()` bytes of the named file at byte `off`,
    /// growing only by neighbor extension; see `write_at_result`.
    pub fn write_at(&mut self, name: &str, offset: usize, data: &[u8]) -> (r: Result<(), FsError>)
        requires
            old(self).inv(),
        ensures
            final(self).inv(),
            write_at_result(
                old(self).abs(),
                name.spec_bytes(),
                offset as nat,
                data@,
                final(self).abs(),
                r,
            ),
    {
        let n = crate::fs::name_to_bytes(name);
        let index = match self.find_entry(&n) {
            Some(index) => index,
            None => {
                return Err(FsError::NotFound);
            },
        };
        if is_immutable(self.entries[index].flags) {
            return Err(FsError::ReadOnly);
        }
        if is_append_only(self.entries[index].flags) {
            return Err(FsError::InvalidOp);
        }
        if data.len() == 0 {
            return Ok(());
        }
        let size = self.entries[index].size;
        if offset > size {
            return Err(FsError::InvalidOp);
        }
        let ghost a0 = self.abs();
        let ghost k = index as int;
        proof {
            assert(a0.entries[k].wf());
        }
        if data.len() > STORAGE_SIZE - offset {
            proof {
                let end = (offset + data@.len()) as nat;
                crate::fs::lemma_pages_for(end);
                let tp = pages_for(end) as int;
                assert(tp > NUM_PAGES) by {
                    assert(tp * PAGE_SIZE >= end);
                }
                assert(!fit_exists(a0.entries, tp)) by {
                    if fit_exists(a0.entries, tp) {
                        let s = choose|s: int|
                            0 <= s && s + tp <= NUM_PAGES && abs_run_free(a0.entries, s, tp);
                    }
                }
                match a0.entries[k].extent {
                    None => {},
                    Some(e) => {
                        assert(end > a0.entries[k].cap_bytes());
                        assert(!neighbor_ok(a0.entries, e, tp - e.len_pages));
                    },
                }
            }
            return match self.entries[index].extent {
                None => Err(FsError::NoSpace),
                Some(_) => Err(FsError::WouldFragment),
            };
        }
        let end = offset + data.len();
        let required = (end + PAGE_SIZE - 1) / PAGE_SIZE;
        proof {
            crate::fs::lemma_pages_for(end as nat);
            assert(required <= NUM_PAGES) by {
                assert(required * PAGE_SIZE < end + PAGE_SIZE);
            }
        }
        let g = self.grow_to(index, required, false);
        match g {
            Err(err) => {
                proof {
                    let e0 = a0.entries[k];
                    assert(required > e0.cap_pages());
                    assert(end > e0.cap_bytes()) by {
                        assert((required - 1) * PAGE_SIZE < end);
                        assert(e0.cap_pages() * PAGE_SIZE <= (required - 1) * PAGE_SIZE);
                    }
                }
                Err(err)
            },
            Ok(()) => {
                let ghost a1 = self.abs();
                let e2 = match self.entries[index].extent {
                    Some(e2) => e2,
                    None => {
                        proof {
                            assert(a1.entries[k] == self.entries@[k].abs());
                        }
                        return vstd::pervasive::unreached();
                    },
                };
                proof {
                    let e0 = a0.entries[k];
                    assert(a1.entries[k] == self.entries@[k].abs());
                    assert(a1.entries[k].wf());
                    assert(end <= e2.len_pages * PAGE_SIZE) by {
                        if required <= e0.cap_pages() {
                            assert(a1 == a0);
                            assert(e2.len_pages * PAGE_SIZE >= required * PAGE_SIZE);
                        } else {
                            assert(e2.len_pages == required);
                        }
                    }
                    assert(e2.start_page * PAGE_SIZE + end <= STORAGE_SIZE) by {
                        assert(e2.start_page * PAGE_SIZE + e2.len_pages * PAGE_SIZE == (
                        e2.start_page + e2.len_pages) * PAGE_SIZE);
                    }
                }
                let off = e2.start_page * PAGE_SIZE + offset;
                write_bytes(&mut self.storage, off, data);
                let nsize: usize = if end > size {
                    end
                } else {
                    size
                };
                self.entries[index].size = nsize;
                proof {
                    let e0 = a0.entries[k];
                    let a2 = self.abs();
                    let ne = AbsEntry { size: nsize as nat, ..a1.entries[k] };
                    assert(a2.entries =~= a1.entries.update(k, ne));
                    assert forall|p: int| 0 <= p < NUM_PAGES implies ((
                    #[trigger] self.pages.spec_page_used(p)) <==> some_covers(a2.entries, p)) by {
                        lemma_covers_split(a1.entries, k, p);
                        crate::fs::lemma_covers_update(a1.entries, k, ne, p);
                    }
                    assert forall|p: int| #[trigger] ne.covers(p) implies !covers_except(
                        a1.entries,
                        k,
                        p,
                    ) by {
                        assert(a1.entries[k].covers(p));
                        if covers_except(a1.entries, k, p) {
                            let i = choose|i: int|
                                0 <= i < a1.entries.len() && i != k && (
                                #[trigger] a1.entries[i]).covers(p);
                        }
                    }
                    lemma_wf_after_update(a1, k, ne, self.storage@);
                    let tp = pages_for((offset + data@.len()) as nat) as int;
                    assert(tp == required);
                    if required <= e0.cap_pages() {
                        assert(a1 == a0);
                        assert(end <= e0.cap_bytes()) by {
                            assert(end <= required * PAGE_SIZE);
                            assert(required * PAGE_SIZE <= e0.cap_pages() * PAGE_SIZE);
                        }
                        assert(a2.entries =~= a0.entries.update(
                            k,
                            AbsEntry {
                                size: if (offset + data@.len()) as nat > e0.size {
                                    (offset + data@.len()) as nat
                                } else {
                                    e0.size
                                },
                                ..e0
                            },
                        ));
                        assert(a2.storage == overwrite(a0.storage, e0.offset() + offset, data@));
                    } else {
                        assert(end > e0.cap_bytes()) by {
                            assert((required - 1) * PAGE_SIZE < end);
                            assert(e0.cap_pages() * PAGE_SIZE <= (required - 1) * PAGE_SIZE);
                        }
                        assert(nsize == end);
                        match e0.extent {
                            None => {
                                assert(e0.size == 0);
                                assert(offset == 0);
                                let s = choose|s: int|
                                    {
                                        &&& #[trigger] is_first_fit(a0.entries, required as int, s)
                                        &&& a1.entries == a0.entries.update(
                                            k,
                                            AbsEntry {
                                                extent: Some(
                                                    Extent {
                                                        start_page: s as usize,
                                                        len_pages: required as usize,
                                                    },
                                                ),
                                                ..e0
                                            },
                                        )
                                    };
                                assert(e2.start_page == s as usize);
                                assert(a2.entries =~= a0.entries.update(
                                    k,
                                    AbsEntry {
                                        size: (offset + data@.len()) as nat,
                                        extent: Some(
                                            Extent {
                                                start_page: s as usize,
                                                len_pages: tp as usize,
                                            },
                                        ),
                                        ..e0
                                    },
                                ));
                                assert(a2.storage == overwrite(a0.storage, s * PAGE_SIZE, data@));
                            },
                            Some(e) => {
                                assert(neighbor_ok(a0.entries, e, required - e.len_pages));
                                assert(e2.start_page == e.start_page);
                                assert(a2.entries =~= a0.entries.update(
                                    k,
                                    AbsEntry {
                                        size: (offset + data@.len()) as nat,
                                        extent: Some(
                                            Extent {
                                                start_page: e.start_page,
                                                len_pages: tp as usize,
                                            },
                                        ),
                                        ..e0
                                    },
                                ));
                                assert(a2.storage == overwrite(
                                    a0.storage,
                                    e0.offset() + offset,
                                    data@,
                                ));
                            },
                        }
                    }
                }
                Ok(())
            },
        }
    }
}

} // verus!
