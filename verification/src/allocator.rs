//! The page allocator: a bitmap of fixed-size pages over the storage arena.
//!
//! The allocator answers free/used queries, marks ranges, and finds
//! contiguous free runs. It is stateless with respect to file identity and
//! operates purely on page indices; its caller, the file table, validates
//! every range before handing it down.

use vstd::prelude::*;

use crate::BITMAP_WORDS;
use crate::NUM_PAGES;

verus! {

/// One contiguous run of pages assigned to one file.
#[derive(Debug, Clone, Copy, PartialEq, Eq, Structural)]
pub struct Extent {
    /// Index of the first page of the run.
    pub start_page: usize,
    /// Number of pages in the run.
    pub len_pages: usize,
}

/// A bit per page over the storage arena, packed into 32-bit words.
pub struct PageAllocator {
    words: Vec<u32>,
}

impl PageAllocator {
    /// The bitmap holds exactly one bit per page.
    pub closed spec fn wf(self) -> bool {
        self.words@.len() == BITMAP_WORDS
    }

    /// Whether the bit of page `page` is set.
    pub closed spec fn spec_page_used(self, page: int) -> bool {
        self.words@[page / 32] & (1u32 << ((page % 32) as u32)) != 0
    }

    /// Whether every page of `[start, start + len)` is free.
    pub open spec fn run_free(self, start: int, len: int) -> bool {
        forall|p: int| start <= p < start + len ==> !self.spec_page_used(p)
    }

    /// An all-free bitmap.
    pub fn new() -> (r: PageAllocator)
        ensures
            r.wf(),
            forall|p: int| 0 <= p < NUM_PAGES ==> !r.spec_page_used(p),
    {
        let mut words: Vec<u32> = Vec::new();
        let mut i: usize = 0;
        while i < BITMAP_WORDS
            invariant
                i <= BITMAP_WORDS,
                words@.len() == i,
                forall|j: int| 0 <= j < i ==> words@[j] == 0u32,
            decreases BITMAP_WORDS - i,
        {
            words.push(0u32);
            i = i + 1;
        }
        let r = PageAllocator { words };
        proof {
            assert forall|p: int| 0 <= p < NUM_PAGES implies !r.spec_page_used(p) by {
                assert(0 <= p / 32 < BITMAP_WORDS);
                assert(0u32 & (1u32 << ((p % 32) as u32)) == 0) by (bit_vector);
            }
        }
        r
    }

    /// Bit test for one page.
    pub fn page_is_free(&self, page: usize) -> (r: bool)
        requires
            self.wf(),
            page < NUM_PAGES,
        ensures
            r == !self.spec_page_used(page as int),
    {
        (self.words[page / 32] & (1u32 << (page % 32))) == 0
    }

    /// Sets (`used == true`) or clears `len` consecutive bits from `start`.
    /// The caller guarantees the range is in bounds.
    pub fn mark_pages(&mut self, start: usize, len: usize, used: bool)
        requires
            old(self).wf(),
            start + len <= NUM_PAGES,
        ensures
            final(self).wf(),
            forall|p: int|
                0 <= p < NUM_PAGES ==> final(self).spec_page_used(p) == if start <= p < start
                    + len {
                    used
                } else {
                    old(self).spec_page_used(p)
                },
    {
        let mut page: usize = start;
        while page < start + len
            invariant
                self.wf(),
                start <= page <= start + len,
                start + len <= NUM_PAGES,
                forall|p: int|
                    0 <= p < NUM_PAGES ==> self.spec_page_used(p) == if start <= p < page {
                        used
                    } else {
                        old(self).spec_page_used(p)
                    },
            decreases start + len - page,
        {
            let word_index: usize = page / 32;
            let bit: u32 = 1u32 << (page % 32);
            let ghost prev = *self;
            if used {
                let w: u32 = self.words[word_index];
                self.words[word_index] = w | bit;
            } else {
                let w: u32 = self.words[word_index];
                self.words[word_index] = w & !bit;
            }
            proof {
                assert forall|p: int| 0 <= p < NUM_PAGES implies self.spec_page_used(p) == if p
                    == page {
                    used
                } else {
                    prev.spec_page_used(p)
                } by {
                    let k = (page % 32) as u32;
                    let j = (p % 32) as u32;
                    let w0 = prev.words@[p / 32];
                    if p / 32 == page as int / 32 {
                        if p != page {
                            assert(p % 32 != page as int % 32);
                        }
                        lemma_mark_bit(w0, k, j, used);
                    }
                }
            }
            page = page + 1;
        }
    }

    /// Linear first-fit scan from page 0: returns the lowest-address run of
    /// exactly `need` free pages, or `None` when no such run exists.
    pub fn find_free_pages(&self, need: usize) -> (r: Option<Extent>)
        requires
            self.wf(),
            need >= 1,
        ensures
            match r {
                Some(e) => {
                    &&& e.len_pages == need
                    &&& e.start_page + need <= NUM_PAGES
                    &&& self.run_free(e.start_page as int, need as int)
                    &&& forall|s: int|
                        0 <= s < e.start_page ==> !self.run_free(s, need as int)
                },
                None => forall|s: int|
                    0 <= s && s + need <= NUM_PAGES ==> !self.run_free(s, need as int),
            },
    {
        let mut run_len: usize = 0;
        let mut page: usize = 0;
        while page < NUM_PAGES
            invariant
                self.wf(),
                page <= NUM_PAGES,
                run_len <= page,
                run_len < need,
                self.run_free(page - run_len, run_len as int),
                forall|s: int|
                    0 <= s < page - run_len ==> !self.run_free(s, need as int),
            decreases NUM_PAGES - page,
        {
            if self.page_is_free(page) {
                run_len = run_len + 1;
                if run_len >= need {
                    let start: usize = page + 1 - need;
                    return Some(Extent { start_page: start, len_pages: need });
                }
            } else {
                proof {
                    assert forall|s: int| 0 <= s < page + 1 implies !self.run_free(
                        s,
                        need as int,
                    ) by {
                        if s >= page - run_len {
                            assert(s <= page < s + need);
                            assert(self.spec_page_used(page as int));
                        }
                    }
                }
                run_len = 0;
            }
            page = page + 1;
        }
        proof {
            assert forall|s: int| 0 <= s && s + need <= NUM_PAGES implies !self.run_free(
                s,
                need as int,
            ) by {
                assert(s < NUM_PAGES - run_len);
            }
        }
        None
    }

    /// Scans forward from `start` only: returns `Some` exactly when the
    /// `need` pages beginning at `start` are all free and in bounds. This
    /// realizes the "grow in place, no relocation" contract of the in-place
    /// growth paths.
    pub fn check_neighbour_pages_free(&self, start: usize, need: usize) -> (r: Option<Extent>)
        requires
            self.wf(),
            need >= 1,
        ensures
            match r {
                Some(e) => {
                    &&& e.start_page == start
                    &&& e.len_pages == need
                    &&& start + need <= NUM_PAGES
                    &&& self.run_free(start as int, need as int)
                },
                None => !(start + need <= NUM_PAGES && self.run_free(start as int, need as int)),
            },
    {
        if need > NUM_PAGES || start > NUM_PAGES - need {
            return None;
        }
        let mut page: usize = start;
        while page < start + need
            invariant
                self.wf(),
                start <= page <= start + need,
                start + need <= NUM_PAGES,
                self.run_free(start as int, page - start),
            decreases start + need - page,
        {
            if !self.page_is_free(page) {
                return None;
            }
            page = page + 1;
        }
        Some(Extent { start_page: start, len_pages: need })
    }
}

/// How one masked word update changes each bit: setting or clearing bit `k`
/// leaves every other bit as it was.
proof fn lemma_mark_bit(w: u32, k: u32, j: u32, used: bool)
    requires
        k < 32,
        j < 32,
    ensures
        used ==> ((w | (1u32 << k)) & (1u32 << j) != 0) == if j == k {
            true
        } else {
            w & (1u32 << j) != 0
        },
        !used ==> ((w & !(1u32 << k)) & (1u32 << j) != 0) == if j == k {
            false
        } else {
            w & (1u32 << j) != 0
        },
{
    assert(((w | (1u32 << k)) & (1u32 << j) != 0) == if j == k {
        true
    } else {
        w & (1u32 << j) != 0
    }) by (bit_vector)
        requires
            k < 32,
            j < 32,
    ;
    assert(((w & !(1u32 << k)) & (1u32 << j) != 0) == if j == k {
        false
    } else {
        w & (1u32 << j) != 0
    }) by (bit_vector)
        requires
            k < 32,
            j < 32,
    ;
}

} // verus!
