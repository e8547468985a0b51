//! A bump allocator: it hands out the heap from the bottom up and never takes memory back.

use vstd::prelude::*;
use vstd::layout::valid_layout;
use crate::boards::HEAP_SIZE;
use crate::memory::align::{align_up, align_up_addr, lemma_align_up_bounds};

verus! {

/// The bump allocator: `next` is the first free address, `end` is one past the heap.
pub struct Allocator {
    next: usize,
    end: usize,
}

/// The abstract state of a bump allocator.
pub struct BumpView {
    pub next: int,
    pub end: int,
}

impl View for Allocator {
    type V = BumpView;

    closed spec fn view(&self) -> BumpView {
        BumpView { next: self.next as int, end: self.end as int }
    }
}

/// The state after a bump allocation of `size` bytes aligned to `align`, and the address it
/// returns (`None` for the null pointer when the heap is exhausted).
pub open spec fn bump_alloc(s: BumpView, size: int, align: int) -> (BumpView, Option<int>) {
    let begin = align_up(s.next, align);
    let end = begin + size;
    if end > s.end {
        (s, None)
    } else {
        (BumpView { next: end, end: s.end }, Some(begin))
    }
}

/// An optional address read as an integer (`None` stands for the null pointer).
pub open spec fn as_addr(ptr: Option<usize>) -> Option<int> {
    match ptr {
        Some(p) => Some(p as int),
        None => None,
    }
}

/// The arithmetic of an allocation from `s` stays within `usize` (otherwise it overflows).
pub open spec fn bump_alloc_in_range(s: BumpView, size: int, align: int) -> bool {
    &&& s.next + align <= usize::MAX
    &&& align_up(s.next, align) + size <= usize::MAX
}

impl Allocator {
    /// The free pointer never passes the end of the heap.
    pub open spec fn wf(&self) -> bool {
        self@.next <= self@.end
    }

    /// An allocator with an empty heap at address 0.
    pub fn empty() -> (a: Allocator)
        ensures
            a.wf(),
            a@ == (BumpView { next: 0, end: 0 }),
    {
        Allocator { next: 0, end: 0 }
    }

    /// Gives the allocator the `size` bytes that start at `begin`.
    pub fn init(&mut self, begin: usize, size: usize)
        requires
            begin + size <= usize::MAX,
        ensures
            final(self).wf(),
            final(self)@ == (BumpView { next: begin as int, end: begin + size }),
    {
        self.next = begin;
        self.end = begin + size;
    }

    /// Hands out `size` bytes aligned to `align` from the bottom of the free part of the heap,
    /// or `None` (the null pointer) when they do not fit before the end of the heap.
    pub fn allocate(&mut self, size: usize, align: usize) -> (ptr: Option<usize>)
        requires
            old(self).wf(),
            valid_layout(size, align),
            bump_alloc_in_range(old(self)@, size as int, align as int),
        ensures
            final(self).wf(),
            final(self)@ == bump_alloc(old(self)@, size as int, align as int).0,
            as_addr(ptr) == bump_alloc(old(self)@, size as int, align as int).1,
    {
        let begin = align_up_addr(self.next, align);
        let end = begin + size;
        if end > self.end {
            return None;
        }
        self.next = end;
        Some(begin)
    }

    /// Giving memory back to a bump allocator does nothing.
    pub fn dealloc(&mut self, _ptr: usize, _size: usize, _align: usize)
        ensures
            *final(self) == *old(self),
    {
    }

    /// The first free address.
    pub fn next_free(&self) -> (next: usize)
        ensures
            next == self@.next,
    {
        self.next
    }

    /// One past the last address of the heap.
    pub fn heap_end(&self) -> (end: usize)
        ensures
            end == self@.end,
    {
        self.end
    }

    /// Whether an allocation of `size` bytes aligned to `align` can be computed without
    /// overflow: `allocate` may be called exactly when this holds.
    pub fn alloc_in_range(&self, size: usize, align: usize) -> (ok: bool)
        requires
            valid_layout(size, align),
        ensures
            ok == bump_alloc_in_range(self@, size as int, align as int),
    {
        if self.next > usize::MAX - align {
            return false;
        }
        let begin = align_up_addr(self.next, align);
        begin <= usize::MAX - size
    }
}

/// The bump allocator that manages the heap of `HEAP_SIZE` bytes starting at `begin`.
pub fn init_heap(begin: usize) -> (a: Allocator)
    requires
        begin + HEAP_SIZE <= usize::MAX,
    ensures
        a.wf(),
        a@ == (BumpView { next: begin as int, end: begin + HEAP_SIZE }),
{
    let mut a = Allocator::empty();
    a.init(begin, HEAP_SIZE);
    a
}

/// Every address the bump allocator hands out is a multiple of the alignment asked for, and the
/// block lies between the free pointer and the end of the heap.
pub proof fn lemma_bump_alloc_placed(s: BumpView, size: int, align: int)
    requires
        align > 0,
        size >= 0,
        bump_alloc(s, size, align).1 is Some,
    ensures
        ({
            let b = bump_alloc(s, size, align).1->0;
            &&& b % align == 0
            &&& s.next <= b
            &&& b + size <= s.end
        }),
{
    lemma_align_up_bounds(s.next, align);
}

/// Two successive bump allocations never overlap: the second starts at or after the end of the
/// first.
pub proof fn lemma_bump_allocs_disjoint(s: BumpView, size1: int, align1: int, size2: int, align2: int)
    requires
        align1 > 0,
        align2 > 0,
        size1 >= 0,
        bump_alloc(s, size1, align1).1 is Some,
        bump_alloc(bump_alloc(s, size1, align1).0, size2, align2).1 is Some,
    ensures
        ({
            let b1 = bump_alloc(s, size1, align1).1->0;
            let b2 = bump_alloc(bump_alloc(s, size1, align1).0, size2, align2).1->0;
            b1 + size1 <= b2
        }),
{
    let s1 = bump_alloc(s, size1, align1).0;
    lemma_align_up_bounds(s1.next, align2);
}

/// A bump allocation that fails leaves the allocator as it was, and one that succeeds never
/// moves the free pointer down nor past the end of the heap.
pub proof fn lemma_bump_alloc_monotone(s: BumpView, size: int, align: int)
    requires
        align > 0,
        size >= 0,
        s.next <= s.end,
    ensures
        bump_alloc(s, size, align).1 is None ==> bump_alloc(s, size, align).0 == s,
        s.next <= bump_alloc(s, size, align).0.next <= s.end,
        bump_alloc(s, size, align).0.end == s.end,
{
    lemma_align_up_bounds(s.next, align);
}

} // verus!
