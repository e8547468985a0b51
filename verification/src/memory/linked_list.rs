//! A first-fit free-list allocator.
//!
//! The free list is a sequence of free blocks, head first. Allocation walks it from the head,
//! takes the first block that can hold the request once its start is rounded up to the
//! alignment, unlinks it, and pushes what is left above the request back on the head of the list
//! when that is large enough to hold a list node. Freeing pushes the block on the head.

use vstd::prelude::*;
use vstd::layout::valid_layout;
use crate::boards::HEAP_SIZE;
use crate::memory::align::{align_up, align_up_addr, lemma_align_up_aligned, lemma_align_up_bounds};
use crate::memory::bump::as_addr;

verus! {

broadcast use vstd::layout::layout_of_primitives;

/// A free block of the list: `size` bytes starting at `addr`.
#[derive(Clone, Copy, PartialEq, Eq, Structural, Debug)]
pub struct ListNode {
    pub addr: usize,
    pub size: usize,
}

impl ListNode {
    /// The free block of `size` bytes at `addr`.
    pub fn new(addr: usize, size: usize) -> (node: ListNode)
        ensures
            node == (ListNode { addr, size }),
    {
        ListNode { addr, size }
    }
}

/// The bytes a list node takes in memory: its size and its link, each a `usize`.
pub open spec fn node_size_spec() -> int {
    2 * vstd::layout::size_of::<usize>() as int
}

/// The bytes a list node takes in memory; a leftover smaller than this is not put back on the
/// list.
pub fn node_size() -> (n: usize)
    ensures
        n == node_size_spec(),
        n == 2 * (usize::BITS / 8),
{
    2 * core::mem::size_of::<usize>()
}

/// The free list, head first.
pub struct Allocator {
    free: Vec<ListNode>,
}

impl View for Allocator {
    type V = Seq<ListNode>;

    closed spec fn view(&self) -> Seq<ListNode> {
        self.free@
    }
}

/// The block `n` lies within the address space.
pub open spec fn in_memory(n: ListNode) -> bool {
    n.addr + n.size <= usize::MAX
}

/// `size` bytes aligned to `align` fit in the block `n`.
pub open spec fn fits(n: ListNode, size: int, align: int) -> bool {
    align_up(n.addr as int, align) + size <= n.addr + n.size
}

/// No block before position `i` of the list fits the request.
pub open spec fn no_fit_before(free: Seq<ListNode>, i: int, size: int, align: int) -> bool {
    forall|j: int| 0 <= j < i ==> !fits(#[trigger] free[j], size, align)
}

/// The block at position `i` is the first one of the list that fits the request.
pub open spec fn is_first_fit(free: Seq<ListNode>, i: int, size: int, align: int) -> bool {
    &&& 0 <= i < free.len()
    &&& fits(free[i], size, align)
    &&& no_fit_before(free, i, size, align)
}

/// The position of the first block that fits the request, if any.
pub open spec fn first_fit(free: Seq<ListNode>, size: int, align: int) -> Option<int> {
    if exists|i: int| is_first_fit(free, i, size, align) {
        Some(choose|i: int| is_first_fit(free, i, size, align))
    } else {
        None
    }
}

/// The free list after the request is served from the block at position `i`: that block
/// leaves the list, and what is left of it above the request goes back on the head of the list
/// when it can hold a list node.
pub open spec fn carve(free: Seq<ListNode>, i: int, size: int, align: int) -> Seq<ListNode> {
    let n = free[i];
    let end = align_up(n.addr as int, align) + size;
    let rest = n.addr + n.size - end;
    if rest >= node_size_spec() {
        seq![ListNode { addr: end as usize, size: rest as usize }] + free.remove(i)
    } else {
        free.remove(i)
    }
}

/// The free list after a request for `size` bytes aligned to `align`, and the address handed
/// out (`None` for the null pointer when no block fits).
pub open spec fn list_alloc(free: Seq<ListNode>, size: int, align: int) -> (Seq<ListNode>, Option<int>) {
    match first_fit(free, size, align) {
        Some(i) => (carve(free, i, size, align), Some(align_up(free[i].addr as int, align))),
        None => (free, None),
    }
}

/// The arithmetic on the block `n` stays within `usize` (otherwise it overflows).
pub open spec fn node_in_range(n: ListNode, size: int, align: int) -> bool {
    &&& n.addr + align <= usize::MAX
    &&& align_up(n.addr as int, align) + size <= usize::MAX
}

/// The arithmetic on every block that the search visits stays within `usize`.
pub open spec fn list_alloc_in_range(free: Seq<ListNode>, size: int, align: int) -> bool {
    forall|i: int|
        0 <= i < free.len() && #[trigger] no_fit_before(free, i, size, align) ==> node_in_range(
            free[i],
            size,
            align,
        )
}

/// The blocks `a` and `b` do not share a byte.
pub open spec fn disjoint(a: ListNode, b: ListNode) -> bool {
    a.addr + a.size <= b.addr || b.addr + b.size <= a.addr
}

/// No two blocks of the list share a byte.
pub open spec fn pairwise_disjoint(free: Seq<ListNode>) -> bool {
    forall|i: int, j: int|
        0 <= i < free.len() && 0 <= j < free.len() && i != j ==> disjoint(
            #[trigger] free[i],
            #[trigger] free[j],
        )
}

/// The number of free bytes on the list.
pub open spec fn free_bytes(free: Seq<ListNode>) -> int
    decreases free.len(),
{
    if free.len() == 0 {
        0
    } else {
        free_bytes(free.drop_last()) + free.last().size
    }
}

/// There is at most one first fit.
pub proof fn lemma_first_fit_unique(free: Seq<ListNode>, i: int, size: int, align: int)
    requires
        is_first_fit(free, i, size, align),
    ensures
        first_fit(free, size, align) == Some(i),
{
    let k = choose|k: int| is_first_fit(free, k, size, align);
    assert(is_first_fit(free, k, size, align));
    if k < i {
        assert(!fits(free[k], size, align));
    } else if i < k {
        assert(!fits(free[i], size, align));
    }
}

/// `inner` lies within `outer`.
pub open spec fn within(inner: ListNode, outer: ListNode) -> bool {
    outer.addr <= inner.addr && inner.addr + inner.size <= outer.addr + outer.size
}

proof fn lemma_within_disjoint(inner: ListNode, outer: ListNode, other: ListNode)
    requires
        within(inner, outer),
        disjoint(outer, other),
    ensures
        disjoint(inner, other),
{
}

/// Removing a block takes its bytes off the count.
proof fn lemma_free_bytes_remove(free: Seq<ListNode>, i: int)
    requires
        0 <= i < free.len(),
    ensures
        free_bytes(free.remove(i)) == free_bytes(free) - free[i].size,
    decreases free.len(),
{
    if i == free.len() - 1 {
        assert(free.remove(i) =~= free.drop_last());
    } else {
        lemma_free_bytes_remove(free.drop_last(), i);
        assert(free.remove(i).drop_last() =~= free.drop_last().remove(i));
        assert(free.remove(i).last() == free.last());
    }
}

/// Pushing a block on the head adds its bytes to the count.
proof fn lemma_free_bytes_push_front(node: ListNode, free: Seq<ListNode>)
    ensures
        free_bytes(seq![node] + free) == node.size + free_bytes(free),
    decreases free.len(),
{
    if free.len() > 0 {
        lemma_free_bytes_push_front(node, free.drop_last());
        assert((seq![node] + free).drop_last() =~= seq![node] + free.drop_last());
        assert((seq![node] + free).last() == free.last());
    } else {
        assert((seq![node] + free).drop_last() =~= Seq::<ListNode>::empty());
        assert((seq![node] + free).last() == node);
        assert(free_bytes(Seq::<ListNode>::empty()) == 0);
    }
}

/// The block a successful request gets lies within the first block of the list that fits it,
/// and starts at a multiple of the alignment.
pub proof fn lemma_list_alloc_placed(free: Seq<ListNode>, size: int, align: int)
    requires
        align > 0,
        list_alloc(free, size, align).1 is Some,
    ensures
        ({
            let i = first_fit(free, size, align)->0;
            let b = list_alloc(free, size, align).1->0;
            &&& is_first_fit(free, i, size, align)
            &&& b % align == 0
            &&& free[i].addr <= b
            &&& b + size <= free[i].addr + free[i].size
        }),
{
    let i = first_fit(free, size, align)->0;
    assert(is_first_fit(free, i, size, align));
    lemma_align_up_bounds(free[i].addr as int, align);
}

/// When some block fits, there is a first one that fits.
proof fn lemma_some_block_fits(free: Seq<ListNode>, i: int, size: int, align: int)
    requires
        0 <= i < free.len(),
        fits(free[i], size, align),
    ensures
        exists|k: int| is_first_fit(free, k, size, align),
    decreases i,
{
    if no_fit_before(free, i, size, align) {
        assert(is_first_fit(free, i, size, align));
    } else {
        let j = choose|j: int| 0 <= j < i && fits(#[trigger] free[j], size, align);
        lemma_some_block_fits(free, j, size, align);
    }
}

/// A request fails exactly when no block of the list can hold it, and then leaves the list as
/// it was.
pub proof fn lemma_list_alloc_fails(free: Seq<ListNode>, size: int, align: int)
    ensures
        list_alloc(free, size, align).1 is None <==> forall|i: int|
            0 <= i < free.len() ==> !fits(#[trigger] free[i], size, align),
        list_alloc(free, size, align).1 is None ==> list_alloc(free, size, align).0 == free,
{
    if list_alloc(free, size, align).1 is None {
        assert forall|i: int| 0 <= i < free.len() implies !fits(#[trigger] free[i], size, align) by {
            if fits(free[i], size, align) {
                lemma_some_block_fits(free, i, size, align);
            }
        }
    } else {
        let i = first_fit(free, size, align)->0;
        assert(is_first_fit(free, i, size, align));
    }
}

/// Serving a request from a list of blocks that share no byte leaves a list of blocks that share
/// no byte, none of which shares a byte with the block handed out: memory that is handed out is
/// never also free.
pub proof fn lemma_list_alloc_disjoint(free: Seq<ListNode>, size: int, align: int)
    requires
        align > 0,
        size >= 0,
        pairwise_disjoint(free),
        forall|k: int| 0 <= k < free.len() ==> in_memory(#[trigger] free[k]),
        list_alloc(free, size, align).1 is Some,
    ensures
        ({
            let (after, b) = list_alloc(free, size, align);
            let given = ListNode { addr: b->0 as usize, size: size as usize };
            &&& pairwise_disjoint(after)
            &&& forall|k: int| 0 <= k < after.len() ==> disjoint(given, #[trigger] after[k])
        }),
{
    let i = first_fit(free, size, align)->0;
    assert(is_first_fit(free, i, size, align));
    let n = free[i];
    lemma_align_up_bounds(n.addr as int, align);
    let b = align_up(n.addr as int, align);
    let end = b + size;
    let rest = n.addr + n.size - end;
    let given = ListNode { addr: b as usize, size: size as usize };
    let removed = free.remove(i);
    let after = list_alloc(free, size, align).0;
    assert(within(given, n));
    assert forall|k: int| 0 <= k < removed.len() implies #[trigger] removed[k] == free[if k < i { k } else { k + 1 }] && (if k < i { k } else { k + 1 }) != i by {
    }
    if rest >= node_size_spec() {
        let tail = ListNode { addr: end as usize, size: rest as usize };
        assert(after == seq![tail] + removed);
        assert(within(tail, n));
        assert forall|k: int| 0 <= k < after.len() implies disjoint(given, #[trigger] after[k]) by {
            if k > 0 {
                let j = if k - 1 < i { k - 1 } else { k };
                assert(after[k] == removed[k - 1]);
                assert(removed[k - 1] == free[j]);
                assert(disjoint(free[i], free[j]));
                lemma_within_disjoint(given, n, free[j]);
            }
        }
        assert forall|p: int, q: int|
            0 <= p < after.len() && 0 <= q < after.len() && p != q implies disjoint(#[trigger] after[p], #[trigger] after[q]) by {
            if p == 0 {
                let j = if q - 1 < i { q - 1 } else { q };
                assert(after[q] == free[j]);
                assert(disjoint(free[i], free[j]));
                lemma_within_disjoint(tail, n, free[j]);
            } else if q == 0 {
                let j = if p - 1 < i { p - 1 } else { p };
                assert(after[p] == free[j]);
                assert(disjoint(free[i], free[j]));
                lemma_within_disjoint(tail, n, free[j]);
            } else {
                let jp = if p - 1 < i { p - 1 } else { p };
                let jq = if q - 1 < i { q - 1 } else { q };
                assert(after[p] == free[jp]);
                assert(after[q] == free[jq]);
            }
        }
    } else {
        assert(after == removed);
        assert forall|k: int| 0 <= k < after.len() implies disjoint(given, #[trigger] after[k]) by {
            let j = if k < i { k } else { k + 1 };
            assert(after[k] == free[j]);
            assert(disjoint(free[i], free[j]));
            lemma_within_disjoint(given, n, free[j]);
        }
        assert forall|p: int, q: int|
            0 <= p < after.len() && 0 <= q < after.len() && p != q implies disjoint(#[trigger] after[p], #[trigger] after[q]) by {
            let jp = if p < i { p } else { p + 1 };
            let jq = if q < i { q } else { q + 1 };
            assert(after[p] == free[jp]);
            assert(after[q] == free[jq]);
        }
    }
}

/// Two requests served one after the other, with nothing given back in between, get blocks
/// that share no byte, when the free blocks shared none to begin with.
pub proof fn lemma_list_allocs_disjoint(free: Seq<ListNode>, size1: int, align1: int, size2: int, align2: int)
    requires
        align1 > 0,
        align2 > 0,
        size1 >= 0,
        size2 >= 0,
        pairwise_disjoint(free),
        forall|k: int| 0 <= k < free.len() ==> in_memory(#[trigger] free[k]),
        list_alloc(free, size1, align1).1 is Some,
        list_alloc(list_alloc(free, size1, align1).0, size2, align2).1 is Some,
    ensures
        ({
            let b1 = list_alloc(free, size1, align1).1->0;
            let b2 = list_alloc(list_alloc(free, size1, align1).0, size2, align2).1->0;
            b1 + size1 <= b2 || b2 + size2 <= b1
        }),
{
    let after = list_alloc(free, size1, align1).0;
    let b1 = list_alloc(free, size1, align1).1->0;
    let b2 = list_alloc(after, size2, align2).1->0;
    lemma_list_alloc_placed(free, size1, align1);
    lemma_list_alloc_disjoint(free, size1, align1);
    lemma_list_alloc_placed(after, size2, align2);
    let j = first_fit(after, size2, align2)->0;
    let given = ListNode { addr: b1 as usize, size: size1 as usize };
    assert(disjoint(given, after[j]));
}

/// A successful request takes at least the bytes it asked for off the free list; a failed one
/// takes none.
pub proof fn lemma_list_alloc_free_bytes(free: Seq<ListNode>, size: int, align: int)
    requires
        align > 0,
        size >= 0,
        forall|k: int| 0 <= k < free.len() ==> in_memory(#[trigger] free[k]),
    ensures
        list_alloc(free, size, align).1 is Some ==> free_bytes(list_alloc(free, size, align).0) + size <= free_bytes(free),
        list_alloc(free, size, align).1 is None ==> free_bytes(list_alloc(free, size, align).0) == free_bytes(free),
{
    if list_alloc(free, size, align).1 is Some {
        let i = first_fit(free, size, align)->0;
        assert(is_first_fit(free, i, size, align));
        let n = free[i];
        lemma_align_up_bounds(n.addr as int, align);
        let end = align_up(n.addr as int, align) + size;
        let rest = n.addr + n.size - end;
        lemma_free_bytes_remove(free, i);
        if rest >= node_size_spec() {
            lemma_free_bytes_push_front(ListNode { addr: end as usize, size: rest as usize }, free.remove(i));
        }
    }
}

/// Giving a block back puts exactly its bytes back on the free list.
pub proof fn lemma_dealloc_free_bytes(free: Seq<ListNode>, ptr: usize, size: usize)
    ensures
        free_bytes(seq![ListNode { addr: ptr, size }] + free) == free_bytes(free) + size,
{
    lemma_free_bytes_push_front(ListNode { addr: ptr, size }, free);
}

/// Giving back a block that shares no byte with the free blocks keeps the free blocks apart.
pub proof fn lemma_dealloc_disjoint(free: Seq<ListNode>, ptr: usize, size: usize)
    requires
        pairwise_disjoint(free),
        forall|k: int| 0 <= k < free.len() ==> disjoint(ListNode { addr: ptr, size }, #[trigger] free[k]),
    ensures
        pairwise_disjoint(seq![ListNode { addr: ptr, size }] + free),
{
    let after = seq![ListNode { addr: ptr, size }] + free;
    assert forall|p: int, q: int|
        0 <= p < after.len() && 0 <= q < after.len() && p != q implies disjoint(#[trigger] after[p], #[trigger] after[q]) by {
        if p > 0 {
            assert(after[p] == free[p - 1]);
        }
        if q > 0 {
            assert(after[q] == free[q - 1]);
        }
    }
}

/// A block that was just given back is the one handed out again for a request of the same size
/// and an alignment its address meets.
pub proof fn lemma_dealloc_then_alloc(free: Seq<ListNode>, ptr: usize, size: usize, align: int)
    requires
        align > 0,
        (ptr as int) % align == 0,
    ensures
        list_alloc(seq![ListNode { addr: ptr, size }] + free, size as int, align).1 == Some(ptr as int),
{
    let list = seq![ListNode { addr: ptr, size }] + free;
    lemma_align_up_aligned(ptr as int, align);
    assert(is_first_fit(list, 0, size as int, align));
    lemma_first_fit_unique(list, 0, size as int, align);
}

impl Allocator {
    /// Every free block lies within the address space.
    pub open spec fn wf(&self) -> bool {
        forall|i: int| 0 <= i < self@.len() ==> in_memory(#[trigger] self@[i])
    }

    /// An allocator with an empty free list.
    pub fn empty() -> (a: Allocator)
        ensures
            a.wf(),
            a@ == Seq::<ListNode>::empty(),
    {
        Allocator { free: Vec::new() }
    }

    /// An allocator whose free list is the single block `head`.
    pub fn new(head: ListNode) -> (a: Allocator)
        requires
            in_memory(head),
        ensures
            a.wf(),
            a@ == seq![head],
    {
        let mut free = Vec::new();
        free.push(head);
        Allocator { free }
    }

    /// Makes the single block `head` the whole free list.
    pub fn init(&mut self, head: ListNode)
        requires
            in_memory(head),
        ensures
            final(self).wf(),
            final(self)@ == seq![head],
    {
        let mut free = Vec::new();
        free.push(head);
        self.free = free;
    }

    /// Serves `size` bytes aligned to `align` from the first free block that can hold them,
    /// or returns `None` (the null pointer) when none can.
    pub fn allocate(&mut self, size: usize, align: usize) -> (ptr: Option<usize>)
        requires
            old(self).wf(),
            valid_layout(size, align),
            list_alloc_in_range(old(self)@, size as int, align as int),
        ensures
            final(self).wf(),
            final(self)@ == list_alloc(old(self)@, size as int, align as int).0,
            as_addr(ptr) == list_alloc(old(self)@, size as int, align as int).1,
    {
        let ghost free0 = self@;
        let len = self.free.len();
        let mut i: usize = 0;
        while i < len
            invariant
                self@ == free0,
                free0 == old(self)@,
                self.wf(),
                len == free0.len(),
                i <= len,
                valid_layout(size, align),
                no_fit_before(free0, i as int, size as int, align as int),
                list_alloc_in_range(free0, size as int, align as int),
            decreases len - i,
        {
            let node = self.free[i];
            assert(node_in_range(free0[i as int], size as int, align as int));
            let begin = align_up_addr(node.addr, align);
            let end = begin + size;
            if end <= node.addr + node.size {
                proof {
                    lemma_first_fit_unique(free0, i as int, size as int, align as int);
                }
                self.free.remove(i);
                let rest = (node.addr + node.size) - end;
                let kept = rest >= node_size();
                if kept {
                    self.free.insert(0, ListNode::new(end, rest));
                }
                proof {
                    assert(self@ =~= carve(free0, i as int, size as int, align as int));
                    assert forall|k: int| 0 <= k < self@.len() implies in_memory(#[trigger] self@[k]) by {
                        if kept && k == 0 {
                        } else if kept {
                            assert(self@[k] == free0.remove(i as int)[k - 1]);
                        } else {
                            assert(self@[k] == free0.remove(i as int)[k]);
                        }
                    }
                }
                return Some(begin);
            }
            i = i + 1;
        }
        proof {
            assert forall|k: int| !is_first_fit(free0, k, size as int, align as int) by {
                if 0 <= k < free0.len() {
                    assert(!fits(free0[k], size as int, align as int));
                }
            }
        }
        None
    }

    /// Puts the block of `size` bytes at `ptr` on the head of the free list.
    pub fn dealloc(&mut self, ptr: usize, size: usize)
        requires
            old(self).wf(),
            ptr + size <= usize::MAX,
        ensures
            final(self).wf(),
            final(self)@ == seq![ListNode { addr: ptr, size }] + old(self)@,
    {
        let ghost free0 = self@;
        self.free.insert(0, ListNode::new(ptr, size));
        proof {
            assert(self@ =~= seq![ListNode { addr: ptr, size }] + free0);
            assert forall|k: int| 0 <= k < self@.len() implies in_memory(#[trigger] self@[k]) by {
                if k > 0 {
                    assert(self@[k] == free0[k - 1]);
                }
            }
        }
    }

    /// The free blocks, head first.
    pub fn blocks(&self) -> (blocks: Vec<ListNode>)
        ensures
            blocks@ == self@,
    {
        self.free.clone()
    }

    /// Whether a request for `size` bytes aligned to `align` can be served without overflow:
    /// `allocate` may be called exactly when this holds.
    pub fn allocate_in_range(&self, size: usize, align: usize) -> (ok: bool)
        requires
            self.wf(),
            valid_layout(size, align),
        ensures
            ok == list_alloc_in_range(self@, size as int, align as int),
    {
        let ghost free0 = self@;
        let len = self.free.len();
        let mut i: usize = 0;
        while i < len
            invariant
                self@ == free0,
                self.wf(),
                len == free0.len(),
                i <= len,
                valid_layout(size, align),
                no_fit_before(free0, i as int, size as int, align as int),
                forall|k: int| 0 <= k < i ==> node_in_range(#[trigger] free0[k], size as int, align as int),
            decreases len - i,
        {
            let node = self.free[i];
            if node.addr > usize::MAX - align {
                assert(!node_in_range(free0[i as int], size as int, align as int));
                return false;
            }
            let begin = align_up_addr(node.addr, align);
            if begin > usize::MAX - size {
                assert(!node_in_range(free0[i as int], size as int, align as int));
                return false;
            }
            if begin + size <= node.addr + node.size {
                proof {
                    assert forall|k: int|
                        0 <= k < free0.len() && #[trigger] no_fit_before(free0, k, size as int, align as int)
                        implies node_in_range(free0[k], size as int, align as int) by {
                        if k > i {
                            assert(fits(free0[i as int], size as int, align as int));
                        }
                    }
                }
                return true;
            }
            i = i + 1;
        }
        true
    }
}

/// The allocator that manages the heap of `HEAP_SIZE` bytes starting at `begin`: its free list
/// is that one block.
pub fn init_heap(begin: usize) -> (a: Allocator)
    requires
        begin + HEAP_SIZE <= usize::MAX,
    ensures
        a.wf(),
        a@ == seq![ListNode { addr: begin, size: HEAP_SIZE }],
{
    Allocator::new(ListNode::new(begin, HEAP_SIZE))
}

} // verus!
