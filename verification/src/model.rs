//! The abstract state of a buddy heap, and what allocation and release do to
//! it.
//!
//! A heap manages the addresses `base .. base + size`.  A block of order `k`
//! is `min_block_size * 2^k` addresses long and starts a multiple of its own
//! length after `base`.  Every order has a free list; the head of a list is
//! its last element.

use crate::heap::{AllocationError, AllocationSizeError, HeapError};
use crate::math::{floor_log2, max3, round_up_pow2};
use vstd::arithmetic::power2::{is_pow2, pow2};
use vstd::prelude::*;

verus! {

/// The alignment that the base address of every heap has.  No request can
/// ask for a stricter one.
pub const MIN_HEAP_ALIGN: usize = 4096;

/// The number of addresses that a link from one free block to the next
/// takes up: the size of an address.  No block is shorter, so that free
/// blocks can be chained through the region itself.
pub open spec fn free_node_size() -> nat {
    vstd::layout::size_of::<usize>()
}

/// The smallest block size of a heap of `size` addresses with `orders` free
/// lists.
pub open spec fn min_block_size_for(size: nat, orders: nat) -> nat {
    size / pow2((orders - 1) as nat)
}

/// Why a heap with `orders` free lists cannot be built over `size`
/// addresses from `base`, if it cannot.  The conditions are tested in this
/// order.
pub open spec fn construction_error(orders: nat, base: usize, size: usize) -> Option<HeapError> {
    let min_block_size = min_block_size_for(size as nat, orders);
    if base as int % MIN_HEAP_ALIGN as int != 0 {
        Some(HeapError::BadBaseAlignment)
    } else if size < min_block_size {
        Some(HeapError::BadHeapSize)
    } else if min_block_size < free_node_size() {
        Some(HeapError::MinBlockTooSmall)
    } else if !is_pow2(size as int) {
        Some(HeapError::BadSizeAlignment)
    } else {
        None
    }
}

/// The list `list` without the occurrence of `addr` that is nearest to its
/// head.
pub open spec fn unlink(list: Seq<usize>, addr: usize) -> Seq<usize>
    decreases list.len(),
{
    if list.len() == 0 {
        list
    } else if list.last() == addr {
        list.drop_last()
    } else {
        unlink(list.drop_last(), addr).push(list.last())
    }
}

/// A call that changes a heap.
pub enum Call {
    /// A request for `size` addresses aligned to `align`.
    Allocate { size: nat, align: nat },
    /// The return of the block at `addr` that was handed out for `size`
    /// and `align`.
    Deallocate { addr: usize, size: nat, align: nat },
}

/// The abstract state of a heap.
#[verifier::ext_equal]
pub struct HeapModel {
    /// The first address of the heap.
    pub base: usize,
    /// The number of addresses in the heap.
    pub size: usize,
    /// The length of a block of order 0.
    pub min_block_size: usize,
    /// The free blocks by order, each list with its head last.
    pub free_lists: Seq<Seq<usize>>,
    /// The order of every block that has been handed out and not returned,
    /// by its address.
    pub allocated: Map<usize, nat>,
}

impl HeapModel {
    /// The state of a heap of which nothing has been handed out: the whole
    /// region is one free block of the highest order.
    pub open spec fn pristine(orders: nat, base: usize, size: usize) -> HeapModel {
        HeapModel {
            base,
            size,
            min_block_size: min_block_size_for(size as nat, orders) as usize,
            free_lists: Seq::new(
                orders,
                |k: int|
                    if k == orders - 1 {
                        seq![base]
                    } else {
                        Seq::empty()
                    },
            ),
            allocated: Map::empty(),
        }
    }

    /// The number of orders, which is the number of free lists.
    pub open spec fn orders(self) -> nat {
        self.free_lists.len()
    }

    /// The length of a block of order `order`.
    pub open spec fn order_size(self, order: nat) -> nat {
        self.min_block_size as nat * pow2(order)
    }

    /// Whether `x` is an address of the heap.
    pub open spec fn in_heap(self, x: int) -> bool {
        self.base <= x < self.base + self.size
    }

    /// Whether a block of order `order` can start at `addr`.
    pub open spec fn is_block(self, order: nat, addr: usize) -> bool {
        &&& order < self.orders()
        &&& self.in_heap(addr as int)
        &&& (addr - self.base) % (self.order_size(order) as int) == 0
    }

    /// Whether the block of order `order` at `addr` holds the address `x`.
    pub open spec fn spans(self, order: nat, addr: usize, x: int) -> bool {
        addr <= x < addr + self.order_size(order)
    }

    /// Whether two blocks share an address.
    pub open spec fn overlap(self, o1: nat, a1: usize, o2: nat, a2: usize) -> bool {
        a1 < a2 + self.order_size(o2) && a2 < a1 + self.order_size(o1)
    }

    /// Whether the block at `addr` is on the free list of `order`.
    pub open spec fn is_free(self, order: nat, addr: usize) -> bool {
        order < self.orders() && self.free_lists[order as int].contains(addr)
    }

    /// Whether the block at `addr` has been handed out at `order`.
    pub open spec fn is_allocated(self, order: nat, addr: usize) -> bool {
        self.allocated.contains_pair(addr, order)
    }

    /// The address that differs from `addr` in the one bit of the block
    /// length of `order`, both taken relative to `base`.
    pub open spec fn buddy_addr(self, order: nat, addr: usize) -> usize {
        (self.base + (((addr - self.base) as usize) ^ (self.order_size(order) as usize))) as usize
    }

    /// The other half of the block of the next order that the block of
    /// `order` at `addr` is a half of.  A block that is as long as the heap
    /// has none.
    pub open spec fn buddy(self, order: nat, addr: usize) -> Option<usize> {
        if self.order_size(order) >= self.size {
            None
        } else {
            Some(self.buddy_addr(order, addr))
        }
    }

    /// The block length that serves a request for `size` addresses aligned
    /// to `align`: the size, the alignment or the length of the smallest
    /// block, whichever is largest, rounded up to a power of two.
    pub open spec fn size_for(self, size: nat, align: nat) -> Result<nat, AllocationSizeError> {
        if !is_pow2(align as int) || align > MIN_HEAP_ALIGN {
            Err(AllocationSizeError::BadAlignment)
        } else {
            let rounded = round_up_pow2(max3(size, align, self.min_block_size as nat));
            if rounded > self.size {
                Err(AllocationSizeError::TooLarge)
            } else {
                Ok(rounded)
            }
        }
    }

    /// The order that serves a request for `size` addresses aligned to
    /// `align`: the logarithm of its block length, less that of the length
    /// of the smallest block.
    pub open spec fn order_for(self, size: nat, align: nat) -> Result<nat, AllocationSizeError> {
        match self.size_for(size, align) {
            Ok(block_size) => Ok(
                (floor_log2(block_size) - floor_log2(self.min_block_size as nat)) as nat,
            ),
            Err(e) => Err(e),
        }
    }

    /// The lowest order from `from` up whose free list is not empty.
    pub open spec fn first_fit(self, from: nat) -> Option<nat>
        decreases self.orders() - from,
    {
        if from >= self.orders() {
            None
        } else if self.free_lists[from as int].len() > 0 {
            Some(from)
        } else {
            self.first_fit(from + 1)
        }
    }

    /// Whether `other` manages the same addresses in blocks of the same
    /// lengths.
    pub open spec fn same_geometry(self, other: HeapModel) -> bool {
        &&& other.base == self.base
        &&& other.size == self.size
        &&& other.min_block_size == self.min_block_size
        &&& other.orders() == self.orders()
    }

    /// Whether `other` differs from this state in the free lists at most.
    pub open spec fn same_frame(self, other: HeapModel) -> bool {
        &&& self.same_geometry(other)
        &&& other.allocated == self.allocated
    }

    /// This state with `addr` as the new head of the free list of `order`.
    pub open spec fn push_free(self, order: nat, addr: usize) -> HeapModel {
        HeapModel {
            free_lists: self.free_lists.update(
                order as int,
                self.free_lists[order as int].push(addr),
            ),
            ..self
        }
    }

    /// This state without the head of the free list of `order`.
    pub open spec fn pop_free(self, order: nat) -> HeapModel {
        HeapModel {
            free_lists: self.free_lists.update(
                order as int,
                self.free_lists[order as int].drop_last(),
            ),
            ..self
        }
    }

    /// This state without `addr` on the free list of `order`.
    pub open spec fn remove_free(self, order: nat, addr: usize) -> HeapModel {
        HeapModel {
            free_lists: self.free_lists.update(
                order as int,
                unlink(self.free_lists[order as int], addr),
            ),
            ..self
        }
    }

    /// This state with the block at `addr` recorded as handed out at
    /// `order`.
    pub open spec fn claim(self, order: nat, addr: usize) -> HeapModel {
        HeapModel { allocated: self.allocated.insert(addr, order), ..self }
    }

    /// This state with no block recorded as handed out at `addr`.
    pub open spec fn unclaim(self, addr: usize) -> HeapModel {
        HeapModel { allocated: self.allocated.remove(addr), ..self }
    }

    /// The state after the block of `order` at `addr`, which is on no list,
    /// has been cut down to `order_needed`: at each order in between, the
    /// upper half of what was left has become the head of the free list.
    pub open spec fn split(self, addr: usize, order: nat, order_needed: nat) -> HeapModel
        decreases order,
    {
        if order > order_needed {
            let lower = (order - 1) as nat;
            self.push_free(lower, (addr + self.order_size(lower)) as usize).split(
                addr,
                lower,
                order_needed,
            )
        } else {
            self
        }
    }

    /// The state after the block of `order` at `addr`, which is on no list,
    /// has been set free: as long as its buddy is free, the buddy leaves its
    /// list and the two become one block of the next order; what is left
    /// at the end becomes the head of the free list of its order.
    pub open spec fn release(self, addr: usize, order: nat) -> HeapModel
        decreases self.orders() - order,
    {
        let buddy = self.buddy(order, addr);
        if order + 1 < self.orders() && buddy is Some && self.is_free(order, buddy.unwrap()) {
            let merged = if buddy.unwrap() < addr {
                buddy.unwrap()
            } else {
                addr
            };
            self.remove_free(order, buddy.unwrap()).release(merged, order + 1)
        } else {
            self.push_free(order, addr)
        }
    }

    /// The state after a request for `size` addresses aligned to `align`,
    /// and the answer to it.  The request is served from the head of the
    /// first free list that is not empty, from the order of the request up.
    pub open spec fn allocate(self, size: nat, align: nat) -> (
        HeapModel,
        Result<usize, AllocationError>,
    ) {
        match self.order_for(size, align) {
            Err(e) => (self, Err(AllocationError::InvalidSize(e))),
            Ok(order_needed) => match self.first_fit(order_needed) {
                None => (self, Err(AllocationError::HeapExhausted)),
                Some(order) => {
                    let addr = self.free_lists[order as int].last();
                    (
                        self.pop_free(order).split(addr, order, order_needed).claim(
                            order_needed,
                            addr,
                        ),
                        Ok(addr),
                    )
                },
            },
        }
    }

    /// The state after the block at `addr`, handed out at `order`, has been
    /// given back.
    pub open spec fn deallocate(self, addr: usize, order: nat) -> HeapModel {
        self.unclaim(addr).release(addr, order)
    }

    /// Whether `call` can be made in this state.  A block can be given back
    /// where it is handed out, with the order of the request it is given
    /// back for.
    pub open spec fn admits(self, call: Call) -> bool {
        match call {
            Call::Allocate { .. } => true,
            Call::Deallocate { addr, size, align } => self.order_for(size, align) matches Ok(
                order,
            ) && self.is_allocated(order, addr),
        }
    }

    /// The state after `call`.
    pub open spec fn after(self, call: Call) -> HeapModel {
        match call {
            Call::Allocate { size, align } => self.allocate(size, align).0,
            Call::Deallocate { addr, size, align } => self.deallocate(
                addr,
                self.order_for(size, align).unwrap(),
            ),
        }
    }

    /// The state after `calls`, one after another.
    pub open spec fn after_all(self, calls: Seq<Call>) -> HeapModel
        decreases calls.len(),
    {
        if calls.len() == 0 {
            self
        } else {
            self.after_all(calls.drop_last()).after(calls.last())
        }
    }

    /// Whether `calls` can be made one after another from this state.
    pub open spec fn admits_all(self, calls: Seq<Call>) -> bool
        decreases calls.len(),
    {
        calls.len() == 0 || (self.admits_all(calls.drop_last()) && self.after_all(
            calls.drop_last(),
        ).admits(calls.last()))
    }

    /// What holds of the numbers of a heap: the base is aligned, the
    /// smallest block is a power of two with room for the link of a free
    /// block, the heap is one block of the highest order, and its last
    /// address is one that a word can hold.
    pub open spec fn geometry_wf(self) -> bool {
        &&& self.orders() >= 1
        &&& self.base as int % MIN_HEAP_ALIGN as int == 0
        &&& is_pow2(self.min_block_size as int)
        &&& self.min_block_size >= free_node_size()
        &&& self.size == self.order_size((self.orders() - 1) as nat)
        &&& self.base + self.size <= usize::MAX
    }

    /// Whether a free block holds the address `x`.
    pub open spec fn free_at(self, x: int) -> bool {
        exists|o: nat, a: usize| #[trigger] self.is_free(o, a) && self.spans(o, a, x)
    }

    /// Whether a block that has been handed out holds the address `x`.
    pub open spec fn allocated_at(self, x: int) -> bool {
        exists|a: usize| #[trigger]
            self.allocated.dom().contains(a) && self.spans(self.allocated[a], a, x)
    }

    /// Every address of the heap lies in a free block, in a block that has
    /// been handed out, or in the block `held`.
    pub open spec fn covered(self, held: Option<(nat, usize)>) -> bool {
        forall|x: int| #[trigger]
            self.in_heap(x) ==> {
                ||| self.free_at(x)
                ||| self.allocated_at(x)
                ||| held matches Some((o, a)) && self.spans(o, a, x)
            }
    }

    /// No two of the free blocks, the blocks that have been handed out and
    /// the block `held` share an address.
    pub open spec fn disjoint(self, held: Option<(nat, usize)>) -> bool {
        &&& forall|o1: nat, a1: usize, o2: nat, a2: usize|
            #![trigger self.is_free(o1, a1), self.is_free(o2, a2)]
            self.is_free(o1, a1) && self.is_free(o2, a2) && (o1 != o2 || a1 != a2)
                ==> !self.overlap(o1, a1, o2, a2)
        &&& forall|a1: usize, a2: usize|
            #![trigger self.allocated.dom().contains(a1), self.allocated.dom().contains(a2)]
            self.allocated.dom().contains(a1) && self.allocated.dom().contains(a2) && a1 != a2
                ==> !self.overlap(self.allocated[a1], a1, self.allocated[a2], a2)
        &&& forall|o1: nat, a1: usize, a2: usize|
            #![trigger self.is_free(o1, a1), self.allocated.dom().contains(a2)]
            self.is_free(o1, a1) && self.allocated.dom().contains(a2) ==> !self.overlap(
                o1,
                a1,
                self.allocated[a2],
                a2,
            )
        &&& held matches Some((o, a)) ==> {
            &&& forall|o1: nat, a1: usize| #[trigger]
                self.is_free(o1, a1) ==> !self.overlap(o, a, o1, a1)
            &&& forall|a1: usize| #[trigger]
                self.allocated.dom().contains(a1) ==> !self.overlap(o, a, self.allocated[a1], a1)
        }
    }

    /// No two free blocks are the two halves of one block: such halves have
    /// always been made one.
    pub open spec fn coalesced(self) -> bool {
        forall|o: nat, a1: usize, a2: usize|
            #![trigger self.is_free(o, a1), self.is_free(o, a2)]
            self.is_free(o, a1) && self.is_free(o, a2) && o + 1 < self.orders() ==> a2
                != self.buddy_addr(o, a1)
    }

    /// What holds of a heap while the block `held` is in neither a free list
    /// nor handed out: the free blocks, the blocks that have been handed out
    /// and `held` are blocks of their orders, no block is twice on a list,
    /// and together they hold every address of the heap exactly once.
    pub open spec fn wf_holding(self, held: Option<(nat, usize)>) -> bool {
        &&& self.geometry_wf()
        &&& forall|o: nat|
            o < self.orders() ==> (#[trigger] self.free_lists[o as int]).no_duplicates()
        &&& forall|o: nat, a: usize| #[trigger] self.is_free(o, a) ==> self.is_block(o, a)
        &&& forall|a: usize| #[trigger]
            self.allocated.dom().contains(a) ==> self.is_block(self.allocated[a], a)
        &&& held matches Some((o, a)) ==> self.is_block(o, a)
        &&& self.disjoint(held)
        &&& self.covered(held)
        &&& self.coalesced()
    }

    /// What holds of a heap between any two calls.
    pub open spec fn wf(self) -> bool {
        self.wf_holding(None)
    }
}

} // verus!
