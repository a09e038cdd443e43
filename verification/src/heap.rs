//! The heap: its errors, its free lists, and allocation and release.
//!
//! The size of a heap is a power of two, and a new heap is one free block.
//! A request is rounded up to a power of two and served from the smallest
//! free block that is long enough; where that block is too long it is cut
//! in half until it fits, and the halves that are cut off stay free.  A
//! block that is given back becomes one with its other half as often as
//! that half is free.  As every block length is a power of two, there is
//! one free list for each.

use crate::laws::lemma_pristine_wf;
use crate::lists::{lemma_unlink_absent, lemma_unlink_is_remove};
use crate::math::{
    floor_log2, is_power_of_two, lemma_pow2_fits_word, lemma_round_up_pow2,
    lemma_xor_below_pow2, log2, next_power_of_two,
};
use crate::model::{construction_error, min_block_size_for, HeapModel, MIN_HEAP_ALIGN};
use vstd::arithmetic::div_mod::lemma_basic_div;
use vstd::arithmetic::power2::pow2;
use vstd::bits::{lemma_usize_shl_is_mul, lemma_usize_shr_is_div};
use vstd::prelude::*;

verus! {

/// Why no block length serves a request.
#[derive(Clone, Copy, PartialEq, Eq, Debug, Structural)]
pub enum AllocationSizeError {
    /// The alignment is no power of two, or is stricter than that of the
    /// heap's base.
    BadAlignment,
    /// The block would be longer than the heap.
    TooLarge,
}

/// Why a request was not served.
#[derive(Clone, Copy, PartialEq, Eq, Debug, Structural)]
pub enum AllocationError {
    /// No free block is long enough.
    HeapExhausted,
    /// No block length serves the request.
    InvalidSize(AllocationSizeError),
}

/// Why a heap cannot be built.
#[derive(Clone, Copy, PartialEq, Eq, Debug, Structural)]
pub enum HeapError {
    /// The base address is not aligned to `MIN_HEAP_ALIGN`.
    BadBaseAlignment,
    /// The size is no power of two.
    BadSizeAlignment,
    /// The heap is shorter than its smallest block.
    BadHeapSize,
    /// The smallest block has no room for the link of a free block.
    MinBlockTooSmall,
}

/// A heap with `N` free lists.  It lives outside the addresses it manages,
/// every one of which can be handed out.
///
/// The smallest block is the heap halved `N - 1` times.
pub struct Heap<const N: usize> {
    /// The first address of the heap, a multiple of `MIN_HEAP_ALIGN`.
    heap_base: usize,
    /// The number of addresses in the heap, a power of two.
    heap_size: usize,
    /// The free lists, each with its head last.  `free_lists[0]` holds the
    /// smallest blocks.  The last list holds nothing but the heap as a
    /// whole, and only while nothing is handed out.
    free_lists: Vec<Vec<usize>>,
    /// The length of the smallest block: `heap_size` halved `N - 1` times,
    /// with room for the link of a free block.
    min_block_size: usize,
    /// The base-2 logarithm of `min_block_size`, kept so that it is not
    /// computed anew for every request.
    min_block_size_log2: u8,
    /// The order of every block that is handed out, by its address.
    allocated: Ghost<Map<usize, nat>>,
}

impl<const N: usize> View for Heap<N> {
    type V = HeapModel;

    closed spec fn view(&self) -> HeapModel {
        HeapModel {
            base: self.heap_base,
            size: self.heap_size,
            min_block_size: self.min_block_size,
            free_lists: Seq::new(self.free_lists@.len(), |k: int| self.free_lists@[k]@),
            allocated: self.allocated@,
        }
    }
}

impl<const N: usize> Heap<N> {
    /// Whether the cached logarithm is that of the smallest block size.
    pub closed spec fn log2_is_cached(&self) -> bool {
        self.min_block_size_log2 == floor_log2(self.min_block_size as nat)
    }

    /// What holds of the numbers of a heap, whatever its lists hold.
    pub open spec fn geometry_wf(&self) -> bool {
        &&& self@.geometry_wf()
        &&& self@.orders() == N
        &&& self.log2_is_cached()
    }

    /// What holds of a heap between any two calls.
    pub open spec fn wf(&self) -> bool {
        &&& self@.wf()
        &&& self.geometry_wf()
    }

    /// Create a heap over the `heap_size` addresses from `heap_base`, as
    /// one free block.  `heap_base` has to be a multiple of
    /// `MIN_HEAP_ALIGN`, `heap_size` a power of two, and `heap_size` halved
    /// `N - 1` times no less than the size of the link of a free block.
    pub fn new(heap_base: usize, heap_size: usize) -> (r: Result<Self, HeapError>)
        requires
            N >= 1,
            heap_base + heap_size <= usize::MAX,
        ensures
            match r {
                Ok(heap) => {
                    &&& construction_error(N as nat, heap_base, heap_size) is None
                    &&& heap.wf()
                    &&& heap@ == HeapModel::pristine(N as nat, heap_base, heap_size)
                },
                Err(e) => construction_error(N as nat, heap_base, heap_size) == Some(e),
            },
    {
        // The smallest block is the heap halved once for every free list
        // but one.  A word halved as often as it has bits is zero.
        let min_block_size = if N - 1 < usize::BITS as usize {
            proof {
                lemma_usize_shr_is_div(heap_size, (N - 1) as usize);
            }
            heap_size >> (N - 1)
        } else {
            proof {
                lemma_pow2_fits_word((N - 1) as nat);
                lemma_basic_div(heap_size as int, pow2((N - 1) as nat) as int);
            }
            0
        };
        assert(min_block_size == min_block_size_for(heap_size as nat, N as nat));

        // The base has to be aligned.
        assert(heap_base & 4095 == heap_base % 4096) by (bit_vector);
        if heap_base & (MIN_HEAP_ALIGN - 1) != 0 {
            return Err(HeapError::BadBaseAlignment);
        }
        // The heap has to hold at least one block.
        if heap_size < min_block_size {
            return Err(HeapError::BadHeapSize);
        }
        // The smallest block has to hold the link of a free block.
        if min_block_size < core::mem::size_of::<usize>() {
            return Err(HeapError::MinBlockTooSmall);
        }
        // The size has to be a power of two.
        if !is_power_of_two(heap_size) {
            return Err(HeapError::BadSizeAlignment);
        }
        proof {
            lemma_pristine_wf(N as nat, heap_base, heap_size);
        }

        // One free list for every block length, all but the last empty.
        let mut free_lists: Vec<Vec<usize>> = Vec::new();
        let mut order: usize = 0;
        while order < N - 1
            invariant
                N >= 1,
                order <= N - 1,
                free_lists@.len() == order,
                forall|k: int| 0 <= k < order ==> (#[trigger] free_lists@[k])@ == Seq::<
                    usize,
                >::empty(),
            decreases N - 1 - order,
        {
            free_lists.push(Vec::new());
            order += 1;
        }

        // The last list holds the heap as a whole.
        free_lists.push(vec![heap_base]);

        let heap = Heap {
            heap_base,
            heap_size,
            free_lists,
            min_block_size,
            min_block_size_log2: log2(min_block_size),
            allocated: Ghost(Map::empty()),
        };
        proof {
            let pristine = HeapModel::pristine(N as nat, heap_base, heap_size);
            assert(heap@.free_lists =~~= pristine.free_lists);
            assert(heap@.allocated =~= pristine.allocated);
        }
        Ok(heap)
    }

    /// The length of the block that serves a request for `size` addresses
    /// aligned to `align`.  It depends on the request and on the numbers of
    /// the heap alone, so that it is the same when the block is given back
    /// as when it was asked for.
    pub fn allocation_size(&self, size: usize, align: usize) -> (r: Result<
        usize,
        AllocationSizeError,
    >)
        requires
            self.geometry_wf(),
        ensures
            match r {
                Ok(block_size) => self@.size_for(size as nat, align as nat) == Ok::<
                    nat,
                    AllocationSizeError,
                >(block_size as nat),
                Err(e) => self@.size_for(size as nat, align as nat) == Err::<nat, _>(e),
            },
    {
        let mut size = size;

        // An alignment is a power of two.
        if !is_power_of_two(align) {
            return Err(AllocationSizeError::BadAlignment);
        }
        // No block is known to be aligned more strictly than the base.
        if align > MIN_HEAP_ALIGN {
            return Err(AllocationSizeError::BadAlignment);
        }
        // A block is aligned to its own length, so a block that is as long
        // as the alignment is aligned to it.
        if align > size {
            size = align;
        }
        // No block is shorter than the smallest block.
        if self.min_block_size > size {
            size = self.min_block_size;
        }
        proof {
            lemma_round_up_pow2(size as nat);
            self@.lemma_order_size_is_pow2((N - 1) as nat);
        }

        // What is longer than the heap stays so when it is rounded up; what
        // is not, is rounded up to no more than the heap, which is a power
        // of two.
        if size > self.heap_size {
            return Err(AllocationSizeError::TooLarge);
        }
        Ok(next_power_of_two(size))
    }

    /// The order of the block that serves a request for `size` addresses
    /// aligned to `align`: how often the smallest block has to be doubled
    /// to be long enough, and the index of the free list of such blocks.
    pub fn allocation_order(&self, size: usize, align: usize) -> (r: Result<
        usize,
        AllocationSizeError,
    >)
        requires
            self.geometry_wf(),
        ensures
            match r {
                Ok(order) => self@.order_for(size as nat, align as nat) == Ok::<
                    nat,
                    AllocationSizeError,
                >(order as nat),
                Err(e) => self@.order_for(size as nat, align as nat) == Err::<nat, _>(e),
            },
    {
        proof {
            self@.lemma_order_for(size as nat, align as nat);
        }
        match self.allocation_size(size, align) {
            Ok(block_size) => Ok((log2(block_size) - self.min_block_size_log2) as usize),
            Err(e) => Err(e),
        }
    }

    /// The length of the blocks of `order`.
    pub fn order_size(&self, order: usize) -> (r: usize)
        requires
            self.geometry_wf(),
            self@.order_size(order as nat) <= usize::MAX,
        ensures
            r == self@.order_size(order as nat),
    {
        proof {
            self@.lemma_order_size_is_pow2(order as nat);
            lemma_pow2_fits_word(floor_log2(self.min_block_size as nat) + order as nat);
            lemma_usize_shl_is_mul(1usize, (self.min_block_size_log2 as usize + order) as usize);
        }
        1 << (self.min_block_size_log2 as usize + order)
    }

    /// Take the head off the free list of `order`, if it has one.
    fn free_list_pop(&mut self, order: usize) -> (r: Option<usize>)
        requires
            order < old(self)@.orders(),
        ensures
            match r {
                Some(block) => {
                    &&& old(self)@.free_lists[order as int].len() > 0
                    &&& block == old(self)@.free_lists[order as int].last()
                    &&& final(self)@ == old(self)@.pop_free(order as nat)
                },
                None => {
                    &&& old(self)@.free_lists[order as int].len() == 0
                    &&& final(self)@ == old(self)@
                },
            },
            final(self).min_block_size_log2 == old(self).min_block_size_log2,
    {
        let candidate = self.free_lists[order].pop();
        proof {
            if candidate is Some {
                assert(self@.free_lists =~~= old(self)@.pop_free(order as nat).free_lists);
            } else {
                assert(self@.free_lists =~~= old(self)@.free_lists);
            }
        }
        candidate
    }

    /// Make `block` the head of the free list of `order`.
    fn free_list_insert(&mut self, order: usize, block: usize)
        requires
            order < old(self)@.orders(),
        ensures
            final(self)@ == old(self)@.push_free(order as nat, block),
            final(self).min_block_size_log2 == old(self).min_block_size_log2,
    {
        self.free_lists[order].push(block);
        proof {
            assert(self@.free_lists =~~= old(self)@.push_free(order as nat, block).free_lists);
        }
    }

    /// Take `block` off the free list of `order`, and say whether it was
    /// on it.  The list is walked from its head, which makes this the
    /// slowest step of giving a block back.
    fn free_list_remove(&mut self, order: usize, block: usize) -> (r: bool)
        requires
            order < old(self)@.orders(),
        ensures
            r == old(self)@.is_free(order as nat, block),
            final(self)@ == old(self)@.remove_free(order as nat, block),
            !r ==> final(self)@ == old(self)@,
            final(self).min_block_size_log2 == old(self).min_block_size_log2,
    {
        let ghost list = self@.free_lists[order as int];
        let mut checking = self.free_lists[order].len();
        while checking > 0
            invariant
                *self == *old(self),
                order < self@.orders(),
                list == self@.free_lists[order as int],
                list == self.free_lists@[order as int]@,
                checking <= list.len(),
                forall|j: int| checking <= j < list.len() ==> list[j] != block,
            decreases checking,
        {
            checking -= 1;
            if self.free_lists[order][checking] == block {
                self.free_lists[order].remove(checking);
                proof {
                    lemma_unlink_is_remove(list, block, checking as int);
                    assert(self@.free_lists =~~= old(self)@.remove_free(
                        order as nat,
                        block,
                    ).free_lists);
                }
                return true;
            }
        }
        proof {
            lemma_unlink_absent(list, block);
            assert(self@.free_lists =~~= old(self)@.remove_free(order as nat, block).free_lists);
        }
        false
    }

    /// Cut `block`, which is of `order` and has been taken off its free
    /// list, down to `order_needed`, and put what is cut off on the free
    /// lists.
    fn split_free_block(&mut self, block: usize, order: usize, order_needed: usize)
        requires
            old(self)@.wf_holding(Some((order as nat, block))),
            old(self).geometry_wf(),
            order_needed <= order,
        ensures
            final(self)@ == old(self)@.split(block, order as nat, order_needed as nat),
            final(self)@.wf_holding(Some((order_needed as nat, block))),
            final(self).geometry_wf(),
            old(self)@.same_frame(final(self)@),
    {
        let ghost whole = order;
        let mut order = order;
        proof {
            self@.lemma_block_fits(order as nat, block);
        }
        let mut size_to_split = self.order_size(order);
        while order > order_needed
            invariant
                order_needed <= order,
                self@.wf_holding(Some((order as nat, block))),
                self.geometry_wf(),
                old(self)@.same_frame(self@),
                size_to_split == self@.order_size(order as nat),
                self@.split(block, order as nat, order_needed as nat) == old(self)@.split(
                    block,
                    whole as nat,
                    order_needed as nat,
                ),
            decreases order,
        {
            proof {
                self@.lemma_order_size_doubles((order - 1) as nat);
                self@.lemma_split_step((order - 1) as nat, block);
            }
            // Go on with a block of half the length: the lower half.
            assert(size_to_split >> 1 == size_to_split / 2) by (bit_vector);
            size_to_split >>= 1;
            order -= 1;

            // The upper half is free.
            let split = block + size_to_split;
            self.free_list_insert(order, split);
        }
    }

    /// The buddy of the `block` of `order`: the other half of the block
    /// that it was cut from, with which it can become one block again.
    pub fn buddy(&self, order: usize, block: usize) -> (r: Option<usize>)
        requires
            self.geometry_wf(),
            self@.order_size(order as nat) <= usize::MAX,
            self@.in_heap(block as int),
        ensures
            r == self@.buddy(order as nat, block),
    {
        let relative = block - self.heap_base;
        let size = self.order_size(order);
        if size >= self.heap_size {
            // The heap as a whole is half of nothing.
            None
        } else {
            proof {
                let top = (N - 1) as nat;
                self@.lemma_order_size_is_pow2(top);
                lemma_xor_below_pow2(
                    relative,
                    size,
                    floor_log2(self.min_block_size as nat) + top,
                );
            }
            // The two halves differ in one bit of their offsets from the
            // base: the bit of their length.
            Some(self.heap_base + (relative ^ size))
        }
    }

    /// Hand out a block of at least `size` addresses that starts at a
    /// multiple of `align`.  The request fails where no block length
    /// serves it, and where no free block is long enough.  A request that
    /// fails changes nothing.
    ///
    /// The block is given back by `deallocate` with the same `size` and
    /// `align`.
    pub fn allocate(&mut self, size: usize, align: usize) -> (r: Result<usize, AllocationError>)
        requires
            old(self).wf(),
        ensures
            final(self).wf(),
            final(self)@ == old(self)@.allocate(size as nat, align as nat).0,
            r == old(self)@.allocate(size as nat, align as nat).1,
            old(self)@.same_geometry(final(self)@),
            r matches Ok(block) ==> {
                &&& old(self)@.order_for(size as nat, align as nat) matches Ok(order)
                &&& !old(self)@.allocated.dom().contains(block)
                &&& final(self)@.allocated == old(self)@.allocated.insert(block, order)
                &&& block as int % align as int == 0
                &&& size <= final(self)@.order_size(order)
                &&& final(self)@.base <= block
                &&& block + final(self)@.order_size(order) <= final(self)@.base + final(self)@.size
            },
            r is Err ==> final(self)@ == old(self)@,
    {
        match self.allocation_order(size, align) {
            Ok(order_needed) => {
                proof {
                    self@.lemma_order_for(size as nat, align as nat);
                }
                // Look for a free block from the order of the request up.
                let mut order = order_needed;
                while order < N
                    invariant
                        order_needed <= order <= N,
                        self.wf(),
                        self@ == old(self)@,
                        self@.order_for(size as nat, align as nat) == Ok::<
                            nat,
                            AllocationSizeError,
                        >(order_needed as nat),
                        self@.first_fit(order as nat) == self@.first_fit(order_needed as nat),
                    decreases N - order,
                {
                    if let Some(block) = self.free_list_pop(order) {
                        proof {
                            old(self)@.lemma_take_head(order as nat);
                        }
                        // A block that is too long is cut down.  What is
                        // handed out is its lower end, so its address stays.
                        if order > order_needed {
                            self.split_free_block(block, order, order_needed);
                        }
                        let ghost held = self@;
                        proof {
                            held.lemma_claim(order_needed as nat, block);
                            self.allocated = Ghost(
                                self.allocated@.insert(block, order_needed as nat),
                            );
                            assert(self@ == held.claim(order_needed as nat, block));
                            self@.lemma_block_serves(
                                size as nat,
                                align as nat,
                                order_needed as nat,
                                block,
                            );
                        }
                        return Ok(block);
                    }
                    order += 1;
                }
                Err(AllocationError::HeapExhausted)
            },
            Err(e) => Err(AllocationError::InvalidSize(e)),
        }
    }

    /// Take back the block at `ptr` that `allocate` handed out for `size`
    /// and `align`.
    pub fn deallocate(&mut self, ptr: usize, size: usize, align: usize)
        requires
            old(self).wf(),
            old(self)@.order_for(size as nat, align as nat) matches Ok(order) && old(
                self,
            )@.is_allocated(order, ptr),
        ensures
            final(self).wf(),
            old(self)@.order_for(size as nat, align as nat) matches Ok(order) && final(self)@
                == old(self)@.deallocate(ptr, order),
            old(self)@.same_geometry(final(self)@),
            final(self)@.allocated == old(self)@.allocated.remove(ptr),
    {
        let initial_order = self.allocation_order(size, align).expect(
            "Tried to dispose of invalid block",
        );
        proof {
            self@.lemma_unclaim(initial_order as nat, ptr);
            self.allocated = Ghost(self.allocated@.remove(ptr));
            self@.lemma_release_frame(ptr, initial_order as nat);
        }

        // `block` is what the block at `ptr` has become, with every buddy
        // that was found free so far.
        let mut block = ptr;
        let mut order = initial_order;
        while order < N
            invariant_except_break
                self@.wf_holding(Some((order as nat, block))),
                self.geometry_wf(),
                self@.release(block, order as nat) == old(self)@.deallocate(
                    ptr,
                    initial_order as nat,
                ),
            ensures
                self.wf(),
                self@ == old(self)@.deallocate(ptr, initial_order as nat),
            decreases N - order,
        {
            proof {
                self@.lemma_block_fits(order as nat, block);
                self@.lemma_order_size_bounds(order as nat);
            }
            if let Some(buddy) = self.buddy(order, block) {
                proof {
                    self@.lemma_buddy(order as nat, block);
                    if self@.is_free(order as nat, buddy) {
                        self@.lemma_merge_step(order as nat, block);
                    }
                }
                if self.free_list_remove(order, buddy) {
                    // The buddy is free: the two are one block of the
                    // next order, which starts where the lower one does.
                    if buddy < block {
                        block = buddy;
                    }
                    order += 1;
                    continue ;
                }
            }
            // No buddy, or none that is free: the block is free as it is.
            proof {
                self@.lemma_put_back(order as nat, block);
            }
            self.free_list_insert(order, block);
            break ;
        }
    }
}

} // verus!
