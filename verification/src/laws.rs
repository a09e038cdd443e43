//! What holds of every heap.

use crate::heap::HeapError;
use crate::math::{
    floor_log2, lemma_floor_log2_pow2, lemma_pow2_monotone, lemma_pow2_of_floor_log2,
    lemma_xor_below_pow2,
};
use crate::model::{construction_error, min_block_size_for, Call, HeapModel};
use vstd::arithmetic::power2::{lemma_pow2_adds, lemma_pow2_pos, lemma_pow2_subtracts, pow2};
use vstd::prelude::*;

verus! {

/// A heap that can be built starts out well-formed.
pub proof fn lemma_pristine_wf(orders: nat, base: usize, size: usize)
    requires
        orders >= 1,
        base + size <= usize::MAX,
        construction_error(orders, base, size) is None,
    ensures
        HeapModel::pristine(orders, base, size).wf(),
        HeapModel::pristine(orders, base, size).orders() == orders,
        HeapModel::pristine(orders, base, size).min_block_size == min_block_size_for(
            size as nat,
            orders,
        ),
{
    broadcast use vstd::layout::layout_of_primitives;

    let heap = HeapModel::pristine(orders, base, size);
    let top = (orders - 1) as nat;
    let min_block_size = min_block_size_for(size as nat, orders);
    let k = floor_log2(size as nat);
    lemma_pow2_of_floor_log2(size as nat);
    lemma_pow2_pos(top);
    assert(top <= k) by {
        if top > k {
            lemma_pow2_monotone(k + 1, top);
            vstd::arithmetic::power2::lemma_pow2_strictly_increases(k, k + 1);
            vstd::arithmetic::div_mod::lemma_basic_div(size as int, pow2(top) as int);
        }
    }
    lemma_pow2_subtracts(top, k);
    lemma_pow2_adds((k - top) as nat, top);
    lemma_floor_log2_pow2((k - top) as nat);
    assert(heap.min_block_size == min_block_size);
    assert(heap.order_size(top) == size);
    assert(heap.geometry_wf());
    assert forall|o: nat, a: usize| #[trigger] heap.is_free(o, a) implies o == top && a == base by {
        let list = heap.free_lists[o as int];
        let j = choose|j: int| 0 <= j < list.len() && list[j] == a;
    }
    assert(heap.free_lists[top as int][0] == base);
    assert(heap.is_free(top, base));
    assert forall|x: int| #[trigger] heap.in_heap(x) implies heap.free_at(x) by {
        assert(heap.is_free(top, base) && heap.spans(top, base, x));
    }
    assert(heap.is_block(top, base)) by {
        vstd::arithmetic::div_mod::lemma_small_mod(0, size as nat);
    }
}

/// No heap is shorter than its smallest block, so that no heap is turned
/// down for that.
pub proof fn lemma_heap_holds_smallest_block(orders: nat, base: usize, size: usize)
    ensures
        min_block_size_for(size as nat, orders) <= size,
        construction_error(orders, base, size) != Some(HeapError::BadHeapSize),
{
    let halvings = pow2((orders - 1) as nat) as int;
    lemma_pow2_pos((orders - 1) as nat);
    vstd::arithmetic::div_mod::lemma_div_is_ordered_by_denominator(size as int, 1, halvings);
}

/// Flipping the same bits twice changes nothing.
proof fn lemma_xor_twice(x: usize, s: usize)
    by (bit_vector)
    ensures
        (x ^ s) ^ s == x,
{
}

impl HeapModel {
    /// The order and the block length for a request depend on the numbers
    /// of the heap alone, not on what is free or handed out: they are the
    /// same when a block is given back as when it was asked for.
    pub proof fn lemma_order_for_is_stable(self, other: HeapModel, size: nat, align: nat)
        requires
            self.same_geometry(other),
        ensures
            self.size_for(size, align) == other.size_for(size, align),
            self.order_for(size, align) == other.order_for(size, align),
    {
    }

    /// The buddy of the buddy of an address is the address itself, at every
    /// order below the highest.  At the highest order, nothing has a buddy.
    pub proof fn lemma_buddy_symmetric(self, order: nat, addr: usize)
        requires
            self.geometry_wf(),
            self.in_heap(addr as int),
            order < self.orders(),
        ensures
            order + 1 == self.orders() ==> self.buddy(order, addr) is None,
            order + 1 < self.orders() ==> {
                &&& self.buddy(order, addr) matches Some(buddy)
                &&& self.in_heap(buddy as int)
                &&& buddy != addr
                &&& self.buddy(order, buddy) == Some(addr)
            },
    {
        self.lemma_order_size_bounds(order);
        if order + 1 < self.orders() {
            let top = (self.orders() - 1) as nat;
            let x = (addr - self.base) as usize;
            let s = self.order_size(order) as usize;
            self.lemma_order_size_doubles(order);
            self.lemma_order_size_is_pow2(top);
            lemma_xor_below_pow2(x, s, floor_log2(self.min_block_size as nat) + top);
            lemma_xor_twice(x, s);
            assert(x ^ s != x) by {
                if x ^ s == x {
                    assert(x ^ x == 0) by (bit_vector);
                    assert((x ^ s) ^ x == s) by (bit_vector);
                }
            }
        }
    }

    /// While nothing is handed out, no block of an order below the highest
    /// is free.  The buddy of the first such block would lie in a free
    /// block: in itself, so that the two would have been made one; or in a
    /// longer block, which would hold the first block too.
    proof fn lemma_low_lists_empty(self, order: nat)
        requires
            self.wf(),
            self.allocated.dom() =~= Set::empty(),
            order + 1 < self.orders(),
        ensures
            forall|o: nat| o <= order ==> (#[trigger] self.free_lists[o as int]).len() == 0,
        decreases order,
    {
        if order > 0 {
            self.lemma_low_lists_empty((order - 1) as nat);
        }
        let list = self.free_lists[order as int];
        if list.len() > 0 {
            let addr = list[0];
            assert(self.is_free(order, addr));
            let buddy = self.buddy_addr(order, addr);
            let merged = if buddy < addr {
                buddy
            } else {
                addr
            };
            self.lemma_buddy(order, addr);
            self.lemma_order_size_doubles(order);
            assert(self.in_heap(buddy as int));
            assert(!self.allocated_at(buddy as int));
            let (o, a) = choose|o: nat, a: usize| #[trigger]
                self.is_free(o, a) && self.spans(o, a, buddy as int);
            if o < order {
                assert(self.free_lists[o as int].len() == 0);
            } else if o == order {
                self.lemma_same_order_overlap(order, a, buddy);
            } else {
                self.lemma_order_size_doubles(o);
                self.lemma_nested(order + 1, merged, o, a);
                assert(self.overlap(order, addr, o, a));
            }
        }
    }

    /// Once every block that was handed out has been given back, in
    /// whatever order, the heap is as it was built: the free list of the
    /// highest order holds the one block that is the whole heap, and every
    /// other free list is empty.
    pub proof fn lemma_all_returned_is_pristine(self)
        requires
            self.wf(),
            self.allocated.dom() =~= Set::empty(),
        ensures
            self == HeapModel::pristine(self.orders(), self.base, self.size),
    {
        let top = (self.orders() - 1) as nat;
        let pristine = HeapModel::pristine(self.orders(), self.base, self.size);
        if top > 0 {
            self.lemma_low_lists_empty((top - 1) as nat);
        }
        let list = self.free_lists[top as int];
        self.lemma_order_size_doubles(top);
        assert(self.in_heap(self.base as int));
        assert(!self.allocated_at(self.base as int));
        let (o, a) = choose|o: nat, a: usize| #[trigger]
            self.is_free(o, a) && self.spans(o, a, self.base as int);
        if o < top {
            assert(self.free_lists[o as int].len() == 0);
        }
        assert(self.is_block(top, self.base)) by {
            vstd::arithmetic::div_mod::lemma_small_mod(0, self.size as nat);
        }
        assert forall|j: int| 0 <= j < list.len() implies list[j] == self.base by {
            assert(self.is_free(top, list[j]));
            self.lemma_same_order_overlap(top, list[j], self.base);
        }
        assert(list.len() == 1) by {
            if list.len() >= 2 {
                assert(list[0] == list[1]);
            }
        }
        assert(self.free_lists =~~= pristine.free_lists);
        assert(self.allocated =~= pristine.allocated);
        assert(self.min_block_size == pristine.min_block_size) by {
            lemma_pow2_pos(top);
            vstd::arithmetic::div_mod::lemma_div_by_multiple(
                self.min_block_size as int,
                pow2(top) as int,
            );
        }
    }

    /// Calls that can be made one after another leave a well-formed heap
    /// of the same numbers.
    pub proof fn lemma_calls_keep_wf(self, calls: Seq<Call>)
        requires
            self.wf(),
            self.admits_all(calls),
        ensures
            self.after_all(calls).wf(),
            self.same_geometry(self.after_all(calls)),
        decreases calls.len(),
    {
        if calls.len() > 0 {
            let before = self.after_all(calls.drop_last());
            self.lemma_calls_keep_wf(calls.drop_last());
            match calls.last() {
                Call::Allocate { size, align } => {
                    before.lemma_allocate_wf(size, align);
                },
                Call::Deallocate { addr, size, align } => {
                    before.lemma_deallocate_wf(addr, before.order_for(size, align).unwrap());
                },
            }
        }
    }

    /// After any requests and returns, made in whatever order, that leave
    /// no block handed out, the heap is one free block again.
    pub proof fn lemma_round_trip(self, calls: Seq<Call>)
        requires
            self.wf(),
            self.admits_all(calls),
            self.after_all(calls).allocated.dom() =~= Set::empty(),
        ensures
            self.after_all(calls) == HeapModel::pristine(self.orders(), self.base, self.size),
    {
        self.lemma_calls_keep_wf(calls);
        self.after_all(calls).lemma_all_returned_is_pristine();
    }
}

} // verus!
