//! Which block serves a request, and how a block that serves it lies.

use crate::math::{
    floor_log2, lemma_floor_log2_pow2, lemma_multiple_of_multiple, lemma_multiple_quotient,
    lemma_pow2_monotone, lemma_pow2_of_floor_log2, lemma_product_is_multiple,
    lemma_round_up_pow2, max3,
};
use crate::model::{HeapModel, MIN_HEAP_ALIGN};
use vstd::arithmetic::power2::{is_pow2, lemma2_to64, lemma_pow2_adds, lemma_pow2_pos, pow2};
use vstd::prelude::*;

verus! {

/// Of two powers of two, the larger is a multiple of the smaller.
pub proof fn lemma_pow2_divides(small: nat, large: nat)
    requires
        is_pow2(small as int),
        is_pow2(large as int),
        small <= large,
    ensures
        large as int % small as int == 0,
{
    let a = floor_log2(small);
    let b = floor_log2(large);
    lemma_pow2_of_floor_log2(small);
    lemma_pow2_of_floor_log2(large);
    lemma_pow2_monotone(a, b);
    lemma_pow2_adds(a, (b - a) as nat);
    lemma_pow2_pos(a);
    assert(pow2(a) * pow2((b - a) as nat) == pow2((b - a) as nat) * pow2(a)) by (nonlinear_arith);
    lemma_product_is_multiple(pow2((b - a) as nat) as int, pow2(a) as int);
}

impl HeapModel {
    /// The block length for a request is a power of two that is neither
    /// below what was asked for nor below the smallest block nor above the
    /// heap, and it is the block length of the order for the request.
    pub proof fn lemma_order_for(self, size: nat, align: nat)
        requires
            self.geometry_wf(),
        ensures
            self.size_for(size, align) is Ok <==> self.order_for(size, align) is Ok,
            self.size_for(size, align) matches Ok(block_size) ==> {
                &&& is_pow2(block_size as int)
                &&& is_pow2(align as int)
                &&& size <= block_size
                &&& align <= block_size
                &&& self.min_block_size <= block_size <= self.size
                &&& floor_log2(self.min_block_size as nat) <= floor_log2(block_size)
                &&& self.order_for(size, align) matches Ok(order)
                &&& order < self.orders()
                &&& self.order_size(order) == block_size
            },
            self.size_for(size, align) matches Err(e) ==> self.order_for(size, align) == Err::<
                nat,
                _,
            >(e),
    {
        if let Ok(block_size) = self.size_for(size, align) {
            lemma_round_up_pow2(max3(size, align, self.min_block_size as nat));
            let l = floor_log2(self.min_block_size as nat);
            let b = floor_log2(block_size);
            lemma_pow2_of_floor_log2(block_size);
            lemma_pow2_of_floor_log2(self.min_block_size as nat);
            lemma_pow2_monotone(l, b);
            let order = (b - l) as nat;
            self.lemma_order_size_is_pow2(order);
            self.lemma_order_size_bounds(order);
        }
    }

    /// A block of the order for a request starts at a multiple of the
    /// alignment asked for, has room for the size asked for, and ends
    /// within the heap.
    pub proof fn lemma_block_serves(self, size: nat, align: nat, order: nat, addr: usize)
        requires
            self.geometry_wf(),
            self.order_for(size, align) == Ok::<nat, crate::heap::AllocationSizeError>(order),
            self.is_block(order, addr),
        ensures
            addr as int % align as int == 0,
            size <= self.order_size(order),
            self.base <= addr,
            addr + self.order_size(order) <= self.base + self.size,
    {
        self.lemma_order_for(size, align);
        self.lemma_block_fits(order, addr);
        let block_size = self.order_size(order);
        lemma_pow2_divides(align, block_size);
        assert(is_pow2(MIN_HEAP_ALIGN as int)) by {
            lemma2_to64();
            lemma_floor_log2_pow2(12);
        }
        lemma_pow2_divides(align, MIN_HEAP_ALIGN as nat);
        let a = align as int;
        assert(a > 0) by {
            reveal(is_pow2);
        }
        lemma_multiple_quotient(block_size as int, a);
        lemma_multiple_quotient(MIN_HEAP_ALIGN as int, a);
        let cb = block_size as int / a;
        let ch = MIN_HEAP_ALIGN as int / a;
        assert(cb > 0) by (nonlinear_arith)
            requires
                cb * a > 0,
                a > 0,
        ;
        assert(ch > 0) by (nonlinear_arith)
            requires
                ch * a > 0,
                a > 0,
        ;
        lemma_multiple_of_multiple(addr - self.base, cb, a);
        lemma_multiple_of_multiple(self.base as int, ch, a);
        vstd::arithmetic::div_mod::lemma_mod_adds(addr - self.base, self.base as int, a);
    }
}

} // verus!
