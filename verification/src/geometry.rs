//! How the blocks of a heap lie: a block of one order is two blocks of the
//! order below, and two blocks either lie apart or one lies in the other.

use crate::math::{
    floor_log2, lemma_multiple_gap, lemma_multiple_neighbours, lemma_multiple_of_multiple,
    lemma_multiple_parity, lemma_pow2_fits_word, lemma_pow2_monotone, lemma_pow2_of_floor_log2,
    lemma_product_is_multiple, lemma_xor_pow2,
};
use crate::model::HeapModel;
use vstd::arithmetic::power2::{lemma_pow2_adds, lemma_pow2_pos, lemma_pow2_unfold, pow2};
use vstd::prelude::*;

verus! {

impl HeapModel {
    /// A block is twice as long as a block of the order below.
    pub proof fn lemma_order_size_doubles(self, order: nat)
        requires
            self.min_block_size > 0,
        ensures
            self.order_size(order) > 0,
            self.order_size(order + 1) == 2 * self.order_size(order),
    {
        lemma_pow2_pos(order);
        lemma_pow2_unfold(order + 1);
        let m = self.min_block_size as int;
        let p = pow2(order) as int;
        assert(m * p > 0) by (nonlinear_arith)
            requires
                m > 0,
                p > 0,
        ;
        assert(m * (2 * p) == 2 * (m * p)) by (nonlinear_arith);
    }

    /// The block lengths are the powers of two from the smallest block up.
    pub proof fn lemma_order_size_is_pow2(self, order: nat)
        requires
            self.geometry_wf(),
        ensures
            self.order_size(order) == pow2(floor_log2(self.min_block_size as nat) + order),
            self.min_block_size == pow2(floor_log2(self.min_block_size as nat)),
    {
        lemma_pow2_of_floor_log2(self.min_block_size as nat);
        lemma_pow2_adds(floor_log2(self.min_block_size as nat), order);
    }

    /// The length of a block is a multiple of the length of every block of
    /// a lower order.
    pub proof fn lemma_order_sizes_divide(self, lower: nat, higher: nat)
        requires
            self.min_block_size > 0,
            lower <= higher,
        ensures
            self.order_size(higher) == pow2((higher - lower) as nat) * self.order_size(lower),
            self.order_size(higher) as int % self.order_size(lower) as int == 0,
            self.order_size(lower) <= self.order_size(higher),
            lower < higher ==> 2 * self.order_size(lower) <= self.order_size(higher),
    {
        let d = (higher - lower) as nat;
        let m = self.min_block_size as int;
        let pl = pow2(lower) as int;
        let pd = pow2(d) as int;
        lemma_pow2_adds(lower, d);
        lemma_pow2_pos(d);
        self.lemma_order_size_doubles(lower);
        assert(m * (pl * pd) == pd * (m * pl)) by (nonlinear_arith);
        lemma_product_is_multiple(pd, m * pl);
        let s = m * pl;
        assert(s <= pd * s) by (nonlinear_arith)
            requires
                pd >= 1,
                s > 0,
        ;
        if lower < higher {
            lemma_pow2_unfold(d);
            assert(2 * s <= pd * s) by (nonlinear_arith)
                requires
                    pd >= 2,
                    s > 0,
            ;
        }
    }

    /// The orders are the ones whose blocks are no longer than the heap, and
    /// only the highest order has blocks as long as the heap.
    pub proof fn lemma_order_size_bounds(self, order: nat)
        requires
            self.geometry_wf(),
        ensures
            order < self.orders() <==> self.order_size(order) <= self.size,
            order + 1 < self.orders() <==> self.order_size(order) < self.size,
            order < self.orders() ==> self.size as int % self.order_size(order) as int == 0,
    {
        let top = (self.orders() - 1) as nat;
        self.lemma_order_size_is_pow2(order);
        self.lemma_order_size_is_pow2(top);
        let l = floor_log2(self.min_block_size as nat);
        lemma_pow2_monotone(l + order, l + top);
        lemma_pow2_monotone(l + top, l + order);
        if order <= top {
            self.lemma_order_sizes_divide(order, top);
        }
    }

    /// A block ends within the heap.
    pub proof fn lemma_block_fits(self, order: nat, addr: usize)
        requires
            self.geometry_wf(),
            self.is_block(order, addr),
        ensures
            self.order_size(order) > 0,
            addr + self.order_size(order) <= self.base + self.size,
    {
        self.lemma_order_size_doubles(order);
        self.lemma_order_size_bounds(order);
        lemma_multiple_gap(addr - self.base, self.size as int, self.order_size(order) as int);
    }

    /// Both halves of a block are blocks of the order below.
    pub proof fn lemma_block_halves(self, order: nat, addr: usize)
        requires
            self.geometry_wf(),
            self.is_block(order + 1, addr),
        ensures
            self.is_block(order, addr),
            addr + self.order_size(order) < self.base + self.size,
            self.is_block(order, (addr + self.order_size(order)) as usize),
    {
        let s = self.order_size(order) as int;
        self.lemma_order_size_doubles(order);
        self.lemma_block_fits(order + 1, addr);
        lemma_multiple_of_multiple(addr - self.base, 2, s);
        lemma_multiple_neighbours(addr - self.base, s);
    }

    /// The buddy of a block lies one block length above it where the block
    /// is the lower half of a block of the next order, and one block length
    /// below it where it is the upper half.  The buddy is a block of the same
    /// order with the first block as its buddy, and the lower of the two
    /// starts the block of the next order.
    pub proof fn lemma_buddy(self, order: nat, addr: usize)
        requires
            self.geometry_wf(),
            self.is_block(order, addr),
            order + 1 < self.orders(),
        ensures
            self.buddy(order, addr) == Some(self.buddy_addr(order, addr)),
            (addr - self.base) % (self.order_size(order + 1) as int) == 0 ==> self.buddy_addr(
                order,
                addr,
            ) == addr + self.order_size(order),
            (addr - self.base) % (self.order_size(order + 1) as int) != 0 ==> self.buddy_addr(
                order,
                addr,
            ) == addr - self.order_size(order),
            self.is_block(order, self.buddy_addr(order, addr)),
            self.buddy_addr(order, self.buddy_addr(order, addr)) == addr,
            self.is_block(
                order + 1,
                if self.buddy_addr(order, addr) < addr {
                    self.buddy_addr(order, addr)
                } else {
                    addr
                },
            ),
    {
        let s = self.order_size(order) as int;
        let x = (addr - self.base) as usize;
        let e = floor_log2(self.min_block_size as nat) + order;
        self.lemma_order_size_is_pow2(order);
        self.lemma_order_size_doubles(order);
        self.lemma_order_size_bounds(order);
        self.lemma_order_size_bounds(order + 1);
        lemma_pow2_fits_word(e);
        lemma_xor_pow2(x, e);
        lemma_multiple_parity(x as int, s);
        lemma_multiple_neighbours(x as int, s);
        let b = self.buddy_addr(order, addr);
        let y = (b - self.base) as usize;
        if x as int % (2 * s) == 0 {
            lemma_multiple_gap(x as int, self.size as int, 2 * s);
            assert(b == addr + s);
        } else {
            assert(b == addr - s);
        }
        lemma_xor_pow2(y, e);
        lemma_multiple_parity(y as int, s);
    }

    /// Two blocks of one order that share an address are the same block.
    pub proof fn lemma_same_order_overlap(self, order: nat, a1: usize, a2: usize)
        requires
            self.geometry_wf(),
            self.is_block(order, a1),
            self.is_block(order, a2),
            self.overlap(order, a1, order, a2),
        ensures
            a1 == a2,
    {
        let s = self.order_size(order) as int;
        self.lemma_order_size_doubles(order);
        if a1 < a2 {
            lemma_multiple_gap(a1 - self.base, a2 - self.base, s);
        } else if a2 < a1 {
            lemma_multiple_gap(a2 - self.base, a1 - self.base, s);
        }
    }

    /// Of two blocks that share an address, the one of the lower order lies
    /// within the other.
    pub proof fn lemma_nested(self, lower: nat, a1: usize, higher: nat, a2: usize)
        requires
            self.geometry_wf(),
            self.is_block(lower, a1),
            self.is_block(higher, a2),
            lower <= higher,
            self.overlap(lower, a1, higher, a2),
        ensures
            a2 <= a1,
            a1 + self.order_size(lower) <= a2 + self.order_size(higher),
    {
        let s1 = self.order_size(lower) as int;
        let s2 = self.order_size(higher) as int;
        let d = pow2((higher - lower) as nat) as int;
        self.lemma_order_size_doubles(lower);
        self.lemma_order_sizes_divide(lower, higher);
        lemma_pow2_pos((higher - lower) as nat);
        lemma_multiple_of_multiple(a2 - self.base, d, s1);
        lemma_multiple_of_multiple(s2, d, s1);
        if a1 < a2 {
            lemma_multiple_gap(a1 - self.base, a2 - self.base, s1);
        }
        let end2 = a2 - self.base + s2;
        assert(end2 % s1 == 0) by {
            vstd::arithmetic::div_mod::lemma_mod_adds(a2 - self.base, s2, s1);
        }
        lemma_multiple_gap(a1 - self.base, end2, s1);
    }
}

} // verus!
