//! The steps of allocation and release keep a heap well-formed.
//!
//! Between taking a block from a free list and recording it as handed out,
//! and between striking a block from that record and putting it on a free
//! list, one block is held outside both.  Each step here moves the heap from
//! one such state to the next.

use crate::math::lemma_multiple_parity;
use crate::model::HeapModel;
use vstd::prelude::*;

verus! {

impl HeapModel {
    /// Taking the head of a free list leaves a heap that holds that block.
    pub proof fn lemma_take_head(self, order: nat)
        requires
            self.wf(),
            order < self.orders(),
            self.free_lists[order as int].len() > 0,
        ensures
            self.pop_free(order).wf_holding(Some((order, self.free_lists[order as int].last()))),
    {
        let next = self.pop_free(order);
        let addr = self.free_lists[order as int].last();
        let held = Some((order, addr));
        self.lemma_pop_free(order);
        assert(self.free_lists[order as int][self.free_lists[order as int].len() - 1] == addr);
        assert(self.is_free(order, addr));
        assert forall|o: nat| o < next.orders() implies (#[trigger] next.free_lists[o as int])
            .no_duplicates() by {
            if o != order {
                assert(next.free_lists[o as int] == self.free_lists[o as int]);
            }
        }
        assert forall|o: nat, a: usize| #[trigger] next.is_free(o, a) implies next.is_block(
            o,
            a,
        ) by {
            assert(self.is_free(o, a));
        }
        assert(next.disjoint(held));
        assert forall|x: int| #[trigger] next.in_heap(x) implies next.free_at(x)
            || next.allocated_at(x) || next.spans(order, addr, x) by {
            assert(self.in_heap(x));
            if self.free_at(x) {
                let (o, a) = choose|o: nat, a: usize| #[trigger]
                    self.is_free(o, a) && self.spans(o, a, x);
                if !(o == order && a == addr) {
                    assert(next.is_free(o, a) && next.spans(o, a, x));
                }
            } else {
                let a = choose|a: usize| #[trigger]
                    self.allocated.dom().contains(a) && self.spans(self.allocated[a], a, x);
                assert(next.allocated.dom().contains(a) && next.spans(next.allocated[a], a, x));
            }
        }
        assert(next.coalesced());
    }

    /// Cutting the held block in two and putting its upper half on the free
    /// list leaves a heap that holds the lower half.
    pub proof fn lemma_split_step(self, order: nat, addr: usize)
        requires
            self.wf_holding(Some((order + 1, addr))),
        ensures
            addr + self.order_size(order) < self.base + self.size,
            self.push_free(order, (addr + self.order_size(order)) as usize).wf_holding(
                Some((order, addr)),
            ),
    {
        let s = self.order_size(order);
        let upper = (addr + s) as usize;
        let next = self.push_free(order, upper);
        let held = Some((order, addr));
        self.lemma_order_size_doubles(order);
        self.lemma_block_halves(order, addr);
        self.lemma_push_free(order, upper);
        assert(!self.is_free(order, upper)) by {
            if self.is_free(order, upper) {
                assert(self.overlap(order + 1, addr, order, upper));
            }
        }
        assert forall|o: nat| o < next.orders() implies (#[trigger] next.free_lists[o as int])
            .no_duplicates() by {
            if o != order {
                assert(next.free_lists[o as int] == self.free_lists[o as int]);
            }
        }
        assert forall|o: nat, a: usize| #[trigger] next.is_free(o, a) implies next.is_block(
            o,
            a,
        ) by {
            if !(o == order && a == upper) {
                assert(self.is_free(o, a));
            }
        }
        assert forall|o1: nat, a1: usize| #[trigger] self.is_free(o1, a1) implies !next.overlap(
            order,
            addr,
            o1,
            a1,
        ) && !next.overlap(order, upper, o1, a1) by {
            assert(!self.overlap(order + 1, addr, o1, a1));
        }
        assert forall|a1: usize| #[trigger]
            self.allocated.dom().contains(a1) implies !next.overlap(
            order,
            addr,
            next.allocated[a1],
            a1,
        ) && !next.overlap(order, upper, next.allocated[a1], a1) by {
            assert(!self.overlap(order + 1, addr, self.allocated[a1], a1));
        }
        assert(next.disjoint(held)) by {
            assert forall|o1: nat, a1: usize, o2: nat, a2: usize|
                #![trigger next.is_free(o1, a1), next.is_free(o2, a2)]
                next.is_free(o1, a1) && next.is_free(o2, a2) && (o1 != o2 || a1 != a2)
                    implies !next.overlap(o1, a1, o2, a2) by {
                if o1 == order && a1 == upper {
                    assert(self.is_free(o2, a2));
                } else if o2 == order && a2 == upper {
                    assert(self.is_free(o1, a1));
                } else {
                    assert(self.is_free(o1, a1) && self.is_free(o2, a2));
                }
            }
            assert forall|o1: nat, a1: usize, a2: usize|
                #![trigger next.is_free(o1, a1), next.allocated.dom().contains(a2)]
                next.is_free(o1, a1) && next.allocated.dom().contains(a2) implies !next.overlap(
                o1,
                a1,
                next.allocated[a2],
                a2,
            ) by {
                if !(o1 == order && a1 == upper) {
                    assert(self.is_free(o1, a1));
                }
            }
            assert forall|o1: nat, a1: usize| #[trigger]
                next.is_free(o1, a1) implies !next.overlap(order, addr, o1, a1) by {
                if !(o1 == order && a1 == upper) {
                    assert(self.is_free(o1, a1));
                }
            }
        }
        assert forall|x: int| #[trigger] next.in_heap(x) implies next.free_at(x)
            || next.allocated_at(x) || next.spans(order, addr, x) by {
            assert(self.in_heap(x));
            if self.free_at(x) {
                let (o, a) = choose|o: nat, a: usize| #[trigger]
                    self.is_free(o, a) && self.spans(o, a, x);
                assert(next.is_free(o, a) && next.spans(o, a, x));
            } else if self.allocated_at(x) {
                let a = choose|a: usize| #[trigger]
                    self.allocated.dom().contains(a) && self.spans(self.allocated[a], a, x);
                assert(next.allocated.dom().contains(a) && next.spans(next.allocated[a], a, x));
            } else if !next.spans(order, addr, x) {
                assert(next.is_free(order, upper) && next.spans(order, upper, x));
            }
        }
        assert(next.coalesced()) by {
            lemma_multiple_parity(addr - self.base, s as int);
            self.lemma_buddy(order, upper);
            assert(next.buddy_addr(order, upper) == addr);
            assert(!self.is_free(order, addr)) by {
                if self.is_free(order, addr) {
                    assert(self.overlap(order + 1, addr, order, addr));
                }
            }
            assert forall|o: nat, a1: usize, a2: usize|
                #![trigger next.is_free(o, a1), next.is_free(o, a2)]
                next.is_free(o, a1) && next.is_free(o, a2) && o + 1 < next.orders() implies a2
                != next.buddy_addr(o, a1) by {
                if o == order && a1 == upper {
                    if a2 != upper {
                        assert(self.is_free(o, a2));
                    }
                } else if o == order && a2 == upper {
                    assert(self.is_free(o, a1));
                    self.lemma_buddy(order, a1);
                } else {
                    assert(self.is_free(o, a1) && self.is_free(o, a2));
                }
            }
        }
    }

    /// Recording the held block as handed out leaves a well-formed heap.
    pub proof fn lemma_claim(self, order: nat, addr: usize)
        requires
            self.wf_holding(Some((order, addr))),
        ensures
            !self.allocated.dom().contains(addr),
            self.claim(order, addr).wf(),
    {
        let next = self.claim(order, addr);
        self.lemma_order_size_doubles(order);
        if self.allocated.dom().contains(addr) {
            self.lemma_order_size_doubles(self.allocated[addr]);
            assert(self.overlap(order, addr, self.allocated[addr], addr));
        }
        assert forall|o: nat, a: usize| #[trigger] next.is_free(o, a) implies next.is_block(
            o,
            a,
        ) by {
            assert(self.is_free(o, a));
        }
        assert forall|a: usize| #[trigger] next.allocated.dom().contains(a) implies next.is_block(
            next.allocated[a],
            a,
        ) by {
            if a != addr {
                assert(self.allocated.dom().contains(a));
            }
        }
        assert(next.disjoint(None)) by {
            assert forall|o1: nat, a1: usize, o2: nat, a2: usize|
                #![trigger next.is_free(o1, a1), next.is_free(o2, a2)]
                next.is_free(o1, a1) && next.is_free(o2, a2) && (o1 != o2 || a1 != a2)
                    implies !next.overlap(o1, a1, o2, a2) by {
                assert(self.is_free(o1, a1) && self.is_free(o2, a2));
            }
            assert forall|a1: usize, a2: usize|
                #![trigger next.allocated.dom().contains(a1), next.allocated.dom().contains(a2)]
                next.allocated.dom().contains(a1) && next.allocated.dom().contains(a2) && a1
                    != a2 implies !next.overlap(next.allocated[a1], a1, next.allocated[a2], a2) by {
                if a1 != addr {
                    assert(self.allocated.dom().contains(a1));
                }
                if a2 != addr {
                    assert(self.allocated.dom().contains(a2));
                }
            }
            assert forall|o1: nat, a1: usize, a2: usize|
                #![trigger next.is_free(o1, a1), next.allocated.dom().contains(a2)]
                next.is_free(o1, a1) && next.allocated.dom().contains(a2) implies !next.overlap(
                o1,
                a1,
                next.allocated[a2],
                a2,
            ) by {
                assert(self.is_free(o1, a1));
                if a2 != addr {
                    assert(self.allocated.dom().contains(a2));
                }
            }
        }
        assert forall|x: int| #[trigger] next.in_heap(x) implies next.free_at(x)
            || next.allocated_at(x) by {
            assert(self.in_heap(x));
            if self.free_at(x) {
                let (o, a) = choose|o: nat, a: usize| #[trigger]
                    self.is_free(o, a) && self.spans(o, a, x);
                assert(next.is_free(o, a) && next.spans(o, a, x));
            } else if self.allocated_at(x) {
                let a = choose|a: usize| #[trigger]
                    self.allocated.dom().contains(a) && self.spans(self.allocated[a], a, x);
                assert(next.allocated.dom().contains(a) && next.spans(next.allocated[a], a, x));
            } else {
                assert(next.allocated.dom().contains(addr) && next.spans(
                    next.allocated[addr],
                    addr,
                    x,
                ));
            }
        }
        assert(next.coalesced()) by {
            assert forall|o: nat, a1: usize, a2: usize|
                #![trigger next.is_free(o, a1), next.is_free(o, a2)]
                next.is_free(o, a1) && next.is_free(o, a2) && o + 1 < next.orders() implies a2
                != next.buddy_addr(o, a1) by {
                assert(self.is_free(o, a1) && self.is_free(o, a2));
            }
        }
    }

    /// Striking a block from the record of what is handed out leaves a heap
    /// that holds that block.
    pub proof fn lemma_unclaim(self, order: nat, addr: usize)
        requires
            self.wf(),
            self.is_allocated(order, addr),
        ensures
            self.unclaim(addr).wf_holding(Some((order, addr))),
    {
        let next = self.unclaim(addr);
        let held = Some((order, addr));
        assert(self.allocated.dom().contains(addr));
        assert forall|o: nat, a: usize| #[trigger] next.is_free(o, a) implies next.is_block(
            o,
            a,
        ) by {
            assert(self.is_free(o, a));
        }
        assert forall|a: usize| #[trigger] next.allocated.dom().contains(a) implies next.is_block(
            next.allocated[a],
            a,
        ) by {
            assert(self.allocated.dom().contains(a));
        }
        assert(next.disjoint(held)) by {
            assert forall|o1: nat, a1: usize, o2: nat, a2: usize|
                #![trigger next.is_free(o1, a1), next.is_free(o2, a2)]
                next.is_free(o1, a1) && next.is_free(o2, a2) && (o1 != o2 || a1 != a2)
                    implies !next.overlap(o1, a1, o2, a2) by {
                assert(self.is_free(o1, a1) && self.is_free(o2, a2));
            }
            assert forall|a1: usize, a2: usize|
                #![trigger next.allocated.dom().contains(a1), next.allocated.dom().contains(a2)]
                next.allocated.dom().contains(a1) && next.allocated.dom().contains(a2) && a1
                    != a2 implies !next.overlap(next.allocated[a1], a1, next.allocated[a2], a2) by {
                assert(self.allocated.dom().contains(a1) && self.allocated.dom().contains(a2));
            }
            assert forall|o1: nat, a1: usize, a2: usize|
                #![trigger next.is_free(o1, a1), next.allocated.dom().contains(a2)]
                next.is_free(o1, a1) && next.allocated.dom().contains(a2) implies !next.overlap(
                o1,
                a1,
                next.allocated[a2],
                a2,
            ) by {
                assert(self.is_free(o1, a1) && self.allocated.dom().contains(a2));
            }
            assert forall|o1: nat, a1: usize| #[trigger]
                next.is_free(o1, a1) implies !next.overlap(order, addr, o1, a1) by {
                assert(self.is_free(o1, a1));
            }
            assert forall|a1: usize| #[trigger]
                next.allocated.dom().contains(a1) implies !next.overlap(
                order,
                addr,
                next.allocated[a1],
                a1,
            ) by {
                assert(self.allocated.dom().contains(a1));
            }
        }
        assert forall|x: int| #[trigger] next.in_heap(x) implies next.free_at(x)
            || next.allocated_at(x) || next.spans(order, addr, x) by {
            assert(self.in_heap(x));
            if self.free_at(x) {
                let (o, a) = choose|o: nat, a: usize| #[trigger]
                    self.is_free(o, a) && self.spans(o, a, x);
                assert(next.is_free(o, a) && next.spans(o, a, x));
            } else {
                let a = choose|a: usize| #[trigger]
                    self.allocated.dom().contains(a) && self.spans(self.allocated[a], a, x);
                if a != addr {
                    assert(next.allocated.dom().contains(a) && next.spans(
                        next.allocated[a],
                        a,
                        x,
                    ));
                }
            }
        }
        assert(next.coalesced()) by {
            assert forall|o: nat, a1: usize, a2: usize|
                #![trigger next.is_free(o, a1), next.is_free(o, a2)]
                next.is_free(o, a1) && next.is_free(o, a2) && o + 1 < next.orders() implies a2
                != next.buddy_addr(o, a1) by {
                assert(self.is_free(o, a1) && self.is_free(o, a2));
            }
        }
    }

    /// Taking the free buddy of the held block off its list leaves a heap
    /// that holds the two as one block of the next order.
    pub proof fn lemma_merge_step(self, order: nat, addr: usize)
        requires
            self.wf_holding(Some((order, addr))),
            order + 1 < self.orders(),
            self.is_free(order, self.buddy_addr(order, addr)),
        ensures
            self.remove_free(order, self.buddy_addr(order, addr)).wf_holding(
                Some(
                    (
                        order + 1,
                        if self.buddy_addr(order, addr) < addr {
                            self.buddy_addr(order, addr)
                        } else {
                            addr
                        },
                    ),
                ),
            ),
    {
        let s = self.order_size(order);
        let buddy = self.buddy_addr(order, addr);
        let merged = if buddy < addr {
            buddy
        } else {
            addr
        };
        let next = self.remove_free(order, buddy);
        let held = Some((order + 1, merged));
        self.lemma_order_size_doubles(order);
        self.lemma_buddy(order, addr);
        self.lemma_remove_free(order, buddy);
        assert(buddy == addr + s || buddy == addr - s);
        assert(next.order_size(order + 1) == 2 * s);
        assert forall|o: nat| o < next.orders() implies (#[trigger] next.free_lists[o as int])
            .no_duplicates() by {
            if o != order {
                assert(next.free_lists[o as int] == self.free_lists[o as int]);
            }
        }
        assert forall|o: nat, a: usize| #[trigger] next.is_free(o, a) implies next.is_block(
            o,
            a,
        ) by {
            assert(self.is_free(o, a));
        }
        assert(next.disjoint(held)) by {
            assert forall|o1: nat, a1: usize, o2: nat, a2: usize|
                #![trigger next.is_free(o1, a1), next.is_free(o2, a2)]
                next.is_free(o1, a1) && next.is_free(o2, a2) && (o1 != o2 || a1 != a2)
                    implies !next.overlap(o1, a1, o2, a2) by {
                assert(self.is_free(o1, a1) && self.is_free(o2, a2));
            }
            assert forall|o1: nat, a1: usize, a2: usize|
                #![trigger next.is_free(o1, a1), next.allocated.dom().contains(a2)]
                next.is_free(o1, a1) && next.allocated.dom().contains(a2) implies !next.overlap(
                o1,
                a1,
                next.allocated[a2],
                a2,
            ) by {
                assert(self.is_free(o1, a1));
            }
            assert forall|o1: nat, a1: usize| #[trigger]
                next.is_free(o1, a1) implies !next.overlap(order + 1, merged, o1, a1) by {
                assert(self.is_free(o1, a1));
                self.lemma_order_size_doubles(o1);
                assert(!self.overlap(order, addr, o1, a1));
                assert(!self.overlap(order, buddy, o1, a1));
            }
            assert forall|a1: usize| #[trigger]
                next.allocated.dom().contains(a1) implies !next.overlap(
                order + 1,
                merged,
                next.allocated[a1],
                a1,
            ) by {
                self.lemma_order_size_doubles(self.allocated[a1]);
                assert(!self.overlap(order, addr, self.allocated[a1], a1));
                assert(!self.overlap(order, buddy, self.allocated[a1], a1));
            }
        }
        assert forall|x: int| #[trigger] next.in_heap(x) implies next.free_at(x)
            || next.allocated_at(x) || next.spans(order + 1, merged, x) by {
            assert(self.in_heap(x));
            if self.free_at(x) {
                let (o, a) = choose|o: nat, a: usize| #[trigger]
                    self.is_free(o, a) && self.spans(o, a, x);
                if !(o == order && a == buddy) {
                    assert(next.is_free(o, a) && next.spans(o, a, x));
                }
            } else if self.allocated_at(x) {
                let a = choose|a: usize| #[trigger]
                    self.allocated.dom().contains(a) && self.spans(self.allocated[a], a, x);
                assert(next.allocated.dom().contains(a) && next.spans(next.allocated[a], a, x));
            }
        }
        assert(next.coalesced()) by {
            assert forall|o: nat, a1: usize, a2: usize|
                #![trigger next.is_free(o, a1), next.is_free(o, a2)]
                next.is_free(o, a1) && next.is_free(o, a2) && o + 1 < next.orders() implies a2
                != next.buddy_addr(o, a1) by {
                assert(self.is_free(o, a1) && self.is_free(o, a2));
            }
        }
    }

    /// Putting the held block on the free list of its order, where its
    /// buddy is not free, leaves a well-formed heap.
    pub proof fn lemma_put_back(self, order: nat, addr: usize)
        requires
            self.wf_holding(Some((order, addr))),
            order + 1 < self.orders() ==> !self.is_free(order, self.buddy_addr(order, addr)),
        ensures
            self.push_free(order, addr).wf(),
    {
        let next = self.push_free(order, addr);
        self.lemma_order_size_doubles(order);
        self.lemma_push_free(order, addr);
        assert(!self.is_free(order, addr)) by {
            if self.is_free(order, addr) {
                assert(self.overlap(order, addr, order, addr));
            }
        }
        assert forall|o: nat| o < next.orders() implies (#[trigger] next.free_lists[o as int])
            .no_duplicates() by {
            if o != order {
                assert(next.free_lists[o as int] == self.free_lists[o as int]);
            }
        }
        assert forall|o: nat, a: usize| #[trigger] next.is_free(o, a) implies next.is_block(
            o,
            a,
        ) by {
            if !(o == order && a == addr) {
                assert(self.is_free(o, a));
            }
        }
        assert(next.disjoint(None)) by {
            assert forall|o1: nat, a1: usize, o2: nat, a2: usize|
                #![trigger next.is_free(o1, a1), next.is_free(o2, a2)]
                next.is_free(o1, a1) && next.is_free(o2, a2) && (o1 != o2 || a1 != a2)
                    implies !next.overlap(o1, a1, o2, a2) by {
                if o1 == order && a1 == addr {
                    assert(self.is_free(o2, a2));
                    assert(!self.overlap(order, addr, o2, a2));
                } else if o2 == order && a2 == addr {
                    assert(self.is_free(o1, a1));
                    assert(!self.overlap(order, addr, o1, a1));
                } else {
                    assert(self.is_free(o1, a1) && self.is_free(o2, a2));
                }
            }
            assert forall|o1: nat, a1: usize, a2: usize|
                #![trigger next.is_free(o1, a1), next.allocated.dom().contains(a2)]
                next.is_free(o1, a1) && next.allocated.dom().contains(a2) implies !next.overlap(
                o1,
                a1,
                next.allocated[a2],
                a2,
            ) by {
                if !(o1 == order && a1 == addr) {
                    assert(self.is_free(o1, a1));
                }
            }
        }
        assert forall|x: int| #[trigger] next.in_heap(x) implies next.free_at(x)
            || next.allocated_at(x) by {
            assert(self.in_heap(x));
            if self.free_at(x) {
                let (o, a) = choose|o: nat, a: usize| #[trigger]
                    self.is_free(o, a) && self.spans(o, a, x);
                assert(next.is_free(o, a) && next.spans(o, a, x));
            } else if self.allocated_at(x) {
                let a = choose|a: usize| #[trigger]
                    self.allocated.dom().contains(a) && self.spans(self.allocated[a], a, x);
                assert(next.allocated.dom().contains(a) && next.spans(next.allocated[a], a, x));
            } else {
                assert(next.is_free(order, addr) && next.spans(order, addr, x));
            }
        }
        assert(next.coalesced()) by {
            assert forall|o: nat, a1: usize, a2: usize|
                #![trigger next.is_free(o, a1), next.is_free(o, a2)]
                next.is_free(o, a1) && next.is_free(o, a2) && o + 1 < next.orders() implies a2
                != next.buddy_addr(o, a1) by {
                if o == order && a1 == addr {
                    self.lemma_buddy(order, addr);
                    if a2 != addr {
                        assert(self.is_free(o, a2));
                    }
                } else if o == order && a2 == addr {
                    assert(self.is_free(o, a1));
                    self.lemma_buddy(order, a1);
                } else {
                    assert(self.is_free(o, a1) && self.is_free(o, a2));
                }
            }
        }
    }

    /// Cutting the held block down leaves a heap that holds what is left of
    /// it.
    pub proof fn lemma_split_wf(self, addr: usize, order: nat, order_needed: nat)
        requires
            self.wf_holding(Some((order, addr))),
            order_needed <= order,
        ensures
            self.split(addr, order, order_needed).wf_holding(Some((order_needed, addr))),
        decreases order,
    {
        if order > order_needed {
            let lower = (order - 1) as nat;
            self.lemma_split_step(lower, addr);
            self.push_free(lower, (addr + self.order_size(lower)) as usize).lemma_split_wf(
                addr,
                lower,
                order_needed,
            );
        }
    }

    /// Setting the held block free leaves a well-formed heap.
    pub proof fn lemma_release_wf(self, addr: usize, order: nat)
        requires
            self.wf_holding(Some((order, addr))),
        ensures
            self.release(addr, order).wf(),
        decreases self.orders() - order,
    {
        let buddy = self.buddy(order, addr);
        self.lemma_order_size_bounds(order);
        if order + 1 < self.orders() {
            self.lemma_buddy(order, addr);
        }
        if order + 1 < self.orders() && buddy is Some && self.is_free(order, buddy.unwrap()) {
            let merged = if buddy.unwrap() < addr {
                buddy.unwrap()
            } else {
                addr
            };
            self.lemma_merge_step(order, addr);
            self.remove_free(order, buddy.unwrap()).lemma_release_wf(merged, order + 1);
        } else {
            self.lemma_put_back(order, addr);
        }
    }

    /// A request leaves a well-formed heap of the same numbers.  Where it
    /// is served, the block is one that was not handed out.
    pub proof fn lemma_allocate_wf(self, size: nat, align: nat)
        requires
            self.wf(),
        ensures
            self.allocate(size, align).0.wf(),
            self.same_geometry(self.allocate(size, align).0),
            match self.allocate(size, align).1 {
                Ok(addr) => {
                    &&& self.order_for(size, align) matches Ok(order)
                    &&& !self.allocated.dom().contains(addr)
                    &&& self.allocate(size, align).0.allocated == self.allocated.insert(
                        addr,
                        order,
                    )
                },
                Err(_) => self.allocate(size, align).0 == self,
            },
    {
        self.lemma_order_for(size, align);
        if let Ok(order_needed) = self.order_for(size, align) {
            self.lemma_first_fit(order_needed);
            if let Some(order) = self.first_fit(order_needed) {
                let addr = self.free_lists[order as int].last();
                let popped = self.pop_free(order);
                let cut = popped.split(addr, order, order_needed);
                self.lemma_take_head(order);
                popped.lemma_split_wf(addr, order, order_needed);
                popped.lemma_split_frame(addr, order, order_needed);
                cut.lemma_claim(order_needed, addr);
            }
        }
    }

    /// The return of a block that is handed out leaves a well-formed heap
    /// of the same numbers, in which that block is no longer handed out.
    pub proof fn lemma_deallocate_wf(self, addr: usize, order: nat)
        requires
            self.wf(),
            self.is_allocated(order, addr),
        ensures
            self.deallocate(addr, order).wf(),
            self.same_geometry(self.deallocate(addr, order)),
            self.deallocate(addr, order).allocated == self.allocated.remove(addr),
    {
        self.lemma_unclaim(order, addr);
        self.unclaim(addr).lemma_release_wf(addr, order);
        self.unclaim(addr).lemma_release_frame(addr, order);
    }
}

} // verus!
