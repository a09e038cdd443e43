//! What pushing, popping and unlinking do to the set of free blocks.

use crate::model::{unlink, HeapModel};
use vstd::prelude::*;

verus! {

/// Unlinking takes out the occurrence of `addr` at index `i` where no later
/// one exists.
pub proof fn lemma_unlink_is_remove(list: Seq<usize>, addr: usize, i: int)
    requires
        0 <= i < list.len(),
        list[i] == addr,
        forall|j: int| i < j < list.len() ==> list[j] != addr,
    ensures
        unlink(list, addr) == list.remove(i),
    decreases list.len(),
{
    if list.last() == addr {
        assert(list.remove(i) =~= list.drop_last());
    } else {
        lemma_unlink_is_remove(list.drop_last(), addr, i);
        assert(list.remove(i) =~= list.drop_last().remove(i).push(list.last()));
    }
}

/// Unlinking changes nothing in a list that does not hold `addr`.
pub proof fn lemma_unlink_absent(list: Seq<usize>, addr: usize)
    requires
        !list.contains(addr),
    ensures
        unlink(list, addr) == list,
    decreases list.len(),
{
    if list.len() > 0 {
        assert(list[list.len() - 1] == list.last());
        assert forall|j: int| 0 <= j < list.drop_last().len() implies list.drop_last()[j]
            != addr by {
            assert(list[j] == list.drop_last()[j]);
        }
        lemma_unlink_absent(list.drop_last(), addr);
        assert(list.drop_last().push(list.last()) =~= list);
    }
}

/// In a list without repetitions, unlinking `addr` leaves exactly the other
/// elements, still without repetitions.
pub proof fn lemma_unlink_contains(list: Seq<usize>, addr: usize)
    requires
        list.no_duplicates(),
    ensures
        unlink(list, addr).no_duplicates(),
        forall|a: usize| #[trigger]
            unlink(list, addr).contains(a) <==> list.contains(a) && a != addr,
    decreases list.len(),
{
    let out = unlink(list, addr);
    if list.len() == 0 {
    } else {
        let front = list.drop_last();
        let last = list.last();
        assert(front.no_duplicates());
        assert forall|a: usize| #[trigger] front.contains(a) <==> list.contains(a) && a != last by {
            if front.contains(a) {
                let j = choose|j: int| 0 <= j < front.len() && front[j] == a;
                assert(list[j] == a);
            }
            if list.contains(a) && a != last {
                let j = choose|j: int| 0 <= j < list.len() && list[j] == a;
                assert(front[j] == a);
            }
        }
        if last == addr {
        } else {
            lemma_unlink_contains(front, addr);
            let inner = unlink(front, addr);
            assert forall|a: usize| #[trigger] out.contains(a) <==> list.contains(a) && a
                != addr by {
                if out.contains(a) {
                    let j = choose|j: int| 0 <= j < out.len() && out[j] == a;
                    if j < inner.len() {
                        assert(inner[j] == a);
                        assert(inner.contains(a));
                    }
                }
                if list.contains(a) && a != addr {
                    if a == last {
                        assert(out[out.len() - 1] == a);
                    } else {
                        assert(inner.contains(a));
                        let j = choose|j: int| 0 <= j < inner.len() && inner[j] == a;
                        assert(out[j] == a);
                    }
                }
            }
            assert forall|i: int, j: int|
                0 <= i < out.len() && 0 <= j < out.len() && i != j implies out[i] != out[j] by {
                if i == inner.len() {
                    assert(inner[j] == out[j]);
                    assert(inner.contains(out[j]));
                } else if j == inner.len() {
                    assert(inner[i] == out[i]);
                    assert(inner.contains(out[i]));
                }
            }
        }
    }
}

impl HeapModel {
    /// Pushing `addr` adds it to the free blocks of `order` and changes
    /// nothing else.
    pub proof fn lemma_push_free(self, order: nat, addr: usize)
        requires
            order < self.orders(),
        ensures
            self.same_frame(self.push_free(order, addr)),
            forall|o: nat, a: usize|
                #![trigger self.push_free(order, addr).is_free(o, a)]
                #![trigger self.is_free(o, a)]
                self.push_free(order, addr).is_free(o, a) <==> self.is_free(o, a) || (o == order
                    && a == addr),
            forall|o: nat|
                o < self.orders() && o != order ==> (#[trigger] self.push_free(
                    order,
                    addr,
                ).free_lists[o as int]) == self.free_lists[o as int],
            self.free_lists[order as int].no_duplicates() && !self.is_free(order, addr)
                ==> self.push_free(order, addr).free_lists[order as int].no_duplicates(),
    {
        let next = self.push_free(order, addr);
        let old_list = self.free_lists[order as int];
        let new_list = next.free_lists[order as int];
        assert forall|o: nat, a: usize| next.is_free(o, a) <==> self.is_free(o, a) || (o == order
            && a == addr) by {
            if o < self.orders() && o == order {
                if new_list.contains(a) {
                    let j = choose|j: int| 0 <= j < new_list.len() && new_list[j] == a;
                    if j < old_list.len() {
                        assert(old_list[j] == a);
                    }
                }
                if old_list.contains(a) {
                    let j = choose|j: int| 0 <= j < old_list.len() && old_list[j] == a;
                    assert(new_list[j] == a);
                }
                if a == addr {
                    assert(new_list[old_list.len() as int] == a);
                }
            }
        }
        if old_list.no_duplicates() && !self.is_free(order, addr) {
            assert forall|i: int, j: int|
                0 <= i < new_list.len() && 0 <= j < new_list.len() && i != j implies new_list[i]
                != new_list[j] by {
                if i == old_list.len() {
                    assert(old_list[j] == new_list[j]);
                } else if j == old_list.len() {
                    assert(old_list[i] == new_list[i]);
                }
            }
        }
    }

    /// Popping takes the head of the list of `order` out of the free blocks
    /// and changes nothing else.
    pub proof fn lemma_pop_free(self, order: nat)
        requires
            order < self.orders(),
            self.free_lists[order as int].len() > 0,
            self.free_lists[order as int].no_duplicates(),
        ensures
            self.same_frame(self.pop_free(order)),
            forall|o: nat, a: usize|
                #![trigger self.pop_free(order).is_free(o, a)]
                #![trigger self.is_free(o, a)]
                self.pop_free(order).is_free(o, a) <==> self.is_free(o, a) && !(o == order && a
                    == self.free_lists[order as int].last()),
            forall|o: nat|
                o < self.orders() && o != order ==> (#[trigger] self.pop_free(
                    order,
                ).free_lists[o as int]) == self.free_lists[o as int],
            self.pop_free(order).free_lists[order as int].no_duplicates(),
    {
        let next = self.pop_free(order);
        let old_list = self.free_lists[order as int];
        let new_list = next.free_lists[order as int];
        let last = old_list.last();
        assert forall|o: nat, a: usize| next.is_free(o, a) <==> self.is_free(o, a) && !(o == order
            && a == last) by {
            if o < self.orders() && o == order {
                if new_list.contains(a) {
                    let j = choose|j: int| 0 <= j < new_list.len() && new_list[j] == a;
                    assert(old_list[j] == a);
                }
                if old_list.contains(a) && a != last {
                    let j = choose|j: int| 0 <= j < old_list.len() && old_list[j] == a;
                    assert(new_list[j] == a);
                }
            }
        }
    }

    /// Unlinking takes `addr` out of the free blocks of `order` and changes
    /// nothing else.
    pub proof fn lemma_remove_free(self, order: nat, addr: usize)
        requires
            order < self.orders(),
            self.free_lists[order as int].no_duplicates(),
        ensures
            self.same_frame(self.remove_free(order, addr)),
            forall|o: nat, a: usize|
                #![trigger self.remove_free(order, addr).is_free(o, a)]
                #![trigger self.is_free(o, a)]
                self.remove_free(order, addr).is_free(o, a) <==> self.is_free(o, a) && !(o
                    == order && a == addr),
            forall|o: nat|
                o < self.orders() && o != order ==> (#[trigger] self.remove_free(
                    order,
                    addr,
                ).free_lists[o as int]) == self.free_lists[o as int],
            self.remove_free(order, addr).free_lists[order as int].no_duplicates(),
    {
        lemma_unlink_contains(self.free_lists[order as int], addr);
    }

    /// Cutting a block down changes the free lists only.
    pub proof fn lemma_split_frame(self, addr: usize, order: nat, order_needed: nat)
        requires
            order < self.orders(),
        ensures
            self.same_frame(self.split(addr, order, order_needed)),
        decreases order,
    {
        if order > order_needed {
            let lower = (order - 1) as nat;
            self.push_free(lower, (addr + self.order_size(lower)) as usize).lemma_split_frame(
                addr,
                lower,
                order_needed,
            );
        }
    }

    /// Setting a block free changes the free lists only.
    pub proof fn lemma_release_frame(self, addr: usize, order: nat)
        requires
            order < self.orders(),
        ensures
            self.same_frame(self.release(addr, order)),
        decreases self.orders() - order,
    {
        let buddy = self.buddy(order, addr);
        if order + 1 < self.orders() && buddy is Some && self.is_free(order, buddy.unwrap()) {
            let merged = if buddy.unwrap() < addr {
                buddy.unwrap()
            } else {
                addr
            };
            self.remove_free(order, buddy.unwrap()).lemma_release_frame(merged, order + 1);
        }
    }

    /// The first fit from `from` up is an order from `from` up whose free
    /// list is not empty while those from `from` up to it are, and there is
    /// none where every free list from `from` up is empty.
    pub proof fn lemma_first_fit(self, from: nat)
        ensures
            match self.first_fit(from) {
                Some(order) => {
                    &&& from <= order < self.orders()
                    &&& self.free_lists[order as int].len() > 0
                    &&& forall|o: nat|
                        from <= o < order ==> (#[trigger] self.free_lists[o as int]).len() == 0
                },
                None => forall|o: nat|
                    from <= o < self.orders() ==> (#[trigger] self.free_lists[o as int]).len()
                        == 0,
            },
        decreases self.orders() - from,
    {
        if from < self.orders() && self.free_lists[from as int].len() == 0 {
            self.lemma_first_fit(from + 1);
        }
    }
}

} // verus!
