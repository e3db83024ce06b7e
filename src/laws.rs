//! Properties that hold across the arena's operations, proved from their
//! contracts alone.

use vstd::prelude::*;

use crate::quick_array::{ascending, QuickArray};

verus! {

/// An arena never holds more values than it has slots, and when every slot
/// is occupied the free list is empty, so that each insertion reports
/// `ArrayIsFull` and changes nothing.
pub proof fn lemma_capacity_bound<T: Copy + Default>(a: QuickArray<T>)
    requires
        a.wf(),
    ensures
        a.order().len() <= a.capacity(),
        a.order().len() == a.capacity() <==> a.free_order().len() == 0,
{
    a.lemma_wf_view();
}

/// Appending at the tail keeps the values already in the list, in their
/// order, and puts the new value last.
pub proof fn lemma_push_back_keeps_order<T: Copy + Default>(
    a: QuickArray<T>,
    b: QuickArray<T>,
    f: u32,
    d: T,
)
    requires
        a.inserted_at(b, a.order().len() as int, f, d),
    ensures
        b.values() == a.values().push(d),
        b.order() == a.order().push(f),
{
    assert(a.values().insert(a.values().len() as int, d) =~= a.values().push(d));
    assert(a.order().insert(a.order().len() as int, f) =~= a.order().push(f));
}

/// Putting a value at the head keeps the values already in the list, in
/// their order, behind the new one.
pub proof fn lemma_push_front_reverses<T: Copy + Default>(
    a: QuickArray<T>,
    b: QuickArray<T>,
    f: u32,
    d: T,
)
    requires
        a.inserted_at(b, 0, f, d),
    ensures
        b.values() == seq![d] + a.values(),
        b.order() == seq![f] + a.order(),
{
    assert(a.values().insert(0, d) =~= seq![d] + a.values());
    assert(a.order().insert(0, f) =~= seq![f] + a.order());
}

/// Removing the element at position `p` leaves the others in their order and
/// shortens the list by exactly one.
pub proof fn lemma_remove_keeps_rest<T: Copy + Default>(
    a: QuickArray<T>,
    b: QuickArray<T>,
    p: int,
)
    requires
        a.wf(),
        a.removed_at(b, p),
    ensures
        b.order().len() == a.order().len() - 1,
        b.values() == a.values().subrange(0, p) + a.values().subrange(
            p + 1,
            a.values().len() as int,
        ),
        !b.order().contains(a.order()[p]),
{
    a.order().remove_ensures(p);
    a.values().remove_ensures(p);
    assert(b.values() =~= a.values().subrange(0, p) + a.values().subrange(
        p + 1,
        a.values().len() as int,
    ));
    a.lemma_wf_view();
    if b.order().contains(a.order()[p]) {
        let j = choose|j: int| 0 <= j < b.order().len() && b.order()[j] == a.order()[p];
        if j < p {
            assert(a.order()[j] == a.order()[p]);
        } else {
            assert(a.order()[j + 1] == a.order()[p]);
        }
    }
}

/// Clearing leaves an empty list, and clearing a second time changes nothing
/// that the first did not.
pub proof fn lemma_clear_idempotent<T: Copy + Default>(
    a: QuickArray<T>,
    b: QuickArray<T>,
    c: QuickArray<T>,
)
    requires
        a.cleared(b),
        b.cleared(c),
    ensures
        b.order().len() == 0,
        b.values().len() == 0,
        c.capacity() == b.capacity(),
        c.order() == b.order(),
        c.free_order() == b.free_order(),
        c.slot_values() == b.slot_values(),
        c.values() == b.values(),
        b.free_order() == ascending(0, a.capacity() as int),
{
    assert(c.values() =~= b.values());
}

} // verus!
