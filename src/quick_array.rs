use vstd::prelude::*;

verus! {

/// The index that stands for "no slot": every real index is below it, and the
/// capacity of an arena always stays under it.
pub const INVALID_INDEX: u32 = 1994090994;

/// The errors that the arena's operations report.
#[derive(Debug, Clone, Copy, PartialEq, Eq, Structural)]
pub enum ErrDefine {
    /// The index is out of range, or its slot holds no value.
    InvalidIndex,
    /// No free slot is left.
    ArrayIsFull,
    /// The list holds no value.
    ArrayIsEmpty,
    /// A requested capacity is not larger than the current one, or too large.
    ArraySizeError,
}

/// One slot of the arena.
#[derive(Clone, Copy)]
struct QuickElement<T> {
    data: T,
    pre: u32,
    next: u32,
    cur: u32,
    valid: bool,
}

/// A slot arena whose occupied slots form an ordered doubly linked list and
/// whose free slots form a stack of reusable indices.
pub struct QuickArray<T> {
    max_size: u32,
    free_head: u32,
    valid_head: u32,
    valid_tail: u32,
    valid_count: u32,
    internal_vec: Vec<QuickElement<T>>,
    /// The occupied slots, from head to tail.
    order: Ghost<Seq<u32>>,
    /// The free slots, in the order in which they will be handed out.
    free: Ghost<Seq<u32>>,
}

/// The first index of `s`, or `INVALID_INDEX` for an empty sequence.
pub open spec fn first_or_invalid(s: Seq<u32>) -> u32 {
    if s.len() == 0 {
        INVALID_INDEX
    } else {
        s[0]
    }
}

/// The last index of `s`, or `INVALID_INDEX` for an empty sequence.
pub open spec fn last_or_invalid(s: Seq<u32>) -> u32 {
    if s.len() == 0 {
        INVALID_INDEX
    } else {
        s.last()
    }
}

/// The index that follows position `k` in `s`, or `INVALID_INDEX` at the end.
pub open spec fn link_after(s: Seq<u32>, k: int) -> u32 {
    if k + 1 < s.len() {
        s[k + 1]
    } else {
        INVALID_INDEX
    }
}

/// The index that precedes position `k` in `s`, or `INVALID_INDEX` at the start.
pub open spec fn link_before(s: Seq<u32>, k: int) -> u32 {
    if k > 0 {
        s[k - 1]
    } else {
        INVALID_INDEX
    }
}

/// The indices `lo, lo + 1, ..., hi - 1`.
pub open spec fn ascending(lo: int, hi: int) -> Seq<u32> {
    Seq::new((hi - lo) as nat, |j: int| (lo + j) as u32)
}

/// Every index in `s` is below `n`.
pub open spec fn all_below(s: Seq<u32>, n: int) -> bool {
    forall|k: int| 0 <= k < s.len() ==> #[trigger] s[k] < n
}

impl<T: Copy + Default> QuickArray<T> {
    /// The number of slots.
    pub closed spec fn capacity(&self) -> nat {
        self.max_size as nat
    }

    /// The indices of the occupied slots, from head to tail.
    pub closed spec fn order(&self) -> Seq<u32> {
        self.order@
    }

    /// The indices of the free slots; the first is the next to be handed out.
    pub closed spec fn free_order(&self) -> Seq<u32> {
        self.free@
    }

    /// The value stored in each slot, by index (meaningful for occupied slots).
    pub closed spec fn slot_values(&self) -> Seq<T> {
        self.internal_vec@.map_values(|e: QuickElement<T>| e.data)
    }

    /// The values of the list, from head to tail.
    pub open spec fn values(&self) -> Seq<T> {
        self.order().map_values(|i: u32| self.slot_values()[i as int])
    }

    /// The links of the occupied slots follow `order`, and those of the free
    /// slots follow `free`.
    closed spec fn links_follow_lists(&self) -> bool {
        let v = self.internal_vec@;
        let o = self.order@;
        let fr = self.free@;
        &&& forall|k: int|
            0 <= k < o.len() ==> {
                let e = #[trigger] v[o[k] as int];
                &&& e.valid
                &&& e.pre == link_before(o, k)
                &&& e.next == link_after(o, k)
            }
        &&& forall|k: int|
            0 <= k < fr.len() ==> {
                let e = #[trigger] v[fr[k] as int];
                &&& !e.valid
                &&& e.next == link_after(fr, k)
            }
    }

    /// Every slot knows its own index, and lies in the list that its flag names.
    closed spec fn slots_placed(&self) -> bool {
        let v = self.internal_vec@;
        forall|i: int|
            0 <= i < v.len() ==> {
                &&& (#[trigger] v[i]).cur == i
                &&& v[i].valid ==> self.order@.contains(i as u32)
                &&& !v[i].valid ==> self.free@.contains(i as u32)
            }
    }

    /// The arena's invariant.
    pub closed spec fn wf(&self) -> bool {
        let o = self.order@;
        let fr = self.free@;
        &&& 1 <= self.max_size < INVALID_INDEX
        &&& self.internal_vec@.len() == self.max_size
        &&& o.len() + fr.len() == self.max_size
        &&& self.valid_count == o.len()
        &&& self.valid_head == first_or_invalid(o)
        &&& self.valid_tail == last_or_invalid(o)
        &&& self.free_head == first_or_invalid(fr)
        &&& o.no_duplicates()
        &&& fr.no_duplicates()
        &&& all_below(o, self.max_size as int)
        &&& all_below(fr, self.max_size as int)
        &&& self.links_follow_lists()
        &&& self.slots_placed()
    }

    /// What the invariant says in terms of the public views: every slot is
    /// either occupied or free, never both, and the count stays in bounds.
    pub proof fn lemma_wf_view(&self)
        requires
            self.wf(),
        ensures
            1 <= self.capacity() < INVALID_INDEX,
            self.order().len() + self.free_order().len() == self.capacity(),
            self.order().len() <= self.capacity(),
            self.slot_values().len() == self.capacity(),
            self.order().no_duplicates(),
            self.free_order().no_duplicates(),
            all_below(self.order(), self.capacity() as int),
            all_below(self.free_order(), self.capacity() as int),
            forall|i: u32|
                i < self.capacity() ==> (self.order().contains(i) <==> !self.free_order().contains(
                    i,
                )),
    {
        assert forall|i: u32| i < self.capacity() implies (self.order().contains(i)
            <==> !self.free_order().contains(i)) by {
            if self.order@.contains(i) {
                let k = choose|k: int| 0 <= k < self.order@.len() && self.order@[k] == i;
                assert(self.internal_vec@[self.order@[k] as int].valid);
                if self.free@.contains(i) {
                    let j = choose|j: int| 0 <= j < self.free@.len() && self.free@[j] == i;
                    assert(!self.internal_vec@[self.free@[j] as int].valid);
                }
            } else {
                assert(self.internal_vec@[i as int].cur == i);
            }
        }
    }

    /// Threads every slot, in ascending order, into the free list and empties
    /// the list of occupied slots. The stored values stay as they are.
    fn init(&mut self)
        requires
            old(self).internal_vec@.len() == old(self).max_size,
            1 <= old(self).max_size < INVALID_INDEX,
            old(self).free_head == 0,
            old(self).valid_head == INVALID_INDEX,
            old(self).valid_tail == INVALID_INDEX,
            old(self).valid_count == 0,
        ensures
            final(self).wf(),
            final(self).max_size == old(self).max_size,
            final(self).order() == Seq::<u32>::empty(),
            final(self).free_order() == ascending(0, old(self).max_size as int),
            final(self).slot_values() == old(self).slot_values(),
    {
        let n = self.max_size;
        let ghost old_vec = self.internal_vec@;
        let mut i: u32 = 0;
        while i < n
            invariant
                n == self.max_size,
                1 <= n < INVALID_INDEX,
                self.free_head == 0,
                self.valid_head == INVALID_INDEX,
                self.valid_tail == INVALID_INDEX,
                self.valid_count == 0,
                i <= n,
                self.internal_vec@.len() == n,
                old_vec.len() == n,
                forall|j: int|
                    0 <= j < n ==> (#[trigger] self.internal_vec@[j]).data == old_vec[j].data,
                forall|j: int|
                    0 <= j < i ==> {
                        let e = #[trigger] self.internal_vec@[j];
                        &&& e.cur == j
                        &&& !e.valid
                        &&& e.next == link_after(ascending(0, n as int), j)
                    },
            decreases n - i,
        {
            let mut e = self.internal_vec[i as usize];
            e.pre = if i == 0 {
                INVALID_INDEX
            } else {
                i - 1
            };
            e.next = if i + 1 < n {
                i + 1
            } else {
                INVALID_INDEX
            };
            e.cur = i;
            e.valid = false;
            self.internal_vec.set(i as usize, e);
            i = i + 1;
        }
        self.order = Ghost(Seq::empty());
        self.free = Ghost(ascending(0, n as int));
        proof {
            let fr = self.free@;
            assert(fr.no_duplicates());
            assert forall|j: int| 0 <= j < n implies (#[trigger] self.internal_vec@[j]).cur == j
                && !self.internal_vec@[j].valid && fr.contains(j as u32) by {
                assert(fr[j] == j as u32);
            }
            assert forall|k: int| 0 <= k < fr.len() implies {
                let e = #[trigger] self.internal_vec@[fr[k] as int];
                &&& !e.valid
                &&& e.next == link_after(fr, k)
            } by {
                assert(fr[k] == k as u32);
                assert(self.internal_vec@[k].next == link_after(fr, k));
            }
            assert(self.links_follow_lists());
            assert(self.slots_placed());

            assert(self.slot_values() =~= old(self).slot_values());
        }
    }

    /// Creates an arena of `max_size` slots (at least one), all of them free.
    pub fn new(max_size: u32) -> (r: Self)
        requires
            max_size < INVALID_INDEX,
        ensures
            r.wf(),
            r.capacity() == if max_size < 1 {
                1
            } else {
                max_size
            },
            r.order() == Seq::<u32>::empty(),
            r.free_order() == ascending(0, r.capacity() as int),
    {
        let size: u32 = if max_size < 1 {
            1
        } else {
            max_size
        };
        let mut internal_vec: Vec<QuickElement<T>> = Vec::with_capacity(size as usize);
        let mut i: u32 = 0;
        while i < size
            invariant
                i <= size,
                internal_vec@.len() == i,
            decreases size - i,
        {
            internal_vec.push(
                QuickElement {
                    data: T::default(),
                    pre: INVALID_INDEX,
                    next: INVALID_INDEX,
                    cur: i,
                    valid: false,
                },
            );
            i = i + 1;
        }
        let mut new_array = QuickArray {
            max_size: size,
            free_head: 0,
            valid_head: INVALID_INDEX,
            valid_tail: INVALID_INDEX,
            valid_count: 0,
            internal_vec,
            order: Ghost(Seq::empty()),
            free: Ghost(Seq::empty()),
        };
        new_array.init();
        new_array
    }

    /// Returns every slot to the free list, in ascending order.
    pub fn clear(&mut self)
        requires
            old(self).wf(),
        ensures
            final(self).wf(),
            old(self).cleared(*final(self)),
    {
        self.free_head = 0;
        self.valid_head = INVALID_INDEX;
        self.valid_tail = INVALID_INDEX;
        self.valid_count = 0;
        self.init();
    }

    /// `after` is `self` with every slot free, in ascending order, and the
    /// stored values left as they were.
    pub open spec fn cleared(self, after: Self) -> bool {
        &&& after.capacity() == self.capacity()
        &&& after.order() == Seq::<u32>::empty()
        &&& after.free_order() == ascending(0, self.capacity() as int)
        &&& after.slot_values() == self.slot_values()
    }

    /// `after` is `self` with the value `d` placed in `f`, the first free
    /// slot, which now stands at position `p` of the list.
    pub open spec fn inserted_at(self, after: Self, p: int, f: u32, d: T) -> bool {
        &&& 0 <= p <= self.order().len()
        &&& self.free_order().len() > 0
        &&& f == self.free_order()[0]
        &&& after.capacity() == self.capacity()
        &&& after.order() == self.order().insert(p, f)
        &&& after.free_order() == self.free_order().drop_first()
        &&& after.slot_values() == self.slot_values().update(f as int, d)
        &&& after.values() == self.values().insert(p, d)
    }

    /// `after` is `self` with the slot at position `p` of the list taken out
    /// and pushed on the front of the free list.
    pub open spec fn removed_at(self, after: Self, p: int) -> bool {
        &&& 0 <= p < self.order().len()
        &&& after.capacity() == self.capacity()
        &&& after.order() == self.order().remove(p)
        &&& after.free_order() == seq![self.order()[p]] + self.free_order()
        &&& after.slot_values() == self.slot_values()
        &&& after.values() == self.values().remove(p)
    }

    /// The list's values follow its order and the values of the slots.
    proof fn lemma_values_insert(a: &Self, b: &Self, p: int, f: u32, d: T)
        requires
            a.wf(),
            0 <= p <= a.order().len(),
            (f as int) < a.slot_values().len(),
            !a.order().contains(f),
            b.order() == a.order().insert(p, f),
            b.slot_values() == a.slot_values().update(f as int, d),
        ensures
            b.values() == a.values().insert(p, d),
    {
        let o = a.order();
        o.insert_ensures(p, f);
        a.values().insert_ensures(p, d);
        assert forall|k: int| 0 <= k < o.len() implies o[k] != f by {
            assert(o.contains(o[k]));
        }
        assert(b.values() =~= a.values().insert(p, d));
    }

    /// Splicing `f`, the first free slot, in at position `p` of the list, with
    /// its neighbours relinked and every other slot untouched, keeps the
    /// invariant.
    proof fn lemma_splice_in(a: &Self, b: &Self, p: int)
        requires
            a.wf(),
            a.free@.len() > 0,
            0 <= p <= a.order@.len(),
            b.max_size == a.max_size,
            b.order@ == a.order@.insert(p, a.free@[0]),
            b.free@ == a.free@.drop_first(),
            b.valid_count == a.valid_count + 1,
            b.valid_head == first_or_invalid(b.order@),
            b.valid_tail == last_or_invalid(b.order@),
            b.free_head == first_or_invalid(b.free@),
            b.internal_vec@.len() == a.internal_vec@.len(),
            forall|j: int|
                p - 1 <= j <= p + 1 && 0 <= j < b.order@.len() ==> {
                    let e = #[trigger] b.internal_vec@[b.order@[j] as int];
                    &&& e.valid
                    &&& e.cur == b.order@[j]
                    &&& e.pre == link_before(b.order@, j)
                    &&& e.next == link_after(b.order@, j)
                },
            forall|x: int|
                0 <= x < a.max_size && x != a.free@[0] && x != link_before(b.order@, p) && x
                    != link_after(b.order@, p) ==> #[trigger] b.internal_vec@[x]
                    == a.internal_vec@[x],
        ensures
            b.wf(),
    {
        let o = a.order@;
        let fr = a.free@;
        let f = fr[0];
        let o2 = b.order@;
        let fr2 = b.free@;
        let v = a.internal_vec@;
        let v2 = b.internal_vec@;
        o.insert_ensures(p, f);
        assert(!v[fr[0] as int].valid);
        assert forall|k: int| 0 <= k < o.len() implies o[k] != f by {
            assert(v[o[k] as int].valid);
        }
        assert forall|i: int| 0 <= i < o2.len() implies #[trigger] o2[i] == (if i < p {
            o[i]
        } else if i == p {
            f
        } else {
            o[i - 1]
        }) by {}
        assert forall|k: int| 0 <= k < fr2.len() implies #[trigger] fr2[k] == fr[k + 1] by {}
        assert(o2.no_duplicates()) by {
            assert forall|i: int, j: int|
                0 <= i < o2.len() && 0 <= j < o2.len() && i != j implies o2[i] != o2[j] by {
                assert(o2[i] == (if i < p {
                    o[i]
                } else if i == p {
                    f
                } else {
                    o[i - 1]
                }));
                assert(o2[j] == (if j < p {
                    o[j]
                } else if j == p {
                    f
                } else {
                    o[j - 1]
                }));
            }
        }
        assert(fr2.no_duplicates());
        assert(all_below(o2, b.max_size as int)) by {
            assert forall|k: int| 0 <= k < o2.len() implies #[trigger] o2[k] < b.max_size by {
                assert(o2[k] == (if k < p {
                    o[k]
                } else if k == p {
                    f
                } else {
                    o[k - 1]
                }));
            }
        }
        assert(all_below(fr2, b.max_size as int)) by {
            assert forall|k: int| 0 <= k < fr2.len() implies #[trigger] fr2[k] < b.max_size by {
                assert(fr2[k] == fr[k + 1]);
            }
        }
        // the slots of the list that the splice left alone
        assert forall|j: int| 0 <= j < o2.len() implies {
            let e = #[trigger] v2[o2[j] as int];
            &&& e.valid
            &&& e.pre == link_before(o2, j)
            &&& e.next == link_after(o2, j)
        } by {
            if j < p - 1 {
                assert(v[o[j] as int].valid);
                assert(o[j] != o[p - 1]);
                assert(p < o.len() ==> o[j] != o[p]);
                assert(v2[o[j] as int] == v[o[j] as int]);
            } else if j > p + 1 {
                assert(v[o[j - 1] as int].valid);
                assert(o[j - 1] != o[p]);
                assert(p > 0 ==> o[j - 1] != o[p - 1]);
                assert(v2[o[j - 1] as int] == v[o[j - 1] as int]);
            }
        }
        assert forall|k: int| 0 <= k < fr2.len() implies {
            let e = #[trigger] v2[fr2[k] as int];
            &&& !e.valid
            &&& e.next == link_after(fr2, k)
        } by {
            let x = fr[k + 1];
            assert(!v[fr[k + 1] as int].valid);
            assert(p > 0 ==> v[o[p - 1] as int].valid);
            assert(p < o.len() ==> v[o[p] as int].valid);
            assert(v2[x as int] == v[x as int]);
        }
        assert(b.links_follow_lists());
        assert forall|i: int| 0 <= i < v2.len() implies {
            &&& (#[trigger] v2[i]).cur == i
            &&& v2[i].valid ==> o2.contains(i as u32)
            &&& !v2[i].valid ==> fr2.contains(i as u32)
        } by {
            if i == f {
                assert(o2[p] == f);
            } else if i == link_before(o2, p) {
                assert(o2[p - 1] == i);
            } else if i == link_after(o2, p) {
                assert(o2[p + 1] == i);
            } else {
                assert(v2[i] == v[i]);
                if v[i].valid {
                    let k = choose|k: int| 0 <= k < o.len() && o[k] == i as u32;
                    if k < p {
                        assert(o2[k] == i as u32);
                    } else {
                        assert(o2[k + 1] == i as u32);
                    }
                } else {
                    let k = choose|k: int| 0 <= k < fr.len() && fr[k] == i as u32;
                    assert(k > 0);
                    assert(fr2[k - 1] == i as u32);
                }
            }
        }
        assert(b.slots_placed());
    }

    /// Takes the first free slot out of the free list, marks it occupied and
    /// unlinked, and counts it; `INVALID_INDEX` when no slot is free. The
    /// caller links the slot into the list.
    ///
    /// The free list is only ever walked forward, through `next`, so free
    /// slots keep no backward link.
    fn consume_ele(&mut self) -> (r: u32)
        requires
            old(self).wf(),
        ensures
            old(self).free@.len() == 0 ==> r == INVALID_INDEX && *final(self) == *old(self),
            old(self).free@.len() > 0 ==> {
                &&& r == old(self).free@[0]
                &&& final(self).internal_vec@ == old(self).internal_vec@.update(
                    r as int,
                    QuickElement {
                        pre: INVALID_INDEX,
                        next: INVALID_INDEX,
                        valid: true,
                        ..old(self).internal_vec@[r as int]
                    },
                )
                &&& final(self).free@ == old(self).free@.drop_first()
                &&& final(self).free_head == first_or_invalid(final(self).free@)
                &&& final(self).valid_count == old(self).valid_count + 1
                &&& final(self).order@ == old(self).order@
                &&& final(self).max_size == old(self).max_size
                &&& final(self).valid_head == old(self).valid_head
                &&& final(self).valid_tail == old(self).valid_tail
            },
    {
        if self.free_head == INVALID_INDEX {
            INVALID_INDEX
        } else {
            let free_real_index = self.free_head;
            proof {
                assert(self.free@.len() > 0);
                assert(self.free@[0] < self.max_size);
            }
            let mut e = self.internal_vec[free_real_index as usize];
            self.free_head = e.next;
            e.pre = INVALID_INDEX;
            e.next = INVALID_INDEX;
            e.valid = true;
            self.internal_vec.set(free_real_index as usize, e);
            self.free = Ghost(self.free@.drop_first());
            self.valid_count = self.valid_count + 1;
            proof {
                assert(self.free_head == first_or_invalid(self.free@));
            }
            free_real_index
        }
    }

    /// Inserts `data` right after the occupied slot `index`, and returns the
    /// slot that now holds it.
    pub fn insert_after(&mut self, index: u32, data: &T) -> (r: Result<u32, ErrDefine>)
        requires
            old(self).wf(),
        ensures
            final(self).wf(),
            match r {
                Ok(f) => {
                    &&& old(self).order().contains(index)
                    &&& old(self).inserted_at(
                        *final(self),
                        old(self).order().index_of(index) + 1,
                        f,
                        *data,
                    )
                },
                Err(e) => {
                    &&& *final(self) == *old(self)
                    &&& e == if old(self).order().contains(index) {
                        ErrDefine::ArrayIsFull
                    } else {
                        ErrDefine::InvalidIndex
                    }
                    &&& old(self).order().contains(index) ==> old(self).free_order().len() == 0
                },
            },
    {
        let ghost a = *self;
        if index >= self.max_size {
            proof {
                if self.order@.contains(index) {
                    let k = choose|k: int| 0 <= k < self.order@.len() && self.order@[k] == index;
                    assert(self.order@[k] < self.max_size);
                }
            }
            return Err(ErrDefine::InvalidIndex);
        }
        let target = self.internal_vec[index as usize];
        if !target.valid {
            proof {
                if self.order@.contains(index) {
                    let k = choose|k: int| 0 <= k < self.order@.len() && self.order@[k] == index;
                    assert(self.internal_vec@[self.order@[k] as int].valid);
                }
            }
            return Err(ErrDefine::InvalidIndex);
        }
        let ghost k = self.order@.index_of(index);
        proof {
            assert(self.internal_vec@[index as int].cur == index);
            assert(self.order@[k] == index);
        }
        let free_index = self.consume_ele();
        if free_index == INVALID_INDEX {
            return Err(ErrDefine::ArrayIsFull);
        }
        let target_next = target.next;
        proof {
            assert(target.next == link_after(a.order@, k));
            if k + 1 < a.order@.len() {
                assert(a.order@[k + 1] < self.max_size);
                assert(a.order@[k + 1] != index);
            }
        }
        if self.valid_tail == index {
            self.valid_tail = free_index;
        } else {
            set_pre(&mut self.internal_vec, target_next, free_index);
        }
        set_links(&mut self.internal_vec, free_index, index, target_next);
        set_data(&mut self.internal_vec, free_index, *data);
        set_next(&mut self.internal_vec, index, free_index);
        self.order = Ghost(self.order@.insert(k + 1, free_index));
        proof {
            let o2 = self.order@;
            a.order@.insert_ensures(k + 1, free_index);
            assert(!a.internal_vec@[free_index as int].valid);
            assert(free_index != index);
            assert(k + 1 < a.order@.len() ==> free_index != a.order@[k + 1]);
            Self::lemma_splice_in(&a, self, k + 1);
            assert(self.slot_values() =~= a.slot_values().update(free_index as int, *data));
            Self::lemma_values_insert(&a, self, k + 1, free_index, *data);
        }
        Ok(free_index)
    }

    /// Inserts `data` right before the occupied slot `index`, and returns the
    /// slot that now holds it.
    pub fn insert_before(&mut self, index: u32, data: &T) -> (r: Result<u32, ErrDefine>)
        requires
            old(self).wf(),
        ensures
            final(self).wf(),
            match r {
                Ok(f) => {
                    &&& old(self).order().contains(index)
                    &&& old(self).inserted_at(
                        *final(self),
                        old(self).order().index_of(index),
                        f,
                        *data,
                    )
                },
                Err(e) => {
                    &&& *final(self) == *old(self)
                    &&& e == if old(self).order().contains(index) {
                        ErrDefine::ArrayIsFull
                    } else {
                        ErrDefine::InvalidIndex
                    }
                    &&& old(self).order().contains(index) ==> old(self).free_order().len() == 0
                },
            },
    {
        let ghost a = *self;
        if index >= self.max_size {
            proof {
                if self.order@.contains(index) {
                    let k = choose|k: int| 0 <= k < self.order@.len() && self.order@[k] == index;
                    assert(self.order@[k] < self.max_size);
                }
            }
            return Err(ErrDefine::InvalidIndex);
        }
        let target = self.internal_vec[index as usize];
        if !target.valid {
            proof {
                if self.order@.contains(index) {
                    let k = choose|k: int| 0 <= k < self.order@.len() && self.order@[k] == index;
                    assert(self.internal_vec@[self.order@[k] as int].valid);
                }
            }
            return Err(ErrDefine::InvalidIndex);
        }
        let ghost k = self.order@.index_of(index);
        proof {
            assert(self.internal_vec@[index as int].cur == index);
            assert(self.order@[k] == index);
        }
        let free_index = self.consume_ele();
        if free_index == INVALID_INDEX {
            return Err(ErrDefine::ArrayIsFull);
        }
        let target_pre = target.pre;
        proof {
            assert(target.pre == link_before(a.order@, k));
            if k > 0 {
                assert(a.order@[k - 1] < self.max_size);
                assert(a.order@[k - 1] != index);
            }
        }
        if self.valid_head == index {
            self.valid_head = free_index;
        } else {
            set_next(&mut self.internal_vec, target_pre, free_index);
        }
        set_links(&mut self.internal_vec, free_index, target_pre, index);
        set_data(&mut self.internal_vec, free_index, *data);
        set_pre(&mut self.internal_vec, index, free_index);
        self.order = Ghost(self.order@.insert(k, free_index));
        proof {
            a.order@.insert_ensures(k, free_index);
            assert(!a.internal_vec@[free_index as int].valid);
            assert(free_index != index);
            assert(k > 0 ==> free_index != a.order@[k - 1]);
            Self::lemma_splice_in(&a, self, k);
            assert(self.slot_values() =~= a.slot_values().update(free_index as int, *data));
            Self::lemma_values_insert(&a, self, k, free_index, *data);
        }
        Ok(free_index)
    }

    /// Appends `data` at the tail of the list, and returns the slot that now
    /// holds it.
    pub fn push_back(&mut self, data: &T) -> (r: Result<u32, ErrDefine>)
        requires
            old(self).wf(),
        ensures
            final(self).wf(),
            match r {
                Ok(f) => old(self).inserted_at(*final(self), old(self).order().len() as int, f, *data),
                Err(e) => {
                    &&& *final(self) == *old(self)
                    &&& e == ErrDefine::ArrayIsFull
                    &&& old(self).free_order().len() == 0
                },
            },
    {
        let ghost a = *self;
        if self.valid_tail == INVALID_INDEX {
            proof {
                if self.order@.len() > 0 {
                    assert(self.order@.last() < self.max_size);
                }
            }
            let free_index = self.consume_ele();
            if free_index == INVALID_INDEX {
                return Err(ErrDefine::ArrayIsFull);
            }
            set_data(&mut self.internal_vec, free_index, *data);
            self.valid_tail = free_index;
            self.valid_head = free_index;
            self.order = Ghost(self.order@.insert(0, free_index));
            proof {
                a.order@.insert_ensures(0, free_index);
                assert(!a.internal_vec@[free_index as int].valid);
                Self::lemma_splice_in(&a, self, 0);
                assert(self.slot_values() =~= a.slot_values().update(free_index as int, *data));
                Self::lemma_values_insert(&a, self, 0, free_index, *data);
            }
            Ok(free_index)
        } else {
            proof {
                let o = self.order@;
                assert(o.len() > 0);
                assert(o.contains(o.last()));
                let k = o.index_of(o.last());
                assert(o[k] == o[o.len() - 1]);
                assert(k == o.len() - 1);
            }
            self.insert_after(self.valid_tail, data)
        }
    }

    /// Puts `data` at the head of the list, and returns the slot that now
    /// holds it.
    pub fn push_front(&mut self, data: &T) -> (r: Result<u32, ErrDefine>)
        requires
            old(self).wf(),
        ensures
            final(self).wf(),
            match r {
                Ok(f) => old(self).inserted_at(*final(self), 0, f, *data),
                Err(e) => {
                    &&& *final(self) == *old(self)
                    &&& e == ErrDefine::ArrayIsFull
                    &&& old(self).free_order().len() == 0
                },
            },
    {
        let ghost a = *self;
        if self.valid_head == INVALID_INDEX {
            self.push_back(data)
        } else {
            let free_index = self.consume_ele();
            if free_index == INVALID_INDEX {
                return Err(ErrDefine::ArrayIsFull);
            }
            let head = self.valid_head;
            proof {
                assert(a.order@.len() > 0);
                assert(a.order@[0] < self.max_size);
                assert(!a.internal_vec@[free_index as int].valid);
                assert(a.internal_vec@[a.order@[0] as int].valid);
            }
            set_data(&mut self.internal_vec, free_index, *data);
            set_next(&mut self.internal_vec, free_index, head);
            set_pre(&mut self.internal_vec, head, free_index);
            self.valid_head = free_index;
            self.order = Ghost(self.order@.insert(0, free_index));
            proof {
                a.order@.insert_ensures(0, free_index);
                Self::lemma_splice_in(&a, self, 0);
                assert(self.slot_values() =~= a.slot_values().update(free_index as int, *data));
                Self::lemma_values_insert(&a, self, 0, free_index, *data);
            }
            Ok(free_index)
        }
    }

    /// The list's values follow its order and the values of the slots.
    proof fn lemma_values_remove(a: &Self, b: &Self, p: int)
        requires
            0 <= p < a.order().len(),
            b.order() == a.order().remove(p),
            b.slot_values() == a.slot_values(),
        ensures
            b.values() == a.values().remove(p),
    {
        a.order().remove_ensures(p);
        a.values().remove_ensures(p);
        assert(b.values() =~= a.values().remove(p));
    }

    /// Taking the slot at position `p` out of the list, relinking its
    /// neighbours, pushing it on the free list and leaving every other slot
    /// untouched keeps the invariant.
    proof fn lemma_splice_out(a: &Self, b: &Self, p: int)
        requires
            a.wf(),
            0 <= p < a.order@.len(),
            b.max_size == a.max_size,
            b.order@ == a.order@.remove(p),
            b.free@ == seq![a.order@[p]] + a.free@,
            b.valid_count == a.valid_count - 1,
            b.valid_head == first_or_invalid(b.order@),
            b.valid_tail == last_or_invalid(b.order@),
            b.free_head == first_or_invalid(b.free@),
            b.internal_vec@.len() == a.internal_vec@.len(),
            ({
                let e = b.internal_vec@[a.order@[p] as int];
                &&& !e.valid
                &&& e.cur == a.order@[p]
                &&& e.next == first_or_invalid(a.free@)
            }),
            forall|j: int|
                p - 1 <= j <= p && 0 <= j < b.order@.len() ==> {
                    let e = #[trigger] b.internal_vec@[b.order@[j] as int];
                    &&& e.valid
                    &&& e.cur == b.order@[j]
                    &&& e.pre == link_before(b.order@, j)
                    &&& e.next == link_after(b.order@, j)
                },
            forall|x: int|
                0 <= x < a.max_size && x != a.order@[p] && x != link_before(a.order@, p) && x
                    != link_after(a.order@, p) ==> #[trigger] b.internal_vec@[x]
                    == a.internal_vec@[x],
        ensures
            b.wf(),
    {
        let o = a.order@;
        let fr = a.free@;
        let x0 = o[p];
        let o2 = b.order@;
        let fr2 = b.free@;
        let v = a.internal_vec@;
        let v2 = b.internal_vec@;
        o.remove_ensures(p);
        assert(v[o[p] as int].valid);
        assert forall|k: int| 0 <= k < fr.len() implies fr[k] != x0 by {
            assert(!v[fr[k] as int].valid);
        }
        assert forall|i: int| 0 <= i < o2.len() implies #[trigger] o2[i] == (if i < p {
            o[i]
        } else {
            o[i + 1]
        }) by {}
        assert forall|k: int| 0 <= k < fr2.len() implies #[trigger] fr2[k] == (if k == 0 {
            x0
        } else {
            fr[k - 1]
        }) by {}
        assert(o2.no_duplicates()) by {
            assert forall|i: int, j: int|
                0 <= i < o2.len() && 0 <= j < o2.len() && i != j implies o2[i] != o2[j] by {
                assert(o2[i] == (if i < p {
                    o[i]
                } else {
                    o[i + 1]
                }));
                assert(o2[j] == (if j < p {
                    o[j]
                } else {
                    o[j + 1]
                }));
            }
        }
        assert(fr2.no_duplicates()) by {
            assert forall|i: int, j: int|
                0 <= i < fr2.len() && 0 <= j < fr2.len() && i != j implies fr2[i] != fr2[j] by {
                assert(fr2[i] == (if i == 0 {
                    x0
                } else {
                    fr[i - 1]
                }));
                assert(fr2[j] == (if j == 0 {
                    x0
                } else {
                    fr[j - 1]
                }));
            }
        }
        assert(all_below(o2, b.max_size as int)) by {
            assert forall|k: int| 0 <= k < o2.len() implies #[trigger] o2[k] < b.max_size by {
                assert(o2[k] == (if k < p {
                    o[k]
                } else {
                    o[k + 1]
                }));
            }
        }
        assert(all_below(fr2, b.max_size as int)) by {
            assert forall|k: int| 0 <= k < fr2.len() implies #[trigger] fr2[k] < b.max_size by {
                assert(fr2[k] == (if k == 0 {
                    x0
                } else {
                    fr[k - 1]
                }));
            }
        }
        assert forall|j: int| 0 <= j < o2.len() implies {
            let e = #[trigger] v2[o2[j] as int];
            &&& e.valid
            &&& e.pre == link_before(o2, j)
            &&& e.next == link_after(o2, j)
        } by {
            if j < p - 1 {
                assert(v[o[j] as int].valid);
                assert(o[j] != o[p - 1]);
                assert(o[j] != x0);
                assert(p + 1 < o.len() ==> o[j] != o[p + 1]);
                assert(v2[o[j] as int] == v[o[j] as int]);
            } else if j > p {
                assert(v[o[j + 1] as int].valid);
                assert(o[j + 1] != o[p + 1]);
                assert(o[j + 1] != x0);
                assert(p > 0 ==> o[j + 1] != o[p - 1]);
                assert(v2[o[j + 1] as int] == v[o[j + 1] as int]);
            }
        }
        assert forall|k: int| 0 <= k < fr2.len() implies {
            let e = #[trigger] v2[fr2[k] as int];
            &&& !e.valid
            &&& e.next == link_after(fr2, k)
        } by {
            if k > 0 {
                let x = fr[k - 1];
                assert(!v[fr[k - 1] as int].valid);
                assert(p > 0 ==> v[o[p - 1] as int].valid);
                assert(p + 1 < o.len() ==> v[o[p + 1] as int].valid);
                assert(v2[x as int] == v[x as int]);
            }
        }
        assert(b.links_follow_lists());
        assert forall|i: int| 0 <= i < v2.len() implies {
            &&& (#[trigger] v2[i]).cur == i
            &&& v2[i].valid ==> o2.contains(i as u32)
            &&& !v2[i].valid ==> fr2.contains(i as u32)
        } by {
            if i == x0 {
                assert(fr2[0] == x0);
            } else if i == link_before(o, p) {
                assert(o2[p - 1] == i);
            } else if i == link_after(o, p) {
                assert(o2[p] == i);
            } else {
                assert(v2[i] == v[i]);
                if v[i].valid {
                    let k = choose|k: int| 0 <= k < o.len() && o[k] == i as u32;
                    if k < p {
                        assert(o2[k] == i as u32);
                    } else {
                        assert(k != p);
                        assert(o2[k - 1] == i as u32);
                    }
                } else {
                    let k = choose|k: int| 0 <= k < fr.len() && fr[k] == i as u32;
                    assert(fr2[k + 1] == i as u32);
                }
            }
        }
        assert(b.slots_placed());
    }

    /// Unlinks the occupied slot `index` from the list, repairing its
    /// neighbours and the ends, and pushes it on the front of the free list.
    fn recycle_ele(&mut self, index: u32)
        requires
            old(self).wf(),
            old(self).order().contains(index),
        ensures
            final(self).wf(),
            old(self).removed_at(*final(self), old(self).order().index_of(index)),
    {
        let ghost a = *self;
        let ghost k = self.order@.index_of(index);
        proof {
            assert(self.order@[k] == index);
            assert(index < self.max_size);
            if k > 0 {
                assert(self.order@[k - 1] < self.max_size);
                assert(self.order@[k - 1] != index);
            }
            if k + 1 < self.order@.len() {
                assert(self.order@[k + 1] < self.max_size);
                assert(self.order@[k + 1] != index);
            }
            if self.free@.len() > 0 {
                assert(self.free@[0] < self.max_size);
            }
        }
        let target = self.internal_vec[index as usize];
        let target_pre = target.pre;
        let target_next = target.next;
        if target_pre != INVALID_INDEX {
            set_next(&mut self.internal_vec, target_pre, target_next);
        }
        if target_next != INVALID_INDEX {
            set_pre(&mut self.internal_vec, target_next, target_pre);
        }
        if self.valid_head == index {
            self.valid_head = target_next;
        }
        if self.valid_tail == index {
            self.valid_tail = target_pre;
        }
        let mut e = self.internal_vec[index as usize];
        e.pre = INVALID_INDEX;
        e.next = self.free_head;
        e.valid = false;
        self.internal_vec.set(index as usize, e);
        self.free_head = index;
        self.valid_count = self.valid_count - 1;
        self.order = Ghost(self.order@.remove(k));
        self.free = Ghost(seq![index] + self.free@);
        proof {
            a.order@.remove_ensures(k);
            Self::lemma_splice_out(&a, self, k);
            assert(self.slot_values() =~= a.slot_values());
            Self::lemma_values_remove(&a, self, k);
        }
    }

    /// Removes the occupied slot `index` from the list.
    pub fn remove_at(&mut self, index: u32) -> (r: Result<(), ErrDefine>)
        requires
            old(self).wf(),
        ensures
            final(self).wf(),
            match r {
                Ok(()) => {
                    &&& old(self).order().contains(index)
                    &&& old(self).removed_at(*final(self), old(self).order().index_of(index))
                },
                Err(e) => {
                    &&& *final(self) == *old(self)
                    &&& e == ErrDefine::InvalidIndex
                    &&& !old(self).order().contains(index)
                },
            },
    {
        if index >= self.max_size {
            proof {
                if self.order@.contains(index) {
                    let k = choose|k: int| 0 <= k < self.order@.len() && self.order@[k] == index;
                    assert(self.order@[k] < self.max_size);
                }
            }
            return Err(ErrDefine::InvalidIndex);
        }
        let target = self.internal_vec[index as usize];
        if target.valid {
            self.recycle_ele(index);
            Ok(())
        } else {
            proof {
                if self.order@.contains(index) {
                    let k = choose|k: int| 0 <= k < self.order@.len() && self.order@[k] == index;
                    assert(self.internal_vec@[self.order@[k] as int].valid);
                }
            }
            Err(ErrDefine::InvalidIndex)
        }
    }

    /// Removes the tail of the list.
    pub fn pop_last(&mut self) -> (r: Result<(), ErrDefine>)
        requires
            old(self).wf(),
        ensures
            final(self).wf(),
            match r {
                Ok(()) => {
                    &&& old(self).order().len() > 0
                    &&& old(self).removed_at(*final(self), old(self).order().len() - 1)
                },
                Err(e) => {
                    &&& *final(self) == *old(self)
                    &&& e == ErrDefine::ArrayIsEmpty
                    &&& old(self).order().len() == 0
                },
            },
    {
        if self.valid_tail == INVALID_INDEX {
            proof {
                if self.order@.len() > 0 {
                    assert(self.order@.last() < self.max_size);
                }
            }
            Err(ErrDefine::ArrayIsEmpty)
        } else {
            proof {
                let o = self.order@;
                assert(o.contains(o.last()));
                let k = o.index_of(o.last());
                assert(o[k] == o[o.len() - 1]);
                assert(k == o.len() - 1);
                assert(self.internal_vec@[o[o.len() - 1] as int].valid);
            }
            self.remove_at(self.valid_tail)
        }
    }

    /// Replaces the value held by the occupied slot `index`.
    pub fn update_at(&mut self, index: u32, data: &T) -> (r: Result<(), ErrDefine>)
        requires
            old(self).wf(),
        ensures
            final(self).wf(),
            match r {
                Ok(()) => {
                    &&& old(self).order().contains(index)
                    &&& final(self).capacity() == old(self).capacity()
                    &&& final(self).order() == old(self).order()
                    &&& final(self).free_order() == old(self).free_order()
                    &&& final(self).slot_values() == old(self).slot_values().update(
                        index as int,
                        *data,
                    )
                    &&& final(self).values() == old(self).values().update(
                        old(self).order().index_of(index),
                        *data,
                    )
                },
                Err(e) => {
                    &&& *final(self) == *old(self)
                    &&& e == ErrDefine::InvalidIndex
                    &&& !old(self).order().contains(index)
                },
            },
    {
        let ghost a = *self;
        if index >= self.max_size {
            proof {
                if self.order@.contains(index) {
                    let k = choose|k: int| 0 <= k < self.order@.len() && self.order@[k] == index;
                    assert(self.order@[k] < self.max_size);
                }
            }
            return Err(ErrDefine::InvalidIndex);
        }
        let target = self.internal_vec[index as usize];
        if target.valid {
            set_data(&mut self.internal_vec, index, *data);
            proof {
                let o = a.order@;
                let k = o.index_of(index);
                assert(o[k] == index);
                assert(forall|j: int| 0 <= j < o.len() && j != k ==> o[j] != index);
                assert(self.links_follow_lists());
                assert(self.slots_placed());
                assert(self.slot_values() =~= a.slot_values().update(index as int, *data));
                assert(self.values() =~= a.values().update(k, *data));
            }
            Ok(())
        } else {
            proof {
                if self.order@.contains(index) {
                    let k = choose|k: int| 0 <= k < self.order@.len() && self.order@[k] == index;
                    assert(self.internal_vec@[self.order@[k] as int].valid);
                }
            }
            Err(ErrDefine::InvalidIndex)
        }
    }

    /// Grows the arena to `new_size` slots. The list and the free list are
    /// kept; the new slots, in ascending order, go in front of the free list.
    pub fn expand_to(&mut self, new_size: u32) -> (r: Result<(), ErrDefine>)
        requires
            old(self).wf(),
        ensures
            final(self).wf(),
            match r {
                Ok(()) => {
                    &&& old(self).capacity() < new_size < INVALID_INDEX
                    &&& final(self).capacity() == new_size
                    &&& final(self).order() == old(self).order()
                    &&& final(self).free_order() == ascending(
                        old(self).capacity() as int,
                        new_size as int,
                    ) + old(self).free_order()
                    &&& final(self).slot_values().subrange(0, old(self).capacity() as int)
                        == old(self).slot_values()
                    &&& final(self).values() == old(self).values()
                },
                Err(e) => {
                    &&& *final(self) == *old(self)
                    &&& e == ErrDefine::ArraySizeError
                    &&& (new_size <= old(self).capacity() || new_size >= INVALID_INDEX)
                },
            },
    {
        if new_size <= self.max_size || new_size >= INVALID_INDEX {
            return Err(ErrDefine::ArraySizeError);
        }
        let ghost a = *self;
        let n = self.max_size;
        let mut expand_vec: Vec<QuickElement<T>> = Vec::with_capacity(new_size as usize);
        let mut i: u32 = 0;
        while i < n
            invariant
                n == self.max_size,
                self.wf(),
                i <= n,
                expand_vec@ == self.internal_vec@.subrange(0, i as int),
            decreases n - i,
        {
            expand_vec.push(self.internal_vec[i as usize]);
            i = i + 1;
        }
        while i < new_size
            invariant
                n == self.max_size,
                self.wf(),
                n < new_size < INVALID_INDEX,
                n <= i <= new_size,
                expand_vec@.len() == i,
                expand_vec@.subrange(0, n as int) == self.internal_vec@,
                forall|j: int|
                    n <= j < i ==> {
                        let e = #[trigger] expand_vec@[j];
                        &&& e.cur == j
                        &&& !e.valid
                        &&& e.next == if j + 1 < new_size {
                            (j + 1) as u32
                        } else {
                            self.free_head
                        }
                    },
            decreases new_size - i,
        {
            let pre = if i == n {
                INVALID_INDEX
            } else {
                i - 1
            };
            let next = if i + 1 < new_size {
                i + 1
            } else {
                self.free_head
            };
            let ghost before = expand_vec@;
            expand_vec.push(QuickElement { data: T::default(), pre, next, cur: i, valid: false });
            proof {
                assert(expand_vec@.subrange(0, n as int) =~= before.subrange(0, n as int));
            }
            i = i + 1;
        }
        self.internal_vec = expand_vec;
        self.free_head = n;
        self.max_size = new_size;
        self.free = Ghost(ascending(n as int, new_size as int) + self.free@);
        proof {
            let o = a.order@;
            let fr = a.free@;
            let fresh = ascending(n as int, new_size as int);
            let fr2 = self.free@;
            let v = a.internal_vec@;
            let v2 = self.internal_vec@;
            let m = new_size as int;
            assert forall|x: int| 0 <= x < n implies #[trigger] v2[x] == v[x] by {
                assert(v2.subrange(0, n as int)[x] == v2[x]);
            }
            assert forall|k: int| 0 <= k < fr2.len() implies #[trigger] fr2[k] == (if k < m - n {
                (n + k) as u32
            } else {
                fr[k - (m - n)]
            }) by {}
            assert(fr2.no_duplicates()) by {
                assert forall|i1: int, j1: int|
                    0 <= i1 < fr2.len() && 0 <= j1 < fr2.len() && i1 != j1 implies fr2[i1]
                    != fr2[j1] by {
                    assert(fr2[i1] == (if i1 < m - n {
                        (n + i1) as u32
                    } else {
                        fr[i1 - (m - n)]
                    }));
                    assert(fr2[j1] == (if j1 < m - n {
                        (n + j1) as u32
                    } else {
                        fr[j1 - (m - n)]
                    }));
                    if i1 >= m - n {
                        assert(fr[i1 - (m - n)] < n);
                    }
                    if j1 >= m - n {
                        assert(fr[j1 - (m - n)] < n);
                    }
                }
            }
            assert(all_below(o, m)) by {
                assert forall|k: int| 0 <= k < o.len() implies #[trigger] o[k] < m by {
                    assert(o[k] < n);
                }
            }
            assert(all_below(fr2, m)) by {
                assert forall|k: int| 0 <= k < fr2.len() implies #[trigger] fr2[k] < m by {
                    assert(fr2[k] == (if k < m - n {
                        (n + k) as u32
                    } else {
                        fr[k - (m - n)]
                    }));
                    if k >= m - n {
                        assert(fr[k - (m - n)] < n);
                    }
                }
            }
            assert forall|k: int| 0 <= k < o.len() implies {
                let e = #[trigger] v2[o[k] as int];
                &&& e.valid
                &&& e.pre == link_before(o, k)
                &&& e.next == link_after(o, k)
            } by {
                assert(o[k] < n);
                assert(v2[o[k] as int] == v[o[k] as int]);
            }
            assert forall|k: int| 0 <= k < fr2.len() implies {
                let e = #[trigger] v2[fr2[k] as int];
                &&& !e.valid
                &&& e.next == link_after(fr2, k)
            } by {
                if k < m - n {
                    assert(fr2[k] == (n + k) as u32);
                    assert(v2[n + k].cur == n + k);
                    if k + 1 < m - n {
                        assert(fr2[k + 1] == (n + k + 1) as u32);
                    } else if fr.len() > 0 {
                        assert(fr2[k + 1] == fr[0]);
                    }
                } else {
                    let j = k - (m - n);
                    assert(fr2[k] == fr[j]);
                    assert(fr[j] < n);
                    assert(v2[fr[j] as int] == v[fr[j] as int]);
                    assert(!v[fr[j] as int].valid);
                    if j + 1 < fr.len() {
                        assert(fr2[k + 1] == fr[j + 1]);
                    }
                }
            }
            assert(self.links_follow_lists());
            assert forall|i1: int| 0 <= i1 < v2.len() implies {
                &&& (#[trigger] v2[i1]).cur == i1
                &&& v2[i1].valid ==> o.contains(i1 as u32)
                &&& !v2[i1].valid ==> fr2.contains(i1 as u32)
            } by {
                if i1 < n {
                    assert(v2[i1] == v[i1]);
                    if !v[i1].valid {
                        let k = choose|k: int| 0 <= k < fr.len() && fr[k] == i1 as u32;
                        assert(fr2[k + (m - n)] == i1 as u32);
                    }
                } else {
                    assert(fr2[i1 - n] == i1 as u32);
                }
            }
            assert(self.slots_placed());
            assert(self.slot_values().subrange(0, n as int) =~= a.slot_values());
            assert(self.values() =~= a.values());
        }
        Ok(())
    }

    /// The number of occupied slots.
    pub fn get_valid_count(&self) -> (r: u32)
        requires
            self.wf(),
        ensures
            r == self.order().len(),
    {
        self.valid_count
    }

    /// Whether every slot is occupied.
    pub fn is_full(&self) -> (r: bool)
        requires
            self.wf(),
        ensures
            r == (self.order().len() == self.capacity()),
            r == (self.free_order().len() == 0),
    {
        self.valid_count == self.max_size
    }

    /// Whether no slot is occupied.
    pub fn is_empty(&self) -> (r: bool)
        requires
            self.wf(),
        ensures
            r == (self.order().len() == 0),
    {
        self.valid_count == 0
    }

    /// The value at the head of the list.
    pub fn get_head_element(&self) -> (r: Option<&T>)
        requires
            self.wf(),
        ensures
            match r {
                Some(d) => self.order().len() > 0 && *d == self.values()[0],
                None => self.order().len() == 0,
            },
    {
        if self.valid_head == INVALID_INDEX {
            None
        } else {
            proof {
                assert(self.order@[0] < self.max_size);
            }
            Some(&self.internal_vec[self.valid_head as usize].data)
        }
    }

    /// The value at the tail of the list.
    pub fn get_tail_element(&self) -> (r: Option<&T>)
        requires
            self.wf(),
        ensures
            match r {
                Some(d) => self.order().len() > 0 && *d == self.values().last(),
                None => self.order().len() == 0,
            },
    {
        if self.valid_tail == INVALID_INDEX {
            None
        } else {
            proof {
                assert(self.order@[self.order@.len() - 1] < self.max_size);
            }
            Some(&self.internal_vec[self.valid_tail as usize].data)
        }
    }

    /// The slot at the head of the list.
    pub fn get_head_index(&self) -> (r: Option<u32>)
        requires
            self.wf(),
        ensures
            r == if self.order().len() == 0 {
                None
            } else {
                Some(self.order()[0])
            },
    {
        if self.valid_head == INVALID_INDEX {
            None
        } else {
            proof {
                assert(self.order@[0] < self.max_size);
            }
            Some(self.internal_vec[self.valid_head as usize].cur)
        }
    }

    /// The slot at the tail of the list.
    pub fn get_tail_index(&self) -> (r: Option<u32>)
        requires
            self.wf(),
        ensures
            r == if self.order().len() == 0 {
                None
            } else {
                Some(self.order().last())
            },
    {
        if self.valid_tail == INVALID_INDEX {
            None
        } else {
            proof {
                assert(self.order@[self.order@.len() - 1] < self.max_size);
            }
            Some(self.internal_vec[self.valid_tail as usize].cur)
        }
    }

    /// The value held by slot `index`, if it is occupied.
    pub fn get_element(&self, index: u32) -> (r: Option<&T>)
        requires
            self.wf(),
        ensures
            match r {
                Some(d) => self.order().contains(index) && *d == self.slot_values()[index as int],
                None => !self.order().contains(index),
            },
    {
        if index >= self.max_size {
            proof {
                self.lemma_wf_view();
                if self.order@.contains(index) {
                    let k = choose|k: int| 0 <= k < self.order@.len() && self.order@[k] == index;
                    assert(self.order@[k] < self.max_size);
                }
            }
            return None;
        }
        let e = &self.internal_vec[index as usize];
        if !e.valid {
            proof {
                if self.order@.contains(index) {
                    let k = choose|k: int| 0 <= k < self.order@.len() && self.order@[k] == index;
                    assert(self.internal_vec@[self.order@[k] as int].valid);
                }
            }
            None
        } else {
            Some(&e.data)
        }
    }

    /// The slot before the occupied slot `index` in the list, if there is one.
    pub fn get_pre_index(&self, index: u32) -> (r: Option<u32>)
        requires
            self.wf(),
        ensures
            match r {
                Some(j) => {
                    &&& self.order().contains(index)
                    &&& self.order().index_of(index) > 0
                    &&& j == self.order()[self.order().index_of(index) - 1]
                },
                None => !self.order().contains(index) || self.order().index_of(index) == 0,
            },
    {
        if index >= self.max_size {
            proof {
                if self.order@.contains(index) {
                    let k = choose|k: int| 0 <= k < self.order@.len() && self.order@[k] == index;
                    assert(self.order@[k] < self.max_size);
                }
            }
            return None;
        }
        let e = &self.internal_vec[index as usize];
        proof {
            if self.order@.contains(index) {
                let k = self.order@.index_of(index);
                assert(self.order@[k] == index);
                assert(k > 0 ==> self.order@[k - 1] < self.max_size);
            }
        }
        if !e.valid || e.pre == INVALID_INDEX {
            None
        } else {
            Some(e.pre)
        }
    }

    /// The slot after the occupied slot `index` in the list, if there is one.
    pub fn get_next_index(&self, index: u32) -> (r: Option<u32>)
        requires
            self.wf(),
        ensures
            match r {
                Some(j) => {
                    &&& self.order().contains(index)
                    &&& self.order().index_of(index) + 1 < self.order().len()
                    &&& j == self.order()[self.order().index_of(index) + 1]
                },
                None => !self.order().contains(index) || self.order().index_of(index) + 1
                    == self.order().len(),
            },
    {
        if index >= self.max_size {
            proof {
                if self.order@.contains(index) {
                    let k = choose|k: int| 0 <= k < self.order@.len() && self.order@[k] == index;
                    assert(self.order@[k] < self.max_size);
                }
            }
            return None;
        }
        let e = &self.internal_vec[index as usize];
        proof {
            if self.order@.contains(index) {
                let k = self.order@.index_of(index);
                assert(self.order@[k] == index);
                assert(k + 1 < self.order@.len() ==> self.order@[k + 1] < self.max_size);
            }
        }
        if !e.valid || e.next == INVALID_INDEX {
            None
        } else {
            Some(e.next)
        }
    }

    /// A walker over the list, from head to tail, that yields each occupied
    /// slot with its value.
    pub fn enumerate<'life_of_array>(self: &'life_of_array Self) -> (r: QuickArrayIterator<
        'life_of_array,
        T,
    >)
        requires
            self.wf(),
        ensures
            r.arena() == *self,
            r.remaining() == self.order(),
    {
        proof {
            let o = self.order@;
            if o.len() > 0 {
                assert(o.contains(o[0]));
                let k = o.index_of(o[0]);
                assert(o[k] == o[0]);
                assert(k == 0);
                assert(o.subrange(0, o.len() as int) =~= o);
            } else {
                assert(!o.contains(INVALID_INDEX));
            }
        }
        QuickArrayIterator { array: self, index: self.valid_head }
    }

    /// The number of slots.
    pub fn get_max_size(&self) -> (r: u32)
        requires
            self.wf(),
        ensures
            r == self.capacity(),
    {
        self.max_size
    }
}

/// Sets the `pre` link of slot `i`.
fn set_pre<T: Copy>(v: &mut Vec<QuickElement<T>>, i: u32, pre: u32)
    requires
        (i as int) < old(v)@.len(),
    ensures
        final(v)@ == old(v)@.update(i as int, QuickElement { pre, ..old(v)@[i as int] }),
{
    let mut e = v[i as usize];
    e.pre = pre;
    v.set(i as usize, e);
}

/// Sets the `next` link of slot `i`.
fn set_next<T: Copy>(v: &mut Vec<QuickElement<T>>, i: u32, next: u32)
    requires
        (i as int) < old(v)@.len(),
    ensures
        final(v)@ == old(v)@.update(i as int, QuickElement { next, ..old(v)@[i as int] }),
{
    let mut e = v[i as usize];
    e.next = next;
    v.set(i as usize, e);
}

/// Sets both links of slot `i`.
fn set_links<T: Copy>(v: &mut Vec<QuickElement<T>>, i: u32, pre: u32, next: u32)
    requires
        (i as int) < old(v)@.len(),
    ensures
        final(v)@ == old(v)@.update(i as int, QuickElement { pre, next, ..old(v)@[i as int] }),
{
    let mut e = v[i as usize];
    e.pre = pre;
    e.next = next;
    v.set(i as usize, e);
}

/// Stores `data` in slot `i`.
fn set_data<T: Copy>(v: &mut Vec<QuickElement<T>>, i: u32, data: T)
    requires
        (i as int) < old(v)@.len(),
    ensures
        final(v)@ == old(v)@.update(i as int, QuickElement { data, ..old(v)@[i as int] }),
{
    let mut e = v[i as usize];
    e.data = data;
    v.set(i as usize, e);
}

/// A walker over the list of a `QuickArray`, from head to tail.
pub struct QuickArrayIterator<'a, T> {
    array: &'a QuickArray<T>,
    index: u32,
}

impl<'a, T: Copy + Default> QuickArrayIterator<'a, T> {
    /// The arena that is walked.
    pub closed spec fn arena(&self) -> QuickArray<T> {
        *self.array
    }

    /// The slot that the next step yields.
    pub closed spec fn cursor(&self) -> u32 {
        self.index
    }

    /// The slots that are still to come, in order.
    pub open spec fn remaining(&self) -> Seq<u32> {
        let o = self.arena().order();
        if o.contains(self.cursor()) {
            o.subrange(o.index_of(self.cursor()), o.len() as int)
        } else {
            Seq::empty()
        }
    }

    /// Yields the next occupied slot and its value, or `None` at the end.
    pub fn next(&mut self) -> (r: Option<(u32, &'a T)>)
        requires
            old(self).arena().wf(),
        ensures
            final(self).arena() == old(self).arena(),
            match r {
                Some((i, d)) => {
                    &&& old(self).remaining().len() > 0
                    &&& i == old(self).remaining()[0]
                    &&& *d == old(self).arena().slot_values()[i as int]
                    &&& final(self).remaining() == old(self).remaining().drop_first()
                },
                None => old(self).remaining().len() == 0 && final(self).remaining().len() == 0,
            },
    {
        let array = self.array;
        let cur_index = self.index;
        proof {
            array.lemma_wf_view();
        }
        let cur_ele = array.get_element(cur_index);
        let next_index = array.get_next_index(cur_index);
        match next_index {
            Some(i) => {
                self.index = i;
            },
            None => {
                self.index = INVALID_INDEX;
            },
        }
        proof {
            let o = array.order();
            assert(!o.contains(INVALID_INDEX)) by {
                if o.contains(INVALID_INDEX) {
                    let k = choose|k: int| 0 <= k < o.len() && o[k] == INVALID_INDEX;
                    assert(o[k] < array.capacity());
                }
            }
            if o.contains(cur_index) {
                let k = o.index_of(cur_index);
                assert(o[k] == cur_index);
                if k + 1 < o.len() {
                    assert(o.contains(o[k + 1]));
                    let k2 = o.index_of(o[k + 1]);
                    assert(o[k2] == o[k + 1]);
                    assert(k2 == k + 1);
                    assert(o.subrange(k + 1, o.len() as int) =~= o.subrange(
                        k,
                        o.len() as int,
                    ).drop_first());
                } else {
                    assert(o.subrange(k, o.len() as int).drop_first() =~= Seq::<u32>::empty());
                }
            }
        }
        match cur_ele {
            None => None,
            Some(d) => Some((cur_index, d)),
        }
    }
}

} // verus!
