//! A pool that stores each distinct operand list once and hands out a small
//! handle for it, counting how often the handle is in use.

use crate::error::CircuitError;
use crate::hash_index::{operand_entries, OperandIndex};
use std::collections::VecDeque;
use vstd::prelude::*;

verus! {

/// A handle: the number of a slot of the pool.
pub type IndexType = u32;

/// The index of a resource in its table.
pub type BitType = u32;

/// What an occupied slot holds.
pub struct Slot {
    pub operands: Seq<BitType>,
    pub use_count: nat,
}

/// The pool as a mathematical value: its slots, by handle, and the handles
/// that are free, the one freed longest ago first.
pub struct Pool {
    pub slots: Seq<Option<Slot>>,
    pub free: Seq<IndexType>,
}

impl Pool {
    /// The pool without slots.
    pub open spec fn empty() -> Pool {
        Pool { slots: Seq::empty(), free: Seq::empty() }
    }

    /// Whether `handle` names a slot that holds an operand list.
    pub open spec fn occupied(self, handle: IndexType) -> bool {
        handle < self.slots.len() && self.slots[handle as int] is Some
    }

    /// Whether `handle` names a slot that holds nothing.
    pub open spec fn vacant(self, handle: IndexType) -> bool {
        handle < self.slots.len() && self.slots[handle as int] is None
    }

    /// The operand list in the slot of `handle`.
    pub open spec fn operands(self, handle: IndexType) -> Seq<BitType>
        recommends
            self.occupied(handle),
    {
        self.slots[handle as int]->0.operands
    }

    /// How often `handle` is in use; 0 where its slot holds nothing.
    pub open spec fn use_count(self, handle: IndexType) -> nat {
        if self.occupied(handle) {
            self.slots[handle as int]->0.use_count
        } else {
            0
        }
    }

    /// Whether some slot holds `key`.
    pub open spec fn holds(self, key: Seq<BitType>) -> bool {
        exists|h: IndexType| #[trigger] self.occupied(h) && self.operands(h) == key
    }

    /// The handle of the slot that holds `key`.
    pub open spec fn handle_of(self, key: Seq<BitType>) -> IndexType
        recommends
            self.holds(key),
    {
        choose|h: IndexType| #[trigger] self.occupied(h) && self.operands(h) == key
    }

    /// How often `key` is in use; 0 where no slot holds it.
    pub open spec fn uses_of(self, key: Seq<BitType>) -> nat {
        if self.holds(key) {
            self.use_count(self.handle_of(key))
        } else {
            0
        }
    }

    /// The operand lists that the pool holds.
    pub open spec fn keys(self) -> Set<Seq<BitType>> {
        Set::new(|key: Seq<BitType>| self.holds(key))
    }

    /// The number of occupied slots.
    pub open spec fn occupied_count(self) -> int {
        self.slots.len() - self.free.len()
    }

    /// The invariant of a pool: no more slots than there are handles; the
    /// free list names each empty slot once and nothing else; an occupied
    /// slot is in use; no two slots hold the same operand list.
    pub open spec fn wf(self) -> bool {
        &&& self.slots.len() <= u32::MAX
        &&& self.free.no_duplicates()
        &&& forall|i: int| 0 <= i < self.free.len() ==> self.vacant(#[trigger] self.free[i])
        &&& forall|h: IndexType| #[trigger] self.vacant(h) ==> self.free.contains(h)
        &&& forall|h: IndexType| #[trigger] self.occupied(h) ==> self.use_count(h) >= 1
        &&& forall|h1: IndexType, h2: IndexType|
            #[trigger] self.occupied(h1) && #[trigger] self.occupied(h2) && self.operands(h1)
                == self.operands(h2) ==> h1 == h2
    }

    /// Whether `after` keeps what this pool holds: every slot that is
    /// occupied here is occupied there by the same list, with no fewer
    /// uses. So it is after lists have been interned and none released.
    pub open spec fn grows_into(self, after: Pool) -> bool {
        forall|h: IndexType| #[trigger]
            self.occupied(h) ==> after.occupied(h) && after.operands(h) == self.operands(h)
                && after.use_count(h) >= self.use_count(h)
    }

    /// Whether `after` holds nothing that this pool does not hold: every
    /// slot that is occupied there is occupied here by the same list, with
    /// no fewer uses. So it is after uses have been given up and nothing
    /// interned.
    pub open spec fn shrinks_into(self, after: Pool) -> bool {
        forall|h: IndexType| #[trigger]
            after.occupied(h) ==> self.occupied(h) && after.operands(h) == self.operands(h)
                && after.use_count(h) <= self.use_count(h)
    }

    /// Whether every slot that is occupied in both pools holds the same
    /// list in both: no handle has been given to another list.
    pub open spec fn agrees_with(self, after: Pool) -> bool {
        forall|h: IndexType|
            #![trigger self.occupied(h), after.occupied(h)]
            self.occupied(h) && after.occupied(h) ==> after.operands(h) == self.operands(h)
    }

    /// Whether `key` can be interned: it is held already, or a slot is free,
    /// or a handle has never been issued.
    pub open spec fn has_room(self, key: Seq<BitType>) -> bool {
        self.holds(key) || self.free.len() > 0 || self.slots.len() < u32::MAX
    }

    /// The handle that interning `key` yields: that of the slot which holds
    /// it; else the handle freed longest ago; else the next new one.
    pub open spec fn intern_handle(self, key: Seq<BitType>) -> IndexType
        recommends
            self.has_room(key),
    {
        if self.holds(key) {
            self.handle_of(key)
        } else if self.free.len() > 0 {
            self.free[0]
        } else {
            self.slots.len() as IndexType
        }
    }

    /// The pool after `key` has been interned.
    pub open spec fn intern(self, key: Seq<BitType>) -> Pool
        recommends
            self.has_room(key),
    {
        let handle = self.intern_handle(key);
        if self.holds(key) {
            Pool {
                slots: self.slots.update(
                    handle as int,
                    Some(Slot { operands: key, use_count: self.use_count(handle) + 1 }),
                ),
                free: self.free,
            }
        } else if self.free.len() > 0 {
            Pool {
                slots: self.slots.update(handle as int, Some(Slot { operands: key, use_count: 1 })),
                free: self.free.drop_first(),
            }
        } else {
            Pool {
                slots: self.slots.push(Some(Slot { operands: key, use_count: 1 })),
                free: self.free,
            }
        }
    }

    /// The pool after one use of `handle` has been given up: the count
    /// drops, and with the last use the slot is emptied and its handle
    /// joins the end of the free list.
    pub open spec fn release(self, handle: IndexType) -> Pool
        recommends
            self.occupied(handle),
    {
        if self.use_count(handle) == 1 {
            Pool { slots: self.slots.update(handle as int, None), free: self.free.push(handle) }
        } else {
            Pool {
                slots: self.slots.update(
                    handle as int,
                    Some(
                        Slot {
                            operands: self.operands(handle),
                            use_count: (self.use_count(handle) - 1) as nat,
                        },
                    ),
                ),
                free: self.free,
            }
        }
    }

    /// The pool after `n` uses of `handle` have been given up.
    pub open spec fn release_n(self, handle: IndexType, n: nat) -> Pool
        decreases n,
    {
        if n == 0 {
            self
        } else {
            self.release(handle).release_n(handle, (n - 1) as nat)
        }
    }
}

impl Pool {
    /// Filling the slot freed longest ago with a list that no slot holds
    /// keeps the pool's invariant.
    proof fn lemma_fill_keeps_wf(before: Pool, key: Seq<BitType>, h: IndexType)
        requires
            before.wf(),
            !before.holds(key),
            before.free.len() > 0,
            h == before.free[0],
        ensures
            before.intern(key).wf(),
            before.intern(key).occupied(h),
            forall|h2: IndexType|
                h2 != h ==> (#[trigger] before.intern(key).occupied(h2) <==> before.occupied(h2)),
    {
        let after = before.intern(key);
        assert(before.vacant(before.free[0]));
        assert(after.free.no_duplicates()) by {
            assert forall|i: int, j: int|
                0 <= i < after.free.len() && 0 <= j < after.free.len() && i
                    != j implies after.free[i] != after.free[j] by {
                assert(after.free[i] == before.free[i + 1]);
                assert(after.free[j] == before.free[j + 1]);
            }
        }
        assert forall|i: int| 0 <= i < after.free.len() implies after.vacant(
            #[trigger] after.free[i],
        ) by {
            assert(after.free[i] == before.free[i + 1]);
            assert(before.vacant(before.free[i + 1]));
            assert(before.free[i + 1] != before.free[0]);
        }
        assert forall|h2: IndexType| #[trigger] after.vacant(h2) implies after.free.contains(
            h2,
        ) by {
            assert(before.vacant(h2));
            assert(before.free.contains(h2));
            let i = choose|i: int| 0 <= i < before.free.len() && before.free[i] == h2;
            assert(i != 0);
            assert(after.free[i - 1] == h2);
        }
        assert forall|h1: IndexType, h2: IndexType|
            #[trigger] after.occupied(h1) && #[trigger] after.occupied(h2) && after.operands(h1)
                == after.operands(h2) implies h1 == h2 by {
            if h1 != h && h2 != h {
                assert(before.occupied(h1) && before.occupied(h2));
            } else if h1 != h {
                assert(before.occupied(h1));
                assert(before.operands(h1) == key);
            } else if h2 != h {
                assert(before.occupied(h2));
                assert(before.operands(h2) == key);
            }
        }
        assert forall|h2: IndexType| #[trigger] after.occupied(h2) implies after.use_count(h2)
            >= 1 by {
            if h2 != h {
                assert(before.occupied(h2));
            }
        }
    }

    /// Adding a slot for a list that no slot holds keeps the pool's
    /// invariant.
    proof fn lemma_grow_keeps_wf(before: Pool, key: Seq<BitType>)
        requires
            before.wf(),
            !before.holds(key),
            before.free.len() == 0,
            before.slots.len() < u32::MAX,
        ensures
            before.intern(key).wf(),
            before.intern(key).occupied(before.slots.len() as IndexType),
            forall|h2: IndexType|
                h2 != before.slots.len() ==> (#[trigger] before.intern(key).occupied(h2)
                    <==> before.occupied(h2)),
    {
        let after = before.intern(key);
        let h = before.slots.len() as IndexType;
        assert forall|h2: IndexType| #[trigger] after.vacant(h2) implies after.free.contains(
            h2,
        ) by {
            assert(before.vacant(h2));
            assert(before.free.contains(h2));
        }
        assert forall|h1: IndexType, h2: IndexType|
            #[trigger] after.occupied(h1) && #[trigger] after.occupied(h2) && after.operands(h1)
                == after.operands(h2) implies h1 == h2 by {
            if h1 != h && h2 != h {
                assert(before.occupied(h1) && before.occupied(h2));
            } else if h1 != h {
                assert(before.occupied(h1));
                assert(before.operands(h1) == key);
            } else if h2 != h {
                assert(before.occupied(h2));
                assert(before.operands(h2) == key);
            }
        }
        assert forall|h2: IndexType| #[trigger] after.occupied(h2) implies after.use_count(h2)
            >= 1 by {
            if h2 != h {
                assert(before.occupied(h2));
            }
        }
    }

    /// Emptying a slot whose handle is in use once keeps the pool's
    /// invariant.
    proof fn lemma_vacate_keeps_wf(before: Pool, h: IndexType)
        requires
            before.wf(),
            before.occupied(h),
            before.use_count(h) == 1,
        ensures
            before.release(h).wf(),
            !before.release(h).occupied(h),
            forall|h2: IndexType|
                h2 != h ==> (#[trigger] before.release(h).occupied(h2) <==> before.occupied(h2)),
    {
        let after = before.release(h);
        assert(after.free.no_duplicates()) by {
            assert forall|i: int, j: int|
                0 <= i < after.free.len() && 0 <= j < after.free.len() && i
                    != j implies after.free[i] != after.free[j] by {
                if i < before.free.len() {
                    assert(before.vacant(before.free[i]));
                }
                if j < before.free.len() {
                    assert(before.vacant(before.free[j]));
                }
            }
        }
        assert forall|i: int| 0 <= i < after.free.len() implies after.vacant(
            #[trigger] after.free[i],
        ) by {
            if i < before.free.len() {
                assert(before.vacant(before.free[i]));
            }
        }
        assert forall|h2: IndexType| #[trigger] after.vacant(h2) implies after.free.contains(
            h2,
        ) by {
            if h2 == h {
                assert(after.free[before.free.len() as int] == h);
            } else {
                assert(before.vacant(h2));
                assert(before.free.contains(h2));
                let i = choose|i: int| 0 <= i < before.free.len() && before.free[i] == h2;
                assert(after.free[i] == h2);
            }
        }
        assert forall|h1: IndexType, h2: IndexType|
            #[trigger] after.occupied(h1) && #[trigger] after.occupied(h2) && after.operands(h1)
                == after.operands(h2) implies h1 == h2 by {
            assert(before.occupied(h1) && before.occupied(h2));
        }
        assert forall|h2: IndexType| #[trigger] after.occupied(h2) implies after.use_count(h2)
            >= 1 by {
            assert(before.occupied(h2));
        }
    }

    /// Interning after interning keeps what was held at first.
    pub proof fn lemma_grows_on(self, middle: Pool, after: Pool)
        requires
            self.grows_into(middle),
            middle.grows_into(after),
        ensures
            self.grows_into(after),
    {
        assert forall|h: IndexType| #[trigger] self.occupied(h) implies after.occupied(h)
            && after.operands(h) == self.operands(h) && after.use_count(h) >= self.use_count(
            h,
        ) by {
            assert(middle.occupied(h));
        }
    }

    /// Releasing after releasing brings nothing that was not held at first.
    pub proof fn lemma_shrinks_on(self, middle: Pool, after: Pool)
        requires
            self.shrinks_into(middle),
            middle.shrinks_into(after),
        ensures
            self.shrinks_into(after),
    {
        assert forall|h: IndexType| #[trigger] after.occupied(h) implies self.occupied(h)
            && after.operands(h) == self.operands(h) && after.use_count(h) <= self.use_count(
            h,
        ) by {
            assert(middle.occupied(h));
        }
    }

    /// Where lists are interned first and uses given up afterwards, no
    /// handle goes from one list to another.
    pub proof fn lemma_grows_then_shrinks(self, middle: Pool, after: Pool)
        requires
            self.grows_into(middle),
            middle.shrinks_into(after),
        ensures
            self.agrees_with(after),
    {
        assert forall|h: IndexType|
            #![trigger self.occupied(h), after.occupied(h)]
            self.occupied(h) && after.occupied(h) implies after.operands(h) == self.operands(
            h,
        ) by {
            assert(middle.occupied(h));
        }
    }

    /// A list that is still held after uses were given up is held under
    /// the handle it had.
    pub proof fn lemma_held_list_keeps_handle(self, after: Pool, handle: IndexType)
        requires
            self.wf(),
            self.shrinks_into(after),
            self.occupied(handle),
            after.holds(self.operands(handle)),
        ensures
            after.occupied(handle),
            after.operands(handle) == self.operands(handle),
    {
        let found = after.handle_of(self.operands(handle));
        assert(after.occupied(found) && after.operands(found) == self.operands(handle));
        assert(self.occupied(found));
    }

    /// Interning a list that is held: the handle is the one that holds it
    /// and has one use more; the number of slots, the free list and every
    /// other slot are as before.
    pub proof fn lemma_intern_held(self, key: Seq<BitType>, handle: IndexType)
        requires
            self.wf(),
            self.occupied(handle),
            self.operands(handle) == key,
        ensures
            self.has_room(key),
            self.intern_handle(key) == handle,
            self.intern(key).use_count(handle) == self.use_count(handle) + 1,
            self.intern(key).operands(handle) == key,
            self.intern(key).slots.len() == self.slots.len(),
            self.intern(key).free == self.free,
            forall|h: IndexType|
                h != handle && h < self.slots.len() ==> #[trigger] self.intern(key).slots[h as int]
                    == self.slots[h as int],
    {
        self.lemma_handle_of(key, handle);
    }

    /// In a pool that keeps its invariant, the handle of a list that is held
    /// is the one handle whose slot holds it.
    pub proof fn lemma_handle_of(self, key: Seq<BitType>, handle: IndexType)
        requires
            self.wf(),
            self.occupied(handle),
            self.operands(handle) == key,
        ensures
            self.holds(key),
            self.handle_of(key) == handle,
            self.uses_of(key) == self.use_count(handle),
    {
        let chosen = self.handle_of(key);
        assert(self.occupied(chosen) && self.operands(chosen) == key);
    }

    /// What interning does, handle by handle: the handle returned is
    /// occupied by `key` with one use more than before, and every other
    /// handle is as it was.
    pub proof fn lemma_intern(self, key: Seq<BitType>)
        requires
            self.wf(),
            self.has_room(key),
        ensures
            self.intern(key).wf(),
            self.intern(key).occupied(self.intern_handle(key)),
            self.intern(key).operands(self.intern_handle(key)) == key,
            self.intern(key).use_count(self.intern_handle(key)) == self.use_count(
                self.intern_handle(key),
            ) + 1,
            self.occupied(self.intern_handle(key)) <==> self.holds(key),
            forall|h: IndexType|
                h != self.intern_handle(key) ==> (#[trigger] self.intern(key).occupied(h)
                    <==> self.occupied(h)),
            forall|h: IndexType|
                h != self.intern_handle(key) ==> #[trigger] self.intern(key).use_count(h)
                    == self.use_count(h),
            forall|h: IndexType|
                self.occupied(h) ==> #[trigger] self.intern(key).operands(h) == self.operands(h),
    {
        let after = self.intern(key);
        let handle = self.intern_handle(key);
        if self.holds(key) {
            assert(self.occupied(handle) && self.operands(handle) == key);
            assert forall|h: IndexType| #[trigger] after.occupied(h) implies self.occupied(h)
                && after.operands(h) == self.operands(h) by {}
            assert forall|h: IndexType| #[trigger] self.occupied(h) implies after.occupied(h)
                && after.operands(h) == self.operands(h) by {}
            assert forall|h: IndexType| #[trigger] after.vacant(h) implies self.vacant(h) by {}
            assert forall|i: int| 0 <= i < after.free.len() implies after.vacant(
                #[trigger] after.free[i],
            ) by {
                assert(self.vacant(self.free[i]));
            }
            assert forall|h: IndexType| #[trigger] after.occupied(h) implies after.use_count(h)
                >= 1 by {
                assert(self.occupied(h));
            }
            assert(after.wf());
        } else if self.free.len() > 0 {
            Self::lemma_fill_keeps_wf(self, key, handle);
            assert(self.vacant(self.free[0]));
        } else {
            Self::lemma_grow_keeps_wf(self, key);
        }
    }

    /// What giving up a use does, handle by handle: the handle has one use
    /// fewer, stays occupied by the same list while a use is left, and
    /// every other handle is as it was.
    pub proof fn lemma_release(self, handle: IndexType)
        requires
            self.wf(),
            self.occupied(handle),
        ensures
            self.release(handle).wf(),
            self.release(handle).use_count(handle) == self.use_count(handle) - 1,
            self.release(handle).occupied(handle) <==> self.use_count(handle) > 1,
            forall|h: IndexType|
                h != handle ==> (#[trigger] self.release(handle).occupied(h) <==> self.occupied(h)),
            forall|h: IndexType|
                h != handle ==> #[trigger] self.release(handle).use_count(h) == self.use_count(h),
            forall|h: IndexType| #[trigger]
                self.release(handle).occupied(h) ==> self.release(handle).operands(h)
                    == self.operands(h),
            self.use_count(handle) == 1 ==> self.release(handle).free == self.free.push(handle),
            self.use_count(handle) > 1 ==> self.release(handle).free == self.free,
    {
        let after = self.release(handle);
        if self.use_count(handle) == 1 {
            Self::lemma_vacate_keeps_wf(self, handle);
        } else {
            assert forall|h: IndexType| #[trigger] after.occupied(h) implies self.occupied(h)
                && after.operands(h) == self.operands(h) by {}
            assert forall|h: IndexType| #[trigger] self.occupied(h) implies after.occupied(h)
                && after.operands(h) == self.operands(h) by {}
            assert forall|h: IndexType| #[trigger] after.vacant(h) implies self.vacant(h) by {}
            assert forall|i: int| 0 <= i < after.free.len() implies after.vacant(
                #[trigger] after.free[i],
            ) by {
                assert(self.vacant(self.free[i]));
            }
            assert forall|h: IndexType| #[trigger] after.occupied(h) implies after.use_count(h)
                >= 1 by {
                assert(self.occupied(h));
            }
            assert(after.wf());
        }
    }

    /// Two lists that are equal are interned under one handle: interning a
    /// list again, with no release of it between, finds room and yields
    /// the handle that the first interning gave.
    pub proof fn lemma_intern_again_same_handle(self, key: Seq<BitType>)
        requires
            self.wf(),
            self.has_room(key),
        ensures
            self.intern(key).has_room(key),
            self.intern(key).intern_handle(key) == self.intern_handle(key),
            self.intern(key).intern(key).slots.len() == self.intern(key).slots.len(),
            self.intern(key).intern(key).free == self.intern(key).free,
    {
        self.lemma_intern(key);
        self.intern(key).lemma_handle_of(key, self.intern_handle(key));
    }

    /// While uses are left, giving some up keeps the slot: after `n` of them,
    /// fewer than the handle has, the handle still stands for the same list,
    /// with `n` uses fewer.
    pub proof fn lemma_release_n_keeps_slot(self, handle: IndexType, n: nat)
        requires
            self.wf(),
            self.occupied(handle),
            n < self.use_count(handle),
        ensures
            self.release_n(handle, n).wf(),
            self.release_n(handle, n).occupied(handle),
            self.release_n(handle, n).operands(handle) == self.operands(handle),
            self.release_n(handle, n).use_count(handle) == self.use_count(handle) - n,
            self.release_n(handle, n).free == self.free,
        decreases n,
    {
        if n > 0 {
            self.lemma_release(handle);
            self.release(handle).lemma_release_n_keeps_slot(handle, (n - 1) as nat);
        }
    }

    /// Giving up every use empties the slot: after as many releases as the
    /// handle has uses, no slot holds its list, and the handle stands last
    /// in the free list.
    pub proof fn lemma_release_all_frees_slot(self, handle: IndexType)
        requires
            self.wf(),
            self.occupied(handle),
        ensures
            self.release_n(handle, self.use_count(handle)).wf(),
            !self.release_n(handle, self.use_count(handle)).occupied(handle),
            !self.release_n(handle, self.use_count(handle)).holds(self.operands(handle)),
            self.release_n(handle, self.use_count(handle)).free == self.free.push(handle),
        decreases self.use_count(handle),
    {
        let n = self.use_count(handle);
        let after = self.release_n(handle, n);
        self.lemma_release(handle);
        if n == 1 {
            assert(self.release(handle).release_n(handle, 0) == self.release(handle));
        } else {
            self.release(handle).lemma_release_all_frees_slot(handle);
        }
        if after.holds(self.operands(handle)) {
            let other = after.handle_of(self.operands(handle));
            assert(after.occupied(other) && after.operands(other) == self.operands(handle));
            self.lemma_release_n_frame(handle, n, other);
        }
    }

    /// Releases of one handle leave every other handle as it was.
    pub proof fn lemma_release_n_frame(self, handle: IndexType, n: nat, other: IndexType)
        requires
            self.wf(),
            self.occupied(handle),
            n <= self.use_count(handle),
            other != handle,
        ensures
            self.release_n(handle, n).occupied(other) <==> self.occupied(other),
            self.release_n(handle, n).use_count(other) == self.use_count(other),
            self.occupied(other) ==> self.release_n(handle, n).operands(other) == self.operands(
                other,
            ),
        decreases n,
    {
        if n > 0 {
            self.lemma_release(handle);
            if n > 1 {
                self.release(handle).lemma_release_n_frame(handle, (n - 1) as nat, other);
            } else {
                assert(self.release(handle).release_n(handle, 0) == self.release(handle));
            }
        }
    }

    /// The handles below `n`, as a set.
    pub open spec fn handles_below(n: nat) -> Set<IndexType> {
        Set::new(|h: IndexType| h < n)
    }

    /// There are `n` handles below `n`, as long as `n` is no more than the
    /// number of values that a handle can take.
    proof fn lemma_handles_below(n: nat)
        requires
            n <= u32::MAX + 1,
        ensures
            Self::handles_below(n).finite(),
            Self::handles_below(n).len() == n,
        decreases n,
    {
        if n == 0 {
            assert(Self::handles_below(n) =~= Set::empty());
        } else {
            Self::lemma_handles_below((n - 1) as nat);
            assert(Self::handles_below(n) =~= Self::handles_below((n - 1) as nat).insert(
                (n - 1) as IndexType,
            ));
        }
    }

    /// The pool holds as many distinct lists as it has occupied slots, and
    /// it has room for a list exactly if it holds the list already or
    /// holds fewer lists than there are handles.
    pub proof fn lemma_keys_count(self)
        requires
            self.wf(),
        ensures
            self.keys().finite(),
            self.keys().len() == self.occupied_count(),
            self.keys().len() <= u32::MAX,
            forall|key: Seq<BitType>|
                #[trigger] self.has_room(key) <==> (self.keys().contains(key) || self.keys().len()
                    < u32::MAX),
    {
        let all = Self::handles_below(self.slots.len());
        let occupied = Set::new(|h: IndexType| self.occupied(h));
        let vacant = Set::new(|h: IndexType| self.vacant(h));
        Self::lemma_handles_below(self.slots.len());
        assert(vacant =~= self.free.to_set()) by {
            assert forall|h: IndexType| vacant.contains(h) implies self.free.to_set().contains(
                h,
            ) by {
                assert(self.vacant(h));
                assert(self.free.contains(h));
            }
            assert forall|h: IndexType| self.free.to_set().contains(h) implies vacant.contains(
                h,
            ) by {
                assert(self.free.contains(h));
                let i = choose|i: int| 0 <= i < self.free.len() && self.free[i] == h;
                assert(self.vacant(self.free[i]));
            }
        }
        self.free.unique_seq_to_set();
        assert(occupied.subset_of(all));
        assert(vacant.subset_of(all));
        vstd::set_lib::lemma_set_subset_finite(all, occupied);
        vstd::set_lib::lemma_set_subset_finite(all, vacant);
        assert(occupied.disjoint(vacant));
        assert(occupied + vacant =~= all);
        vstd::set_lib::lemma_set_disjoint_lens(occupied, vacant);
        assert(occupied.len() == self.occupied_count());
        let operands_of = |h: IndexType| self.operands(h);
        assert(occupied.map(operands_of) =~= self.keys()) by {
            assert forall|key: Seq<BitType>| occupied.map(operands_of).contains(
                key,
            ) implies self.keys().contains(key) by {
                let h = choose|h: IndexType| occupied.contains(h) && key == operands_of(h);
                assert(self.occupied(h) && self.operands(h) == key);
            }
            assert forall|key: Seq<BitType>| self.keys().contains(key) implies occupied.map(
                operands_of,
            ).contains(key) by {
                let h = self.handle_of(key);
                assert(self.occupied(h) && self.operands(h) == key);
                assert(occupied.contains(h) && key == operands_of(h));
            }
        }
        assert(vstd::relations::injective_on(operands_of, occupied)) by {
            assert forall|h1: IndexType, h2: IndexType|
                occupied.contains(h1) && occupied.contains(h2) && #[trigger] operands_of(h1)
                    == #[trigger] operands_of(h2) implies h1 == h2 by {
                assert(self.occupied(h1) && self.occupied(h2));
            }
        }
        vstd::set_lib::lemma_map_size(occupied, self.keys(), operands_of);
    }

    /// A new list takes the handle that was freed longest ago.
    pub proof fn lemma_new_key_takes_oldest_free(self, key: Seq<BitType>)
        requires
            self.wf(),
            !self.holds(key),
            self.free.len() > 0,
        ensures
            self.has_room(key),
            self.intern_handle(key) == self.free[0],
            self.intern(key).free == self.free.drop_first(),
    {
    }

    /// A freed handle is used again: where no handle was free before the
    /// last use of `handle` was given up, the next list that is new to the
    /// pool gets exactly `handle`.
    pub proof fn lemma_freed_handle_is_reused(self, handle: IndexType, key: Seq<BitType>)
        requires
            self.wf(),
            self.occupied(handle),
            self.free.len() == 0,
            !self.holds(key),
        ensures
            self.release_n(handle, self.use_count(handle)).has_room(key),
            self.release_n(handle, self.use_count(handle)).intern_handle(key) == handle,
    {
        let after = self.release_n(handle, self.use_count(handle));
        self.lemma_release_all_frees_slot(handle);
        assert(after.free[0] == handle);
        if after.holds(key) {
            let other = after.handle_of(key);
            assert(after.occupied(other) && after.operands(other) == key);
            self.lemma_release_n_frame(handle, self.use_count(handle), other);
            assert(self.occupied(other) && self.operands(other) == key);
        }
    }
}

/// An operand list with the number of uses of its handle.
struct SharedOperandList {
    operands: Vec<BitType>,
    use_count: usize,
}

/// The pool of interned operand lists.
pub struct InternContext {
    slots: Vec<Option<SharedOperandList>>,
    free_slots: VecDeque<IndexType>,
    slot_lookup: OperandIndex,
}

impl View for InternContext {
    type V = Pool;

    /// The slots and the free list of the pool.
    closed spec fn view(&self) -> Pool {
        Pool {
            slots: Seq::new(
                self.slots@.len(),
                |i: int|
                    match self.slots@[i] {
                        Some(shared) => Some(
                            Slot {
                                operands: shared.operands@,
                                use_count: shared.use_count as nat,
                            },
                        ),
                        None => None,
                    },
            ),
            free: self.free_slots@,
        }
    }
}

impl InternContext {
    /// Whether the lookup table finds exactly the occupied slots, each under
    /// its operand list.
    pub closed spec fn index_agrees(&self) -> bool {
        let entries = operand_entries(self.slot_lookup);
        &&& forall|key: Seq<BitType>| #[trigger]
            entries.contains_key(key) ==> self@.occupied(entries[key]) && self@.operands(
                entries[key],
            ) == key
        &&& forall|h: IndexType| #[trigger]
            self@.occupied(h) ==> entries.contains_key(self@.operands(h)) && entries[self@.operands(
                h,
            )] == h
    }

    /// The invariant of the pool.
    pub open spec fn wf(&self) -> bool {
        self@.wf() && self.index_agrees()
    }

    /// A pool without slots.
    pub fn new() -> (context: InternContext)
        ensures
            context.wf(),
            context@ == Pool::empty(),
    {
        let context = InternContext {
            slots: Vec::new(),
            free_slots: VecDeque::new(),
            slot_lookup: OperandIndex::new(),
        };
        assert(context@.slots =~= Pool::empty().slots);
        context
    }

    /// Interns `args`: where a slot holds an equal list its use count grows
    /// by one; else the list goes into the slot freed longest ago, or into a
    /// new one. `None` where the list is a new one and no handle is left.
    pub fn intern(&mut self, args: Vec<BitType>) -> (handle: Option<IndexType>)
        requires
            old(self).wf(),
            old(self)@.uses_of(args@) < usize::MAX,
        ensures
            final(self).wf(),
            match handle {
                Some(h) => old(self)@.has_room(args@) && h == old(self)@.intern_handle(args@)
                    && final(self)@ == old(self)@.intern(args@),
                None => !old(self)@.has_room(args@) && final(self)@ == old(self)@,
            },
    {
        let ghost before = self@;
        let ghost key = args@;
        match self.slot_lookup.get(&args) {
            Some(h) => {
                proof {
                    before.lemma_handle_of(key, h);
                    before.lemma_intern(key);
                }
                let taken = self.slots[h as usize].take();
                match taken {
                    Some(shared) => {
                        self.slots[h as usize] = Some(
                            SharedOperandList {
                                operands: shared.operands,
                                use_count: shared.use_count + 1,
                            },
                        );
                    },
                    None => {},
                }
                proof {
                    assert(self@.slots =~= before.intern(key).slots);
                    assert(self@.free =~= before.intern(key).free);
                }
                Some(h)
            },
            None => {
                proof {
                    if before.holds(key) {
                        assert(before.occupied(before.handle_of(key)));
                    }
                }
                if self.free_slots.len() > 0 {
                    let h = self.free_slots.pop_front().unwrap();
                    proof {
                        before.lemma_intern(key);
                    }
                    let stored = args.clone();
                    assert(stored@ =~= key);
                    self.slot_lookup.insert(stored, h);
                    self.slots[h as usize] = Some(
                        SharedOperandList { operands: args, use_count: 1 },
                    );
                    proof {
                        assert(self@.slots =~= before.intern(key).slots);
                        assert(self@.free =~= before.intern(key).free);
                    }
                    Some(h)
                } else if self.slots.len() < u32::MAX as usize {
                    let h = self.slots.len() as u32;
                    proof {
                        before.lemma_intern(key);
                    }
                    let stored = args.clone();
                    assert(stored@ =~= key);
                    self.slot_lookup.insert(stored, h);
                    self.slots.push(Some(SharedOperandList { operands: args, use_count: 1 }));
                    proof {
                        assert(self@.slots =~= before.intern(key).slots);
                        assert(self@.free =~= before.intern(key).free);
                    }
                    Some(h)
                } else {
                    None
                }
            },
        }
    }

    /// The number of handles that are free for reuse.
    pub fn free_slot_count(&self) -> (n: usize)
        ensures
            n == self@.free.len(),
    {
        self.free_slots.len()
    }

    /// The number of occupied slots: that of the distinct operand lists
    /// that the pool holds.
    pub fn occupied_slot_count(&self) -> (n: usize)
        requires
            self.wf(),
        ensures
            n == self@.occupied_count(),
            n == self@.keys().len(),
    {
        proof {
            self@.lemma_keys_count();
        }
        self.slots.len() - self.free_slots.len()
    }

    /// The operand list that `slot_idx` stands for.
    pub fn lookup(&self, slot_idx: IndexType) -> (operands: &Vec<BitType>)
        requires
            self@.occupied(slot_idx),
        ensures
            operands@ == self@.operands(slot_idx),
    {
        let shared = self.slots[slot_idx as usize].as_ref().unwrap();
        &shared.operands
    }

    /// The operand list that `slot_idx` stands for, or `InvalidHandle`
    /// where it names no occupied slot.
    pub fn try_lookup(&self, slot_idx: IndexType) -> (operands: Result<&Vec<BitType>, CircuitError>)
        ensures
            match operands {
                Ok(found) => self@.occupied(slot_idx) && found@ == self@.operands(slot_idx),
                Err(e) => !self@.occupied(slot_idx) && e == CircuitError::InvalidHandle,
            },
    {
        if (slot_idx as usize) < self.slots.len() {
            match &self.slots[slot_idx as usize] {
                Some(shared) => Ok(&shared.operands),
                None => Err(CircuitError::InvalidHandle),
            }
        } else {
            Err(CircuitError::InvalidHandle)
        }
    }

    /// Gives up one use of `slot_idx`. With the last use the slot is
    /// emptied and the handle joins the end of the free list.
    pub fn drop_use(&mut self, slot_idx: IndexType)
        requires
            old(self).wf(),
            old(self)@.occupied(slot_idx),
        ensures
            final(self).wf(),
            final(self)@ == old(self)@.release(slot_idx),
    {
        let ghost before = self@;
        proof {
            before.lemma_release(slot_idx);
        }
        let taken = self.slots[slot_idx as usize].take();
        match taken {
            Some(shared) => {
                if shared.use_count == 1 {
                    self.slot_lookup.remove(&shared.operands);
                    self.free_slots.push_back(slot_idx);
                } else {
                    self.slots[slot_idx as usize] = Some(
                        SharedOperandList {
                            operands: shared.operands,
                            use_count: shared.use_count - 1,
                        },
                    );
                }
            },
            None => {},
        }
        proof {
            assert(self@.slots =~= before.release(slot_idx).slots);
            assert(self@.free =~= before.release(slot_idx).free);
        }
    }

    /// Gives up one use of `handle` as `drop_use` does, or reports
    /// `InvalidHandle` and changes nothing where it names no occupied slot.
    pub fn release(&mut self, handle: IndexType) -> (done: Result<(), CircuitError>)
        requires
            old(self).wf(),
        ensures
            final(self).wf(),
            match done {
                Ok(_) => old(self)@.occupied(handle) && final(self)@ == old(self)@.release(handle),
                Err(e) => !old(self)@.occupied(handle) && e == CircuitError::InvalidHandle
                    && final(self)@ == old(self)@,
            },
    {
        if (handle as usize) < self.slots.len() && self.slots[handle as usize].is_some() {
            self.drop_use(handle);
            Ok(())
        } else {
            Err(CircuitError::InvalidHandle)
        }
    }
}

impl Clone for InternContext {
    /// A pool of its own with the same slots, free list and handles.
    fn clone(&self) -> (copy: InternContext)
        ensures
            copy@ == self@,
            self.wf() ==> copy.wf(),
    {
        let mut slots: Vec<Option<SharedOperandList>> = Vec::with_capacity(self.slots.len());
        let mut i: usize = 0;
        while i < self.slots.len()
            invariant
                i <= self.slots.len(),
                slots@.len() == i,
                forall|j: int|
                    0 <= j < i ==> match (#[trigger] slots@[j], self.slots@[j]) {
                        (Some(a), Some(b)) => a.operands@ == b.operands@ && a.use_count
                            == b.use_count,
                        (None, None) => true,
                        _ => false,
                    },
            decreases self.slots.len() - i,
        {
            match &self.slots[i] {
                Some(shared) => {
                    let operands = shared.operands.clone();
                    assert(operands@ =~= shared.operands@);
                    slots.push(Some(SharedOperandList { operands, use_count: shared.use_count }));
                },
                None => {
                    slots.push(None);
                },
            }
            i += 1;
        }
        let free_slots = self.free_slots.clone();
        assert(free_slots@ =~= self.free_slots@);
        let copy = InternContext { slots, free_slots, slot_lookup: self.slot_lookup.duplicate() };
        proof {
            assert(copy@.slots =~= self@.slots);
        }
        copy
    }
}

impl Default for InternContext {
    /// A pool without slots.
    fn default() -> (context: InternContext)
        ensures
            context.wf(),
            context@ == Pool::empty(),
    {
        InternContext::new()
    }
}

} // verus!
