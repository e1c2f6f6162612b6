//! A visited-id set backed by a dense, epoch-stamped array.

use std::marker::PhantomData;

use vstd::prelude::*;

use crate::overflow;
use crate::overflow::OverflowSet;
use crate::utils::VectorId;

verus! {

/// Ids whose number is at or beyond this are sparse outliers, tracked in the overflow set
/// instead of growing the dense array. This covers every realistic id space while keeping
/// sentinel ids like `u32::MAX` from forcing a huge allocation.
pub const MAX_DENSE_SLOTS: usize = 0x4000_0000;

/// The smallest size that the dense array grows to.
pub const MIN_GROWN_SLOTS: usize = 64;

/// A record of which ids a search has visited.
pub trait VisitedTracker<I> {
    /// The tracker is in a state that its operations keep.
    spec fn tracker_wf(&self) -> bool;

    /// The ids that are marked as visited.
    spec fn visited_ids(&self) -> Set<I>;

    /// Mark `item` as visited, returning `true` if it was not marked before.
    fn mark_visited(&mut self, item: &I) -> (first_visit: bool)
        requires
            old(self).tracker_wf(),
        ensures
            final(self).tracker_wf(),
            final(self).visited_ids() == old(self).visited_ids().insert(*item),
            first_visit == !old(self).visited_ids().contains(*item),
    ;

    /// Return whether `item` is marked as visited.
    fn is_visited(&self, item: &I) -> (visited: bool)
        requires
            self.tracker_wf(),
        ensures
            visited == self.visited_ids().contains(*item),
    ;
}

/// A visited-id set backed by a dense, epoch-stamped array.
///
/// Each slot holds the 16-bit epoch in which the id was last inserted; `clear` simply bumps
/// the epoch, so resetting the set between queries is O(1) regardless of how many ids were
/// visited, except that the array is zeroed each time the epochs are exhausted. The backing
/// array grows on demand (doubling), and is reused across queries.
///
/// Ids at or beyond [`MAX_DENSE_SLOTS`] (sentinel ids such as `u32::MAX`) are tracked in a
/// small overflow hash set instead of growing the dense array to absurd sizes.
#[derive(Debug)]
pub struct StampedVisitedSet<I> {
    /// One slot per id; a slot equal to `epoch` means the id is in the set.
    pub stamps: Vec<u16>,
    /// The current epoch. Wraps to 1 (with a full zeroing pass) on u16 overflow.
    pub epoch: u16,
    /// The number of ids inserted in the current epoch.
    pub len: usize,
    /// Sentinel/sparse ids that must not grow the dense array.
    pub overflow: OverflowSet,
    pub _marker: PhantomData<I>,
}

/// How many of `stamps` carry `epoch`.
pub open spec fn live_slots(stamps: Seq<u16>, epoch: u16) -> nat
    decreases stamps.len(),
{
    if stamps.len() == 0 {
        0
    } else {
        live_slots(stamps.drop_last(), epoch) + if stamps.last() == epoch {
            1nat
        } else {
            0nat
        }
    }
}

/// The number of slots that a dense array of `slots` slots has once `number` was inserted.
pub open spec fn grown_slots(slots: int, number: u64) -> int {
    if number < slots || number >= MAX_DENSE_SLOTS {
        slots
    } else {
        let doubled = if number + 1 < 2 * slots {
            2 * slots
        } else {
            number + 1
        };
        if doubled < MIN_GROWN_SLOTS {
            MIN_GROWN_SLOTS as int
        } else if doubled > MAX_DENSE_SLOTS {
            MAX_DENSE_SLOTS as int
        } else {
            doubled
        }
    }
}

/// What a dense array holds once `number` was inserted in `epoch`: the slots that it grows by hold
/// zero, the slot of the number holds the epoch, and every other slot is as it was.
pub open spec fn stamped(stamps: Seq<u16>, epoch: u16, number: u64) -> Seq<u16> {
    Seq::new(
        grown_slots(stamps.len() as int, number) as nat,
        |slot: int|
            if slot == number {
                epoch
            } else if slot < stamps.len() {
                stamps[slot]
            } else {
                0
            },
    )
}

/// What a dense array holds once all of `ids` were inserted in `epoch`, one after the other.
pub open spec fn stamped_after<I: VectorId>(stamps: Seq<u16>, epoch: u16, ids: Seq<I>) -> Seq<u16>
    decreases ids.len(),
{
    if ids.len() == 0 {
        stamps
    } else {
        stamped(stamped_after(stamps, epoch, ids.drop_last()), epoch, ids.last().number())
    }
}

/// The number of slots that a dense array of `slots` slots has once all of `ids` were inserted,
/// one after the other.
pub open spec fn slots_after<I: VectorId>(slots: int, ids: Seq<I>) -> int
    decreases ids.len(),
{
    if ids.len() == 0 {
        slots
    } else {
        grown_slots(slots_after(slots, ids.drop_last()), ids.last().number())
    }
}

/// The dense array never shrinks and never outgrows its bound, it has a slot for every id below
/// the bound that was inserted, and an id at or beyond the bound leaves it as it is.
pub proof fn law_growth(slots: int, number: u64)
    requires
        0 <= slots <= MAX_DENSE_SLOTS,
    ensures
        slots <= grown_slots(slots, number) <= MAX_DENSE_SLOTS,
        number < MAX_DENSE_SLOTS ==> number < grown_slots(slots, number),
        number >= MAX_DENSE_SLOTS ==> grown_slots(slots, number) == slots,
{
}

/// The dense array is bounded by two to the power of thirty slots. Where it has to grow, it at
/// least doubles and has at least 64 slots, as far as the bound allows, and no more than one of
/// these asks for or than the id needs.
pub proof fn law_growth_doubles(slots: int, number: u64)
    requires
        0 <= slots <= 0x4000_0000,
    ensures
        number < slots || number >= 0x4000_0000 <==> grown_slots(slots, number) == slots,
        slots <= number < 0x4000_0000 ==> {
            let grown = grown_slots(slots, number);
            &&& number < grown <= 0x4000_0000
            &&& grown >= 2 * slots || grown == 0x4000_0000
            &&& grown >= 64
            &&& grown == 2 * slots || grown == 64 || grown == number + 1 || grown == 0x4000_0000
            &&& grown == 0x4000_0000 ==> 2 * slots >= grown || number + 1 == grown
        },
{
}

/// Inserting an id stamps its slot, if it has one, and no other slot: what was stamped stays, and
/// new slots carry no epoch.
pub proof fn law_one_slot_is_stamped(stamps: Seq<u16>, epoch: u16, number: u64, slot: int)
    requires
        stamps.len() <= 0x4000_0000,
        0 <= slot < stamped(stamps, epoch, number).len(),
    ensures
        stamped(stamps, epoch, number).len() == grown_slots(stamps.len() as int, number),
        slot == number ==> stamped(stamps, epoch, number)[slot] == epoch,
        slot != number && slot < stamps.len() ==> stamped(stamps, epoch, number)[slot]
            == stamps[slot],
        slot != number && slot >= stamps.len() ==> stamped(stamps, epoch, number)[slot] == 0,
{
}

/// Inserting ids one after the other stamps the slots of all of them and no other slot, and the
/// array grows as it does for one id at a time.
pub proof fn law_ids_are_stamped<I: VectorId>(stamps: Seq<u16>, epoch: u16, ids: Seq<I>)
    requires
        stamps.len() <= 0x4000_0000,
    ensures
        stamps.len() <= slots_after(stamps.len() as int, ids) <= 0x4000_0000,
        stamped_after(stamps, epoch, ids).len() == slots_after(stamps.len() as int, ids),
        ids.len() == 0 ==> slots_after(stamps.len() as int, ids) == stamps.len(),
        ids.len() > 0 ==> slots_after(stamps.len() as int, ids) == grown_slots(
            slots_after(stamps.len() as int, ids.drop_last()),
            ids.last().number(),
        ),
        forall|i: int|
            0 <= i < ids.len() && (#[trigger] ids[i]).number() < 0x4000_0000 ==> {
                &&& ids[i].number() < stamped_after(stamps, epoch, ids).len()
                &&& stamped_after(stamps, epoch, ids)[ids[i].number() as int] == epoch
            },
        forall|slot: int|
            0 <= slot < slots_after(stamps.len() as int, ids) && (forall|i: int|
                0 <= i < ids.len() ==> (#[trigger] ids[i]).number() != slot)
                ==> #[trigger] stamped_after(stamps, epoch, ids)[slot] == if slot < stamps.len() {
                stamps[slot]
            } else {
                0
            },
    decreases ids.len(),
{
    if ids.len() > 0 {
        let init = ids.drop_last();
        let before = stamped_after(stamps, epoch, init);
        law_ids_are_stamped(stamps, epoch, init);
        law_growth(before.len() as int, ids.last().number());
        assert forall|i: int|
            0 <= i < ids.len() && (#[trigger] ids[i]).number() < 0x4000_0000 implies ids[i].number()
            < stamped_after(stamps, epoch, ids).len() && stamped_after(
            stamps,
            epoch,
            ids,
        )[ids[i].number() as int] == epoch by {
            if i < ids.len() - 1 {
                assert(init[i] == ids[i]);
            }
        }
        assert forall|slot: int|
            0 <= slot < slots_after(stamps.len() as int, ids) && (forall|i: int|
                0 <= i < ids.len() ==> (#[trigger] ids[i]).number()
                    != slot) implies #[trigger] stamped_after(stamps, epoch, ids)[slot] == if slot
            < stamps.len() {
            stamps[slot]
        } else {
            0
        } by {
            assert(ids[ids.len() - 1].number() != slot);
            if slot < before.len() {
                assert forall|i: int| 0 <= i < init.len() implies (#[trigger] init[i]).number()
                    != slot by {
                    assert(init[i] == ids[i]);
                }
            }
        }
    }
}

/// The epoch after a clear is a new one that no stamp carries, until all epochs were used: then
/// they begin anew, with every stamp forgotten.
pub proof fn law_next_epoch<I: VectorId>(before: StampedVisitedSet<I>, after: StampedVisitedSet<I>)
    requires
        before.stamps_wf(),
        after.in_next_epoch(before),
    ensures
        before.epoch != 65535 ==> after.epoch - before.epoch == 1,
        before.epoch == 65535 ==> after.epoch == 1,
        after.stamps@.len() == before.stamps@.len(),
        forall|slot: int|
            0 <= slot < after.stamps@.len() ==> {
                &&& (#[trigger] after.stamps@[slot]) < after.epoch
                &&& after.stamps@[slot] == if before.epoch == 65535 {
                    0
                } else {
                    before.stamps@[slot]
                }
            },
{
}

/// A stamp is live in `stamps` exactly if the count of live slots is positive, and there are
/// no more live slots than slots.
proof fn lemma_live_slots_bounds(stamps: Seq<u16>, epoch: u16)
    ensures
        live_slots(stamps, epoch) <= stamps.len(),
        live_slots(stamps, epoch) == 0 <==> (forall|i: int|
            0 <= i < stamps.len() ==> stamps[i] != epoch),
    decreases stamps.len(),
{
    if stamps.len() > 0 {
        let init = stamps.drop_last();
        lemma_live_slots_bounds(init, epoch);
        assert(forall|i: int| 0 <= i < init.len() ==> init[i] == stamps[i]);
        assert(stamps.last() == stamps[stamps.len() - 1]);
    }
}

/// Slots that are not live do not count.
proof fn lemma_live_slots_grow(stamps: Seq<u16>, grown: Seq<u16>, epoch: u16)
    requires
        stamps.len() <= grown.len(),
        forall|i: int| 0 <= i < stamps.len() ==> grown[i] == stamps[i],
        forall|i: int| stamps.len() <= i < grown.len() ==> grown[i] != epoch,
    ensures
        live_slots(grown, epoch) == live_slots(stamps, epoch),
    decreases grown.len(),
{
    if grown.len() == stamps.len() {
        assert(grown =~= stamps);
    } else {
        lemma_live_slots_grow(stamps, grown.drop_last(), epoch);
    }
}

/// Stamping a slot that was not live makes one more live slot.
proof fn lemma_live_slots_stamp(stamps: Seq<u16>, slot: int, epoch: u16)
    requires
        0 <= slot < stamps.len(),
        stamps[slot] != epoch,
    ensures
        live_slots(stamps.update(slot, epoch), epoch) == live_slots(stamps, epoch) + 1,
    decreases stamps.len(),
{
    let stamped = stamps.update(slot, epoch);
    if slot == stamps.len() - 1 {
        assert(stamped.drop_last() =~= stamps.drop_last());
    } else {
        lemma_live_slots_stamp(stamps.drop_last(), slot, epoch);
        assert(stamped.drop_last() =~= stamps.drop_last().update(slot, epoch));
    }
}

impl<I: VectorId> View for StampedVisitedSet<I> {
    type V = Set<I>;

    /// The ids in the set.
    open spec fn view(&self) -> Set<I> {
        Set::new(|id: I| self.holds(id.number()))
    }
}

impl<I: VectorId> StampedVisitedSet<I> {
    /// Whether the id with this number is in the set.
    pub open spec fn holds(&self, number: u64) -> bool {
        if number < MAX_DENSE_SLOTS {
            number < self.stamps@.len() && self.stamps@[number as int] == self.epoch
        } else {
            overflow::numbers(self.overflow).contains(number)
        }
    }

    /// No stamp lies beyond the current epoch, the dense array is within its bound, and the
    /// overflow set holds only what lies beyond that bound.
    pub open spec fn stamps_wf(&self) -> bool {
        &&& self.epoch >= 1
        &&& self.stamps@.len() <= MAX_DENSE_SLOTS
        &&& forall|i: int| 0 <= i < self.stamps@.len() ==> self.stamps@[i] <= self.epoch
        &&& forall|number: u64| #[trigger]
            overflow::numbers(self.overflow).contains(number) ==> number >= MAX_DENSE_SLOTS
    }

    /// The invariant of the set: besides what holds of the stamps, `len` counts the ids in the
    /// set, those with a live slot and those in the overflow set.
    pub open spec fn wf(&self) -> bool {
        &&& self.stamps_wf()
        &&& overflow::numbers(self.overflow).finite()
        &&& 8 * overflow::numbers(self.overflow).len() <= isize::MAX
        &&& self.len == live_slots(self.stamps@, self.epoch) + overflow::numbers(
            self.overflow,
        ).len()
        &&& self@.finite()
        &&& self.len == self@.len()
    }

    /// The epoch is the one that follows that of `before`, and the stamps are as they were, except
    /// when the epoch counter was exhausted: then it restarts, and the stamps are zeroed.
    pub open spec fn in_next_epoch(&self, before: Self) -> bool {
        &&& self.stamps@.len() == before.stamps@.len()
        &&& if before.epoch < u16::MAX {
            self.epoch == before.epoch + 1 && self.stamps@ == before.stamps@
        } else {
            self.epoch == 1 && forall|i: int|
                0 <= i < self.stamps@.len() ==> self.stamps@[i] == 0
        }
    }

    /// Create an empty set with no preallocated storage.
    pub fn new() -> (set: Self)
        ensures
            set.wf(),
            set@ == Set::<I>::empty(),
            set.stamps@.len() == 0,
            set.epoch == 1,
    {
        Self::with_capacity(0)
    }

    /// Create an empty set with the stamp array presized to `capacity` slots.
    pub fn with_capacity(capacity: usize) -> (set: Self)
        ensures
            set.wf(),
            set@ == Set::<I>::empty(),
            set.stamps@.len() == if capacity < MAX_DENSE_SLOTS {
                capacity
            } else {
                MAX_DENSE_SLOTS
            },
            set.epoch == 1,
            set.len == 0,
            set.stamps@.len() == capacity || set.stamps@.len() == 0x4000_0000 < capacity,
            forall|slot: int| 0 <= slot < set.stamps@.len() ==> #[trigger] set.stamps@[slot] == 0,
    {
        let set = StampedVisitedSet {
            stamps: vec![0; capacity.min(MAX_DENSE_SLOTS)],
            epoch: 1,
            len: 0,
            overflow: OverflowSet::new(),
            _marker: PhantomData,
        };
        proof {
            lemma_live_slots_bounds(set.stamps@, set.epoch);
            assert(set@ =~= Set::<I>::empty());
        }
        set
    }

    /// Return whether the set is empty.
    pub fn is_empty(&self) -> (empty: bool)
        requires
            self.wf(),
        ensures
            empty == (self@ == Set::<I>::empty()),
    {
        proof {
            if self.len == 0 {
                self@.lemma_len0_is_empty();
            }
        }
        self.len == 0
    }

    /// Reset the set to empty by advancing the epoch. The stamps stay as they are, except when
    /// the epoch counter is exhausted: then they are zeroed and the counter restarts.
    pub fn clear(&mut self)
        requires
            old(self).stamps_wf(),
        ensures
            final(self).wf(),
            final(self)@ == Set::<I>::empty(),
            final(self).in_next_epoch(*old(self)),
    {
        self.len = 0;
        self.overflow.clear();
        self.epoch = self.epoch.wrapping_add(1);
        if self.epoch == 0 {
            // Wrapped through all epochs: every stamp is potentially live, so zero the array
            // and restart the epoch counter.
            let slots: usize = self.stamps.len();
            let mut slot: usize = 0;
            while slot < slots
                invariant
                    slot <= slots,
                    slots == self.stamps@.len(),
                    slots <= MAX_DENSE_SLOTS,
                    self.len == 0,
                    overflow::numbers(self.overflow) == Set::<u64>::empty(),
                    forall|i: int| 0 <= i < slot ==> self.stamps@[i] == 0,
                decreases slots - slot,
            {
                self.stamps[slot] = 0;
                slot += 1;
            }
            self.epoch = 1;
        }
        proof {
            lemma_live_slots_bounds(self.stamps@, self.epoch);
            assert(self@ =~= Set::<I>::empty());
        }
    }

    /// Insert `id` into the set, returning `true` if it was not already present.
    ///
    /// The dense array grows only for an id below [`MAX_DENSE_SLOTS`] that has no slot yet.
    pub fn insert(&mut self, id: I) -> (inserted: bool)
        requires
            old(self).wf(),
        ensures
            final(self).wf(),
            final(self)@ == old(self)@.insert(id),
            inserted == !old(self)@.contains(id),
            final(self).epoch == old(self).epoch,
            final(self).stamps@.len() == grown_slots(old(self).stamps@.len() as int, id.number()),
            final(self).stamps@ == stamped(old(self).stamps@, old(self).epoch, id.number()),
            final(self).len == old(self).len + if inserted {
                1int
            } else {
                0
            },
            id.number() >= 0x4000_0000 ==> final(self).stamps@ == old(self).stamps@,
            id.number() < 0x4000_0000 ==> {
                &&& id.number() < final(self).stamps@.len()
                &&& final(self).stamps@[id.number() as int] == old(self).epoch
            },
    {
        let number: u64 = id.into_u64();
        if number >= MAX_DENSE_SLOTS as u64 {
            let inserted = self.overflow.insert(number);
            proof {
                lemma_live_slots_bounds(self.stamps@, self.epoch);
            }
            if inserted {
                self.len += 1;
            }
            proof {
                self.lemma_inserted(*old(self), id);
            }
            return inserted;
        }
        let slot: usize = number as usize;
        if slot >= self.stamps.len() {
            let new_len: usize = (slot + 1).max(self.stamps.len() * 2).max(MIN_GROWN_SLOTS).min(
                MAX_DENSE_SLOTS,
            );
            self.stamps.resize(new_len, 0);
            proof {
                assert forall|i: int| 0 <= i < old(self).stamps@.len() implies self.stamps@[i]
                    == old(self).stamps@[i] by {
                    assert(self.stamps@.subrange(0, old(self).stamps@.len() as int)[i]
                        == self.stamps@[i]);
                }
                lemma_live_slots_grow(old(self).stamps@, self.stamps@, self.epoch);
            }
        }
        if self.stamps[slot] == self.epoch {
            proof {
                self.lemma_inserted(*old(self), id);
            }
            return false;
        }
        proof {
            lemma_live_slots_stamp(self.stamps@, slot as int, self.epoch);
            lemma_live_slots_bounds(self.stamps@.update(slot as int, self.epoch), self.epoch);
        }
        self.stamps[slot] = self.epoch;
        self.len += 1;
        proof {
            self.lemma_inserted(*old(self), id);
        }
        true
    }

    /// A set that holds one number more than `before`, that of `id`, is `before` with `id`.
    proof fn lemma_inserted(&self, before: Self, id: I)
        requires
            forall|number: u64| #[trigger]
                self.holds(number) == (before.holds(number) || number == id.number()),
        ensures
            self@ == before@.insert(id),
            before@.contains(id) ==> self@ == before@,
    {
        assert forall|other: I| self@.contains(other) == before@.insert(id).contains(other) by {
            assert(self.holds(other.number()) == (before.holds(other.number()) || other.number()
                == id.number()));
            if other.number() == id.number() {
                I::lemma_number_injective(other, id);
            }
        }
        assert(self@ =~= before@.insert(id));
        if before@.contains(id) {
            assert(before@.insert(id) =~= before@);
        }
    }

    /// Return whether `id` is in the set.
    pub fn contains(&self, id: &I) -> (present: bool)
        requires
            self.wf(),
        ensures
            present == self@.contains(*id),
    {
        let number: u64 = (*id).into_u64();
        if number < self.stamps.len() as u64 {
            self.stamps[number as usize] == self.epoch
        } else {
            self.overflow.contains(number)
        }
    }

    /// Insert every id of `ids` into the set.
    pub fn extend(&mut self, ids: &[I])
        requires
            old(self).wf(),
        ensures
            final(self).wf(),
            final(self)@ == old(self)@.union(ids@.to_set()),
            final(self).epoch == old(self).epoch,
            final(self).stamps@.len() == slots_after(old(self).stamps@.len() as int, ids@),
            final(self).stamps@ == stamped_after(old(self).stamps@, old(self).epoch, ids@),
    {
        let mut next: usize = 0;
        assert(self@ =~= old(self)@.union(ids@.take(0).to_set()));
        while next < ids.len()
            invariant
                next <= ids@.len(),
                self.wf(),
                self.epoch == old(self).epoch,
                self@ == old(self)@.union(ids@.take(next as int).to_set()),
                self.stamps@.len() == slots_after(
                    old(self).stamps@.len() as int,
                    ids@.take(next as int),
                ),
                self.stamps@ == stamped_after(
                    old(self).stamps@,
                    old(self).epoch,
                    ids@.take(next as int),
                ),
            decreases ids@.len() - next,
        {
            self.insert(ids[next]);
            proof {
                let taken = ids@.take(next as int);
                let more = ids@.take(next + 1);
                assert(more =~= taken.push(ids@[next as int]));
                assert(more.drop_last() =~= taken);
                assert forall|id: I| more.contains(id) == (taken.contains(id) || id
                    == ids@[next as int]) by {
                    if taken.contains(id) {
                        let i = choose|i: int| 0 <= i < taken.len() && taken[i] == id;
                        assert(more[i] == id);
                    }
                    assert(more[next as int] == ids@[next as int]);
                }
                assert(self@ =~= old(self)@.union(more.to_set()));
            }
            next += 1;
        }
        assert(ids@.take(ids@.len() as int) =~= ids@);
    }
}

impl<I: VectorId> Default for StampedVisitedSet<I> {
    fn default() -> (set: Self)
        ensures
            set.wf(),
            set@ == Set::<I>::empty(),
            set.stamps@.len() == 0,
            set.epoch == 1,
    {
        Self::new()
    }
}

impl<I: VectorId> VisitedTracker<I> for StampedVisitedSet<I> {
    open spec fn tracker_wf(&self) -> bool {
        self.wf()
    }

    open spec fn visited_ids(&self) -> Set<I> {
        self@
    }

    fn mark_visited(&mut self, item: &I) -> (first_visit: bool)
        ensures
            final(self).epoch == old(self).epoch,
            final(self).stamps@.len() == grown_slots(
                old(self).stamps@.len() as int,
                item.number(),
            ),
            final(self).stamps@ == stamped(old(self).stamps@, old(self).epoch, item.number()),
            final(self)@ == old(self)@.insert(*item),
            first_visit == !old(self)@.contains(*item),
    {
        self.insert(*item)
    }

    fn is_visited(&self, item: &I) -> (visited: bool)
        ensures
            visited == self@.contains(*item),
    {
        self.contains(item)
    }
}

} // verus!
