//! Factory time: a day number and a slot within the day, for the planned
//! capacity-aware scheduler.

use vstd::prelude::*;

verus! {

/// How many production time slots one factory day has.
pub const TIME_SLOTS_IN_DAY: u32 = 12;

/// The slot of the day by which a finished order should be handed over.
pub const DELIVERY_WINDOW: u32 = 9;

/// A point of factory time: a day and a slot within that day.
#[derive(Clone, Copy, Debug, PartialEq, Eq, Structural)]
pub struct FactoryTime {
    day: u32,
    slot: u32,
}

impl FactoryTime {
    /// The day of this point of time.
    pub closed spec fn day(&self) -> u32 {
        self.day
    }

    /// The slot of this point of time.
    pub closed spec fn slot(&self) -> u32 {
        self.slot
    }

    pub fn new(day: u32, slot: u32) -> (r: FactoryTime)
        ensures
            r.day() == day,
            r.slot() == slot,
    {
        FactoryTime { day, slot }
    }

    /// The hand-over point of an order due on `due_date`: the delivery
    /// window slot of that day.
    pub fn from_due_time(due_date: u32) -> (r: FactoryTime)
        ensures
            r.day() == due_date,
            r.slot() == DELIVERY_WINDOW,
    {
        let day = due_date;
        let slot = DELIVERY_WINDOW;
        FactoryTime { day, slot }
    }

    /// Walks back by `rhs`: days subtract first; when the slot runs out it
    /// borrows one day's worth of slots, which needs a day beyond day one
    /// to borrow from. The borrow covers at most one day's worth of slots,
    /// so `rhs.slot()` may not exceed `self.slot()` by more than a day.
    pub fn checked_sub(&self, rhs: FactoryTime) -> (r: Option<FactoryTime>)
        requires
            self.slot() + TIME_SLOTS_IN_DAY <= u32::MAX,
            rhs.slot() <= self.slot() + TIME_SLOTS_IN_DAY,
        ensures
            self.day() < rhs.day() ==> r is None,
            self.day() >= rhs.day() && self.slot() >= rhs.slot() ==> r is Some
                && r->0.day() == self.day() - rhs.day()
                && r->0.slot() == self.slot() - rhs.slot(),
            self.day() >= rhs.day() && self.slot() < rhs.slot() && self.day() - rhs.day() <= 1
                ==> r is None,
            self.day() >= rhs.day() && self.slot() < rhs.slot() && self.day() - rhs.day() > 1
                ==> r is Some
                && r->0.day() == self.day() - rhs.day() - 1
                && r->0.slot() == self.slot() + TIME_SLOTS_IN_DAY - rhs.slot(),
    {
        let day = self.day;
        let slot = self.slot;

        let mut day = match day.checked_sub(rhs.day) {
            Some(d) => d,
            None => {
                return None;
            },
        };

        let slot = match slot.checked_sub(rhs.slot) {
            Some(s) => s,
            None => {
                if day <= 1 {
                    return None;
                }
                day = day - 1;
                slot + TIME_SLOTS_IN_DAY - rhs.slot
            },
        };

        Some(FactoryTime { day, slot })
    }

    /// Walks forward by `rhs`: slots past the end of a day carry into the
    /// next day. The day sum must fit, with room for the carry only when
    /// one happens.
    pub fn add(self, rhs: FactoryTime) -> (r: FactoryTime)
        requires
            self.day() + rhs.day() <= u32::MAX,
            self.slot() + rhs.slot() <= u32::MAX,
            self.slot() + rhs.slot() > TIME_SLOTS_IN_DAY ==> self.day() + rhs.day() + 1
                <= u32::MAX,
        ensures
            self.slot() + rhs.slot() > TIME_SLOTS_IN_DAY ==> r.day() == self.day() + rhs.day() + 1
                && r.slot() == self.slot() + rhs.slot() - TIME_SLOTS_IN_DAY,
            self.slot() + rhs.slot() <= TIME_SLOTS_IN_DAY ==> r.day() == self.day() + rhs.day()
                && r.slot() == self.slot() + rhs.slot(),
    {
        let mut day = self.day + rhs.day;
        let mut slot = self.slot + rhs.slot;

        if slot > TIME_SLOTS_IN_DAY {
            day = day + 1;
            slot = slot - TIME_SLOTS_IN_DAY;
        }

        FactoryTime { day, slot }
    }
}

} // verus!
