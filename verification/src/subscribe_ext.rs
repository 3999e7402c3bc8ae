//! Turning a one-shot resolver into a subscriber by polling it at a fixed
//! interval.
//!
//! The state machine alternates between waiting for an answer and sleeping
//! until the next interval; an answer equal to the last one delivered is
//! suppressed, so the consumer sees a value only when it changes.

use vstd::prelude::*;

use crate::addr::{Address, IpList};

verus! {

/// An interval-polled service subscription: answers are endpoint sets,
/// compared by set contents.
#[derive(Debug)]
pub struct IntervalResolver {
    last: Option<Address>,
    sleeping: bool,
}

/// An interval-polled host subscription: answers are host lists, compared
/// as lists.
#[derive(Debug)]
pub struct IntervalHostResolver {
    last: Option<IpList>,
    sleeping: bool,
}

impl IntervalResolver {
    /// The last value delivered, if any.
    pub closed spec fn last_spec(&self) -> Option<Address> {
        self.last
    }

    /// Whether the machine waits for the interval timer rather than for an
    /// answer.
    pub closed spec fn sleeping_spec(&self) -> bool {
        self.sleeping
    }

    /// A fresh subscription: a query is already in flight, nothing has been
    /// delivered.
    pub fn new() -> (r: IntervalResolver)
        ensures
            r.last_spec() is None,
            !r.sleeping_spec(),
    {
        IntervalResolver { last: None, sleeping: false }
    }

    /// The interval timer fired: issue a new query when asleep.
    pub fn on_timer(&mut self) -> (issue: bool)
        ensures
            issue == old(self).sleeping_spec(),
            !final(self).sleeping_spec(),
            final(self).last_spec() == old(self).last_spec(),
    {
        let was = self.sleeping;
        self.sleeping = false;
        was
    }

    /// An answer arrived: go back to sleep, and deliver the answer exactly
    /// when it differs — as a set — from the last one delivered.
    pub fn on_result(&mut self, a: Address) -> (emit: Option<Address>)
        requires
            !old(self).sleeping_spec(),
        ensures
            final(self).sleeping_spec(),
            final(self).last_spec() matches Some(l) && l@ == a@,
            ({
                let changed = match old(self).last_spec() {
                    Some(prev) => prev@.to_set() != a@.to_set(),
                    None => true,
                };
                if changed {
                    emit matches Some(v) && v@ == a@
                } else {
                    emit is None
                }
            }),
    {
        self.sleeping = true;
        let changed = match &self.last {
            Some(prev) => !prev.same_set(&a),
            None => true,
        };
        if changed {
            let out = a.duplicate();
            self.last = Some(a);
            Some(out)
        } else {
            self.last = Some(a);
            None
        }
    }
}

impl IntervalHostResolver {
    /// The last value delivered, if any.
    pub closed spec fn last_spec(&self) -> Option<IpList> {
        self.last
    }

    /// Whether the machine waits for the interval timer rather than for an
    /// answer.
    pub closed spec fn sleeping_spec(&self) -> bool {
        self.sleeping
    }

    /// A fresh subscription: a query is already in flight.
    pub fn new() -> (r: IntervalHostResolver)
        ensures
            r.last_spec() is None,
            !r.sleeping_spec(),
    {
        IntervalHostResolver { last: None, sleeping: false }
    }

    /// The interval timer fired: issue a new query when asleep.
    pub fn on_timer(&mut self) -> (issue: bool)
        ensures
            issue == old(self).sleeping_spec(),
            !final(self).sleeping_spec(),
            final(self).last_spec() == old(self).last_spec(),
    {
        let was = self.sleeping;
        self.sleeping = false;
        was
    }

    /// An answer arrived: go back to sleep, and deliver the answer exactly
    /// when it differs from the last one delivered.
    pub fn on_result(&mut self, l: IpList) -> (emit: Option<IpList>)
        requires
            !old(self).sleeping_spec(),
        ensures
            final(self).sleeping_spec(),
            final(self).last_spec() matches Some(x) && x@ == l@,
            ({
                let changed = match old(self).last_spec() {
                    Some(prev) => prev@ != l@,
                    None => true,
                };
                if changed {
                    emit matches Some(v) && v@ == l@
                } else {
                    emit is None
                }
            }),
    {
        self.sleeping = true;
        let changed = match &self.last {
            Some(prev) => !prev.same_as(&l),
            None => true,
        };
        if changed {
            let out = l.duplicate();
            self.last = Some(l);
            Some(out)
        } else {
            self.last = Some(l);
            None
        }
    }
}

} // verus!
