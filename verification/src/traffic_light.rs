//! A traffic light as the smallest example of a pollable state machine.

use crate::simple_future::SimpleFuture;
use vstd::prelude::*;

verus! {

/// A traffic light that runs from green over yellow to red and stops there.
pub enum TrafficLightFuture {
    Green,
    Yellow,
    Red,
}

impl TrafficLightFuture {
    /// The light that follows this one. Red is the last: it follows itself.
    pub open spec fn following(self) -> Self {
        match self {
            TrafficLightFuture::Green => TrafficLightFuture::Yellow,
            TrafficLightFuture::Yellow => TrafficLightFuture::Red,
            TrafficLightFuture::Red => TrafficLightFuture::Red,
        }
    }

    /// The number of changes of light that are left until red.
    pub open spec fn changes_left(self) -> nat {
        match self {
            TrafficLightFuture::Green => 2,
            TrafficLightFuture::Yellow => 1,
            TrafficLightFuture::Red => 0,
        }
    }

    /// Switches the light to the one that follows it; a red light stays red.
    pub fn next_state(&mut self)
        ensures
            *final(self) == old(self).following(),
    {
        match self {
            TrafficLightFuture::Green => *self = TrafficLightFuture::Yellow,
            TrafficLightFuture::Yellow => *self = TrafficLightFuture::Red,
            TrafficLightFuture::Red => {},
        }
    }
}

/// The light as a task: every poll before red switches it on by one light,
/// and a poll at red completes. The light has no state of its own for "done",
/// so a poll after completion finds it red and completes once more.
impl SimpleFuture for TrafficLightFuture {
    type Output = ();

    open spec fn completes(&self) -> bool {
        true
    }

    open spec fn pending_polls(&self) -> nat {
        self.changes_left()
    }

    open spec fn outcome(&self) -> () {
        ()
    }

    fn poll(&mut self) -> (r: Option<()>)
        ensures
            r is Some <==> *old(self) == TrafficLightFuture::Red,
            *final(self) == old(self).following(),
    {
        match self {
            TrafficLightFuture::Green => *self = TrafficLightFuture::Yellow,
            TrafficLightFuture::Yellow => *self = TrafficLightFuture::Red,
            TrafficLightFuture::Red => return Some(()),
        }
        None
    }
}

} // verus!
