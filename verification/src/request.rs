use vstd::prelude::*;

verus! {

/// Ticks a freshly created request may spend waiting for a taxi before it
/// abandons.
pub const INITIAL_WAITING_BUDGET: u64 = 100;

/// Ticks a freshly created request may spend in service before it is
/// considered done.
pub const INITIAL_SERVICE_BUDGET: u64 = 100;

/// Somebody who tries to hail a taxi issues a `Request`: the desire to be
/// picked up. While unmatched its `remaining_waiting_time` counts down; once a
/// taxi is assigned its `fulfillment_time` counts down instead. When either
/// budget reaches zero the request is dead and is moved to the archive.
#[derive(Clone, Copy, Debug)]
pub struct Request {
    /// Identity, unique within one simulation run, immutable after creation.
    pub id: u64,
    /// Remaining ticks allowed unmatched before abandonment.
    pub remaining_waiting_time: u64,
    /// Identity of the taxi serving this request, `None` while waiting.
    pub assigned_taxi: Option<u64>,
    /// Remaining ticks allowed in service.
    pub fulfillment_time: u64,
}

impl Request {
    /// A request is alive while both budgets are strictly positive.
    pub open spec fn spec_alive(self) -> bool {
        self.remaining_waiting_time > 0 && self.fulfillment_time > 0
    }

    /// The value `Request::new(id)` returns: full budgets, no taxi.
    pub open spec fn fresh(id: u64) -> Request {
        Request {
            id,
            remaining_waiting_time: INITIAL_WAITING_BUDGET,
            assigned_taxi: None,
            fulfillment_time: INITIAL_SERVICE_BUDGET,
        }
    }

    /// How one tick transforms an active request: the identity is kept, and
    /// exactly one budget goes down by one — the service budget if the request
    /// ends the tick matched (it may have been matched within this very tick),
    /// the waiting budget if it ends the tick unmatched (in which case it was
    /// unmatched all along, since taxis are never taken away).
    pub open spec fn aged_once(before: Request, after: Request) -> bool {
        &&& after.id == before.id
        &&& if after.assigned_taxi.is_some() {
            &&& before.assigned_taxi.is_none() || after.assigned_taxi == before.assigned_taxi
            &&& after.fulfillment_time == before.fulfillment_time - 1
            &&& after.remaining_waiting_time == before.remaining_waiting_time
        } else {
            &&& before.assigned_taxi.is_none()
            &&& after.remaining_waiting_time == before.remaining_waiting_time - 1
            &&& after.fulfillment_time == before.fulfillment_time
        }
    }

    /// Creates a fresh request with full budgets and no taxi assigned.
    pub fn new(id: u64) -> (r: Request)
        ensures
            r == (Request {
                id,
                remaining_waiting_time: INITIAL_WAITING_BUDGET,
                assigned_taxi: None,
                fulfillment_time: INITIAL_SERVICE_BUDGET,
            }),
    {
        Request {
            id,
            remaining_waiting_time: INITIAL_WAITING_BUDGET,
            assigned_taxi: None,
            fulfillment_time: INITIAL_SERVICE_BUDGET,
        }
    }

    pub fn is_alive(&self) -> (r: bool)
        ensures
            r == self.spec_alive(),
    {
        self.remaining_waiting_time > 0 && self.fulfillment_time > 0
    }
}

} // verus!
