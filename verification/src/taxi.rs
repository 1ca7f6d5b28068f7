use vstd::prelude::*;

verus! {

/// A taxi: one server of the fleet. The pool is created once at simulation
/// start and never grows or shrinks; only the occupancy flag toggles. The
/// identity doubles as the taxi's index in the pool.
#[derive(Clone, Copy, Debug)]
pub struct Taxi {
    /// Identity, unique within the pool, immutable; equal to the taxi's
    /// position in the pool.
    pub id: u64,
    /// True while this taxi serves exactly one request.
    pub is_occupied: bool,
}

impl Taxi {
    /// Creates an unoccupied taxi with the given identity.
    pub fn new(id: u64) -> (t: Taxi)
        ensures
            t == (Taxi { id, is_occupied: false }),
    {
        Taxi { id, is_occupied: false }
    }
}

} // verus!
