use vstd::prelude::*;

use crate::request::{Request, INITIAL_SERVICE_BUDGET, INITIAL_WAITING_BUDGET};
use crate::taxi::Taxi;

verus! {

/// Denominator of the per-tick arrival chance: the chance is given in parts
/// per million, and a value of `SPAWN_CHANCE_DENOM` or more means certainty.
pub const SPAWN_CHANCE_DENOM: u64 = 1000000;

/// The whole simulation state: a fixed taxi pool matched each tick against a
/// stream of requests, which move to an append-only archive when a budget
/// runs out.
pub struct World {
    /// How long the `World` updates for, in ticks.
    pub runtime: u64,

    /// How long the `World` has been running for.
    pub age: u64,

    /// Chance to spawn a request per tick, in parts per million, at most
    /// `SPAWN_CHANCE_DENOM`.
    pub spawn_chance_ppm: u64,

    /// When the number of active requests reaches this number, no further
    /// requests are allowed to spawn.
    pub max_active_requests: u32,

    /// The taxi pool; created once, fixed size, taxi `t` has identity `t`.
    pub taxis: Vec<Taxi>,

    /// Currently active requests, in arrival order. These are either being
    /// waited for or are being driven.
    pub active_requests: Vec<Request>,

    /// Abandoned or fulfilled requests, in the order they died. Append only.
    pub archived_requests: Vec<Request>,

    /// Identity for the next request to spawn; each request takes the current
    /// value and the counter moves on, so identities are unique per run.
    pub next_request_id: u64,
}

impl World {
    /// Every taxi's identity equals its index in the pool.
    pub open spec fn taxis_wf(self) -> bool {
        forall|t: int|
            0 <= t < self.taxis@.len() ==> (#[trigger] self.taxis@[t]).id == t
    }

    /// Every assignment names a taxi that exists in the pool.
    pub open spec fn assigned_in_range(self) -> bool {
        forall|i: int|
            0 <= i < self.active_requests@.len()
                && (#[trigger] self.active_requests@[i]).assigned_taxi.is_some()
                ==> self.active_requests@[i].assigned_taxi.unwrap() < self.taxis@.len()
    }

    /// No two active requests are served by the same taxi.
    pub open spec fn assignments_exclusive(self) -> bool {
        forall|i: int, j: int|
            0 <= i < j < self.active_requests@.len()
                && (#[trigger] self.active_requests@[i]).assigned_taxi.is_some()
                && (#[trigger] self.active_requests@[j]).assigned_taxi.is_some()
                ==> self.active_requests@[i].assigned_taxi
                    != self.active_requests@[j].assigned_taxi
    }

    /// A taxi is occupied exactly when some active request is assigned to it.
    /// Together with `assignments_exclusive` this makes occupancy a bijection
    /// between occupied taxis and matched active requests.
    pub open spec fn occupancy_matches(self) -> bool {
        forall|t: int|
            0 <= t < self.taxis@.len() ==> ((#[trigger] self.taxis@[t]).is_occupied
                <==> exists|i: int|
                    0 <= i < self.active_requests@.len()
                        && (#[trigger] self.active_requests@[i]).assigned_taxi == Some(
                        t as u64,
                    ))
    }

    /// The taxi-side consistency of the state.
    pub open spec fn matching_wf(self) -> bool {
        &&& self.taxis_wf()
        &&& self.assigned_in_range()
        &&& self.assignments_exclusive()
        &&& self.occupancy_matches()
    }

    /// Request identities are below the counter and pairwise distinct, both
    /// among the active requests, among the archived ones, and across the two.
    pub open spec fn ids_wf(self) -> bool {
        &&& forall|i: int|
            0 <= i < self.active_requests@.len()
                ==> (#[trigger] self.active_requests@[i]).id < self.next_request_id
        &&& forall|i: int|
            0 <= i < self.archived_requests@.len()
                ==> (#[trigger] self.archived_requests@[i]).id < self.next_request_id
        &&& forall|i: int, j: int|
            0 <= i < j < self.active_requests@.len()
                ==> (#[trigger] self.active_requests@[i]).id
                    != (#[trigger] self.active_requests@[j]).id
        &&& forall|i: int, j: int|
            0 <= i < j < self.archived_requests@.len()
                ==> (#[trigger] self.archived_requests@[i]).id
                    != (#[trigger] self.archived_requests@[j]).id
        &&& forall|i: int, j: int|
            0 <= i < self.active_requests@.len() && 0 <= j < self.archived_requests@.len()
                ==> (#[trigger] self.active_requests@[i]).id
                    != (#[trigger] self.archived_requests@[j]).id
    }

    /// Across tick boundaries, no dead request sits in the active set.
    pub open spec fn active_alive(self) -> bool {
        forall|i: int|
            0 <= i < self.active_requests@.len()
                ==> (#[trigger] self.active_requests@[i]).spec_alive()
    }

    /// Every archived request died: one of its budgets reached zero.
    pub open spec fn archived_dead(self) -> bool {
        forall|j: int|
            0 <= j < self.archived_requests@.len()
                ==> !(#[trigger] self.archived_requests@[j]).spec_alive()
    }

    /// The capacity ceiling holds of the active set.
    pub open spec fn capacity_wf(self) -> bool {
        self.active_requests@.len() <= self.max_active_requests
    }

    /// The arrival chance is a clamped fraction of `SPAWN_CHANCE_DENOM`.
    pub open spec fn chance_wf(self) -> bool {
        self.spawn_chance_ppm <= SPAWN_CHANCE_DENOM
    }

    /// Well-formedness of the whole state: established by `new` and preserved
    /// by every tick.
    pub open spec fn wf(self) -> bool {
        &&& self.matching_wf()
        &&& self.ids_wf()
        &&& self.active_alive()
        &&& self.archived_dead()
        &&& self.capacity_wf()
        &&& self.chance_wf()
    }

    /// Builds a fresh world: an unoccupied taxi pool of the requested size,
    /// no requests, age zero. A spawn chance above certainty is clamped to
    /// `SPAWN_CHANCE_DENOM`; a zero capacity or a zero pool are legal and
    /// degenerate.
    pub fn new(
        runtime: u64,
        spawn_chance_ppm: u64,
        max_active_requests: u32,
        number_of_taxis: u32,
    ) -> (w: World)
        ensures
            w.wf(),
            w.runtime == runtime,
            w.age == 0,
            w.spawn_chance_ppm == if spawn_chance_ppm <= SPAWN_CHANCE_DENOM {
                spawn_chance_ppm
            } else {
                SPAWN_CHANCE_DENOM
            },
            w.max_active_requests == max_active_requests,
            w.taxis@.len() == number_of_taxis,
            forall|t: int|
                0 <= t < number_of_taxis ==> (#[trigger] w.taxis@[t]) == (Taxi {
                    id: t as u64,
                    is_occupied: false,
                }),
            w.active_requests@.len() == 0,
            w.archived_requests@.len() == 0,
            w.next_request_id == 0,
    {
        let mut taxis: Vec<Taxi> = Vec::new();
        let mut t: u32 = 0;
        while t < number_of_taxis
            invariant
                t <= number_of_taxis,
                taxis@.len() == t,
                forall|k: int|
                    0 <= k < t ==> (#[trigger] taxis@[k]) == (Taxi {
                        id: k as u64,
                        is_occupied: false,
                    }),
            decreases number_of_taxis - t,
        {
            taxis.push(Taxi::new(t as u64));
            t = t + 1;
        }

        let chance: u64 = if spawn_chance_ppm <= SPAWN_CHANCE_DENOM {
            spawn_chance_ppm
        } else {
            SPAWN_CHANCE_DENOM
        };

        World {
            runtime,
            age: 0,
            spawn_chance_ppm: chance,
            max_active_requests,
            taxis,
            active_requests: Vec::new(),
            archived_requests: Vec::new(),
            next_request_id: 0,
        }
    }

    /// Whether a given random draw admits a new request in this state: there
    /// is room below the capacity ceiling, and the draw falls inside the
    /// configured fraction of `SPAWN_CHANCE_DENOM`. With a chance of
    /// `SPAWN_CHANCE_DENOM` every draw is admitted; with zero, none is.
    pub open spec fn spawn_admits(self, draw: u64) -> bool {
        &&& self.active_requests@.len() < self.max_active_requests
        &&& draw % SPAWN_CHANCE_DENOM < self.spawn_chance_ppm
    }

    /// The arrival step, decided by an externally supplied draw: appends one
    /// fresh request (full budgets, no taxi) when `spawn_admits` holds of the
    /// draw, and does nothing otherwise. Never spawns at or above capacity.
    pub fn spawn_with_draw(&mut self, draw: u64)
        requires
            old(self).wf(),
            old(self).next_request_id < u64::MAX,
        ensures
            final(self).wf(),
            final(self).runtime == old(self).runtime,
            final(self).age == old(self).age,
            final(self).spawn_chance_ppm == old(self).spawn_chance_ppm,
            final(self).max_active_requests == old(self).max_active_requests,
            final(self).taxis@ == old(self).taxis@,
            final(self).archived_requests@ == old(self).archived_requests@,
            old(self).spawn_admits(draw)
                ==> final(self).active_requests@ == old(self).active_requests@.push(
                    Request::fresh(old(self).next_request_id),
                ),
            old(self).spawn_admits(draw)
                ==> final(self).next_request_id == old(self).next_request_id + 1,
            !old(self).spawn_admits(draw)
                ==> final(self).active_requests@ == old(self).active_requests@,
            !old(self).spawn_admits(draw)
                ==> final(self).next_request_id == old(self).next_request_id,
    {
        if (self.active_requests.len() as u64) < (self.max_active_requests as u64)
            && draw % SPAWN_CHANCE_DENOM < self.spawn_chance_ppm {
            let fresh_id = self.next_request_id;
            self.active_requests.push(Request::new(fresh_id));
            self.next_request_id = self.next_request_id + 1;

            proof {
                let pre = old(self);
                let post = *self;
                assert(post.active_requests@.last() == Request::fresh(pre.next_request_id));
                assert forall|t: int| 0 <= t < post.taxis@.len() implies (
                (#[trigger] post.taxis@[t]).is_occupied <==> exists|i: int|
                    0 <= i < post.active_requests@.len()
                        && (#[trigger] post.active_requests@[i]).assigned_taxi == Some(
                        t as u64,
                    )) by {
                    if post.taxis@[t].is_occupied {
                        let w = choose|i: int|
                            0 <= i < pre.active_requests@.len()
                                && (#[trigger] pre.active_requests@[i]).assigned_taxi == Some(
                                t as u64,
                            );
                        assert(post.active_requests@[w].assigned_taxi == Some(t as u64));
                    } else {
                        if exists|i: int|
                            0 <= i < post.active_requests@.len()
                                && (#[trigger] post.active_requests@[i]).assigned_taxi == Some(
                                t as u64,
                            ) {
                            let w = choose|i: int|
                                0 <= i < post.active_requests@.len()
                                    && (#[trigger] post.active_requests@[i]).assigned_taxi == Some(
                                    t as u64,
                                );
                            assert(w < pre.active_requests@.len());
                            assert(pre.active_requests@[w].assigned_taxi == Some(t as u64));
                        }
                    }
                }
            }
        }
    }

    /// The matching step of one tick: binds waiting requests to free taxis,
    /// greedily and in arrival order, until either every waiting request is
    /// served or no free taxi remains. A request already matched keeps its
    /// taxi; a newly matched request takes a taxi that was free when the step
    /// began; once matching stops for want of taxis, every later request is
    /// left waiting.
    pub fn distribute_unfulfilled_requests(&mut self)
        requires
            old(self).wf(),
        ensures
            final(self).wf(),
            final(self).runtime == old(self).runtime,
            final(self).age == old(self).age,
            final(self).spawn_chance_ppm == old(self).spawn_chance_ppm,
            final(self).max_active_requests == old(self).max_active_requests,
            final(self).next_request_id == old(self).next_request_id,
            final(self).archived_requests@ == old(self).archived_requests@,
            final(self).active_requests@.len() == old(self).active_requests@.len(),
            final(self).taxis@.len() == old(self).taxis@.len(),
            forall|j: int|
                0 <= j < old(self).active_requests@.len() ==> {
                    &&& (#[trigger] final(self).active_requests@[j]).id == old(self).active_requests@[j].id
                    &&& final(self).active_requests@[j].remaining_waiting_time == old(self).active_requests@[j].remaining_waiting_time
                    &&& final(self).active_requests@[j].fulfillment_time == old(self).active_requests@[j].fulfillment_time
                },
            forall|j: int|
                0 <= j < old(self).active_requests@.len() && (#[trigger] old(self).active_requests@[j]).assigned_taxi.is_some()
                    ==> final(self).active_requests@[j].assigned_taxi == old(self).active_requests@[j].assigned_taxi,
            forall|t: int|
                0 <= t < old(self).taxis@.len() && (#[trigger] old(self).taxis@[t]).is_occupied ==> final(self).taxis@[t].is_occupied,
            forall|t: int|
                0 <= t < old(self).taxis@.len() ==> (#[trigger] final(self).taxis@[t]).id
                    == old(self).taxis@[t].id,
            forall|j: int|
                0 <= j < old(self).active_requests@.len() && old(self).active_requests@[j].assigned_taxi.is_none() && (#[trigger] final(self).active_requests@[j]).assigned_taxi.is_some() ==> {
                    &&& final(self).active_requests@[j].assigned_taxi.unwrap() < old(self).taxis@.len()
                    &&& !old(self).taxis@[final(self).active_requests@[j].assigned_taxi.unwrap() as int].is_occupied
                },
            forall|j: int, t: int|
                0 <= j < old(self).active_requests@.len() && 0 <= t < old(self).taxis@.len()
                    && (#[trigger] final(self).active_requests@[j]).assigned_taxi.is_none()
                    ==> (#[trigger] final(self).taxis@[t]).is_occupied,
            forall|j1: int, j2: int|
                0 <= j1 < j2 < old(self).active_requests@.len() && old(self).active_requests@[j2].assigned_taxi.is_none() && (#[trigger] final(self).active_requests@[j2]).assigned_taxi.is_some()
                    ==> (#[trigger] final(self).active_requests@[j1]).assigned_taxi.is_some(),
    {
        let ghost pre = *old(self);
        let mut i: usize = 0;
        let mut ti: usize = 0;
        while i < self.active_requests.len() && ti < self.taxis.len()
            invariant
                pre.wf(),
                i <= self.active_requests@.len(),
                ti <= self.taxis@.len(),
                self.active_requests@.len() == pre.active_requests@.len(),
                self.taxis@.len() == pre.taxis@.len(),
                self.runtime == pre.runtime,
                self.age == pre.age,
                self.spawn_chance_ppm == pre.spawn_chance_ppm,
                self.max_active_requests == pre.max_active_requests,
                self.next_request_id == pre.next_request_id,
                self.archived_requests@ == pre.archived_requests@,
                forall|t: int|
                    0 <= t < ti ==> (#[trigger] self.taxis@[t]).is_occupied,
                forall|t: int|
                    0 <= t < self.taxis@.len() ==> (#[trigger] self.taxis@[t]).id
                        == pre.taxis@[t].id,
                forall|t: int|
                    0 <= t < self.taxis@.len() && (#[trigger] pre.taxis@[t]).is_occupied
                        ==> self.taxis@[t].is_occupied,
                forall|j: int|
                    0 <= j < self.active_requests@.len() ==> {
                        &&& (#[trigger] self.active_requests@[j]).id
                            == pre.active_requests@[j].id
                        &&& self.active_requests@[j].remaining_waiting_time
                            == pre.active_requests@[j].remaining_waiting_time
                        &&& self.active_requests@[j].fulfillment_time
                            == pre.active_requests@[j].fulfillment_time
                    },
                forall|j: int|
                    0 <= j < self.active_requests@.len() && (#[trigger] pre
                        .active_requests@[j]).assigned_taxi.is_some()
                        ==> self.active_requests@[j].assigned_taxi
                        == pre.active_requests@[j].assigned_taxi,
                forall|j: int|
                    i <= j < self.active_requests@.len()
                        ==> (#[trigger] self.active_requests@[j])
                        == pre.active_requests@[j],
                forall|j: int|
                    0 <= j < i ==> (#[trigger] self.active_requests@[j]).assigned_taxi
                        .is_some(),
                forall|j: int|
                    0 <= j < self.active_requests@.len() && pre.active_requests@[j]
                        .assigned_taxi.is_none() && (#[trigger] self.active_requests@[j])
                        .assigned_taxi.is_some() ==> {
                        &&& self.active_requests@[j].assigned_taxi.unwrap()
                            < self.taxis@.len()
                        &&& !pre.taxis@[self.active_requests@[j].assigned_taxi.unwrap() as int].is_occupied
                    },
                forall|j: int|
                    0 <= j < self.active_requests@.len() && (#[trigger] self
                        .active_requests@[j]).assigned_taxi.is_some() ==> {
                        &&& self.active_requests@[j].assigned_taxi.unwrap()
                            < self.taxis@.len()
                        &&& self.taxis@[self.active_requests@[j].assigned_taxi.unwrap() as int].is_occupied
                    },
                forall|t: int|
                    0 <= t < self.taxis@.len() && (#[trigger] self.taxis@[t]).is_occupied
                        && !pre.taxis@[t].is_occupied ==> exists|j: int|
                        0 <= j < i && (#[trigger] self.active_requests@[j]).assigned_taxi
                            == Some(t as u64),
                self.assignments_exclusive(),
            decreases (self.active_requests@.len() - i) + (self.taxis@.len() - ti),
        {
            let ghost snap = *self;
            let ghost i0 = i as int;
            if self.active_requests[i].assigned_taxi.is_none() {
                ti = find_free_from(&self.taxis, ti);
                if ti < self.taxis.len() {
                    let ghost t0 = ti as int;
                    self.active_requests[i].assigned_taxi = Some(ti as u64);
                    self.taxis[ti].is_occupied = true;
                    ti = ti + 1;
                    i = i + 1;
                    proof {
                        assert forall|t: int|
                            0 <= t < self.taxis@.len() && (#[trigger] self.taxis@[t]).is_occupied
                                && !pre.taxis@[t].is_occupied implies exists|j: int|
                            0 <= j < i && (#[trigger] self.active_requests@[j]).assigned_taxi
                                == Some(t as u64) by {
                            if t == t0 {
                                assert(self.active_requests@[i0].assigned_taxi == Some(
                                    t as u64,
                                ));
                            } else {
                                assert(snap.taxis@[t].is_occupied);
                                let w = choose|j: int|
                                    0 <= j < i0 && (#[trigger] snap.active_requests@[j])
                                        .assigned_taxi == Some(t as u64);
                                assert(self.active_requests@[w].assigned_taxi == Some(
                                    t as u64,
                                ));
                            }
                        }
                    }
                }
            } else {
                i = i + 1;
            }
        }
        proof {
            assert forall|t: int| 0 <= t < self.taxis@.len() implies (
            (#[trigger] self.taxis@[t]).is_occupied <==> exists|k: int|
                0 <= k < self.active_requests@.len()
                    && (#[trigger] self.active_requests@[k]).assigned_taxi == Some(
                    t as u64,
                )) by {
                if self.taxis@[t].is_occupied {
                    if old(self).taxis@[t].is_occupied {
                        let w = choose|k: int|
                            0 <= k < old(self).active_requests@.len()
                                && (#[trigger] old(self).active_requests@[k]).assigned_taxi
                                == Some(t as u64);
                        assert(self.active_requests@[w].assigned_taxi == Some(t as u64));
                    }
                } else {
                    if exists|k: int|
                        0 <= k < self.active_requests@.len()
                            && (#[trigger] self.active_requests@[k]).assigned_taxi == Some(
                            t as u64,
                        ) {
                        let w = choose|k: int|
                            0 <= k < self.active_requests@.len()
                                && (#[trigger] self.active_requests@[k]).assigned_taxi
                                == Some(t as u64);
                        assert(self.taxis@[t].is_occupied);
                    }
                }
            }
        }
    }

    /// The lifecycle step of one tick: every active request has exactly one
    /// budget ticked down by one — the service budget if a taxi is assigned,
    /// the waiting budget otherwise. A request spawned earlier in the same
    /// tick is aged here too: that is a fixed design choice, not an accident.
    /// Budgets may reach zero here; the archiver runs next in the same tick
    /// and restores the all-alive invariant.
    pub fn update_requests(&mut self)
        requires
            old(self).wf(),
        ensures
            final(self).runtime == old(self).runtime,
            final(self).age == old(self).age,
            final(self).spawn_chance_ppm == old(self).spawn_chance_ppm,
            final(self).max_active_requests == old(self).max_active_requests,
            final(self).next_request_id == old(self).next_request_id,
            final(self).archived_requests@ == old(self).archived_requests@,
            final(self).taxis@ == old(self).taxis@,
            final(self).active_requests@.len() == old(self).active_requests@.len(),
            forall|j: int|
                0 <= j < old(self).active_requests@.len() ==> {
                    &&& (#[trigger] final(self).active_requests@[j]).id == old(self).active_requests@[j].id
                    &&& final(self).active_requests@[j].assigned_taxi == old(self).active_requests@[j].assigned_taxi
                    &&& if old(self).active_requests@[j].assigned_taxi.is_some() {
                        final(self).active_requests@[j].fulfillment_time == old(self).active_requests@[j].fulfillment_time - 1 && final(self).active_requests@[j].remaining_waiting_time == old(self).active_requests@[j].remaining_waiting_time
                    } else {
                        final(self).active_requests@[j].remaining_waiting_time == old(self).active_requests@[j].remaining_waiting_time - 1 && final(self).active_requests@[j].fulfillment_time == old(self).active_requests@[j].fulfillment_time
                    }
                },
            final(self).matching_wf(),
            final(self).ids_wf(),
            final(self).archived_dead(),
            final(self).capacity_wf(),
            final(self).chance_wf(),
    {
        let ghost pre = *old(self);
        let mut j: usize = 0;
        while j < self.active_requests.len()
            invariant
                old(self).wf(),
                j <= self.active_requests@.len(),
                self.active_requests@.len() == old(self).active_requests@.len(),
                self.runtime == old(self).runtime,
                self.age == old(self).age,
                self.spawn_chance_ppm == old(self).spawn_chance_ppm,
                self.max_active_requests == old(self).max_active_requests,
                self.next_request_id == old(self).next_request_id,
                self.archived_requests@ == old(self).archived_requests@,
                self.taxis@ == old(self).taxis@,
                forall|k: int|
                    j <= k < self.active_requests@.len()
                        ==> (#[trigger] self.active_requests@[k])
                        == old(self).active_requests@[k],
                forall|k: int|
                    0 <= k < j ==> {
                        &&& (#[trigger] self.active_requests@[k]).id
                            == old(self).active_requests@[k].id
                        &&& self.active_requests@[k].assigned_taxi
                            == old(self).active_requests@[k].assigned_taxi
                        &&& if old(self).active_requests@[k].assigned_taxi.is_some() {
                            self.active_requests@[k].fulfillment_time
                                == old(self).active_requests@[k].fulfillment_time - 1
                                && self.active_requests@[k].remaining_waiting_time
                                == old(self).active_requests@[k].remaining_waiting_time
                        } else {
                            self.active_requests@[k].remaining_waiting_time
                                == old(self).active_requests@[k].remaining_waiting_time - 1
                                && self.active_requests@[k].fulfillment_time
                                == old(self).active_requests@[k].fulfillment_time
                        }
                    },
            decreases self.active_requests@.len() - j,
        {
            if self.active_requests[j].assigned_taxi.is_some() {
                let v = self.active_requests[j].fulfillment_time;
                self.active_requests[j].fulfillment_time = v - 1;
            } else {
                let v = self.active_requests[j].remaining_waiting_time;
                self.active_requests[j].remaining_waiting_time = v - 1;
            }
            j = j + 1;
        }
        proof {
            lemma_matching_transfer(pre, *self);
        }
    }

    /// The archive step of one tick: every active request that is no longer
    /// alive is appended to the archive, in active-set order, and the taxi it
    /// held, if any, is released; the still-alive requests stay active, in
    /// their order. A taxi serving a still-alive request is never released.
    /// Dead requests leave the active set the same tick they die, so no
    /// request is ever archived twice.
    pub fn cleanup_requests(&mut self)
        requires
            old(self).matching_wf(),
            old(self).ids_wf(),
            old(self).archived_dead(),
            old(self).capacity_wf(),
            old(self).chance_wf(),
        ensures
            final(self).wf(),
            final(self).runtime == old(self).runtime,
            final(self).age == old(self).age,
            final(self).spawn_chance_ppm == old(self).spawn_chance_ppm,
            final(self).max_active_requests == old(self).max_active_requests,
            final(self).next_request_id == old(self).next_request_id,
            final(self).taxis@.len() == old(self).taxis@.len(),
            forall|t: int|
                0 <= t < old(self).taxis@.len() ==> (#[trigger] final(self).taxis@[t]).id
                    == old(self).taxis@[t].id,
            final(self).active_requests@ == old(self).active_requests@.filter(alive_pred()),
            final(self).archived_requests@ == old(self).archived_requests@ + old(self).active_requests@.filter(dead_pred()),
            forall|t: int|
                0 <= t < old(self).taxis@.len() ==> ((#[trigger] final(self).taxis@[t]).is_occupied
                    <==> (exists|j: int|
                        0 <= j < old(self).active_requests@.len() && (#[trigger] old(self).active_requests@[j]).assigned_taxi == Some(t as u64) && old(self).active_requests@[j].spec_alive())),
    {
        let len = self.active_requests.len();

        // First pass: copy every dead request to the archive and release the
        // taxi it held.
        let mut i: usize = 0;
        while i < len
            invariant
                old(self).matching_wf(),
                old(self).ids_wf(),
                old(self).archived_dead(),
                i <= len,
                len == old(self).active_requests@.len(),
                self.active_requests@ == old(self).active_requests@,
                self.runtime == old(self).runtime,
                self.age == old(self).age,
                self.spawn_chance_ppm == old(self).spawn_chance_ppm,
                self.max_active_requests == old(self).max_active_requests,
                self.next_request_id == old(self).next_request_id,
                self.taxis@.len() == old(self).taxis@.len(),
                forall|t: int|
                    0 <= t < old(self).taxis@.len() ==> (#[trigger] self.taxis@[t]).id
                        == old(self).taxis@[t].id,
                forall|t: int|
                    0 <= t < old(self).taxis@.len() ==> ((#[trigger] self.taxis@[t]).is_occupied
                        <==> (old(self).taxis@[t].is_occupied && !(exists|j: int|
                            0 <= j < i && (#[trigger] old(self).active_requests@[j]).assigned_taxi
                                == Some(t as u64) && !old(self).active_requests@[j].spec_alive()))),
                self.archived_requests@ == old(self).archived_requests@ + old(self).active_requests@.take(
                    i as int,
                ).filter(dead_pred()),
                forall|x: int|
                    old(self).archived_requests@.len() <= x < self.archived_requests@.len()
                        ==> exists|j: int|
                        0 <= j < i && (#[trigger] self.archived_requests@[x])
                            == old(self).active_requests@[j],
                forall|x1: int, x2: int|
                    0 <= x1 < x2 < self.archived_requests@.len()
                        ==> (#[trigger] self.archived_requests@[x1]).id
                        != (#[trigger] self.archived_requests@[x2]).id,
            decreases len - i,
        {
            let r = self.active_requests[i];
            let ghost snap = *self;
            if !r.is_alive() {
                self.archived_requests.push(r);
                if let Some(tid) = r.assigned_taxi {
                    let pool = self.taxis.len();
                    proof {
                        assert(old(self).active_requests@[i as int].assigned_taxi.unwrap()
                            < old(self).taxis@.len());
                        assert(tid < pool);
                    }
                    let t_idx = tid as usize;
                    self.taxis[t_idx].is_occupied = false;
                }
            }
            proof {
                lemma_filter_take_step(old(self).active_requests@, dead_pred(), i as int);
                assert(self.archived_requests@ =~= old(self).archived_requests@
                    + old(self).active_requests@.take(i as int + 1).filter(dead_pred()));
                assert forall|x: int|
                    old(self).archived_requests@.len() <= x < self.archived_requests@.len() implies exists|j: int|
                    0 <= j < i + 1 && (#[trigger] self.archived_requests@[x])
                        == old(self).active_requests@[j] by {
                    if x < snap.archived_requests@.len() {
                        let w = choose|j: int|
                            0 <= j < i && (#[trigger] snap.archived_requests@[x])
                                == old(self).active_requests@[j];
                        assert(self.archived_requests@[x] == old(self).active_requests@[w]);
                    } else {
                        assert(self.archived_requests@[x] == old(self).active_requests@[i as int]);
                    }
                }
                assert forall|x1: int, x2: int|
                    0 <= x1 < x2 < self.archived_requests@.len() implies (#[trigger] self
                    .archived_requests@[x1]).id != (#[trigger] self.archived_requests@[x2]).id by {
                    if x2 >= snap.archived_requests@.len() {
                        assert(self.archived_requests@[x2] == old(self).active_requests@[i as int]);
                        if x1 < old(self).archived_requests@.len() {
                            assert(self.archived_requests@[x1] == old(self).archived_requests@[x1]);
                        } else {
                            let w = choose|j: int|
                                0 <= j < i && (#[trigger] snap.archived_requests@[x1])
                                    == old(self).active_requests@[j];
                            assert(self.archived_requests@[x1] == old(self).active_requests@[w]);
                        }
                    }
                }
                assert forall|t: int|
                    0 <= t < old(self).taxis@.len() implies ((#[trigger] self.taxis@[t]).is_occupied
                    <==> (old(self).taxis@[t].is_occupied && !(exists|j: int|
                        0 <= j < i + 1 && (#[trigger] old(self).active_requests@[j]).assigned_taxi
                            == Some(t as u64) && !old(self).active_requests@[j].spec_alive()))) by {
                    let ri = old(self).active_requests@[i as int];
                    if self.taxis@[t].is_occupied {
                        assert(snap.taxis@[t].is_occupied);
                        if ri.assigned_taxi == Some(t as u64) && !ri.spec_alive() {
                            assert(!self.taxis@[t].is_occupied);
                        }
                        if exists|j: int|
                            0 <= j < i && (#[trigger] old(self).active_requests@[j]).assigned_taxi
                                == Some(t as u64) && !old(self).active_requests@[j].spec_alive() {
                            assert(!snap.taxis@[t].is_occupied);
                        }
                    } else {
                        if old(self).taxis@[t].is_occupied && !(exists|j: int|
                            0 <= j < i + 1 && (#[trigger] old(self).active_requests@[j]).assigned_taxi
                                == Some(t as u64) && !old(self).active_requests@[j].spec_alive()) {
                            assert(snap.taxis@[t].is_occupied);
                            assert(!(ri.assigned_taxi == Some(t as u64) && !ri.spec_alive()));
                            assert(self.taxis@[t].is_occupied);
                        }
                    }
                }
            }
            i = i + 1;
        }

        // Second pass: keep only the still-alive requests, in order.
        let mut kept: Vec<Request> = Vec::new();
        let mut k: usize = 0;
        while k < len
            invariant
                old(self).matching_wf(),
                old(self).ids_wf(),
                k <= len,
                len == old(self).active_requests@.len(),
                self.active_requests@ == old(self).active_requests@,
                kept@ == old(self).active_requests@.take(k as int).filter(alive_pred()),
                forall|x: int| 0 <= x < kept@.len() ==> (#[trigger] kept@[x]).spec_alive(),
                forall|x: int|
                    0 <= x < kept@.len() ==> exists|j: int|
                        0 <= j < k && (#[trigger] kept@[x]) == old(self).active_requests@[j],
                forall|x1: int, x2: int|
                    0 <= x1 < x2 < kept@.len() ==> (#[trigger] kept@[x1]).id
                        != (#[trigger] kept@[x2]).id,
            decreases len - k,
        {
            let r = self.active_requests[k];
            let ghost old_kept = kept@;
            if r.is_alive() {
                kept.push(r);
            }
            proof {
                lemma_filter_take_step(old(self).active_requests@, alive_pred(), k as int);
                assert(kept@ =~= old(self).active_requests@.take(k as int + 1).filter(alive_pred()));
                assert forall|x: int|
                    0 <= x < kept@.len() implies exists|j: int|
                    0 <= j < k + 1 && (#[trigger] kept@[x]) == old(self).active_requests@[j] by {
                    if x < old_kept.len() {
                        let w = choose|j: int|
                            0 <= j < k && (#[trigger] old_kept[x]) == old(self).active_requests@[j];
                        assert(kept@[x] == old(self).active_requests@[w]);
                    } else {
                        assert(kept@[x] == old(self).active_requests@[k as int]);
                    }
                }
                assert forall|x1: int, x2: int|
                    0 <= x1 < x2 < kept@.len() implies (#[trigger] kept@[x1]).id
                    != (#[trigger] kept@[x2]).id by {
                    if x2 >= old_kept.len() {
                        assert(kept@[x2] == old(self).active_requests@[k as int]);
                        let w = choose|j: int|
                            0 <= j < k && (#[trigger] old_kept[x1]) == old(self).active_requests@[j];
                        assert(kept@[x1] == old(self).active_requests@[w]);
                    }
                }
            }
            k = k + 1;
        }
        self.active_requests = kept;

        proof {
            assert(old(self).active_requests@.take(len as int) =~= old(self).active_requests@);
            let act = old(self).active_requests@;
            let keptv = self.active_requests@;
            assert(keptv == act.filter(alive_pred()));
            assert(self.archived_requests@ == old(self).archived_requests@ + act.filter(dead_pred()));

            // Every kept request is in range of the taxi pool and no two share
            // a taxi.
            assert forall|x: int|
                0 <= x < keptv.len() && (#[trigger] keptv[x]).assigned_taxi.is_some() implies keptv[x].assigned_taxi.unwrap()
                < self.taxis@.len() by {
                let w = choose|j: int| 0 <= j < len && (#[trigger] keptv[x]) == act[j];
                assert(act[w].assigned_taxi.is_some());
            }
            assert forall|x1: int, x2: int|
                0 <= x1 < x2 < keptv.len() && (#[trigger] keptv[x1]).assigned_taxi.is_some()
                    && (#[trigger] keptv[x2]).assigned_taxi.is_some() implies keptv[x1].assigned_taxi
                != keptv[x2].assigned_taxi by {
                let w1 = choose|j: int| 0 <= j < len && (#[trigger] keptv[x1]) == act[j];
                let w2 = choose|j: int| 0 <= j < len && (#[trigger] keptv[x2]) == act[j];
                assert(keptv[x1].id != keptv[x2].id);
                assert(w1 != w2);
                if w1 < w2 {
                    assert(act[w1].assigned_taxi != act[w2].assigned_taxi);
                } else {
                    assert(act[w2].assigned_taxi != act[w1].assigned_taxi);
                }
            }

            // Occupancy after the step matches the kept requests, and also the
            // still-alive matched requests of the starting state.
            assert forall|t: int| 0 <= t < self.taxis@.len() implies ((#[trigger] self.taxis@[t]).is_occupied
                <==> (exists|j: int|
                    0 <= j < len && (#[trigger] act[j]).assigned_taxi == Some(t as u64)
                        && act[j].spec_alive())) by {
                if self.taxis@[t].is_occupied {
                    let w = choose|j: int|
                        0 <= j < len && (#[trigger] act[j]).assigned_taxi == Some(t as u64);
                    assert(act[w].spec_alive());
                } else {
                    if exists|j: int|
                        0 <= j < len && (#[trigger] act[j]).assigned_taxi == Some(t as u64)
                            && act[j].spec_alive() {
                        let w = choose|j: int|
                            0 <= j < len && (#[trigger] act[j]).assigned_taxi == Some(t as u64)
                                && act[j].spec_alive();
                        assert(old(self).taxis@[t].is_occupied);
                        if exists|j: int|
                            0 <= j < len && (#[trigger] act[j]).assigned_taxi == Some(t as u64)
                                && !act[j].spec_alive() {
                            let d = choose|j: int|
                                0 <= j < len && (#[trigger] act[j]).assigned_taxi == Some(
                                    t as u64,
                                ) && !act[j].spec_alive();
                            assert(d != w);
                            if d < w {
                                assert(act[d].assigned_taxi != act[w].assigned_taxi);
                            } else {
                                assert(act[w].assigned_taxi != act[d].assigned_taxi);
                            }
                        }
                        assert(self.taxis@[t].is_occupied);
                    }
                }
            }
            assert forall|t: int| 0 <= t < self.taxis@.len() implies ((#[trigger] self.taxis@[t]).is_occupied
                <==> (exists|x: int|
                    0 <= x < keptv.len() && (#[trigger] keptv[x]).assigned_taxi == Some(
                        t as u64,
                    ))) by {
                if self.taxis@[t].is_occupied {
                    let w = choose|j: int|
                        0 <= j < len && (#[trigger] act[j]).assigned_taxi == Some(t as u64)
                            && act[j].spec_alive();
                    act.lemma_filter_contains(alive_pred(), w);
                    let x = choose|x: int| 0 <= x < keptv.len() && keptv[x] == act[w];
                    assert(keptv[x].assigned_taxi == Some(t as u64));
                } else {
                    if exists|x: int|
                        0 <= x < keptv.len() && (#[trigger] keptv[x]).assigned_taxi == Some(
                            t as u64,
                        ) {
                        let x = choose|x: int|
                            0 <= x < keptv.len() && (#[trigger] keptv[x]).assigned_taxi == Some(
                                t as u64,
                            );
                        let w = choose|j: int| 0 <= j < len && (#[trigger] keptv[x]) == act[j];
                        assert(act[w].assigned_taxi == Some(t as u64) && act[w].spec_alive());
                    }
                }
            }

            // Identities stay below the counter, distinct, and disjoint
            // between the active set and the archive.
            assert forall|x: int| 0 <= x < keptv.len() implies (#[trigger] keptv[x]).id
                < self.next_request_id by {
                let w = choose|j: int| 0 <= j < len && (#[trigger] keptv[x]) == act[j];
                assert(act[w].id < old(self).next_request_id);
            }
            assert forall|y: int| 0 <= y < self.archived_requests@.len() implies (#[trigger] self
                .archived_requests@[y]).id < self.next_request_id by {
                if y >= old(self).archived_requests@.len() {
                    let w = choose|j: int|
                        0 <= j < len && (#[trigger] self.archived_requests@[y]) == act[j];
                    assert(act[w].id < old(self).next_request_id);
                }
            }
            assert forall|x: int, y: int|
                0 <= x < keptv.len() && 0 <= y < self.archived_requests@.len() implies (
            #[trigger] keptv[x]).id != (#[trigger] self.archived_requests@[y]).id by {
                let w = choose|j: int| 0 <= j < len && (#[trigger] keptv[x]) == act[j];
                if y < old(self).archived_requests@.len() {
                    assert(act[w].id != old(self).archived_requests@[y].id);
                } else {
                    let d = choose|j: int|
                        0 <= j < len && (#[trigger] self.archived_requests@[y]) == act[j];
                    assert(!act[d].spec_alive());
                    assert(act[w].spec_alive());
                    assert(w != d);
                    if w < d {
                        assert(act[w].id != act[d].id);
                    } else {
                        assert(act[d].id != act[w].id);
                    }
                }
            }

            // Everything in the archive died.
            assert forall|y: int| 0 <= y < self.archived_requests@.len() implies !(#[trigger] self
                .archived_requests@[y]).spec_alive() by {
                if y >= old(self).archived_requests@.len() {
                    act.lemma_filter_pred(dead_pred(), y - old(self).archived_requests@.len());
                }
            }

            // The active set can only have shrunk.
            act.lemma_filter_len(alive_pred());
        }
    }

    /// One full tick, decided by an externally supplied draw: the age
    /// advances, then arrival, matching, lifecycle and archiving run in that
    /// fixed order. A request spawned this tick is aged this tick. Every
    /// request active when the tick began is aged exactly once — one budget
    /// down by one, the other untouched — and then either stays active, or,
    /// having died, moves to the archive; the archive only ever grows at its
    /// end; and every request active when the tick ends is an aged survivor
    /// or the one admitted this tick.
    #[verifier::rlimit(80)]
    pub fn step_with_draw(&mut self, draw: u64)
        requires
            old(self).wf(),
            old(self).age < u64::MAX,
            old(self).next_request_id < u64::MAX,
        ensures
            final(self).wf(),
            final(self).age == old(self).age + 1,
            final(self).runtime == old(self).runtime,
            final(self).spawn_chance_ppm == old(self).spawn_chance_ppm,
            final(self).max_active_requests == old(self).max_active_requests,
            final(self).taxis@.len() == old(self).taxis@.len(),
            final(self).next_request_id == if old(self).spawn_admits(draw) {
                old(self).next_request_id + 1
            } else {
                old(self).next_request_id as int
            },
            archive_extended(old(self).archived_requests@, final(self).archived_requests@),
            tick_ages_actives(*old(self), *final(self), old(self).spawn_admits(draw)),
            tick_ages_archived(*old(self), *final(self), old(self).spawn_admits(draw)),
            tick_accounts_for_actives(*old(self), *final(self)),
            old(self).spawn_admits(draw) ==> (survives_tick(
                *final(self),
                Request::fresh(old(self).next_request_id),
            ) || archived_by_tick(
                *old(self),
                *final(self),
                Request::fresh(old(self).next_request_id),
            )),
            tick_rel(*old(self), *final(self)),
    {
        let ghost pre = *old(self);
        self.age = self.age + 1;
        self.spawn_with_draw(draw);
        let ghost w1 = *self;
        self.distribute_unfulfilled_requests();
        let ghost w2 = *self;
        self.update_requests();
        let ghost w3 = *self;
        self.cleanup_requests();

        proof {
            let admitted = pre.spawn_admits(draw);
            let act3 = w3.active_requests@;

            // Matching and the lifecycle update together age every slot of
            // the post-arrival active sequence exactly once, in place.
            assert forall|j: int|
                0 <= j < act3.len() implies Request::aged_once(
                w1.active_requests@[j],
                #[trigger] act3[j],
            ) by {
                assert(w2.active_requests@[j].id == w1.active_requests@[j].id);
            }
            lemma_tick_composition(pre, w1, w3, *self, admitted);

            // The same aging holds slot by slot from the matched state, which
            // ties the final state back to the choices the matcher made.
            assert forall|j: int|
                0 <= j < act3.len() implies Request::aged_once(
                w2.active_requests@[j],
                #[trigger] act3[j],
            ) by {
                assert(w3.active_requests@[j].id == w2.active_requests@[j].id);
            }
            assert(w3.archived_requests@ == w2.archived_requests@);
            lemma_tick_composition(w2, w2, w3, *self, false);
            assert(tick_matched(pre, w2, admitted));
            assert(tick_rel(pre, *self));
        }
    }

    /// One full tick: the age advances, then arrival (driven by the
    /// thread-local random source), matching, lifecycle and archiving run in
    /// that fixed order. The draw is random, so this states what holds of
    /// every outcome — `tick_rel` between the boundary states — and pins the
    /// cases the chance decides by itself: a zero chance admits nothing, a
    /// certain chance with room admits exactly one request and that request
    /// ends the tick active or archived, and at capacity nothing is admitted.
    pub fn step(&mut self)
        requires
            old(self).wf(),
            old(self).age < u64::MAX,
            old(self).next_request_id < u64::MAX,
        ensures
            final(self).wf(),
            final(self).age == old(self).age + 1,
            final(self).runtime == old(self).runtime,
            final(self).spawn_chance_ppm == old(self).spawn_chance_ppm,
            final(self).max_active_requests == old(self).max_active_requests,
            final(self).taxis@.len() == old(self).taxis@.len(),
            final(self).next_request_id == old(self).next_request_id || final(self).next_request_id
                == old(self).next_request_id + 1,
            archive_extended(old(self).archived_requests@, final(self).archived_requests@),
            tick_ages_actives(*old(self), *final(self), true),
            tick_ages_archived(*old(self), *final(self), true),
            tick_accounts_for_actives(*old(self), *final(self)),
            tick_rel(*old(self), *final(self)),
            old(self).spawn_chance_ppm == 0 ==> final(self).next_request_id == old(
                self,
            ).next_request_id && tick_ages_actives(*old(self), *final(self), false)
                && tick_ages_archived(*old(self), *final(self), false),
            old(self).active_requests@.len() >= old(self).max_active_requests
                ==> final(self).next_request_id == old(self).next_request_id,
            old(self).spawn_chance_ppm >= SPAWN_CHANCE_DENOM && old(self).active_requests@.len()
                < old(self).max_active_requests ==> final(self).next_request_id == old(
                self,
            ).next_request_id + 1 && (survives_tick(
                *final(self),
                Request::fresh(old(self).next_request_id),
            ) || archived_by_tick(
                *old(self),
                *final(self),
                Request::fresh(old(self).next_request_id),
            )),
    {
        let ghost pre = *old(self);
        let draw = random_draw();
        self.step_with_draw(draw);
        proof {
            lemma_tick_relations_weaken(pre, *self, pre.spawn_admits(draw));
        }
    }

    /// Runs the simulation to completion: whole ticks, one after the other,
    /// until the age passes the runtime. A world whose age is already past
    /// its runtime is left untouched. The final state is reached from the
    /// starting one by ticks alone: a recorded trace of boundary states, each
    /// consecutive pair related by `tick_rel`, connects the two, so every
    /// per-tick guarantee — aging, accounting, matching, archive growth —
    /// holds along the whole run.
    pub fn run_till_done(&mut self)
        requires
            old(self).wf(),
            old(self).runtime < u64::MAX,
            old(self).age <= old(self).runtime ==> old(self).next_request_id + old(self).runtime - old(self).age < u64::MAX,
        ensures
            final(self).wf(),
            final(self).age > final(self).runtime,
            final(self).runtime == old(self).runtime,
            final(self).spawn_chance_ppm == old(self).spawn_chance_ppm,
            final(self).max_active_requests == old(self).max_active_requests,
            final(self).taxis@.len() == old(self).taxis@.len(),
            final(self).next_request_id >= old(self).next_request_id,
            archive_extended(old(self).archived_requests@, final(self).archived_requests@),
            old(self).age <= old(self).runtime ==> final(self).age == old(self).runtime + 1,
            old(self).age > old(self).runtime ==> *final(self) == *old(self),
            exists|tr: Seq<World>| run_trace(tr, *old(self), *final(self)),
    {
        let ghost pre = *old(self);
        let ghost mut tr: Seq<World> = seq![pre];
        while self.age <= self.runtime
            invariant
                self.wf(),
                self.runtime == pre.runtime,
                self.runtime < u64::MAX,
                self.spawn_chance_ppm == pre.spawn_chance_ppm,
                self.max_active_requests == pre.max_active_requests,
                self.taxis@.len() == pre.taxis@.len(),
                self.next_request_id >= pre.next_request_id,
                archive_extended(pre.archived_requests@, self.archived_requests@),
                self.age <= self.runtime ==> self.next_request_id + self.runtime - self.age
                    < u64::MAX,
                pre.age <= pre.runtime ==> self.age <= self.runtime + 1,
                pre.age > pre.runtime ==> *self == pre,
                tr.len() >= 1,
                tr[0] == pre,
                tr[tr.len() - 1] == *self,
                forall|i: int|
                    0 <= i < tr.len() - 1 ==> (#[trigger] tr[i]).age <= tr[i].runtime,
                forall|i: int| 0 <= i < tr.len() - 1 ==> tick_rel(#[trigger] tr[i], tr[i + 1]),
            decreases self.runtime + 1 - self.age,
        {
            let ghost prev = *self;
            self.step();
            proof {
                tr = tr.push(*self);
                assert forall|i: int| 0 <= i < tr.len() - 1 implies tick_rel(
                    #[trigger] tr[i],
                    tr[i + 1],
                ) by {
                    if i == tr.len() - 2 {
                        assert(tr[i] == prev && tr[i + 1] == *self);
                    }
                }
                assert forall|i: int|
                    0 <= i < tr.len() - 1 implies (#[trigger] tr[i]).age <= tr[i].runtime by {
                    if i == tr.len() - 2 {
                        assert(tr[i] == prev);
                    }
                }
            }
        }
        proof {
            assert(run_trace(tr, pre, *self));
        }
    }

    /// A read-only snapshot of the counts an outside driver displays: how far
    /// the run is, occupancy of the pool, how the active requests split into
    /// served and waiting, and how much has been archived.
    pub fn summary(&self) -> (s: Summary)
        ensures
            s.age == self.age,
            s.runtime == self.runtime,
            s.total_taxis == self.taxis@.len(),
            s.occupied_taxis == self.taxis@.filter(occupied_pred()).len(),
            s.assigned_requests == self.active_requests@.filter(assigned_pred()).len(),
            s.waiting_requests == self.active_requests@.filter(waiting_pred()).len(),
            s.archived_requests == self.archived_requests@.len(),
    {
        let mut occupied: usize = 0;
        let mut t: usize = 0;
        while t < self.taxis.len()
            invariant
                t <= self.taxis@.len(),
                occupied == self.taxis@.take(t as int).filter(occupied_pred()).len(),
                occupied <= t,
            decreases self.taxis@.len() - t,
        {
            proof {
                lemma_filter_take_step(self.taxis@, occupied_pred(), t as int);
            }
            if self.taxis[t].is_occupied {
                occupied = occupied + 1;
            }
            t = t + 1;
        }
        proof {
            assert(self.taxis@.take(self.taxis@.len() as int) =~= self.taxis@);
        }

        let mut assigned: usize = 0;
        let mut waiting: usize = 0;
        let mut i: usize = 0;
        while i < self.active_requests.len()
            invariant
                i <= self.active_requests@.len(),
                assigned == self.active_requests@.take(i as int).filter(assigned_pred()).len(),
                waiting == self.active_requests@.take(i as int).filter(waiting_pred()).len(),
                assigned <= i,
                waiting <= i,
            decreases self.active_requests@.len() - i,
        {
            proof {
                lemma_filter_take_step(self.active_requests@, assigned_pred(), i as int);
                lemma_filter_take_step(self.active_requests@, waiting_pred(), i as int);
            }
            if self.active_requests[i].assigned_taxi.is_some() {
                assigned = assigned + 1;
            } else {
                waiting = waiting + 1;
            }
            i = i + 1;
        }
        proof {
            assert(self.active_requests@.take(self.active_requests@.len() as int)
                =~= self.active_requests@);
        }

        Summary {
            age: self.age,
            runtime: self.runtime,
            occupied_taxis: occupied,
            total_taxis: self.taxis.len(),
            assigned_requests: assigned,
            waiting_requests: waiting,
            archived_requests: self.archived_requests.len(),
        }
    }

    /// The arrival step of one tick: draws from the thread-local random
    /// source and admits at most one new request, never at or above capacity.
    /// With a spawn chance of `SPAWN_CHANCE_DENOM` (certainty) a request is
    /// admitted whenever there is room; with a chance of zero, never.
    pub fn maybe_spawn_request(&mut self)
        requires
            old(self).wf(),
            old(self).next_request_id < u64::MAX,
        ensures
            final(self).wf(),
            final(self).runtime == old(self).runtime,
            final(self).age == old(self).age,
            final(self).spawn_chance_ppm == old(self).spawn_chance_ppm,
            final(self).max_active_requests == old(self).max_active_requests,
            final(self).taxis@ == old(self).taxis@,
            final(self).archived_requests@ == old(self).archived_requests@,
            (final(self).active_requests@ == old(self).active_requests@.push(
                Request::fresh(old(self).next_request_id),
            ) && final(self).next_request_id == old(self).next_request_id + 1)
                || (final(self).active_requests@ == old(self).active_requests@
                && final(self).next_request_id == old(self).next_request_id),
            old(self).active_requests@.len() >= old(self).max_active_requests
                ==> final(self).active_requests@ == old(self).active_requests@,
            old(self).spawn_chance_ppm == 0
                ==> final(self).active_requests@ == old(self).active_requests@,
            old(self).active_requests@.len() < old(self).max_active_requests
                && old(self).spawn_chance_ppm >= SPAWN_CHANCE_DENOM
                ==> final(self).active_requests@ == old(self).active_requests@.push(
                    Request::fresh(old(self).next_request_id),
                ),
    {
        let draw = random_draw();
        self.spawn_with_draw(draw);
    }
}

/// What an outside driver reads off a `World` for display: derived counts
/// only, never part of the authoritative state.
#[derive(Clone, Copy, Debug)]
pub struct Summary {
    pub age: u64,
    pub runtime: u64,
    pub occupied_taxis: usize,
    pub total_taxis: usize,
    pub assigned_requests: usize,
    pub waiting_requests: usize,
    pub archived_requests: usize,
}

/// The predicate the archiver keeps requests by: both budgets still positive.
pub open spec fn alive_pred() -> spec_fn(Request) -> bool {
    |r: Request| r.spec_alive()
}

/// Picks the occupied taxis out of the pool.
pub open spec fn occupied_pred() -> spec_fn(Taxi) -> bool {
    |t: Taxi| t.is_occupied
}

/// Picks the active requests a taxi is serving.
pub open spec fn assigned_pred() -> spec_fn(Request) -> bool {
    |r: Request| r.assigned_taxi.is_some()
}

/// Picks the active requests still waiting for a taxi.
pub open spec fn waiting_pred() -> spec_fn(Request) -> bool {
    |r: Request| r.assigned_taxi.is_none()
}

/// The predicate the archiver moves requests out by: some budget ran out.
pub open spec fn dead_pred() -> spec_fn(Request) -> bool {
    |r: Request| !r.spec_alive()
}

/// The archive never loses or reorders what it already holds: the old
/// sequence is a prefix of the new one.
pub open spec fn archive_extended(pre: Seq<Request>, post: Seq<Request>) -> bool {
    &&& pre.len() <= post.len()
    &&& forall|j: int| 0 <= j < pre.len() ==> post[j] == pre[j]
}

/// The given request is an aged form of one of the requests active in `pre`.
pub open spec fn aged_from_active(pre: World, r: Request) -> bool {
    exists|j: int|
        0 <= j < pre.active_requests@.len() && Request::aged_once(
            #[trigger] pre.active_requests@[j],
            r,
        )
}

/// The given request, aged once, is active in `post`.
pub open spec fn survives_tick(post: World, b: Request) -> bool {
    exists|x: int|
        0 <= x < post.active_requests@.len() && Request::aged_once(
            b,
            #[trigger] post.active_requests@[x],
        )
}

/// The given request, aged once, is among the entries the tick from `pre` to
/// `post` appended to the archive.
pub open spec fn archived_by_tick(pre: World, post: World, b: Request) -> bool {
    exists|y: int|
        pre.archived_requests@.len() <= y < post.archived_requests@.len() && Request::aged_once(
            b,
            #[trigger] post.archived_requests@[y],
        )
}

/// Every request active after a tick is an aged form of a request that was
/// active before it, or — when `admitted` allows it — of the one request the
/// tick admitted, which carries the tick's starting identity counter.
pub open spec fn tick_ages_actives(pre: World, post: World, admitted: bool) -> bool {
    forall|x: int|
        #![trigger post.active_requests@[x]]
        0 <= x < post.active_requests@.len() ==> (aged_from_active(pre, post.active_requests@[x])
            || (admitted && Request::aged_once(
            Request::fresh(pre.next_request_id),
            post.active_requests@[x],
        )))
}

/// Every request a tick archived is an aged form of a request that was active
/// before it, or — when `admitted` allows it — of the one request the tick
/// admitted.
pub open spec fn tick_ages_archived(pre: World, post: World, admitted: bool) -> bool {
    forall|y: int|
        #![trigger post.archived_requests@[y]]
        pre.archived_requests@.len() <= y < post.archived_requests@.len() ==> (aged_from_active(
            pre,
            post.archived_requests@[y],
        ) || (admitted && Request::aged_once(
            Request::fresh(pre.next_request_id),
            post.archived_requests@[y],
        )))
}

/// No active request vanishes in a tick: each one, aged once, is found after
/// the tick either still active or among the newly archived.
pub open spec fn tick_accounts_for_actives(pre: World, post: World) -> bool {
    forall|j: int|
        #![trigger pre.active_requests@[j]]
        0 <= j < pre.active_requests@.len() ==> (survives_tick(post, pre.active_requests@[j])
            || archived_by_tick(pre, post, pre.active_requests@[j]))
}

/// The state of the world after a tick's arrival and matching steps, before
/// aging: at most one request — the admitted one, with full budgets and the
/// tick's starting identity — was appended; identities, budgets and existing
/// bindings are untouched; each newly bound request took a taxi that was
/// free, now occupied; occupancy only grew; if any request is left unbound,
/// every taxi is occupied; and binding is greedy in arrival order.
pub open spec fn tick_matched(pre: World, mid: World, admitted: bool) -> bool {
    let n0 = pre.active_requests@.len() as int;
    &&& mid.active_requests@.len() == n0 + (if admitted {
        1int
    } else {
        0int
    })
    &&& admitted ==> pre.active_requests@.len() < pre.max_active_requests
        && mid.active_requests@[n0].id == pre.next_request_id
        && mid.active_requests@[n0].remaining_waiting_time == INITIAL_WAITING_BUDGET
        && mid.active_requests@[n0].fulfillment_time == INITIAL_SERVICE_BUDGET
    &&& mid.archived_requests@ == pre.archived_requests@
    &&& mid.taxis@.len() == pre.taxis@.len()
    &&& mid.matching_wf()
    &&& forall|t: int|
        0 <= t < pre.taxis@.len() ==> (#[trigger] mid.taxis@[t]).id == pre.taxis@[t].id
    &&& forall|t: int|
        0 <= t < pre.taxis@.len() && (#[trigger] pre.taxis@[t]).is_occupied
            ==> mid.taxis@[t].is_occupied
    &&& forall|j: int|
        0 <= j < n0 ==> {
            &&& (#[trigger] mid.active_requests@[j]).id == pre.active_requests@[j].id
            &&& mid.active_requests@[j].remaining_waiting_time
                == pre.active_requests@[j].remaining_waiting_time
            &&& mid.active_requests@[j].fulfillment_time
                == pre.active_requests@[j].fulfillment_time
        }
    &&& forall|j: int|
        0 <= j < n0 && (#[trigger] pre.active_requests@[j]).assigned_taxi.is_some()
            ==> mid.active_requests@[j].assigned_taxi == pre.active_requests@[j].assigned_taxi
    &&& forall|j: int|
        0 <= j < mid.active_requests@.len() && (j >= n0
            || pre.active_requests@[j].assigned_taxi.is_none()) && (#[trigger] mid
            .active_requests@[j]).assigned_taxi.is_some() ==> {
            &&& mid.active_requests@[j].assigned_taxi.unwrap() < pre.taxis@.len()
            &&& !pre.taxis@[mid.active_requests@[j].assigned_taxi.unwrap() as int].is_occupied
            &&& mid.taxis@[mid.active_requests@[j].assigned_taxi.unwrap() as int].is_occupied
        }
    &&& forall|j: int, t: int|
        0 <= j < mid.active_requests@.len() && 0 <= t < mid.taxis@.len() && (#[trigger] mid
            .active_requests@[j]).assigned_taxi.is_none() ==> (#[trigger] mid
            .taxis@[t]).is_occupied
    &&& forall|j1: int, j2: int|
        0 <= j1 < j2 < mid.active_requests@.len() && (j2 >= n0
            || pre.active_requests@[j2].assigned_taxi.is_none()) && (#[trigger] mid
            .active_requests@[j2]).assigned_taxi.is_some() ==> (#[trigger] mid
            .active_requests@[j1]).assigned_taxi.is_some()
}

/// Everything one whole tick guarantees, between its boundary states. The
/// tick admitted a request exactly when the identity counter moved: never at
/// zero chance or at capacity, always at a certain chance with room. Some
/// intermediate matched state — the world as it stood after arrival and
/// matching — fixes which taxi every request took and that matching was
/// greedy; the aging and accounting relations carry each request from there
/// to the boundary, and the admitted request itself ends the tick active or
/// archived.
pub open spec fn tick_rel(pre: World, post: World) -> bool {
    let admitted = post.next_request_id == pre.next_request_id + 1;
    &&& post.wf()
    &&& post.age == pre.age + 1
    &&& post.runtime == pre.runtime
    &&& post.spawn_chance_ppm == pre.spawn_chance_ppm
    &&& post.max_active_requests == pre.max_active_requests
    &&& post.taxis@.len() == pre.taxis@.len()
    &&& admitted || post.next_request_id == pre.next_request_id
    &&& admitted ==> pre.active_requests@.len() < pre.max_active_requests
    &&& pre.spawn_chance_ppm == 0 ==> !admitted
    &&& pre.spawn_chance_ppm >= SPAWN_CHANCE_DENOM && pre.active_requests@.len()
        < pre.max_active_requests ==> admitted
    &&& archive_extended(pre.archived_requests@, post.archived_requests@)
    &&& tick_ages_actives(pre, post, admitted)
    &&& tick_ages_archived(pre, post, admitted)
    &&& tick_accounts_for_actives(pre, post)
    &&& admitted ==> (survives_tick(post, Request::fresh(pre.next_request_id))
        || archived_by_tick(pre, post, Request::fresh(pre.next_request_id)))
    &&& exists|mid: World|
        #[trigger] tick_matched(pre, mid, admitted) && tick_ages_actives(mid, post, false)
            && tick_ages_archived(mid, post, false) && tick_accounts_for_actives(mid, post)
}

/// A complete run, pinned tick by tick: `tr` is the sequence of tick
/// boundary states, starting at `first` and ending at `last`; every tick was
/// taken while the clock had not passed the runtime, and consecutive states
/// are related by `tick_rel` — one whole tick each, so every boundary state
/// after the first is well-formed.
pub open spec fn run_trace(tr: Seq<World>, first: World, last: World) -> bool {
    &&& tr.len() >= 1
    &&& tr[0] == first
    &&& tr[tr.len() - 1] == last
    &&& forall|i: int| 0 <= i < tr.len() - 1 ==> (#[trigger] tr[i]).age <= tr[i].runtime
    &&& forall|i: int| 0 <= i < tr.len() - 1 ==> tick_rel(#[trigger] tr[i], tr[i + 1])
}

/// The tick relations that mention the admitted request only get weaker when
/// the admission flag is turned on.
proof fn lemma_tick_relations_weaken(pre: World, post: World, admitted: bool)
    requires
        tick_ages_actives(pre, post, admitted),
        tick_ages_archived(pre, post, admitted),
    ensures
        tick_ages_actives(pre, post, true),
        tick_ages_archived(pre, post, true),
{
}

/// Composes what one tick does to the requests: arrival appends at most one
/// fresh request, matching and the lifecycle update age every slot in place,
/// and archiving splits the aged sequence into survivors and newly archived.
proof fn lemma_tick_composition(pre: World, w1: World, w3: World, post: World, admitted: bool)
    requires
        w1.active_requests@.len() == w3.active_requests@.len(),
        w1.active_requests@.len() == pre.active_requests@.len() + (if admitted {
            1int
        } else {
            0int
        }),
        forall|j: int|
            0 <= j < pre.active_requests@.len() ==> #[trigger] w1.active_requests@[j]
                == pre.active_requests@[j],
        admitted ==> w1.active_requests@[pre.active_requests@.len() as int] == Request::fresh(
            pre.next_request_id,
        ),
        forall|j: int|
            0 <= j < w3.active_requests@.len() ==> Request::aged_once(
                w1.active_requests@[j],
                #[trigger] w3.active_requests@[j],
            ),
        post.active_requests@ == w3.active_requests@.filter(alive_pred()),
        post.archived_requests@ == pre.archived_requests@ + w3.active_requests@.filter(
            dead_pred(),
        ),
    ensures
        tick_ages_actives(pre, post, admitted),
        tick_ages_archived(pre, post, admitted),
        tick_accounts_for_actives(pre, post),
        admitted ==> (survives_tick(post, Request::fresh(pre.next_request_id)) || archived_by_tick(
            pre,
            post,
            Request::fresh(pre.next_request_id),
        )),
{
    let n0 = pre.active_requests@.len() as int;
    let act3 = w3.active_requests@;

    if admitted {
        assert(Request::aged_once(Request::fresh(pre.next_request_id), act3[n0]));
        if act3[n0].spec_alive() {
            assert(alive_pred()(act3[n0]));
            let x = lemma_filter_lands_at(act3, alive_pred(), n0);
            assert(post.active_requests@[x] == act3[n0]);
            assert(survives_tick(post, Request::fresh(pre.next_request_id)));
        } else {
            assert(dead_pred()(act3[n0]));
            let x = lemma_filter_lands_at(act3, dead_pred(), n0);
            let y = pre.archived_requests@.len() + x;
            assert(post.archived_requests@[y] == act3[n0]);
            assert(archived_by_tick(pre, post, Request::fresh(pre.next_request_id)));
        }
    }

    assert forall|x: int|
        #![trigger post.active_requests@[x]]
        0 <= x < post.active_requests@.len() implies (aged_from_active(
        pre,
        post.active_requests@[x],
    ) || (admitted && Request::aged_once(
        Request::fresh(pre.next_request_id),
        post.active_requests@[x],
    ))) by {
        let w = lemma_filter_origin(act3, alive_pred(), x);
        assert(act3[w] == post.active_requests@[x]);
        if w < n0 {
            assert(Request::aged_once(pre.active_requests@[w], post.active_requests@[x]));
            assert(aged_from_active(pre, post.active_requests@[x]));
        }
    }

    assert forall|y: int|
        #![trigger post.archived_requests@[y]]
        pre.archived_requests@.len() <= y < post.archived_requests@.len() implies (
    aged_from_active(pre, post.archived_requests@[y]) || (admitted && Request::aged_once(
        Request::fresh(pre.next_request_id),
        post.archived_requests@[y],
    ))) by {
        let x = y - pre.archived_requests@.len();
        assert(post.archived_requests@[y] == act3.filter(dead_pred())[x]);
        let w = lemma_filter_origin(act3, dead_pred(), x);
        assert(act3[w] == post.archived_requests@[y]);
        if w < n0 {
            assert(Request::aged_once(pre.active_requests@[w], post.archived_requests@[y]));
            assert(aged_from_active(pre, post.archived_requests@[y]));
        }
    }

    assert forall|j: int|
        #![trigger pre.active_requests@[j]]
        0 <= j < pre.active_requests@.len() implies (survives_tick(post, pre.active_requests@[j])
            || archived_by_tick(pre, post, pre.active_requests@[j])) by {
        if act3[j].spec_alive() {
            assert(alive_pred()(act3[j]));
            let x = lemma_filter_lands_at(act3, alive_pred(), j);
            assert(post.active_requests@[x] == act3[j]);
            assert(Request::aged_once(pre.active_requests@[j], post.active_requests@[x]));
            assert(survives_tick(post, pre.active_requests@[j]));
        } else {
            assert(dead_pred()(act3[j]));
            let x = lemma_filter_lands_at(act3, dead_pred(), j);
            let y = pre.archived_requests@.len() + x;
            assert(post.archived_requests@[y] == act3[j]);
            assert(Request::aged_once(pre.active_requests@[j], post.archived_requests@[y]));
            assert(archived_by_tick(pre, post, pre.active_requests@[j]));
        }
    }
}

/// Every element of a filtered sequence comes from the sequence itself: this
/// hands back the position it came from.
proof fn lemma_filter_origin<A>(s: Seq<A>, pred: spec_fn(A) -> bool, x: int) -> (j: int)
    requires
        0 <= x < s.filter(pred).len(),
    ensures
        0 <= j < s.len(),
        s[j] == s.filter(pred)[x],
    decreases s.len(),
{
    reveal(Seq::filter);
    let fd = s.drop_last().filter(pred);
    if pred(s.last()) && x == fd.len() {
        assert(s[s.len() - 1] == s.filter(pred)[x]);
        s.len() - 1
    } else {
        let j = lemma_filter_origin(s.drop_last(), pred, x);
        assert(s[j] == s.filter(pred)[x]);
        j
    }
}

/// Every element that satisfies the predicate survives filtering: this hands
/// back the position it lands at.
proof fn lemma_filter_lands_at<A>(s: Seq<A>, pred: spec_fn(A) -> bool, j: int) -> (x: int)
    requires
        0 <= j < s.len(),
        pred(s[j]),
    ensures
        0 <= x < s.filter(pred).len(),
        s.filter(pred)[x] == s[j],
    decreases s.len(),
{
    reveal(Seq::filter);
    if j == s.len() - 1 {
        s.filter(pred).len() - 1
    } else {
        let x = lemma_filter_lands_at(s.drop_last(), pred, j);
        assert(s.filter(pred)[x] == s[j]);
        x
    }
}

/// One step of filtering a growing prefix: filtering one element more either
/// appends that element or appends nothing, depending on the predicate.
proof fn lemma_filter_take_step<A>(s: Seq<A>, pred: spec_fn(A) -> bool, i: int)
    requires
        0 <= i < s.len(),
    ensures
        s.take(i + 1).filter(pred) == if pred(s[i]) {
            s.take(i).filter(pred).push(s[i])
        } else {
            s.take(i).filter(pred)
        },
{
    reveal(Seq::filter);
    let t = s.take(i + 1);
    assert(t.len() == i + 1);
    assert(t.drop_last() =~= s.take(i));
    assert(t.last() == s[i]);
}

/// Matching consistency depends only on the taxi pool and on which taxi each
/// active request holds: it carries over between two states that agree on
/// those, whatever happened to budgets or identities.
proof fn lemma_matching_transfer(a: World, b: World)
    requires
        a.matching_wf(),
        b.taxis@ == a.taxis@,
        b.active_requests@.len() == a.active_requests@.len(),
        forall|j: int|
            0 <= j < a.active_requests@.len()
                ==> (#[trigger] b.active_requests@[j]).assigned_taxi
                == a.active_requests@[j].assigned_taxi,
    ensures
        b.matching_wf(),
{
    assert forall|t: int| 0 <= t < b.taxis@.len() implies ((#[trigger] b.taxis@[t]).is_occupied
        <==> exists|i: int|
            0 <= i < b.active_requests@.len()
                && (#[trigger] b.active_requests@[i]).assigned_taxi == Some(t as u64)) by {
        if b.taxis@[t].is_occupied {
            let w = choose|i: int|
                0 <= i < a.active_requests@.len()
                    && (#[trigger] a.active_requests@[i]).assigned_taxi == Some(t as u64);
            assert(b.active_requests@[w].assigned_taxi == Some(t as u64));
        } else {
            if exists|i: int|
                0 <= i < b.active_requests@.len()
                    && (#[trigger] b.active_requests@[i]).assigned_taxi == Some(t as u64) {
                let w = choose|i: int|
                    0 <= i < b.active_requests@.len()
                        && (#[trigger] b.active_requests@[i]).assigned_taxi == Some(t as u64);
                assert(a.active_requests@[w].assigned_taxi == Some(t as u64));
            }
        }
    }
}

/// Scans the pool from `start` for the first taxi that is free, knowing that
/// everything before `start` is occupied; returns the pool size when every
/// taxi is occupied.
fn find_free_from(taxis: &Vec<Taxi>, start: usize) -> (r: usize)
    requires
        start <= taxis@.len(),
        forall|t: int| 0 <= t < start ==> (#[trigger] taxis@[t]).is_occupied,
    ensures
        start <= r <= taxis@.len(),
        forall|t: int| 0 <= t < r ==> (#[trigger] taxis@[t]).is_occupied,
        r < taxis@.len() ==> !taxis@[r as int].is_occupied,
{
    let mut r = start;
    while r < taxis.len() && taxis[r].is_occupied
        invariant
            start <= r <= taxis@.len(),
            forall|t: int| 0 <= t < r ==> (#[trigger] taxis@[t]).is_occupied,
        decreases taxis@.len() - r,
    {
        r = r + 1;
    }
    r
}

/// Relies on `rand::random`: draws one sample from the thread-local random
/// number generator. The value depends on the generator's state, so nothing
/// is assumed of it.
#[verifier::external_body]
fn random_draw() -> u64 {
    rand::random::<u64>()
}

} // verus!
