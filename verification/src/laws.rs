use vstd::prelude::*;

use crate::request::{Request, INITIAL_SERVICE_BUDGET, INITIAL_WAITING_BUDGET};
use crate::world::{
    aged_from_active, archived_by_tick, run_trace, survives_tick, tick_accounts_for_actives,
    tick_ages_actives, tick_ages_archived, tick_matched, tick_rel, World, SPAWN_CHANCE_DENOM,
};

verus! {

/// Budget monotonicity: over one tick, a request that was active when the
/// tick began — or was admitted during it — has exactly one of its two
/// budgets strictly decreased, by exactly one, while the other is unchanged;
/// its identity is kept, and so the sum of its budgets falls by exactly one
/// for every tick it stays active. `World::step` guarantees
/// `Request::aged_once` between the old and the new form of every such
/// request.
pub proof fn lemma_budget_monotonic(before: Request, after: Request)
    requires
        Request::aged_once(before, after),
    ensures
        after.id == before.id,
        (after.fulfillment_time == before.fulfillment_time - 1 && after.remaining_waiting_time
            == before.remaining_waiting_time) || (after.remaining_waiting_time
            == before.remaining_waiting_time - 1 && after.fulfillment_time
            == before.fulfillment_time),
        after.remaining_waiting_time + after.fulfillment_time == before.remaining_waiting_time
            + before.fulfillment_time - 1,
{
}

/// Matching exclusivity: at every tick boundary — that is, in every
/// well-formed world — no two active requests share a taxi, every held taxi
/// exists in the pool and is marked occupied, and every occupied taxi is held
/// by an active request.
pub proof fn lemma_matching_exclusivity(w: World)
    requires
        w.wf(),
    ensures
        forall|i: int, j: int|
            0 <= i < j < w.active_requests@.len() && (#[trigger] w.active_requests@[i])
                .assigned_taxi.is_some() && (#[trigger] w.active_requests@[j]).assigned_taxi
                .is_some() ==> w.active_requests@[i].assigned_taxi
                != w.active_requests@[j].assigned_taxi,
        forall|i: int|
            0 <= i < w.active_requests@.len() && (#[trigger] w.active_requests@[i]).assigned_taxi
                .is_some() ==> w.active_requests@[i].assigned_taxi.unwrap() < w.taxis@.len()
                && w.taxis@[w.active_requests@[i].assigned_taxi.unwrap() as int].is_occupied,
        forall|t: int|
            0 <= t < w.taxis@.len() && (#[trigger] w.taxis@[t]).is_occupied ==> exists|i: int|
                0 <= i < w.active_requests@.len() && (#[trigger] w.active_requests@[i])
                    .assigned_taxi == Some(t as u64),
{
    assert forall|i: int|
        0 <= i < w.active_requests@.len() && (#[trigger] w.active_requests@[i]).assigned_taxi
            .is_some() implies w.active_requests@[i].assigned_taxi.unwrap() < w.taxis@.len()
        && w.taxis@[w.active_requests@[i].assigned_taxi.unwrap() as int].is_occupied by {
        let t = w.active_requests@[i].assigned_taxi.unwrap() as int;
        assert(w.active_requests@[i].assigned_taxi == Some(t as u64));
        assert(w.taxis@[t].is_occupied);
    }
}

/// Archive-once: request identities are unique per run, so a request appears
/// in the archive at most once, and a request that is in the archive is in no
/// well-formed world also still active. Together with the append-only archive
/// of `World::step` (`archive_extended`), an archived request never reappears.
pub proof fn lemma_archive_once(w: World)
    requires
        w.wf(),
    ensures
        forall|y1: int, y2: int|
            0 <= y1 < y2 < w.archived_requests@.len() ==> (#[trigger] w.archived_requests@[y1]).id
                != (#[trigger] w.archived_requests@[y2]).id,
        forall|i: int, y: int|
            0 <= i < w.active_requests@.len() && 0 <= y < w.archived_requests@.len()
                ==> (#[trigger] w.active_requests@[i]).id != (#[trigger] w.archived_requests@[y]).id,
{
}

/// Capacity respect: in every well-formed world — in particular at the moment
/// the arrival step is invoked — the active requests never exceed the
/// configured ceiling.
pub proof fn lemma_capacity_respected(w: World)
    requires
        w.wf(),
    ensures
        w.active_requests@.len() <= w.max_active_requests,
{
}

/// Liveness correctness, as far as it speaks of one state: every archived
/// request has a budget that reached zero, and no active request has. The
/// other half — every request whose budget reaches zero during a tick lands
/// in the archive — is `tick_accounts_for_actives` of `World::step`, whose
/// well-formed result admits no dead active request.
pub proof fn lemma_archived_exactly_dead(w: World)
    requires
        w.wf(),
    ensures
        forall|y: int|
            0 <= y < w.archived_requests@.len() ==> (#[trigger] w.archived_requests@[y])
                .remaining_waiting_time == 0 || w.archived_requests@[y].fulfillment_time == 0,
        forall|i: int|
            0 <= i < w.active_requests@.len() ==> (#[trigger] w.active_requests@[i])
                .remaining_waiting_time > 0 && w.active_requests@[i].fulfillment_time > 0,
{
}

/// Every tick boundary of a recorded run is well-formed. So the properties
/// the well-formedness lemmas above state — matching exclusivity, archive
/// uniqueness, capacity, the dead/alive split — hold at every boundary of
/// the run, not only at its end.
pub proof fn lemma_trace_boundaries_wf(tr: Seq<World>, first: World, last: World)
    requires
        run_trace(tr, first, last),
        first.wf(),
    ensures
        forall|i: int| 0 <= i < tr.len() ==> (#[trigger] tr[i]).wf(),
{
    assert forall|i: int| 0 <= i < tr.len() implies (#[trigger] tr[i]).wf() by {
        if i == 0 {
            assert(tr[0] == first);
        } else {
            assert(tick_rel(tr[i - 1], tr[i]));
        }
    }
}

/// The boundary state a zero-taxi, capacity-one, certain-arrival run is in
/// after its i-th tick: the one request admitted in the first tick is still
/// active, never matched, its waiting budget down by one per tick, and
/// nothing has been archived.
spec fn abandoning_state(w: World, first: World, i: int) -> bool {
    &&& w.age == first.age + i
    &&& w.runtime == first.runtime
    &&& w.spawn_chance_ppm == first.spawn_chance_ppm
    &&& w.max_active_requests == 1
    &&& w.taxis@.len() == 0
    &&& w.next_request_id == first.next_request_id + 1
    &&& w.active_requests@.len() == 1
    &&& w.active_requests@[0].id == first.next_request_id
    &&& w.active_requests@[0].assigned_taxi.is_none()
    &&& w.active_requests@[0].remaining_waiting_time == INITIAL_WAITING_BUDGET - i
    &&& w.active_requests@[0].fulfillment_time == INITIAL_SERVICE_BUDGET
    &&& w.archived_requests@ == first.archived_requests@
}

/// With no taxi to bind and room below the capacity of one, a certain chance
/// admits exactly one request in the first tick, and it ends the tick
/// waiting, aged once.
proof fn lemma_abandon_first_tick(a: World, b: World)
    requires
        a.wf(),
        tick_rel(a, b),
        a.taxis@.len() == 0,
        a.max_active_requests == 1,
        a.spawn_chance_ppm >= SPAWN_CHANCE_DENOM,
        a.active_requests@.len() == 0,
    ensures
        abandoning_state(b, a, 1),
        b.wf(),
{
    assert(b.next_request_id == a.next_request_id + 1);
    let fresh = Request::fresh(a.next_request_id);
    if archived_by_tick(a, b, fresh) {
        let y = choose|y: int|
            a.archived_requests@.len() <= y < b.archived_requests@.len() && Request::aged_once(
                fresh,
                #[trigger] b.archived_requests@[y],
            );
        assert(b.archived_requests@[y].spec_alive());
        assert(false);
    }
    assert(survives_tick(b, fresh));
    let x = choose|x: int|
        0 <= x < b.active_requests@.len() && Request::aged_once(
            fresh,
            #[trigger] b.active_requests@[x],
        );
    let r = b.active_requests@[x];
    assert(r.assigned_taxi.is_none());
    assert(r.remaining_waiting_time == INITIAL_WAITING_BUDGET - 1);
    if b.active_requests@.len() > 1 {
        let x2: int = if x == 0 {
            1
        } else {
            0
        };
        if aged_from_active(a, b.active_requests@[x2]) {
            let j = choose|j: int|
                0 <= j < a.active_requests@.len() && Request::aged_once(
                    #[trigger] a.active_requests@[j],
                    b.active_requests@[x2],
                );
            assert(false);
        }
        assert(b.active_requests@[x2].id == a.next_request_id);
        assert(false);
    }
    if b.archived_requests@.len() > a.archived_requests@.len() {
        let y = a.archived_requests@.len() as int;
        if aged_from_active(a, b.archived_requests@[y]) {
            let j = choose|j: int|
                0 <= j < a.active_requests@.len() && Request::aged_once(
                    #[trigger] a.active_requests@[j],
                    b.archived_requests@[y],
                );
            assert(false);
        }
        assert(Request::aged_once(fresh, b.archived_requests@[y]));
        assert(b.archived_requests@[y].spec_alive());
        assert(false);
    }
    assert(b.archived_requests@ =~= a.archived_requests@);
}

/// While the lone request's waiting budget is still above one, a tick at
/// capacity admits nothing, matches nothing for want of taxis, and only ages
/// the waiting budget by one.
proof fn lemma_abandon_waiting_tick(first: World, a: World, b: World, i: int)
    requires
        a.wf(),
        tick_rel(a, b),
        abandoning_state(a, first, i),
        1 <= i <= INITIAL_WAITING_BUDGET - 2,
    ensures
        abandoning_state(b, first, i + 1),
        b.wf(),
{
    assert(b.next_request_id == a.next_request_id);
    let r0 = a.active_requests@[0];
    if archived_by_tick(a, b, r0) {
        let y = choose|y: int|
            a.archived_requests@.len() <= y < b.archived_requests@.len() && Request::aged_once(
                r0,
                #[trigger] b.archived_requests@[y],
            );
        assert(b.archived_requests@[y].spec_alive());
        assert(false);
    }
    assert(survives_tick(b, r0));
    let x = choose|x: int|
        0 <= x < b.active_requests@.len() && Request::aged_once(
            r0,
            #[trigger] b.active_requests@[x],
        );
    let r = b.active_requests@[x];
    assert(r.assigned_taxi.is_none());
    assert(r.remaining_waiting_time == INITIAL_WAITING_BUDGET - (i + 1));
    if b.active_requests@.len() > 1 {
        let x2: int = if x == 0 {
            1
        } else {
            0
        };
        let j = choose|j: int|
            0 <= j < a.active_requests@.len() && Request::aged_once(
                #[trigger] a.active_requests@[j],
                b.active_requests@[x2],
            );
        assert(b.active_requests@[x2].id == r0.id);
        assert(false);
    }
    if b.archived_requests@.len() > a.archived_requests@.len() {
        let y = a.archived_requests@.len() as int;
        let j = choose|j: int|
            0 <= j < a.active_requests@.len() && Request::aged_once(
                #[trigger] a.active_requests@[j],
                b.archived_requests@[y],
            );
        assert(Request::aged_once(r0, b.archived_requests@[y]));
        assert(b.archived_requests@[y].spec_alive());
        assert(false);
    }
    assert(b.archived_requests@ =~= a.archived_requests@);
}

/// The tick in which the waiting budget reaches zero: the request dies, is
/// archived exactly once with no taxi and a full service budget, and leaves
/// the active set empty.
proof fn lemma_abandon_final_tick(first: World, a: World, b: World)
    requires
        a.wf(),
        tick_rel(a, b),
        abandoning_state(a, first, INITIAL_WAITING_BUDGET - 1),
    ensures
        b.age == first.age + INITIAL_WAITING_BUDGET,
        b.runtime == first.runtime,
        b.next_request_id == first.next_request_id + 1,
        b.active_requests@.len() == 0,
        b.archived_requests@.len() == first.archived_requests@.len() + 1,
        b.archived_requests@[first.archived_requests@.len() as int] == (Request {
            id: first.next_request_id,
            remaining_waiting_time: 0,
            assigned_taxi: None,
            fulfillment_time: INITIAL_SERVICE_BUDGET,
        }),
        forall|y: int|
            0 <= y < first.archived_requests@.len() ==> b.archived_requests@[y]
                == first.archived_requests@[y],
        b.wf(),
{
    assert(b.next_request_id == a.next_request_id);
    let r0 = a.active_requests@[0];
    if survives_tick(b, r0) {
        let x = choose|x: int|
            0 <= x < b.active_requests@.len() && Request::aged_once(
                r0,
                #[trigger] b.active_requests@[x],
            );
        assert(b.active_requests@[x].assigned_taxi.is_none());
        assert(!b.active_requests@[x].spec_alive());
        assert(false);
    }
    assert(archived_by_tick(a, b, r0));
    let y = choose|y: int|
        a.archived_requests@.len() <= y < b.archived_requests@.len() && Request::aged_once(
            r0,
            #[trigger] b.archived_requests@[y],
        );
    let e = b.archived_requests@[y];
    assert(e.assigned_taxi.is_none()) by {
        if e.assigned_taxi.is_some() {
            assert(e.spec_alive());
        }
    }
    assert(e == (Request {
        id: first.next_request_id,
        remaining_waiting_time: 0,
        assigned_taxi: None,
        fulfillment_time: INITIAL_SERVICE_BUDGET,
    }));
    if b.active_requests@.len() > 0 {
        if aged_from_active(a, b.active_requests@[0]) {
            let j = choose|j: int|
                0 <= j < a.active_requests@.len() && Request::aged_once(
                    #[trigger] a.active_requests@[j],
                    b.active_requests@[0],
                );
            assert(b.active_requests@[0].assigned_taxi.is_none());
            assert(!b.active_requests@[0].spec_alive());
        }
        assert(false);
    }
    if b.archived_requests@.len() > a.archived_requests@.len() + 1 {
        let y2: int = if y == a.archived_requests@.len() {
            y + 1
        } else {
            a.archived_requests@.len() as int
        };
        let j = choose|j: int|
            0 <= j < a.active_requests@.len() && Request::aged_once(
                #[trigger] a.active_requests@[j],
                b.archived_requests@[y2],
            );
        assert(b.archived_requests@[y2].id == r0.id);
        assert(false);
    }
    assert(y == a.archived_requests@.len());
}

/// The boundary states of the run, one by one: after each of its first
/// ninety-nine ticks the admitted request is still waiting, aged that many
/// times.
proof fn lemma_abandoning_prefix(tr: Seq<World>, first: World, last: World, i: int)
    requires
        run_trace(tr, first, last),
        first.wf(),
        first.taxis@.len() == 0,
        first.max_active_requests == 1,
        first.spawn_chance_ppm >= SPAWN_CHANCE_DENOM,
        first.active_requests@.len() == 0,
        1 <= i <= INITIAL_WAITING_BUDGET - 1,
        i < tr.len(),
    ensures
        abandoning_state(tr[i], first, i),
        tr[i].wf(),
    decreases i,
{
    if i == 1 {
        assert(tick_rel(tr[0], tr[1]));
        lemma_abandon_first_tick(first, tr[1]);
    } else {
        lemma_abandoning_prefix(tr, first, last, i - 1);
        assert(tick_rel(tr[i - 1], tr[i]));
        lemma_abandon_waiting_tick(first, tr[i - 1], tr[i], i - 1);
    }
}

/// Run-level abandonment: a run from age zero over a hundred ticks, with no
/// taxis, capacity one and a certain arrival chance, admits a single request
/// in its first tick; that request is never matched, waits its whole budget
/// down, and ends the run archived exactly once — with no taxi, a zero
/// waiting budget and an untouched service budget — leaving the active set
/// empty.
pub proof fn lemma_run_abandons_unserved(tr: Seq<World>, first: World, last: World)
    requires
        run_trace(tr, first, last),
        first.wf(),
        first.age == 0,
        first.runtime == INITIAL_WAITING_BUDGET - 1,
        first.taxis@.len() == 0,
        first.max_active_requests == 1,
        first.spawn_chance_ppm >= SPAWN_CHANCE_DENOM,
        first.active_requests@.len() == 0,
        first.archived_requests@.len() == 0,
        last.age == INITIAL_WAITING_BUDGET,
    ensures
        last.active_requests@.len() == 0,
        last.archived_requests@.len() == 1,
        last.archived_requests@[0] == (Request {
            id: first.next_request_id,
            remaining_waiting_time: 0,
            assigned_taxi: None,
            fulfillment_time: INITIAL_SERVICE_BUDGET,
        }),
{
    let k = tr.len() - 1;
    if k <= INITIAL_WAITING_BUDGET - 1 {
        if k == 0 {
            assert(last.age == 0);
        } else {
            lemma_abandoning_prefix(tr, first, last, k);
            assert(last.age == k);
        }
        assert(false);
    }
    lemma_abandoning_prefix(tr, first, last, INITIAL_WAITING_BUDGET - 1);
    assert(tick_rel(tr[INITIAL_WAITING_BUDGET - 1], tr[INITIAL_WAITING_BUDGET as int]));
    lemma_abandon_final_tick(
        first,
        tr[INITIAL_WAITING_BUDGET - 1],
        tr[INITIAL_WAITING_BUDGET as int],
    );
    if k > INITIAL_WAITING_BUDGET {
        assert(tr[INITIAL_WAITING_BUDGET as int].age <= tr[INITIAL_WAITING_BUDGET as int].runtime);
        assert(false);
    }
}

/// The boundary state a one-taxi, capacity-one, certain-arrival run is in
/// after its i-th tick: the request admitted in the first tick was matched
/// to the one taxi within that same tick and is still being served, its
/// service budget down by one per tick, the waiting budget untouched, and
/// nothing archived.
spec fn serving_state(w: World, first: World, i: int) -> bool {
    &&& w.age == first.age + i
    &&& w.runtime == first.runtime
    &&& w.spawn_chance_ppm == first.spawn_chance_ppm
    &&& w.max_active_requests == 1
    &&& w.taxis@.len() == 1
    &&& w.taxis@[0].is_occupied
    &&& w.next_request_id == first.next_request_id + 1
    &&& w.active_requests@.len() == 1
    &&& w.active_requests@[0].id == first.next_request_id
    &&& w.active_requests@[0].assigned_taxi == Some(0u64)
    &&& w.active_requests@[0].remaining_waiting_time == INITIAL_WAITING_BUDGET
    &&& w.active_requests@[0].fulfillment_time == INITIAL_SERVICE_BUDGET - i
    &&& w.archived_requests@ == first.archived_requests@
}

/// With one free taxi and room below the capacity of one, a certain chance
/// admits one request in the first tick; the matcher cannot leave it waiting
/// while the taxi is free, so it ends the tick matched and aged once on its
/// service budget.
proof fn lemma_serve_first_tick(a: World, b: World)
    requires
        a.wf(),
        tick_rel(a, b),
        a.taxis@.len() == 1,
        a.max_active_requests == 1,
        a.spawn_chance_ppm >= SPAWN_CHANCE_DENOM,
        a.active_requests@.len() == 0,
    ensures
        serving_state(b, a, 1),
        b.wf(),
{
    assert(b.next_request_id == a.next_request_id + 1);
    let mid = choose|mid: World|
        #[trigger] tick_matched(a, mid, true) && tick_ages_actives(mid, b, false)
            && tick_ages_archived(mid, b, false)
            && tick_accounts_for_actives(mid, b);
    let m0 = mid.active_requests@[0];
    assert(mid.active_requests@.len() == 1);

    // The matcher cannot leave the one request waiting while the one taxi is
    // free: an unbound request forces every taxi occupied, and an occupied
    // taxi has a binder among the requests — here only this one.
    assert(m0.assigned_taxi == Some(0u64)) by {
        if m0.assigned_taxi.is_none() {
            assert(mid.taxis@[0].is_occupied);
            let w = choose|i: int|
                0 <= i < mid.active_requests@.len() && (#[trigger] mid.active_requests@[i])
                    .assigned_taxi == Some(0u64);
            assert(false);
        }
        assert(m0.assigned_taxi.unwrap() < 1);
    }

    // It survives the tick: its aged form is alive.
    if archived_by_tick(mid, b, m0) {
        let y = choose|y: int|
            mid.archived_requests@.len() <= y < b.archived_requests@.len() && Request::aged_once(
                m0,
                #[trigger] b.archived_requests@[y],
            );
        assert(b.archived_requests@[y].spec_alive());
        assert(false);
    }
    assert(survives_tick(b, m0));
    let x = choose|x: int|
        0 <= x < b.active_requests@.len() && Request::aged_once(m0, #[trigger] b.active_requests@[x]);
    let r = b.active_requests@[x];
    assert(r.assigned_taxi == Some(0u64));
    assert(r.fulfillment_time == INITIAL_SERVICE_BUDGET - 1);

    if b.active_requests@.len() > 1 {
        let x2: int = if x == 0 {
            1
        } else {
            0
        };
        let j = choose|j: int|
            0 <= j < mid.active_requests@.len() && Request::aged_once(
                #[trigger] mid.active_requests@[j],
                b.active_requests@[x2],
            );
        assert(b.active_requests@[x2].id == r.id);
        assert(false);
    }
    assert(b.taxis@[0].is_occupied);
    if b.archived_requests@.len() > a.archived_requests@.len() {
        let y = a.archived_requests@.len() as int;
        let j = choose|j: int|
            0 <= j < mid.active_requests@.len() && Request::aged_once(
                #[trigger] mid.active_requests@[j],
                b.archived_requests@[y],
            );
        assert(Request::aged_once(m0, b.archived_requests@[y]));
        assert(b.archived_requests@[y].spec_alive());
        assert(false);
    }
    assert(b.archived_requests@ =~= a.archived_requests@);
}

/// While the served request's service budget is still above one, a tick at
/// capacity admits nothing and only ages the service budget by one; the
/// binding and the waiting budget are untouched.
proof fn lemma_serve_next_tick(first: World, a: World, b: World, i: int)
    requires
        a.wf(),
        tick_rel(a, b),
        serving_state(a, first, i),
        1 <= i <= INITIAL_SERVICE_BUDGET - 2,
    ensures
        serving_state(b, first, i + 1),
        b.wf(),
{
    assert(b.next_request_id == a.next_request_id);
    let r0 = a.active_requests@[0];
    if archived_by_tick(a, b, r0) {
        let y = choose|y: int|
            a.archived_requests@.len() <= y < b.archived_requests@.len() && Request::aged_once(
                r0,
                #[trigger] b.archived_requests@[y],
            );
        assert(b.archived_requests@[y].spec_alive());
        assert(false);
    }
    assert(survives_tick(b, r0));
    let x = choose|x: int|
        0 <= x < b.active_requests@.len() && Request::aged_once(r0, #[trigger] b.active_requests@[x]);
    let r = b.active_requests@[x];
    assert(r.assigned_taxi == Some(0u64));
    assert(r.fulfillment_time == INITIAL_SERVICE_BUDGET - (i + 1));
    if b.active_requests@.len() > 1 {
        let x2: int = if x == 0 {
            1
        } else {
            0
        };
        let j = choose|j: int|
            0 <= j < a.active_requests@.len() && Request::aged_once(
                #[trigger] a.active_requests@[j],
                b.active_requests@[x2],
            );
        assert(b.active_requests@[x2].id == r0.id);
        assert(false);
    }
    assert(b.taxis@[0].is_occupied);
    if b.archived_requests@.len() > a.archived_requests@.len() {
        let y = a.archived_requests@.len() as int;
        let j = choose|j: int|
            0 <= j < a.active_requests@.len() && Request::aged_once(
                #[trigger] a.active_requests@[j],
                b.archived_requests@[y],
            );
        assert(Request::aged_once(r0, b.archived_requests@[y]));
        assert(b.archived_requests@[y].spec_alive());
        assert(false);
    }
    assert(b.archived_requests@ =~= a.archived_requests@);
}

/// The tick in which the service budget reaches zero: the served request
/// dies, is archived exactly once — still holding its binding, its waiting
/// budget untouched — and the taxi is released.
proof fn lemma_serve_final_tick(first: World, a: World, b: World)
    requires
        a.wf(),
        tick_rel(a, b),
        serving_state(a, first, INITIAL_SERVICE_BUDGET - 1),
    ensures
        b.age == first.age + INITIAL_SERVICE_BUDGET,
        b.runtime == first.runtime,
        b.next_request_id == first.next_request_id + 1,
        b.active_requests@.len() == 0,
        b.archived_requests@.len() == first.archived_requests@.len() + 1,
        b.archived_requests@[first.archived_requests@.len() as int] == (Request {
            id: first.next_request_id,
            remaining_waiting_time: INITIAL_WAITING_BUDGET,
            assigned_taxi: Some(0u64),
            fulfillment_time: 0,
        }),
        forall|y: int|
            0 <= y < first.archived_requests@.len() ==> b.archived_requests@[y]
                == first.archived_requests@[y],
        !b.taxis@[0].is_occupied,
        b.wf(),
{
    assert(b.next_request_id == a.next_request_id);
    let r0 = a.active_requests@[0];
    if survives_tick(b, r0) {
        let x = choose|x: int|
            0 <= x < b.active_requests@.len() && Request::aged_once(
                r0,
                #[trigger] b.active_requests@[x],
            );
        assert(!b.active_requests@[x].spec_alive());
        assert(false);
    }
    assert(archived_by_tick(a, b, r0));
    let y = choose|y: int|
        a.archived_requests@.len() <= y < b.archived_requests@.len() && Request::aged_once(
            r0,
            #[trigger] b.archived_requests@[y],
        );
    let e = b.archived_requests@[y];
    assert(e == (Request {
        id: first.next_request_id,
        remaining_waiting_time: INITIAL_WAITING_BUDGET,
        assigned_taxi: Some(0u64),
        fulfillment_time: 0,
    }));
    if b.active_requests@.len() > 0 {
        let j = choose|j: int|
            0 <= j < a.active_requests@.len() && Request::aged_once(
                #[trigger] a.active_requests@[j],
                b.active_requests@[0],
            );
        assert(!b.active_requests@[0].spec_alive());
        assert(false);
    }
    if b.archived_requests@.len() > a.archived_requests@.len() + 1 {
        let y2: int = if y == a.archived_requests@.len() {
            y + 1
        } else {
            a.archived_requests@.len() as int
        };
        let j = choose|j: int|
            0 <= j < a.active_requests@.len() && Request::aged_once(
                #[trigger] a.active_requests@[j],
                b.archived_requests@[y2],
            );
        assert(b.archived_requests@[y2].id == r0.id);
        assert(false);
    }
    assert(y == a.archived_requests@.len());
    // The freed taxi: nothing active is bound to it any more.
    assert(!b.taxis@[0].is_occupied) by {
        if b.taxis@[0].is_occupied {
            let w = choose|i: int|
                0 <= i < b.active_requests@.len() && (#[trigger] b.active_requests@[i])
                    .assigned_taxi == Some(0u64);
            assert(false);
        }
    }
}

/// The boundary states of the served run, one by one.
proof fn lemma_serving_prefix(tr: Seq<World>, first: World, last: World, i: int)
    requires
        run_trace(tr, first, last),
        first.wf(),
        first.taxis@.len() == 1,
        first.max_active_requests == 1,
        first.spawn_chance_ppm >= SPAWN_CHANCE_DENOM,
        first.active_requests@.len() == 0,
        1 <= i <= INITIAL_SERVICE_BUDGET - 1,
        i < tr.len(),
    ensures
        serving_state(tr[i], first, i),
        tr[i].wf(),
    decreases i,
{
    if i == 1 {
        assert(tick_rel(tr[0], tr[1]));
        lemma_serve_first_tick(first, tr[1]);
    } else {
        lemma_serving_prefix(tr, first, last, i - 1);
        assert(tick_rel(tr[i - 1], tr[i]));
        lemma_serve_next_tick(first, tr[i - 1], tr[i], i - 1);
    }
}

/// Run-level service: a run from age zero over a hundred ticks, with one
/// taxi, capacity one and a certain arrival chance, admits a single request
/// in its first tick and matches it to the taxi within that same tick —
/// after which capacity blocks all later arrivals; the request spends its
/// whole service budget being driven and ends the run archived exactly once,
/// still bound to the taxi, with a zero service budget and an untouched
/// waiting budget; the taxi is freed and the active set left empty.
pub proof fn lemma_run_serves_single_request(tr: Seq<World>, first: World, last: World)
    requires
        run_trace(tr, first, last),
        first.wf(),
        first.age == 0,
        first.runtime == INITIAL_SERVICE_BUDGET - 1,
        first.taxis@.len() == 1,
        first.max_active_requests == 1,
        first.spawn_chance_ppm >= SPAWN_CHANCE_DENOM,
        first.active_requests@.len() == 0,
        first.archived_requests@.len() == 0,
        last.age == INITIAL_SERVICE_BUDGET,
    ensures
        last.active_requests@.len() == 0,
        last.archived_requests@.len() == 1,
        last.archived_requests@[0] == (Request {
            id: first.next_request_id,
            remaining_waiting_time: INITIAL_WAITING_BUDGET,
            assigned_taxi: Some(0u64),
            fulfillment_time: 0,
        }),
        !last.taxis@[0].is_occupied,
{
    let k = tr.len() - 1;
    if k <= INITIAL_SERVICE_BUDGET - 1 {
        if k == 0 {
            assert(last.age == 0);
        } else {
            lemma_serving_prefix(tr, first, last, k);
            assert(last.age == k);
        }
        assert(false);
    }
    lemma_serving_prefix(tr, first, last, INITIAL_SERVICE_BUDGET - 1);
    assert(tick_rel(tr[INITIAL_SERVICE_BUDGET - 1], tr[INITIAL_SERVICE_BUDGET as int]));
    lemma_serve_final_tick(
        first,
        tr[INITIAL_SERVICE_BUDGET - 1],
        tr[INITIAL_SERVICE_BUDGET as int],
    );
    if k > INITIAL_SERVICE_BUDGET {
        assert(tr[INITIAL_SERVICE_BUDGET as int].age <= tr[INITIAL_SERVICE_BUDGET as int].runtime);
        assert(false);
    }
}

} // verus!
