use taxi_sim::request::Request;
use taxi_sim::world::{World, SPAWN_CHANCE_DENOM};

#[test]
fn world_new_defaults() {
    let w = World::new(10, 500_000, 3, 2);
    assert_eq!(w.runtime, 10);
    assert_eq!(w.age, 0);
    assert_eq!(w.spawn_chance_ppm, 500_000);
    assert_eq!(w.max_active_requests, 3);
    assert_eq!(w.taxis.len(), 2);
    assert_eq!(w.taxis[0].id, 0);
    assert_eq!(w.taxis[1].id, 1);
    assert!(!w.taxis[0].is_occupied);
    assert!(!w.taxis[1].is_occupied);
    assert!(w.active_requests.is_empty());
    assert!(w.archived_requests.is_empty());
    assert_eq!(w.next_request_id, 0);
}

#[test]
fn spawn_chance_clamped_to_certainty() {
    let w = World::new(1, 2_000_000, 1, 0);
    assert_eq!(w.spawn_chance_ppm, SPAWN_CHANCE_DENOM);
}

#[test]
fn request_new_has_full_budgets() {
    let r = Request::new(7);
    assert_eq!(r.id, 7);
    assert_eq!(r.remaining_waiting_time, 100);
    assert_eq!(r.fulfillment_time, 100);
    assert!(r.assigned_taxi.is_none());
    assert!(r.is_alive());
}

#[test]
fn request_dead_when_either_budget_zero() {
    let mut r = Request::new(0);
    r.remaining_waiting_time = 0;
    assert!(!r.is_alive());
    let mut r2 = Request::new(1);
    r2.fulfillment_time = 0;
    assert!(!r2.is_alive());
}

#[test]
fn spawn_with_draw_spawns_below_capacity_only() {
    let mut w = World::new(10, SPAWN_CHANCE_DENOM, 2, 0);
    w.spawn_with_draw(0);
    assert_eq!(w.active_requests.len(), 1);
    assert_eq!(w.active_requests[0].id, 0);
    w.spawn_with_draw(0);
    assert_eq!(w.active_requests.len(), 2);
    assert_eq!(w.active_requests[1].id, 1);
    // Capacity reached: a third spawn is refused whatever the draw.
    w.spawn_with_draw(0);
    assert_eq!(w.active_requests.len(), 2);
    assert_eq!(w.next_request_id, 2);
}

#[test]
fn spawn_with_draw_respects_chance_boundary() {
    let mut w = World::new(10, 0, 5, 0);
    w.spawn_with_draw(0);
    assert_eq!(w.active_requests.len(), 0);

    let mut w2 = World::new(10, 500_000, 5, 0);
    w2.spawn_with_draw(499_999);
    assert_eq!(w2.active_requests.len(), 1);
    w2.spawn_with_draw(500_000);
    assert_eq!(w2.active_requests.len(), 1);
    w2.spawn_with_draw(1_500_000);
    assert_eq!(w2.active_requests.len(), 1);
}

#[test]
fn maybe_spawn_request_certain_chance_always_spawns() {
    let mut w = World::new(10, SPAWN_CHANCE_DENOM, 1, 0);
    w.maybe_spawn_request();
    assert_eq!(w.active_requests.len(), 1);
}

#[test]
fn maybe_spawn_request_never_spawns_at_capacity() {
    let mut w = World::new(10, SPAWN_CHANCE_DENOM, 0, 0);
    w.maybe_spawn_request();
    assert_eq!(w.active_requests.len(), 0);
}

#[test]
fn matching_is_greedy_in_arrival_order() {
    let mut w = World::new(10, SPAWN_CHANCE_DENOM, 3, 2);
    w.spawn_with_draw(0);
    w.spawn_with_draw(0);
    w.spawn_with_draw(0);
    w.distribute_unfulfilled_requests();
    assert_eq!(w.active_requests[0].assigned_taxi, Some(0));
    assert_eq!(w.active_requests[1].assigned_taxi, Some(1));
    assert_eq!(w.active_requests[2].assigned_taxi, None);
    assert!(w.taxis[0].is_occupied);
    assert!(w.taxis[1].is_occupied);
}

#[test]
fn matching_keeps_existing_assignments() {
    let mut w = World::new(10, SPAWN_CHANCE_DENOM, 3, 2);
    w.spawn_with_draw(0);
    w.distribute_unfulfilled_requests();
    assert_eq!(w.active_requests[0].assigned_taxi, Some(0));
    w.spawn_with_draw(0);
    w.distribute_unfulfilled_requests();
    assert_eq!(w.active_requests[0].assigned_taxi, Some(0));
    assert_eq!(w.active_requests[1].assigned_taxi, Some(1));
}

#[test]
fn update_decrements_exactly_one_budget() {
    let mut w = World::new(10, SPAWN_CHANCE_DENOM, 2, 1);
    w.spawn_with_draw(0);
    w.spawn_with_draw(0);
    w.distribute_unfulfilled_requests();
    w.update_requests();
    // The matched request is aged on its service budget ...
    assert_eq!(w.active_requests[0].fulfillment_time, 99);
    assert_eq!(w.active_requests[0].remaining_waiting_time, 100);
    // ... the waiting one on its waiting budget.
    assert_eq!(w.active_requests[1].fulfillment_time, 100);
    assert_eq!(w.active_requests[1].remaining_waiting_time, 99);
}

#[test]
fn cleanup_archives_dead_in_order_and_frees_taxis() {
    let mut w = World::new(10, 0, 10, 1);
    let mut dead_waiting = Request::new(0);
    dead_waiting.remaining_waiting_time = 0;
    let mut alive = Request::new(1);
    alive.remaining_waiting_time = 55;
    let mut dead_served = Request::new(2);
    dead_served.assigned_taxi = Some(0);
    dead_served.fulfillment_time = 0;
    w.active_requests.push(dead_waiting);
    w.active_requests.push(alive);
    w.active_requests.push(dead_served);
    w.taxis[0].is_occupied = true;
    w.next_request_id = 3;

    w.cleanup_requests();

    assert_eq!(w.archived_requests.len(), 2);
    assert_eq!(w.archived_requests[0].id, 0);
    assert_eq!(w.archived_requests[1].id, 2);
    assert_eq!(w.active_requests.len(), 1);
    assert_eq!(w.active_requests[0].id, 1);
    assert!(!w.taxis[0].is_occupied);
}

#[test]
fn cleanup_keeps_taxi_of_living_request() {
    let mut w = World::new(10, 0, 10, 1);
    let mut served = Request::new(0);
    served.assigned_taxi = Some(0);
    w.active_requests.push(served);
    w.taxis[0].is_occupied = true;
    w.next_request_id = 1;

    w.cleanup_requests();

    assert_eq!(w.archived_requests.len(), 0);
    assert_eq!(w.active_requests.len(), 1);
    assert!(w.taxis[0].is_occupied);
}

#[test]
fn scenario_single_taxi_full_service() {
    // Capacity 1, one taxi, certain arrivals: the first tick admits and
    // matches one request, and ages it the very tick it was created.
    let mut w = World::new(1000, SPAWN_CHANCE_DENOM, 1, 1);
    w.step_with_draw(0);
    assert_eq!(w.age, 1);
    assert_eq!(w.active_requests.len(), 1);
    assert_eq!(w.active_requests[0].id, 0);
    assert_eq!(w.active_requests[0].assigned_taxi, Some(0));
    assert_eq!(w.active_requests[0].fulfillment_time, 99);
    assert_eq!(w.active_requests[0].remaining_waiting_time, 100);
    assert!(w.taxis[0].is_occupied);

    // Tick 2: capacity is full, so no new arrival; service budget ticks on.
    w.step_with_draw(0);
    assert_eq!(w.active_requests.len(), 1);
    assert_eq!(w.next_request_id, 1);
    assert_eq!(w.active_requests[0].fulfillment_time, 98);

    // Tick 3: unchanged pattern.
    w.step_with_draw(0);
    assert_eq!(w.active_requests[0].fulfillment_time, 97);

    // The request lives for exactly 100 ticks in service, then archives and
    // the taxi frees.
    for _ in 3..99 {
        w.step_with_draw(0);
    }
    assert_eq!(w.active_requests.len(), 1);
    assert_eq!(w.active_requests[0].fulfillment_time, 1);
    assert!(w.archived_requests.is_empty());

    w.step_with_draw(0);
    assert_eq!(w.age, 100);
    assert!(w.active_requests.is_empty());
    assert_eq!(w.archived_requests.len(), 1);
    assert_eq!(w.archived_requests[0].id, 0);
    assert_eq!(w.archived_requests[0].fulfillment_time, 0);
    assert_eq!(w.archived_requests[0].remaining_waiting_time, 100);
    assert!(!w.taxis[0].is_occupied);
    assert_eq!(w.next_request_id, 1);
}

#[test]
fn scenario_no_taxis_request_abandons() {
    // No servers, certain arrivals, capacity 1: the single request waits its
    // whole budget down and abandons, never matched.
    let mut w = World::new(1000, SPAWN_CHANCE_DENOM, 1, 0);
    for _ in 0..99 {
        w.step_with_draw(0);
    }
    assert_eq!(w.active_requests.len(), 1);
    assert_eq!(w.active_requests[0].remaining_waiting_time, 1);
    assert!(w.archived_requests.is_empty());

    w.step_with_draw(0);
    assert!(w.active_requests.is_empty());
    assert_eq!(w.archived_requests.len(), 1);
    assert_eq!(w.archived_requests[0].id, 0);
    assert_eq!(w.archived_requests[0].assigned_taxi, None);
    assert_eq!(w.archived_requests[0].remaining_waiting_time, 0);
    assert_eq!(w.archived_requests[0].fulfillment_time, 100);
}

#[test]
fn run_till_done_runs_inclusive_horizon() {
    let mut w = World::new(5, 0, 0, 0);
    w.run_till_done();
    assert_eq!(w.age, 6);
    assert!(w.archived_requests.is_empty());
}

#[test]
fn run_till_done_leaves_finished_world_alone() {
    let mut w = World::new(5, 0, 0, 0);
    w.age = 7;
    w.run_till_done();
    assert_eq!(w.age, 7);
}

#[test]
fn summary_reports_counts() {
    let mut w = World::new(10, SPAWN_CHANCE_DENOM, 3, 2);
    w.spawn_with_draw(0);
    w.spawn_with_draw(0);
    w.spawn_with_draw(0);
    w.distribute_unfulfilled_requests();
    let s = w.summary();
    assert_eq!(s.age, 0);
    assert_eq!(s.runtime, 10);
    assert_eq!(s.occupied_taxis, 2);
    assert_eq!(s.total_taxis, 2);
    assert_eq!(s.assigned_requests, 2);
    assert_eq!(s.waiting_requests, 1);
    assert_eq!(s.archived_requests, 0);
}

#[test]
fn long_run_archive_is_dead_distinct_and_append_only() {
    // One taxi, two slots of capacity: requests churn; the archive must only
    // ever grow, hold only dead requests, and never hold an identity twice.
    let mut w = World::new(1000, SPAWN_CHANCE_DENOM, 2, 1);
    let mut seen_len: usize = 0;
    let mut previous: Vec<u64> = Vec::new();
    for _ in 0..400 {
        w.step_with_draw(0);
        assert!(w.archived_requests.len() >= seen_len);
        for (k, id) in previous.iter().enumerate() {
            assert_eq!(w.archived_requests[k].id, *id);
        }
        seen_len = w.archived_requests.len();
        previous = w.archived_requests.iter().map(|r| r.id).collect();
        for r in &w.archived_requests {
            assert!(r.remaining_waiting_time == 0 || r.fulfillment_time == 0);
            assert!(!w.active_requests.iter().any(|a| a.id == r.id));
        }
        for (a, ra) in w.archived_requests.iter().enumerate() {
            for rb in w.archived_requests.iter().skip(a + 1) {
                assert_ne!(ra.id, rb.id);
            }
        }
        assert!(w.active_requests.len() <= 2);
    }
    assert!(w.archived_requests.len() >= 3);
}
