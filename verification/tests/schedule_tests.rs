use route_solver::matrix::DistanceMatrix;
use route_solver::moves::{AddNewOrder, RemoveOrder, ShiftInRoute};
use route_solver::order_day_flags::OrderFlags;
use route_solver::resource::{Company, Distance, Frequency, Problem};
use route_solver::route::Route;
use route_solver::solution::{calculate_score, Solution};
use route_solver::week::DayEnum;
use route_solver::HALF_HOUR;
use rand::SeedableRng;
use rand::rngs::SmallRng;

fn company(order: u16, freq: Frequency, volume: u32, service: i64, node: u16) -> Company {
    Company {
        order,
        place: String::new(),
        frequency: freq,
        container_count: 1,
        container_volume: 0,
        emptying_time: service,
        matrix_id: node,
        x_coordinate: 0,
        y_coordinate: 0,
        total_container_volume: volume,
        penalty: 3 * (freq.count() as i64) * service,
    }
}

/// Four real orders plus the depot sentinel, over a five-node matrix whose
/// travel time between nodes a and b is 100 * (a + b + 1).
fn fixture() -> Problem {
    let orders = vec![
        company(101, Frequency::Once, 1000, 600, 0),
        company(102, Frequency::Twice, 2000, 1200, 1),
        company(103, Frequency::Thrice, 3000, 1800, 2),
        company(104, Frequency::FourTimes, 4000, 2400, 3),
        company(0, Frequency::Depot, 0, 0, 4),
    ];
    let mut matrix = DistanceMatrix::new();
    for a in 0u16..5 {
        for b in 0u16..5 {
            if a != b {
                let t = 100 * (a as i64 + b as i64 + 1);
                matrix.set_edge(a, b, Distance { absolute_distance: 1, travel_time: t });
            }
        }
    }
    Problem::new(orders, matrix, 5).expect("the fixture is a valid planning context")
}

fn travel(a: u16, b: u16) -> i64 {
    if a == b { 0 } else { 100 * (a as i64 + b as i64 + 1) }
}

#[test]
fn initialization_check() {
    let p = fixture();
    assert_eq!(p.order_count(), 5);
    assert_eq!(p.depot(), 4);
    let route = Route::new(&p);
    assert_eq!(route.time, HALF_HOUR);
    assert_eq!(route.capacity, 0);
    assert_eq!(route.linked_vector.len(), 2);
}

#[test]
fn single_add() {
    let p = fixture();
    let route = &mut Route::new(&p);

    route.apply_add_order(&p, 0, 0);

    let before_recalc = route.time;
    route.recalculate_total_time(&p);
    assert_eq!(before_recalc, route.time);
}

#[test]
fn single_remove() {
    let p = fixture();
    let route = &mut Route::new(&p);

    let before_time = route.calculate_time(&p);

    route.apply_add_order(&p, 0, 0);
    route.apply_remove_node(&p, 2);

    assert_eq!(before_time, route.time);
    route.recalculate_total_time(&p);
    assert_eq!(before_time, route.time);
}

#[test]
fn add_order_prices_exactly() {
    let p = fixture();
    let route = &mut Route::new(&p);
    let old_time = route.time;

    // Insert order 0 (node 0, service 600) between the depot sentinels
    // (node 4): the delta is both depot legs plus the service time, since
    // the depot-to-depot leg is zero.
    let head = route.linked_vector.get_head_index().unwrap();
    let expected = travel(4, 0) + travel(0, 4) + 600 - travel(4, 4);
    let calculated = route.calculate_add_order(&p, head, 0);
    assert_eq!(calculated, expected);

    let applied = route.apply_add_order(&p, head, 0);
    assert_eq!(applied, expected);
    assert_eq!(route.linked_vector.len(), 3);
    assert_eq!(route.capacity, 1000);
    assert_eq!(route.time, old_time + expected);
}

#[test]
fn add_then_remove_round_trip() {
    let p = fixture();
    let route = &mut Route::new(&p);
    let old_time = route.time;
    let old_capacity = route.capacity;

    let head = route.linked_vector.get_head_index().unwrap();
    route.apply_add_order(&p, head, 1);
    let node = route.linked_vector.get_next(head).unwrap();
    route.apply_remove_node(&p, node);

    assert_eq!(route.time, old_time);
    assert_eq!(route.capacity, old_capacity);
}

#[test]
fn capacity_bound_respected_by_move_sampling() {
    let p = fixture();
    let mut s = Solution::new(&p);
    let mut rng = SmallRng::seed_from_u64(11);
    for _ in 0..200 {
        if let Some(m) = AddNewOrder::new(&p, &s, &mut rng, 1) {
            m.apply(&p, &mut s);
            break;
        }
    }
    // Whatever was placed, no route may exceed the volume cap.
    for t in [&s.truck1, &s.truck2] {
        for d in [
            DayEnum::Monday,
            DayEnum::Tuesday,
            DayEnum::Wednesday,
            DayEnum::Thursday,
            DayEnum::Friday,
        ] {
            let day = t.get(d);
            assert!(day.morning.capacity <= 100_000);
            assert!(day.afternoon.capacity <= 100_000);
        }
    }
}

#[test]
fn evaluate_equals_apply_for_add() {
    let p = fixture();
    let mut s = Solution::new(&p);
    let mut rng = SmallRng::seed_from_u64(3);
    let m = AddNewOrder::new(&p, &s, &mut rng, 0).expect("the empty plan accepts order 0");
    let evaluated = m.evaluate(&p, &s);
    let applied = m.apply(&p, &mut s);
    assert_eq!(evaluated, applied);
    assert_eq!(s.score, calculate_score(&p, &s));
}

#[test]
fn evaluate_equals_apply_for_remove_and_shift() {
    let p = fixture();
    let mut s = Solution::new(&p);
    let mut rng = SmallRng::seed_from_u64(5);

    // Fill a few visits first.
    for o in [0usize, 1, 2, 3] {
        for _ in 0..50 {
            if let Some(m) = AddNewOrder::new(&p, &s, &mut rng, o) {
                m.apply(&p, &mut s);
                break;
            }
        }
    }
    assert_eq!(s.score, calculate_score(&p, &s));

    let mut shifted = false;
    for _ in 0..400 {
        if let Some(m) = ShiftInRoute::new(&p, &s, &mut rng) {
            let evaluated = m.evaluate(&p, &s);
            let applied = m.apply(&p, &mut s);
            assert_eq!(evaluated, applied);
            shifted = true;
            break;
        }
    }
    let _ = shifted;

    let mut removed = false;
    for _ in 0..400 {
        if let Some(m) = RemoveOrder::new(&p, &s, &mut rng) {
            let evaluated = m.evaluate(&p, &s);
            let applied = m.apply(&p, &mut s);
            assert_eq!(evaluated, applied);
            removed = true;
            break;
        }
    }
    assert!(removed);
    assert_eq!(s.score, calculate_score(&p, &s));
}

#[test]
fn frequency_two_fills_monday_and_thursday() {
    let p = fixture();
    let mut flags = OrderFlags::new(5);
    // Order 1 requires two visits; Monday pairs with Thursday.
    flags.add_order(1, DayEnum::Monday);
    let mut rng = SmallRng::seed_from_u64(2);
    let next = flags
        .get_random_allowed_day(&p, 1, &mut rng)
        .expect("one visit left");
    assert_eq!(next, DayEnum::Thursday);
    flags.add_order(1, DayEnum::Thursday);
    assert_eq!(flags.get_filled_count(1), 2);
    assert!(flags.get_random_allowed_day(&p, 1, &mut rng).is_none());
}

#[test]
fn frequency_two_never_wednesday() {
    let p = fixture();
    let flags = OrderFlags::new(5);
    let mut rng = SmallRng::seed_from_u64(9);
    for _ in 0..100 {
        let d = flags
            .get_random_allowed_day(&p, 1, &mut rng)
            .expect("an empty mask always has a legal day");
        assert_ne!(d, DayEnum::Wednesday);
    }
}

#[test]
fn frequency_three_uses_monday_wednesday_friday() {
    let p = fixture();
    let mut flags = OrderFlags::new(5);
    let mut rng = SmallRng::seed_from_u64(4);
    for _ in 0..3 {
        let d = flags
            .get_random_allowed_day(&p, 2, &mut rng)
            .expect("three visits fit");
        assert!(matches!(
            d,
            DayEnum::Monday | DayEnum::Wednesday | DayEnum::Friday
        ));
        flags.add_order(2, d);
    }
    assert_eq!(flags.get_filled_count(2), 3);
    assert!(flags.get_random_allowed_day(&p, 2, &mut rng).is_none());
}

#[test]
fn problem_rejects_incomplete_matrix() {
    let orders = vec![
        company(101, Frequency::Once, 1000, 600, 0),
        company(0, Frequency::Depot, 0, 0, 1),
    ];
    // Only one direction present: coverage fails.
    let mut matrix = DistanceMatrix::new();
    matrix.set_edge(0, 1, Distance { absolute_distance: 1, travel_time: 100 });
    assert!(Problem::new(orders, matrix, 2).is_none());
}

#[test]
fn problem_rejects_bad_penalty() {
    let mut bad = company(101, Frequency::Once, 1000, 600, 0);
    bad.penalty = 1;
    let orders = vec![bad, company(0, Frequency::Depot, 0, 0, 1)];
    let mut matrix = DistanceMatrix::new();
    matrix.set_edge(0, 1, Distance { absolute_distance: 1, travel_time: 100 });
    matrix.set_edge(1, 0, Distance { absolute_distance: 1, travel_time: 100 });
    assert!(Problem::new(orders, matrix, 2).is_none());
}

#[test]
fn starting_score_is_total_penalty() {
    let p = fixture();
    let s = Solution::new(&p);
    // 3 * frequency * service for each unscheduled order.
    let expected = 3 * (1 * 600 + 2 * 1200 + 3 * 1800 + 4 * 2400);
    assert_eq!(s.score, expected);
    assert_eq!(s.score, calculate_score(&p, &s));
    assert_eq!(s.unfilled_orders.len(), 4);
}

#[test]
fn day_total_ignores_empty_routes() {
    let p = fixture();
    let mut s = Solution::new(&p);
    assert_eq!(s.truck1.get(DayEnum::Monday).get_total_time(&p), 0);
    let mut rng = SmallRng::seed_from_u64(8);
    for _ in 0..200 {
        if let Some(m) = AddNewOrder::new(&p, &s, &mut rng, 0) {
            m.apply(&p, &mut s);
            break;
        }
    }
    // Exactly one route is non-empty now; its day charges the half-hour
    // depot overhead plus the two legs and the service time.
    let mut total = 0;
    for t in [&s.truck1, &s.truck2] {
        for d in [
            DayEnum::Monday,
            DayEnum::Tuesday,
            DayEnum::Wednesday,
            DayEnum::Thursday,
            DayEnum::Friday,
        ] {
            total += t.get(d).get_total_time(&p);
        }
    }
    assert_eq!(total, HALF_HOUR + travel(4, 0) + travel(0, 4) + 600);
}

#[test]
fn check_correctness_time_never_drifts() {
    let p = fixture();
    let mut s = Solution::new(&p);
    let mut rng = SmallRng::seed_from_u64(6);
    for o in [0usize, 1, 2] {
        for _ in 0..50 {
            if let Some(m) = AddNewOrder::new(&p, &s, &mut rng, o) {
                m.apply(&p, &mut s);
                break;
            }
        }
    }
    for t in [&s.truck1, &s.truck2] {
        for d in [
            DayEnum::Monday,
            DayEnum::Tuesday,
            DayEnum::Wednesday,
            DayEnum::Thursday,
            DayEnum::Friday,
        ] {
            let day = t.get(d);
            assert!(day.morning.check_correctness_time(&p));
            assert!(day.afternoon.check_correctness_time(&p));
        }
    }
}

#[test]
fn frequency_two_via_bulk_add() {
    let p = fixture();
    let mut s = Solution::new(&p);
    let mut rng = SmallRng::seed_from_u64(21);
    let mut done = false;
    for _ in 0..200 {
        if let Some(m) = route_solver::moves::AddMultipleNewOrders::new(&p, &s, &mut rng, 1) {
            let evaluated = m.evaluate(&p, &s);
            let applied = m.apply(&p, &mut s);
            assert_eq!(evaluated, applied);
            done = true;
            break;
        }
    }
    assert!(done);
    // Order 1 requires two visits; they land on a legal pair of days and
    // the quota is met, so no further day is allowed.
    assert_eq!(s.order_flags.get_filled_count(1), 2);
    assert!(s
        .order_flags
        .get_random_allowed_day(&p, 1, &mut rng)
        .is_none());
    assert_eq!(s.score, calculate_score(&p, &s));
}

#[test]
fn evaluate_equals_apply_for_bulk_remove() {
    let p = fixture();
    let mut s = Solution::new(&p);
    let mut rng = SmallRng::seed_from_u64(13);
    // Schedule order 3 (four visits) completely, then withdraw it whole.
    let mut added = false;
    for _ in 0..200 {
        if let Some(m) = route_solver::moves::AddMultipleNewOrders::new(&p, &s, &mut rng, 3) {
            m.apply(&p, &mut s);
            added = true;
            break;
        }
    }
    assert!(added);
    assert_eq!(s.order_flags.get_filled_count(3), 4);

    let mut removed = false;
    for _ in 0..400 {
        if let Some(m) = route_solver::moves::RemoveMultipleOrders::new(&p, &s, &mut rng) {
            let evaluated = m.evaluate(&p, &s);
            let applied = m.apply(&p, &mut s);
            assert_eq!(evaluated, applied);
            assert_eq!(s.order_flags.get_filled_count(m.order_index), 0);
            removed = true;
            break;
        }
    }
    assert!(removed);
    assert_eq!(s.score, calculate_score(&p, &s));
}

#[test]
fn cleanup_leaves_orders_complete_or_empty() {
    let p = fixture();
    let mut s = Solution::new(&p);
    let mut rng = SmallRng::seed_from_u64(17);
    // Leave order 2 (three visits) partially scheduled with a single visit.
    let mut added = false;
    for _ in 0..200 {
        if let Some(m) = AddNewOrder::new(&p, &s, &mut rng, 2) {
            m.apply(&p, &mut s);
            added = true;
            break;
        }
    }
    assert!(added);
    assert_eq!(s.order_flags.get_filled_count(2), 1);

    route_solver::engine::cleanup(&p, &mut s);

    for o in 0..4usize {
        let c = s.order_flags.get_filled_count(o);
        let f = p.orders[o].frequency.count() as u32;
        assert!(c == f || c == 0, "order {o} left partially scheduled");
    }
    assert_eq!(s.score, calculate_score(&p, &s));
}

#[test]
fn engine_step_completes_whole_orders() {
    let p = fixture();
    let mut s = Solution::new(&p);
    let mut rng = SmallRng::seed_from_u64(23);
    let weights = [100u64, 0, 0, 0];
    let mut placed = 0;
    for _ in 0..400 {
        if let Some((m, _info)) = route_solver::engine::choose_neighbor(
            &p,
            &mut s,
            &mut rng,
            weights,
            8,
        ) {
            let evaluated = m.evaluate(&p, &s);
            let applied = m.apply(&p, &mut s);
            assert_eq!(evaluated, applied);
            placed += 1;
        }
        if s.unfilled_orders.is_empty() {
            break;
        }
    }
    assert!(placed >= 1);
    // Any order the engine placed is complete: the whole-order add never
    // leaves a partial frequency assignment.
    for o in 0..4usize {
        let c = s.order_flags.get_filled_count(o);
        let f = p.orders[o].frequency.count() as u32;
        assert!(c == f || c == 0);
    }
    assert_eq!(s.score, calculate_score(&p, &s));
}

#[test]
fn problem_new_accepts_exactly_usable_inputs() {
    // The fixture is usable and accepted; the same inputs with a broken
    // depot sentinel are refused.
    let p = fixture();
    assert_eq!(p.order_count(), 5);

    let orders = vec![
        company(101, Frequency::Once, 1000, 600, 0),
        company(7, Frequency::Once, 5, 5, 1),
    ];
    let mut matrix = DistanceMatrix::new();
    matrix.set_edge(0, 1, Distance { absolute_distance: 1, travel_time: 100 });
    matrix.set_edge(1, 0, Distance { absolute_distance: 1, travel_time: 100 });
    // The last order is not a depot sentinel.
    assert!(Problem::new(orders, matrix, 2).is_none());
}
