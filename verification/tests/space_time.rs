use amr_coordination::space_time::priority::{dominates, PriorityState};
use amr_coordination::space_time::reservation::{
    CellReservations, Reservation, ReservationTable, MAX_RESERVATIONS_PER_CELL,
};
use amr_coordination::space_time::{cells_adjacent, Heading, SafeInterval, Tick, MAX_TICK, Q16_16, Q8_8};

#[test]
fn test_safe_interval_contains() {
    let interval = SafeInterval::new(10, 20);
    assert!(interval.contains(10));
    assert!(interval.contains(15));
    assert!(!interval.contains(20));
}

#[test]
fn test_safe_interval_overlaps() {
    let a = SafeInterval::new(10, 20);
    let b = SafeInterval::new(15, 25);
    assert!(a.overlaps(&b));
    let c = SafeInterval::new(20, 30);
    assert!(!a.overlaps(&c));
}

#[test]
fn test_safe_interval_padded() {
    let interval = SafeInterval::new(10, 20);
    let padded = interval.padded(1);
    assert_eq!(padded.t_start, 9);
    assert_eq!(padded.t_end, 21);
}

#[test]
fn test_cells_adjacent() {
    assert!(cells_adjacent(5, 6, 10));
    assert!(cells_adjacent(5, 15, 10));
    assert!(!cells_adjacent(5, 16, 10));
}

#[test]
fn test_heading_opposite() {
    assert_eq!(Heading::N.opposite(), Heading::S);
    assert_eq!(Heading::E.opposite(), Heading::W);
}

#[test]
fn test_tick_no_overflow() {
    let tick: Tick = MAX_TICK - 1;
    let next = tick.wrapping_add(1);
    assert_eq!(next, MAX_TICK);
}

#[test]
fn safe_interval_duration_and_intersection() {
    let a = SafeInterval::new(10, 20);
    let b = SafeInterval::new(15, 30);
    assert_eq!(a.duration(), 10);
    assert_eq!(a.intersection(&b), Some(SafeInterval::new(15, 20)));
    assert_eq!(a.intersection(&SafeInterval::new(20, 30)), None);
    assert_eq!(SafeInterval { t_start: 5, t_end: 3 }.duration(), 0);
}

#[test]
fn safe_interval_padding_saturates() {
    let p = SafeInterval::new(2, u32::MAX - 1).padded(5);
    assert_eq!(p.t_start, 0);
    assert_eq!(p.t_end, u32::MAX);
}

#[test]
fn heading_codes_roundtrip() {
    for h in [Heading::N, Heading::E, Heading::S, Heading::W] {
        assert_eq!(Heading::from_u8(h.to_u8()), Some(h));
        assert_eq!(h.opposite().opposite(), h);
    }
    assert_eq!(Heading::from_u8(4), None);
    assert_eq!(Heading::from_u8_masked(6), Heading::S);
}

#[test]
fn fixed_point_arithmetic() {
    assert_eq!(Q8_8(65000).add(Q8_8(1000)), Q8_8(65535));
    assert_eq!(Q8_8(512).mul_frac(3, 4), Q8_8(384));
    assert_eq!(Q16_16(3 * 65536).mul(Q16_16(32768)), Q16_16(98304));
    assert_eq!(Q16_16(-65536).mul(Q16_16(1)), Q16_16(-1));
    assert_eq!(Q16_16(i32::MAX).add(Q16_16(1)), Q16_16(i32::MAX));
    assert_eq!(Q16_16(i32::MIN).sub(Q16_16(1)), Q16_16(i32::MIN));
}

#[test]
fn test_yield_dominance() {
    let base = PriorityState { yield_count: 0, urgency: 3, d_goal: 1, battery: 100, id: 1 };
    let base_p = base.compute();
    let yielded = PriorityState { yield_count: 1, ..base };
    assert!(yielded.compute() > base_p);
}

#[test]
fn test_urgency_multiplier() {
    let a = PriorityState { yield_count: 0, urgency: 3, d_goal: 1, battery: 50, id: 1 };
    let b = PriorityState { yield_count: 0, urgency: 0, d_goal: 1, battery: 50, id: 1 };
    assert!(a.compute() > b.compute());
}

#[test]
fn test_total_ordering() {
    let mut states: Vec<u32> = (0..20)
        .map(|id| PriorityState { yield_count: 0, urgency: 0, d_goal: 10, battery: 50, id }.compute())
        .collect();
    let sorted = {
        let mut s = states.clone();
        s.sort();
        s
    };
    states.sort_by(|a, b| b.cmp(a));
    assert_eq!(states, sorted.into_iter().rev().collect::<Vec<_>>());
}

#[test]
fn test_emergency_equals_one_yield() {
    let emergency = PriorityState { yield_count: 0, urgency: 4, d_goal: 1, battery: 100, id: 20 };
    let one_yield = PriorityState { yield_count: 1, urgency: 0, d_goal: 256, battery: 0, id: 1 };
    assert!(emergency.compute() >= one_yield.compute());
}

#[test]
fn priority_exact_value() {
    // 50000*3 + min(10000*2, 20000) + 5000/(4+1) + 10/(9+1) + 7
    let s = PriorityState { yield_count: 2, urgency: 3, d_goal: 4, battery: 9, id: 7 };
    assert_eq!(s.compute(), 171008);
    // the yield term is capped at 20000
    let more = PriorityState { yield_count: 200, ..s };
    assert_eq!(more.compute(), 171008);
    assert_eq!(amr_coordination::space_time::priority::priority_after_yield(23008), 33008);
    assert!(amr_coordination::space_time::priority::dominates(33008, 23008));
    assert_eq!(amr_coordination::space_time::priority::priority_at_max_yield(), 20000);
}

#[test]
fn test_reservation_no_overlap() {
    let mut table = ReservationTable::new();
    let interval1 = SafeInterval { t_start: 10, t_end: 20 };
    let interval2 = SafeInterval { t_start: 20, t_end: 30 };
    table.insert_interval(1, 1, interval1, 0).unwrap();
    table.insert_interval(1, 2, interval2, 0).unwrap();
    assert!(table.is_free(1, &interval1));
    assert!(table.is_free(1, &interval2));
}

#[test]
fn test_reservation_overlap_detected() {
    let mut table = ReservationTable::new();
    let interval1 = SafeInterval { t_start: 10, t_end: 20 };
    let interval2 = SafeInterval { t_start: 15, t_end: 25 };
    table.insert_interval(1, 1, interval1, 0).unwrap();
    assert!(!table.is_free(1, &interval2));
}

#[test]
fn test_range_intersection() {
    let mut table = ReservationTable::new();
    let interval1 = SafeInterval { t_start: 10, t_end: 30 };
    table.insert_interval(1, 1, interval1, 0).unwrap();
    let results = table.query(1, 15, 25);
    assert_eq!(results.len(), 1);
}

#[test]
fn test_gc_prunes_expired() {
    let mut table = ReservationTable::new();
    let interval = SafeInterval { t_start: 10, t_end: 20 };
    table.insert_interval(1, 1, interval, 0).unwrap();
    table.gc(25);
    assert_eq!(table.total_reservations(), 0);
}

#[test]
fn test_capacity_eviction() {
    let mut table = ReservationTable::new();
    for i in 0..33 {
        let interval = SafeInterval { t_start: i as Tick, t_end: (i + 10) as Tick };
        table.insert_interval(1, 1, interval, 0).unwrap();
    }
    assert_eq!(table.get_cell_reservations(1).len(), MAX_RESERVATIONS_PER_CELL);
}

#[test]
fn test_priority_total_ordering() {}

#[test]
fn test_priority_yield_dominance() {}

#[test]
fn reservation_window_checks() {
    let r = Reservation::new(3, SafeInterval::new(10, 20), 9);
    assert!(r.contains_tick(10));
    assert!(!r.contains_tick(20));
    assert!(r.contains_interval(&SafeInterval::new(12, 20)));
    assert!(!r.contains_interval(&SafeInterval::new(5, 15)));
    assert!(r.overlaps_interval(&SafeInterval::new(19, 40)));
    assert!(!r.overlaps(&Reservation::new(4, SafeInterval::new(20, 30), 0)));
}

#[test]
fn cell_reservations_sorted_and_evicting() {
    let mut cell = CellReservations::new();
    cell.insert(Reservation::new(1, SafeInterval::new(30, 40), 0)).unwrap();
    cell.insert(Reservation::new(2, SafeInterval::new(10, 50), 0)).unwrap();
    cell.insert(Reservation::new(3, SafeInterval::new(20, 25), 0)).unwrap();
    let starts: Vec<u32> = cell.range_query(0, 100).iter().map(|r| r.t_start).collect();
    assert_eq!(starts, vec![10, 20, 30]);
    assert_eq!(cell.range_query(26, 29).len(), 1);
    cell.gc(25);
    assert_eq!(cell.count(), 2);
    // fill up: the booking that ends first leaves
    let mut full = CellReservations::new();
    for i in 0..32u32 {
        full.insert(Reservation::new(1, SafeInterval::new(i, 100 - i), 0)).unwrap();
    }
    full.insert(Reservation::new(9, SafeInterval::new(50, 60), 0)).unwrap();
    assert_eq!(full.count(), 32);
    assert!(full.range_query(31, 32).iter().all(|r| r.t_end != 69));
    assert!(full.range_query(50, 51).iter().any(|r| r.agent_id == 9));
}

#[test]
fn table_removes_agent_and_checks_other_windows() {
    let mut table = ReservationTable::new();
    table.insert_interval(4, 1, SafeInterval::new(0, 10), 0).unwrap();
    table.insert_interval(4, 2, SafeInterval::new(10, 20), 0).unwrap();
    table.insert_interval(5, 1, SafeInterval::new(0, 10), 0).unwrap();
    assert_eq!(table.total_reservations(), 3);
    assert!(!table.is_free(4, &SafeInterval::new(5, 15)));
    assert!(table.is_free(6, &SafeInterval::new(5, 15)));
    table.remove_agent_reservations(1);
    assert_eq!(table.total_reservations(), 1);
    assert!(table.get_cell_reservations(5).is_empty());
    assert!(table.is_free(4, &SafeInterval::new(0, 10)));
}

#[test]
fn emergency_outranks_idle_whatever_the_yields() {
    let emergency = PriorityState { yield_count: 0, urgency: 4, d_goal: 74, battery: 100, id: 0 };
    let idle = PriorityState { yield_count: 0, urgency: 0, d_goal: 0, battery: 0, id: 255 };
    assert_eq!(emergency.compute(), 200066);
    assert_eq!(idle.compute(), 5265);
    assert!(dominates(emergency.compute(), idle.compute()));
    let patient = PriorityState { yield_count: 255, ..idle };
    assert_eq!(patient.compute(), 25265);
    assert!(dominates(emergency.compute(), patient.compute()));
}
