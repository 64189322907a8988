use dispatch_plan::builder::build;
use dispatch_plan::events::{apply, Event};
use dispatch_plan::plan::{Order, Plan, PlanError, Rider};
use dispatch_plan::resolve::TestEvent;

fn riders(ids: &[u32]) -> Vec<Rider> {
    ids.iter().map(|&id| Rider { id }).collect()
}

fn orders(ids: &[u64]) -> Vec<Order> {
    ids.iter().map(|&id| Order { id }).collect()
}

fn scenario_plan() -> Plan {
    build(&riders(&[1, 2, 3]), &orders(&[10, 20, 30, 40, 50])).unwrap()
}

fn all_order_ids_sorted(plan: &Plan) -> Vec<u64> {
    let mut all: Vec<u64> = Vec::new();
    for i in 0..plan.rider_count() {
        let rid = plan.rider_id_at(i);
        all.extend(plan.orders_for(rid).unwrap());
    }
    all.sort();
    all
}

#[test]
fn build_concrete_scenario() {
    let plan = scenario_plan();
    assert_eq!(plan.rider_count(), 3);
    assert_eq!(plan.orders_for(1).unwrap(), vec![10, 40]);
    assert_eq!(plan.orders_for(2).unwrap(), vec![20, 50]);
    assert_eq!(plan.orders_for(3).unwrap(), vec![30]);
}

#[test]
fn build_empty_rider_set_is_an_error() {
    let r = build(&riders(&[]), &orders(&[10, 20]));
    assert_eq!(r.unwrap_err(), PlanError::EmptyRiderSet);
}

#[test]
fn build_with_no_orders_gives_empty_sequences() {
    let plan = build(&riders(&[4, 7]), &orders(&[])).unwrap();
    assert_eq!(plan.rider_count(), 2);
    assert_eq!(plan.orders_for(4).unwrap(), Vec::<u64>::new());
    assert_eq!(plan.orders_for(7).unwrap(), Vec::<u64>::new());
}

#[test]
fn build_fewer_orders_than_riders_leaves_empty_sequences() {
    let plan = build(&riders(&[1, 2, 3]), &orders(&[7])).unwrap();
    assert_eq!(plan.orders_for(1).unwrap(), vec![7]);
    assert_eq!(plan.orders_for(2).unwrap(), Vec::<u64>::new());
    assert_eq!(plan.orders_for(3).unwrap(), Vec::<u64>::new());
}

#[test]
fn build_covers_every_rider_when_orders_suffice() {
    let plan = build(
        &riders(&[9, 4, 6, 2]),
        &orders(&[100, 101, 102, 103, 104, 105, 106, 107, 108, 109]),
    )
    .unwrap();
    for &rid in &[9u32, 4, 6, 2] {
        assert!(!plan.orders_for(rid).unwrap().is_empty());
    }
}

#[test]
fn build_conserves_the_order_ids() {
    let input: Vec<u64> = vec![42, 7, 99, 3, 18, 25, 61];
    let plan = build(&riders(&[5, 1, 8]), &orders(&input)).unwrap();
    let mut expected = input.clone();
    expected.sort();
    assert_eq!(all_order_ids_sorted(&plan), expected);
}

#[test]
fn build_is_fair_within_one_order() {
    let plan = build(
        &riders(&[9, 4, 6, 2]),
        &orders(&[100, 101, 102, 103, 104, 105, 106, 107, 108, 109]),
    )
    .unwrap();
    let lens: Vec<usize> = [9u32, 4, 6, 2]
        .iter()
        .map(|&rid| plan.orders_for(rid).unwrap().len())
        .collect();
    let max = *lens.iter().max().unwrap();
    let min = *lens.iter().min().unwrap();
    assert!(max - min <= 1, "min: {}, max: {}", min, max);
    assert_eq!(lens, vec![3, 3, 2, 2]);
}

#[test]
fn build_assigns_in_round_robin_position_order() {
    let plan = build(&riders(&[11, 22]), &orders(&[1, 2, 3, 4, 5])).unwrap();
    assert_eq!(plan.orders_for(11).unwrap(), vec![1, 3, 5]);
    assert_eq!(plan.orders_for(22).unwrap(), vec![2, 4]);
}

#[test]
fn reject_moves_order_to_least_loaded_rider() {
    let plan = scenario_plan();
    let next = apply(
        &plan,
        Event::RiderRejected { rider_id: 1, order_id: 10 },
    )
    .unwrap();
    assert_eq!(next.orders_for(1).unwrap(), vec![40]);
    assert_eq!(next.orders_for(2).unwrap(), vec![20, 50]);
    assert_eq!(next.orders_for(3).unwrap(), vec![30, 10]);
}

#[test]
fn cancel_removes_the_order_everywhere() {
    let plan = scenario_plan();
    let mid = apply(
        &plan,
        Event::RiderRejected { rider_id: 1, order_id: 10 },
    )
    .unwrap();
    let last = apply(&mid, Event::OrderCanceled { order_id: 50 }).unwrap();
    assert_eq!(last.orders_for(1).unwrap(), vec![40]);
    assert_eq!(last.orders_for(2).unwrap(), vec![20]);
    assert_eq!(last.orders_for(3).unwrap(), vec![30, 10]);
}

#[test]
fn cancel_of_an_absent_order_is_a_noop() {
    let plan = scenario_plan();
    let next = apply(&plan, Event::OrderCanceled { order_id: 999 }).unwrap();
    assert_eq!(all_order_ids_sorted(&next), all_order_ids_sorted(&plan));
    assert_eq!(next.orders_for(1).unwrap(), vec![10, 40]);
}

#[test]
fn cancel_twice_equals_cancel_once() {
    let plan = scenario_plan();
    let once = apply(&plan, Event::OrderCanceled { order_id: 30 }).unwrap();
    let twice = apply(&once, Event::OrderCanceled { order_id: 30 }).unwrap();
    for &rid in &[1u32, 2, 3] {
        assert_eq!(once.orders_for(rid).unwrap(), twice.orders_for(rid).unwrap());
    }
    assert_eq!(all_order_ids_sorted(&once), vec![10, 20, 40, 50]);
}

#[test]
fn reject_by_an_unknown_rider_is_a_noop() {
    let plan = scenario_plan();
    let next = apply(
        &plan,
        Event::RiderRejected { rider_id: 77, order_id: 10 },
    )
    .unwrap();
    assert_eq!(next.orders_for(1).unwrap(), vec![10, 40]);
    assert_eq!(next.orders_for(2).unwrap(), vec![20, 50]);
    assert_eq!(next.orders_for(3).unwrap(), vec![30]);
}

#[test]
fn reject_of_an_order_the_rider_does_not_hold_is_a_noop() {
    let plan = scenario_plan();
    let next = apply(
        &plan,
        Event::RiderRejected { rider_id: 1, order_id: 30 },
    )
    .unwrap();
    assert_eq!(next.orders_for(1).unwrap(), vec![10, 40]);
    assert_eq!(next.orders_for(3).unwrap(), vec![30]);
}

#[test]
fn reject_with_a_single_rider_cannot_relocate() {
    let plan = build(&riders(&[1]), &orders(&[10, 20])).unwrap();
    let r = apply(
        &plan,
        Event::RiderRejected { rider_id: 1, order_id: 10 },
    );
    assert_eq!(r.unwrap_err(), PlanError::NoAlternateRider);
}

#[test]
fn reject_conserves_the_order_ids() {
    let plan = build(&riders(&[3, 1, 2]), &orders(&[5, 6, 7, 8])).unwrap();
    let before = all_order_ids_sorted(&plan);
    let next = apply(
        &plan,
        Event::RiderRejected { rider_id: 3, order_id: 5 },
    )
    .unwrap();
    assert_eq!(all_order_ids_sorted(&next), before);
    assert!(!next.orders_for(3).unwrap().contains(&5));
}

#[test]
fn reject_breaks_load_ties_by_smallest_rider_id() {
    let plan = Plan {
        entries: vec![(5, vec![1, 2]), (3, vec![7]), (2, vec![8])],
    };
    let next = apply(
        &plan,
        Event::RiderRejected { rider_id: 5, order_id: 1 },
    )
    .unwrap();
    assert_eq!(next.orders_for(5).unwrap(), vec![2]);
    assert_eq!(next.orders_for(3).unwrap(), vec![7]);
    assert_eq!(next.orders_for(2).unwrap(), vec![8, 1]);
}

#[test]
fn reject_prefers_strictly_lower_load_over_lower_id() {
    let plan = Plan {
        entries: vec![(1, vec![10, 11]), (2, vec![20, 21]), (9, vec![30])],
    };
    let next = apply(
        &plan,
        Event::RiderRejected { rider_id: 1, order_id: 10 },
    )
    .unwrap();
    assert_eq!(next.orders_for(9).unwrap(), vec![30, 10]);
    assert_eq!(next.orders_for(2).unwrap(), vec![20, 21]);
}

#[test]
fn events_over_time_conserve_all_but_canceled_orders() {
    let plan = build(
        &riders(&[4, 2, 9]),
        &orders(&[14, 3, 77, 21, 8, 50]),
    )
    .unwrap();
    let abstract_events = vec![
        TestEvent::RiderRejected { which_rider: 2, which_order: 0 },
        TestEvent::OrderCanceled { which_order: 3 },
        TestEvent::RiderRejected { which_rider: 5, which_order: 7 },
        TestEvent::OrderCanceled { which_order: 0 },
    ];
    let mut current = plan;
    let mut canceled: Vec<u64> = Vec::new();
    for te in abstract_events {
        let before = all_order_ids_sorted(&current);
        let event = te.into_event(&current);
        let next = apply(&current, event).unwrap();
        match event {
            Event::RiderRejected { rider_id, order_id } => {
                // A rejection never loses or duplicates an order...
                assert_eq!(all_order_ids_sorted(&next), before);
                // ... and the rejecting rider no longer holds it.
                assert!(!next.orders_for(rider_id).unwrap().contains(&order_id));
            }
            Event::OrderCanceled { order_id } => {
                // A cancellation removes exactly the canceled order.
                let mut expected = before.clone();
                expected.retain(|&x| x != order_id);
                assert_eq!(all_order_ids_sorted(&next), expected);
                canceled.push(order_id);
            }
        }
        current = next;
    }
    // What was canceled is gone; everything else of the start is still held.
    let remaining = all_order_ids_sorted(&current);
    for c in &canceled {
        assert!(!remaining.contains(c));
    }
    let mut start: Vec<u64> = vec![14, 3, 77, 21, 8, 50];
    start.sort();
    let mut rejoined: Vec<u64> = remaining.clone();
    rejoined.extend(canceled.iter().copied());
    rejoined.sort();
    assert_eq!(rejoined, start);
}
