use dispatch_plan::events::Event;
use dispatch_plan::plan::Plan;
use dispatch_plan::resolve::TestEvent;

fn unsorted_plan() -> Plan {
    // Rider entries deliberately not in id order: resolution must go by the
    // sorted enumeration of the ids, not by entry positions.
    Plan {
        entries: vec![(3, vec![30]), (1, vec![10, 40]), (2, vec![20, 50])],
    }
}

#[test]
fn rejection_indices_resolve_through_the_sorted_rider_ids() {
    let plan = unsorted_plan();
    let e = TestEvent::RiderRejected { which_rider: 0, which_order: 1 }.into_event(&plan);
    // Sorted rider ids are [1, 2, 3]; index 0 names rider 1, whose
    // sequence is [10, 40]; order index 1 names 40.
    assert_eq!(e, Event::RiderRejected { rider_id: 1, order_id: 40 });
}

#[test]
fn rejection_indices_wrap_around() {
    let plan = unsorted_plan();
    let e = TestEvent::RiderRejected { which_rider: 4, which_order: 2 }.into_event(&plan);
    // 4 % 3 == 1 names rider 2, whose sequence is [20, 50]; 2 % 2 == 0
    // names 20.
    assert_eq!(e, Event::RiderRejected { rider_id: 2, order_id: 20 });
}

#[test]
fn cancellation_indices_resolve_through_the_sorted_order_ids() {
    let plan = unsorted_plan();
    let e = TestEvent::OrderCanceled { which_order: 2 }.into_event(&plan);
    // Sorted order ids are [10, 20, 30, 40, 50]; index 2 names 30.
    assert_eq!(e, Event::OrderCanceled { order_id: 30 });
}

#[test]
fn cancellation_indices_wrap_around() {
    let plan = unsorted_plan();
    let e = TestEvent::OrderCanceled { which_order: 7 }.into_event(&plan);
    // 7 % 5 == 2 names 30 again.
    assert_eq!(e, Event::OrderCanceled { order_id: 30 });
}

#[test]
fn rejection_resolves_even_when_another_rider_holds_nothing() {
    // Only the selected rider's sequence must be non-empty: rider 1 holds
    // nothing, the indices name rider 2 (sorted ids [1, 2], 1 % 2 == 1).
    let plan = Plan {
        entries: vec![(1, vec![]), (2, vec![5])],
    };
    let e = TestEvent::RiderRejected { which_rider: 1, which_order: 0 }.into_event(&plan);
    assert_eq!(e, Event::RiderRejected { rider_id: 2, order_id: 5 });
}
