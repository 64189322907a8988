use crate::events::Event;
use crate::plan::{contains_order, has_rider, plan_wf, Plan, PlanView};
use itertools::Itertools;
use vstd::prelude::*;

verus! {

/// An abstract event description, as a pair of indices into stable sorted
/// enumerations of the plan's current rider ids and order ids. It is
/// resolved against a concrete plan to obtain a real `Event`.
#[derive(Clone, Copy, PartialEq, Eq, Structural, Debug)]
pub enum TestEvent {
    RiderRejected { which_rider: usize, which_order: usize },
    OrderCanceled { which_order: usize },
}

/// The sequence is strictly increasing.
pub open spec fn strictly_increasing_u32(s: Seq<u32>) -> bool {
    forall|i: int, j: int| 0 <= i < j < s.len() ==> s[i] < s[j]
}

/// The sequence is strictly increasing.
pub open spec fn strictly_increasing_u64(s: Seq<u64>) -> bool {
    forall|i: int, j: int| 0 <= i < j < s.len() ==> s[i] < s[j]
}

/// The stable sorted enumeration of the plan's rider ids: each exactly
/// once, in increasing order. Only one sequence enumerates a given plan.
pub open spec fn is_rider_enumeration(v: PlanView, sr: Seq<u32>) -> bool {
    &&& strictly_increasing_u32(sr)
    &&& forall|x: u32| #[trigger] sr.contains(x) <==> has_rider(v, x)
}

/// The stable sorted enumeration of the plan's order ids: each exactly
/// once, in increasing order. Only one sequence enumerates a given plan.
pub open spec fn is_order_enumeration(v: PlanView, so: Seq<u64>) -> bool {
    &&& strictly_increasing_u64(so)
    &&& forall|x: u64| #[trigger] so.contains(x) <==> contains_order(v, x)
}

/// Relies on itertools' `Itertools::sorted` and `Itertools::dedup`:
/// sorting puts the values in ascending order, and deduplication then
/// drops the consecutive repeats, so each distinct input value appears
/// exactly once, in increasing order.
#[verifier::external_body]
fn sorted_unique_u32(v: &Vec<u32>) -> (r: Vec<u32>)
    ensures
        strictly_increasing_u32(r@),
        forall|x: u32| #[trigger] r@.contains(x) <==> v@.contains(x),
{
    v.iter().copied().sorted().dedup().collect()
}

/// Relies on itertools' `Itertools::sorted` and `Itertools::dedup`:
/// sorting puts the values in ascending order, and deduplication then
/// drops the consecutive repeats, so each distinct input value appears
/// exactly once, in increasing order.
#[verifier::external_body]
fn sorted_unique_u64(v: &Vec<u64>) -> (r: Vec<u64>)
    ensures
        strictly_increasing_u64(r@),
        forall|x: u64| #[trigger] r@.contains(x) <==> v@.contains(x),
{
    v.iter().copied().sorted().dedup().collect()
}

/// The position of the entry of this rider; the plan must know the rider.
fn index_of_rider(plan: &Plan, rider_id: u32) -> (i: usize)
    requires
        has_rider(plan@, rider_id),
    ensures
        i < plan@.len(),
        plan@[i as int].0 == rider_id,
{
    let mut i: usize = 0;
    while i < plan.entries.len()
        invariant
            0 <= i <= plan@.len(),
            forall|j: int| 0 <= j < i ==> #[trigger] plan@[j].0 != rider_id,
        decreases plan@.len() - i,
    {
        if plan.entries[i].0 == rider_id {
            return i;
        }
        i += 1;
    }
    vstd::pervasive::unreached()
}

impl TestEvent {
    /// Resolves the index pair against the plan: the rider index picks a
    /// rider id out of the sorted enumeration of the plan's rider ids
    /// (modulo its length), the order index an order id out of that
    /// rider's sequence, or out of the sorted enumeration of all held
    /// order ids (modulo their lengths). For a rejection only the selected
    /// rider's sequence must be non-empty; every other rider's may be.
    pub fn into_event(self, plan: &Plan) -> (e: Event)
        requires
            plan_wf(plan@),
            plan@.len() > 0,
            self matches TestEvent::RiderRejected { which_rider, .. } ==> forall|
                sr: Seq<u32>,
                i: int,
            |
                #![trigger is_rider_enumeration(plan@, sr), plan@[i]]
                (is_rider_enumeration(plan@, sr) && sr.len() > 0 && 0 <= i < plan@.len()
                    && plan@[i].0 == sr[(which_rider as int) % (sr.len() as int)])
                    ==> plan@[i].1.len() > 0,
            self matches TestEvent::OrderCanceled { .. } ==> exists|i: int|
                0 <= i < plan@.len() && (#[trigger] plan@[i]).1.len() > 0,
        ensures
            self matches TestEvent::RiderRejected { which_rider, which_order } ==> (e matches
                Event::RiderRejected { rider_id, order_id } && has_rider(plan@, rider_id) && (
            exists|sr: Seq<u32>|
                {
                    &&& #[trigger] is_rider_enumeration(plan@, sr)
                    &&& sr.len() > 0
                    &&& rider_id == sr[(which_rider as int) % (sr.len() as int)]
                }) && (forall|i: int|
                0 <= i < plan@.len() && (#[trigger] plan@[i]).0 == rider_id ==> order_id
                    == plan@[i].1[(which_order as int) % (plan@[i].1.len() as int)])),
            self matches TestEvent::OrderCanceled { which_order } ==> (e matches
                Event::OrderCanceled { order_id } && contains_order(plan@, order_id) && (exists|
                so: Seq<u64>,
            |
                {
                    &&& #[trigger] is_order_enumeration(plan@, so)
                    &&& so.len() > 0
                    &&& order_id == so[(which_order as int) % (so.len() as int)]
                })),
    {
        match self {
            TestEvent::RiderRejected { which_rider, which_order } => {
                let mut ids: Vec<u32> = Vec::new();
                let mut i: usize = 0;
                while i < plan.entries.len()
                    invariant
                        0 <= i <= plan@.len(),
                        ids@.len() == i,
                        forall|j: int| 0 <= j < i ==> #[trigger] ids@[j] == plan@[j].0,
                    decreases plan@.len() - i,
                {
                    ids.push(plan.entries[i].0);
                    i += 1;
                }
                proof {
                    assert forall|x: u32| ids@.contains(x) <==> has_rider(plan@, x) by {
                        if ids@.contains(x) {
                            let j = choose|j: int| 0 <= j < ids@.len() && ids@[j] == x;
                            assert(plan@[j].0 == x);
                        }
                        if has_rider(plan@, x) {
                            let j = choose|j: int|
                                0 <= j < plan@.len() && #[trigger] plan@[j].0 == x;
                            assert(ids@[j] == x);
                        }
                    }
                }
                let sr = sorted_unique_u32(&ids);
                proof {
                    assert(ids@.contains(plan@[0].0)) by {
                        assert(ids@[0] == plan@[0].0);
                    }
                    assert(sr@.contains(plan@[0].0));
                    assert(sr@.len() > 0);
                    assert(is_rider_enumeration(plan@, sr@));
                }
                let idx: usize = which_rider % sr.len();
                let rider_id: u32 = sr[idx];
                proof {
                    assert(sr@.contains(sr@[idx as int]));
                }
                let ridx = index_of_rider(plan, rider_id);
                let os = &plan.entries[ridx].1;
                proof {
                    assert(os@ == plan@[ridx as int].1);
                    assert(plan@[ridx as int].0 == sr@[(which_rider as int) % (sr@.len()
                        as int)]);
                    assert(plan@[ridx as int].1.len() > 0);
                }
                let oidx: usize = which_order % os.len();
                let order_id: u64 = os[oidx];
                proof {
                    // Rider ids are unique, so only this entry names the rider.
                    assert forall|i2: int|
                        0 <= i2 < plan@.len() && (#[trigger] plan@[i2]).0 == rider_id implies
                        order_id == plan@[i2].1[(which_order as int) % (plan@[i2].1.len()
                            as int)] by {
                        assert(i2 == ridx as int);
                    }
                }
                Event::RiderRejected { rider_id, order_id }
            },
            TestEvent::OrderCanceled { which_order } => {
                let mut all: Vec<u64> = Vec::new();
                let mut i: usize = 0;
                while i < plan.entries.len()
                    invariant
                        0 <= i <= plan@.len(),
                        forall|x: u64|
                            #[trigger] all@.contains(x) <==> exists|j: int|
                                0 <= j < i && (#[trigger] plan@[j]).1.contains(x),
                    decreases plan@.len() - i,
                {
                    let src = &plan.entries[i].1;
                    let mut k: usize = 0;
                    while k < src.len()
                        invariant
                            0 <= k <= src@.len(),
                            src@ == plan@[i as int].1,
                            0 <= i < plan@.len(),
                            forall|x: u64|
                                #[trigger] all@.contains(x) <==> (exists|j: int|
                                    0 <= j < i && (#[trigger] plan@[j]).1.contains(x)) || (
                                exists|kk: int| 0 <= kk < k && #[trigger] src@[kk] == x),
                        decreases src@.len() - k,
                    {
                        let ghost prev = all@;
                        all.push(src[k]);
                        proof {
                            assert forall|x: u64| #[trigger] all@.contains(x) <==> ((exists|
                                j: int,
                            |
                                0 <= j < i && (#[trigger] plan@[j]).1.contains(x)) || (exists|
                                kk: int,
                            | 0 <= kk < k + 1 && #[trigger] src@[kk] == x)) by {
                                if all@.contains(x) {
                                    let q = choose|q: int|
                                        0 <= q < all@.len() && all@[q] == x;
                                    if q < prev.len() {
                                        assert(prev[q] == x);
                                        assert(prev.contains(x));
                                    } else {
                                        assert(src@[k as int] == x);
                                    }
                                }
                                if exists|j: int|
                                    0 <= j < i && (#[trigger] plan@[j]).1.contains(x) {
                                    assert(prev.contains(x));
                                    let q = choose|q: int|
                                        0 <= q < prev.len() && prev[q] == x;
                                    assert(all@[q] == x);
                                    assert(all@.contains(x));
                                }
                                if exists|kk: int| 0 <= kk < k + 1 && #[trigger] src@[kk]
                                    == x {
                                    let kk = choose|kk: int|
                                        0 <= kk < k + 1 && #[trigger] src@[kk] == x;
                                    if kk < k {
                                        assert(prev.contains(x));
                                        let q = choose|q: int|
                                            0 <= q < prev.len() && prev[q] == x;
                                        assert(all@[q] == x);
                                    } else {
                                        assert(all@[prev.len() as int] == x);
                                    }
                                    assert(all@.contains(x));
                                }
                            }
                        }
                        k += 1;
                    }
                    i += 1;
                }
                proof {
                    assert forall|x: u64| all@.contains(x) <==> contains_order(plan@, x) by {
                        if contains_order(plan@, x) {
                            let j = choose|j: int|
                                0 <= j < plan@.len() && #[trigger] plan@[j].1.contains(x);
                            assert(all@.contains(x));
                        }
                    }
                }
                let so = sorted_unique_u64(&all);
                proof {
                    let w = choose|i: int|
                        0 <= i < plan@.len() && (#[trigger] plan@[i]).1.len() > 0;
                    assert(plan@[w].1.contains(plan@[w].1[0]));
                    assert(contains_order(plan@, plan@[w].1[0]));
                    assert(so@.contains(plan@[w].1[0]));
                    assert(so@.len() > 0);
                    assert(is_order_enumeration(plan@, so@));
                }
                let idx: usize = which_order % so.len();
                let order_id: u64 = so[idx];
                proof {
                    assert(so@.contains(so@[idx as int]));
                }
                Event::OrderCanceled { order_id }
            },
        }
    }
}

} // verus!
