use vstd::multiset::Multiset;
use vstd::prelude::*;

verus! {

/// A rider, identified by a unique integer id.
#[derive(Clone, Copy, PartialEq, Eq, Structural, Debug)]
pub struct Rider {
    pub id: u32,
}

/// An order, identified by a unique integer id.
#[derive(Clone, Copy, PartialEq, Eq, Structural, Debug)]
pub struct Order {
    pub id: u64,
}

/// The errors the planner can report: a plan cannot be built from zero
/// riders, and a rejected order cannot be relocated when no other rider
/// exists.
#[derive(Clone, Copy, PartialEq, Eq, Structural, Debug)]
pub enum PlanError {
    EmptyRiderSet,
    NoAlternateRider,
}

/// A plan maps each rider id to the ordered sequence of order ids that the
/// rider currently holds (the sequence order is the delivery order).
/// The entries are kept in the order the riders were supplied.
#[derive(Debug)]
pub struct Plan {
    pub entries: Vec<(u32, Vec<u64>)>,
}

/// The mathematical model of a plan: a sequence of (rider id, held order ids)
/// pairs.
pub type PlanView = Seq<(u32, Seq<u64>)>;

impl View for Plan {
    type V = PlanView;

    open spec fn view(&self) -> PlanView {
        self.entries@.map_values(|e: (u32, Vec<u64>)| (e.0, e.1@))
    }
}

/// The plan knows a rider with this id.
pub open spec fn has_rider(v: PlanView, rider_id: u32) -> bool {
    exists|i: int| 0 <= i < v.len() && #[trigger] v[i].0 == rider_id
}

/// Some rider's sequence holds this order id.
pub open spec fn contains_order(v: PlanView, order_id: u64) -> bool {
    exists|i: int| 0 <= i < v.len() && #[trigger] v[i].1.contains(order_id)
}

/// Rider ids are pairwise distinct.
pub open spec fn riders_unique(v: PlanView) -> bool {
    forall|i: int, j: int| 0 <= i < j < v.len() ==> v[i].0 != v[j].0
}

/// Every order id appears at most once in the whole plan: at most once
/// within each rider's sequence, and never in two riders' sequences.
pub open spec fn orders_unique(v: PlanView) -> bool {
    &&& forall|i: int| 0 <= i < v.len() ==> (#[trigger] v[i].1).no_duplicates()
    &&& forall|i: int, j: int, x: u64|
        0 <= i < v.len() && 0 <= j < v.len() && i != j && #[trigger] v[i].1.contains(x)
            ==> !(#[trigger] v[j].1.contains(x))
}

/// A well-formed plan: distinct riders, and no order held twice.
pub open spec fn plan_wf(v: PlanView) -> bool {
    riders_unique(v) && orders_unique(v)
}

/// The multiset of all order ids held anywhere in the plan.
pub open spec fn orders_mset(v: PlanView) -> Multiset<u64>
    decreases v.len(),
{
    if v.len() == 0 {
        Multiset::empty()
    } else {
        v.first().1.to_multiset().add(orders_mset(v.drop_first()))
    }
}

impl Plan {
    /// The number of riders known to the plan.
    pub fn rider_count(&self) -> (n: usize)
        ensures
            n == self@.len(),
    {
        self.entries.len()
    }

    /// The rider id of the entry at a position.
    pub fn rider_id_at(&self, i: usize) -> (r: u32)
        requires
            i < self@.len(),
        ensures
            r == self@[i as int].0,
    {
        self.entries[i].0
    }

    /// A copy of the sequence of order ids held by the rider with this id,
    /// or `None` when the plan does not know the rider.
    pub fn orders_for(&self, rider_id: u32) -> (r: Option<Vec<u64>>)
        ensures
            r is Some <==> has_rider(self@, rider_id),
            r matches Some(os) ==> exists|i: int|
                0 <= i < self@.len() && #[trigger] self@[i].0 == rider_id && os@ == self@[i].1,
    {
        let mut i: usize = 0;
        while i < self.entries.len()
            invariant
                0 <= i <= self@.len(),
                forall|j: int| 0 <= j < i ==> #[trigger] self@[j].0 != rider_id,
            decreases self@.len() - i,
        {
            if self.entries[i].0 == rider_id {
                let os = clone_orders(&self.entries[i].1);
                proof {
                    assert(self@[i as int].0 == rider_id);
                    assert(os@ == self@[i as int].1);
                }
                return Some(os);
            }
            i += 1;
        }
        None
    }

    /// An exact copy of the plan.
    pub fn duplicate(&self) -> (r: Plan)
        ensures
            r@ == self@,
    {
        let mut entries: Vec<(u32, Vec<u64>)> = Vec::new();
        let mut i: usize = 0;
        while i < self.entries.len()
            invariant
                0 <= i <= self@.len(),
                entries@.len() == i,
                forall|j: int| 0 <= j < i ==> (#[trigger] entries@[j]).0 == self@[j].0
                    && entries@[j].1@ == self@[j].1,
            decreases self@.len() - i,
        {
            let orders = clone_orders(&self.entries[i].1);
            entries.push((self.entries[i].0, orders));
            i += 1;
        }
        let r = Plan { entries };
        assert(r@ =~= self@);
        r
    }
}

/// An exact copy of a sequence of order ids.
pub fn clone_orders(v: &Vec<u64>) -> (r: Vec<u64>)
    ensures
        r@ == v@,
{
    let mut r: Vec<u64> = Vec::new();
    let mut i: usize = 0;
    while i < v.len()
        invariant
            0 <= i <= v@.len(),
            r@ == v@.take(i as int),
        decreases v@.len() - i,
    {
        r.push(v[i]);
        i += 1;
    }
    assert(r@ =~= v@);
    r
}

} // verus!
