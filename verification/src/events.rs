use crate::plan::{
    clone_orders, contains_order, has_rider, orders_mset, plan_wf, riders_unique, Plan, PlanError,
    PlanView,
};
use vstd::prelude::*;

verus! {

/// A runtime occurrence the plan must absorb: a rider declines an order it
/// holds, or an order is withdrawn entirely.
#[derive(Clone, Copy, PartialEq, Eq, Structural, Debug)]
pub enum Event {
    RiderRejected { rider_id: u32, order_id: u64 },
    OrderCanceled { order_id: u64 },
}

/// Keeps every order id other than the canceled one.
pub open spec fn keeps(order_id: u64) -> spec_fn(u64) -> bool {
    |y: u64| y != order_id
}

/// The plan after a cancellation: every rider keeps its own sequence with
/// the canceled id filtered out; riders and their order are untouched.
pub open spec fn cancel_spec(v: PlanView, order_id: u64) -> PlanView {
    Seq::new(v.len(), |i: int| (v[i].0, v[i].1.filter(keeps(order_id))))
}

/// Filtering a sequence whose elements all satisfy the predicate returns
/// the sequence itself.
proof fn lemma_filter_all(s: Seq<u64>, p: spec_fn(u64) -> bool)
    requires
        forall|k: int| 0 <= k < s.len() ==> p(#[trigger] s[k]),
    ensures
        s.filter(p) == s,
    decreases s.len(),
{
    reveal(Seq::filter);
    if s.len() > 0 {
        lemma_filter_all(s.drop_last(), p);
        assert(s.drop_last().push(s.last()) =~= s);
    }
}

/// Filtering keeps a duplicate-free sequence duplicate-free.
proof fn lemma_filter_no_duplicates(s: Seq<u64>, p: spec_fn(u64) -> bool)
    requires
        s.no_duplicates(),
    ensures
        s.filter(p).no_duplicates(),
    decreases s.len(),
{
    broadcast use vstd::seq_lib::group_filter_ensures;

    reveal(Seq::filter);
    if s.len() > 0 {
        let rest = s.drop_last();
        lemma_filter_no_duplicates(rest, p);
        if p(s.last()) {
            assert(!rest.contains(s.last()));
            assert forall|y: u64| #[trigger] rest.filter(p).contains(y) implies rest.contains(
                y,
            ) by {
                rest.lemma_filter_contains_rev(p, y);
            }
            assert(!rest.filter(p).contains(s.last()));
            let out = rest.filter(p).push(s.last());
            assert forall|k1: int, k2: int|
                0 <= k1 < out.len() && 0 <= k2 < out.len() && k1 != k2 implies out[k1]
                != out[k2] by {
                if k1 < out.len() - 1 && k2 < out.len() - 1 {
                } else if k1 == out.len() - 1 {
                    assert(rest.filter(p).contains(out[k2]));
                } else {
                    assert(rest.filter(p).contains(out[k1]));
                }
            }
        }
    }
}

/// A sequence holds a value after filtering exactly when it held it before
/// and the predicate keeps it.
proof fn lemma_filter_membership(s: Seq<u64>, p: spec_fn(u64) -> bool, y: u64)
    ensures
        s.filter(p).contains(y) <==> s.contains(y) && p(y),
{
    broadcast use vstd::seq_lib::group_filter_ensures;

    if s.filter(p).contains(y) {
        s.lemma_filter_contains_rev(p, y);
        let k = choose|k: int| 0 <= k < s.filter(p).len() && s.filter(p)[k] == y;
        assert(p(s.filter(p)[k]));
    }
    if s.contains(y) && p(y) {
        let k = choose|k: int| 0 <= k < s.len() && s[k] == y;
        assert(s.filter(p).contains(s[k]));
    }
}

/// What a cancellation does to a well-formed plan: it stays well-formed,
/// the canceled id is gone from the whole plan, and every other id is held
/// exactly as before.
pub proof fn lemma_cancel_properties(v: PlanView, order_id: u64)
    requires
        plan_wf(v),
    ensures
        plan_wf(cancel_spec(v, order_id)),
        forall|y: u64|
            contains_order(cancel_spec(v, order_id), y) <==> (contains_order(v, y) && y
                != order_id),
{
    let c = cancel_spec(v, order_id);
    let p = keeps(order_id);
    assert forall|i: int| 0 <= i < c.len() implies (#[trigger] c[i]).1.no_duplicates() by {
        lemma_filter_no_duplicates(v[i].1, p);
    }
    assert forall|i: int, j: int, x: u64|
        0 <= i < c.len() && 0 <= j < c.len() && i != j && #[trigger] c[i].1.contains(x) implies !(
    #[trigger] c[j].1.contains(x)) by {
        lemma_filter_membership(v[i].1, p, x);
        lemma_filter_membership(v[j].1, p, x);
    }
    assert forall|y: u64|
        contains_order(c, y) <==> (contains_order(v, y) && y != order_id) by {
        if contains_order(c, y) {
            let i = choose|i: int| 0 <= i < c.len() && #[trigger] c[i].1.contains(y);
            lemma_filter_membership(v[i].1, p, y);
            assert(v[i].1.contains(y));
        }
        if contains_order(v, y) && y != order_id {
            let i = choose|i: int| 0 <= i < v.len() && #[trigger] v[i].1.contains(y);
            lemma_filter_membership(v[i].1, p, y);
            assert(c[i].1.contains(y));
        }
    }
}

/// Canceling the same order twice in a row changes nothing the second
/// time: one cancellation already removes every occurrence.
pub proof fn lemma_cancel_twice(v: PlanView, order_id: u64)
    ensures
        cancel_spec(cancel_spec(v, order_id), order_id) == cancel_spec(v, order_id),
{
    broadcast use vstd::seq_lib::group_filter_ensures;

    let c = cancel_spec(v, order_id);
    let p = keeps(order_id);
    assert forall|i: int| 0 <= i < c.len() implies (#[trigger] cancel_spec(c, order_id)[i])
        == c[i] by {
        assert(forall|k: int| 0 <= k < c[i].1.len() ==> p(#[trigger] c[i].1[k]));
        lemma_filter_all(c[i].1, p);
    }
    assert(cancel_spec(c, order_id) =~= c);
}

/// Removes the canceled order id from whichever rider sequence holds it;
/// a no-op when no rider does. Everything else is returned unchanged.
pub fn cancel_order(plan: &Plan, order_id: u64) -> (p: Plan)
    ensures
        p@ == cancel_spec(plan@, order_id),
{
    broadcast use vstd::seq_lib::group_filter_ensures;

    let ghost pred = keeps(order_id);
    let mut entries: Vec<(u32, Vec<u64>)> = Vec::new();
    let mut i: usize = 0;
    while i < plan.entries.len()
        invariant
            0 <= i <= plan@.len(),
            entries@.len() == i,
            forall|w: int|
                0 <= w < i ==> (#[trigger] entries@[w]).0 == plan@[w].0 && entries@[w].1@
                    == plan@[w].1.filter(pred),
        decreases plan@.len() - i,
    {
        let src = &plan.entries[i].1;
        let mut os: Vec<u64> = Vec::new();
        let mut k: usize = 0;
        while k < src.len()
            invariant
                0 <= k <= src@.len(),
                os@ == src@.take(k as int).filter(pred),
            decreases src@.len() - k,
        {
            proof {
                src@.lemma_take_succ_push(k as int);
                src@.take(k as int).lemma_filter_push(src@[k as int], pred);
            }
            if src[k] != order_id {
                os.push(src[k]);
            }
            k += 1;
        }
        proof {
            assert(src@.take(src@.len() as int) =~= src@);
        }
        entries.push((plan.entries[i].0, os));
        i += 1;
    }
    let p = Plan { entries };
    proof {
        assert(p@ =~= cancel_spec(plan@, order_id));
    }
    p
}

/// The rejection applies to the plan: the plan knows the rider, and that
/// rider currently holds the order.
pub open spec fn reject_applicable(v: PlanView, rider_id: u32, order_id: u64) -> bool {
    exists|i: int|
        0 <= i < v.len() && (#[trigger] v[i]).0 == rider_id && v[i].1.contains(order_id)
}

/// The entry at `t` is where a relocated order goes: among all entries
/// other than the rejecting rider's it holds the fewest orders, with ties
/// broken by the smallest rider id.
pub open spec fn is_reject_target(v: PlanView, ridx: int, t: int) -> bool {
    &&& 0 <= t < v.len()
    &&& t != ridx
    &&& forall|u: int|
        0 <= u < v.len() && u != ridx && u != t ==> v[t].1.len() < (#[trigger] v[u]).1.len() || (
        v[t].1.len() == v[u].1.len() && v[t].0 < v[u].0)
}

/// The plan after a rejection: the order at position `oidx` of entry
/// `ridx` leaves that entry's sequence and is appended to entry `t`'s.
pub open spec fn reject_spec(v: PlanView, ridx: int, oidx: int, t: int) -> PlanView {
    let x = v[ridx].1[oidx];
    v.update(ridx, (v[ridx].0, v[ridx].1.remove(oidx))).update(t, (v[t].0, v[t].1.push(x)))
}

/// Summing the held orders entry by entry: replacing one entry swaps its
/// contribution for the new one.
proof fn lemma_orders_mset_update(v: PlanView, i: int, e: (u32, Seq<u64>))
    requires
        0 <= i < v.len(),
    ensures
        orders_mset(v.update(i, e)).add(v[i].1.to_multiset()) == orders_mset(v).add(
            e.1.to_multiset(),
        ),
    decreases i,
{
    broadcast use vstd::multiset::group_multiset_axioms;

    let u = v.update(i, e);
    if i == 0 {
        assert(u.drop_first() =~= v.drop_first());
        assert(orders_mset(u) == e.1.to_multiset().add(orders_mset(v.drop_first())));
        assert(orders_mset(v) == v[0].1.to_multiset().add(orders_mset(v.drop_first())));
        assert forall|y: u64|
            orders_mset(u).add(v[0].1.to_multiset()).count(y) == orders_mset(v).add(
                e.1.to_multiset(),
            ).count(y) by {
            assert(orders_mset(u).count(y) == e.1.to_multiset().count(y) + orders_mset(
                v.drop_first(),
            ).count(y));
            assert(orders_mset(v).count(y) == v[0].1.to_multiset().count(y) + orders_mset(
                v.drop_first(),
            ).count(y));
        }
        assert(orders_mset(u).add(v[0].1.to_multiset()) =~= orders_mset(v).add(
            e.1.to_multiset(),
        ));
    } else {
        assert(u.drop_first() =~= v.drop_first().update(i - 1, e));
        lemma_orders_mset_update(v.drop_first(), i - 1, e);
        assert(v.drop_first()[i - 1] == v[i]);
        let a = orders_mset(u.drop_first());
        let b = orders_mset(v.drop_first());
        assert(a.add(v[i].1.to_multiset()) == b.add(e.1.to_multiset()));
        assert(u.first() == v.first());
        assert(orders_mset(u) == v.first().1.to_multiset().add(a));
        assert(orders_mset(v) == v.first().1.to_multiset().add(b));
        assert forall|y: u64|
            orders_mset(u).add(v[i].1.to_multiset()).count(y) == orders_mset(v).add(
                e.1.to_multiset(),
            ).count(y) by {
            assert(a.add(v[i].1.to_multiset()).count(y) == b.add(e.1.to_multiset()).count(y));
            assert(a.count(y) + v[i].1.to_multiset().count(y) == b.count(y)
                + e.1.to_multiset().count(y));
            assert(orders_mset(u).count(y) == v.first().1.to_multiset().count(y) + a.count(y));
            assert(orders_mset(v).count(y) == v.first().1.to_multiset().count(y) + b.count(y));
        }
        assert(orders_mset(u).add(v[i].1.to_multiset()) =~= orders_mset(v).add(
            e.1.to_multiset(),
        ));
    }
}

/// What a rejection does to a well-formed plan: the plan stays well-formed,
/// the multiset of held order ids is unchanged, the rejected order leaves
/// the rejecting rider's sequence and joins the target's, and every other
/// entry is untouched.
pub proof fn lemma_reject_properties(v: PlanView, ridx: int, oidx: int, t: int)
    requires
        plan_wf(v),
        0 <= ridx < v.len(),
        0 <= oidx < v[ridx].1.len(),
        0 <= t < v.len(),
        t != ridx,
    ensures
        ({
            let w = reject_spec(v, ridx, oidx, t);
            let x = v[ridx].1[oidx];
            &&& plan_wf(w)
            &&& orders_mset(w) == orders_mset(v)
            &&& w.len() == v.len()
            &&& forall|i: int| 0 <= i < w.len() ==> (#[trigger] w[i]).0 == v[i].0
            &&& !w[ridx].1.contains(x)
            &&& w[t].1.contains(x)
            &&& forall|i: int| 0 <= i < v.len() && i != ridx && i != t ==> #[trigger] w[i] == v[i]
        }),
{
    broadcast use vstd::multiset::group_multiset_axioms;
    broadcast use vstd::seq_lib::group_to_multiset_ensures;

    let w = reject_spec(v, ridx, oidx, t);
    let x = v[ridx].1[oidx];
    let s_r = v[ridx].1;
    let s_t = v[t].1;
    let rem = s_r.remove(oidx);
    let psh = s_t.push(x);
    let mid = v.update(ridx, (v[ridx].0, rem));
    s_r.remove_ensures(oidx);
    // The removed position was the only one holding the order.
    assert(!rem.contains(x)) by {
        if rem.contains(x) {
            let k = choose|k: int| 0 <= k < rem.len() && rem[k] == x;
            if k < oidx {
                assert(s_r[k] == x);
            } else {
                assert(s_r[k + 1] == x);
            }
        }
    }
    assert forall|y: u64| #[trigger] rem.contains(y) implies s_r.contains(y) by {
        let k = choose|k: int| 0 <= k < rem.len() && rem[k] == y;
        if k < oidx {
            assert(s_r[k] == y);
        } else {
            assert(s_r[k + 1] == y);
        }
    }
    assert(rem.no_duplicates());
    assert(s_r.contains(x));
    assert(!s_t.contains(x));
    assert(psh.no_duplicates()) by {
        assert(forall|k: int| 0 <= k < s_t.len() ==> #[trigger] psh[k] == s_t[k]);
        assert(psh[s_t.len() as int] == x);
    }
    assert forall|y: u64| #[trigger] psh.contains(y) implies s_t.contains(y) || y == x by {
        let k = choose|k: int| 0 <= k < psh.len() && psh[k] == y;
        if k < s_t.len() {
            assert(s_t[k] == y);
        }
    }
    assert(psh.contains(x)) by {
        assert(psh[s_t.len() as int] == x);
    }
    // The two updated entries, and only they, differ from the old plan.
    assert(w[ridx].1 == rem && w[t].1 == psh);
    assert(forall|i: int| 0 <= i < v.len() && i != ridx && i != t ==> #[trigger] w[i] == v[i]);
    // Well-formedness: distinct riders, no order held twice.
    assert(riders_unique(w));
    assert forall|i: int| 0 <= i < w.len() implies (#[trigger] w[i]).1.no_duplicates() by {
        if i != ridx && i != t {
            assert(w[i].1 == v[i].1);
        }
    }
    assert forall|i: int, j: int, y: u64|
        0 <= i < w.len() && 0 <= j < w.len() && i != j && #[trigger] w[i].1.contains(y) implies !(
    #[trigger] w[j].1.contains(y)) by {
        // Whatever an entry holds now, it held before -- except the
        // relocated order, now held by the target alone.
        if w[j].1.contains(y) {
            if i == t && w[i].1.contains(y) && y == x {
                if j == ridx {
                    assert(!rem.contains(x));
                } else {
                    assert(v[j].1.contains(x));
                    assert(v[ridx].1.contains(x));
                }
            } else if j == t && y == x {
                if i == ridx {
                    assert(!rem.contains(x));
                } else {
                    assert(v[i].1.contains(x));
                    assert(v[ridx].1.contains(x));
                }
            } else {
                assert(v[i].1.contains(y));
                assert(v[j].1.contains(y));
            }
        }
    }
    // Conservation: one occurrence leaves, one occurrence enters.
    lemma_orders_mset_update(v, ridx, (v[ridx].0, rem));
    lemma_orders_mset_update(mid, t, (v[t].0, psh));
    assert(mid[t] == v[t]);
    assert(s_r.to_multiset().count(x) > 0);
    assert(w == mid.update(t, (v[t].0, psh)));
    assert forall|y: u64| orders_mset(w).count(y) == orders_mset(v).count(y) by {
        assert(orders_mset(mid).add(s_r.to_multiset()).count(y) == orders_mset(v).add(
            rem.to_multiset(),
        ).count(y));
        assert(orders_mset(mid).count(y) + s_r.to_multiset().count(y) == orders_mset(v).count(y)
            + rem.to_multiset().count(y));
        assert(orders_mset(w).add(mid[t].1.to_multiset()).count(y) == orders_mset(mid).add(
            psh.to_multiset(),
        ).count(y));
        assert(orders_mset(w).count(y) + s_t.to_multiset().count(y) == orders_mset(mid).count(y)
            + psh.to_multiset().count(y));
        assert(rem.to_multiset() == s_r.to_multiset().remove(x));
        assert(psh.to_multiset() == s_t.to_multiset().insert(x));
        assert(rem.to_multiset().count(y) as int == if y == x {
            s_r.to_multiset().count(y) as int - 1
        } else {
            s_r.to_multiset().count(y) as int
        });
        assert(psh.to_multiset().count(y) as int == if y == x {
            s_t.to_multiset().count(y) as int + 1
        } else {
            s_t.to_multiset().count(y) as int
        });
    }
    assert(orders_mset(w) =~= orders_mset(v));
}

/// The position of the entry of this rider, if the plan knows the rider.
fn find_rider(plan: &Plan, rider_id: u32) -> (r: Option<usize>)
    ensures
        r matches Some(i) ==> i < plan@.len() && plan@[i as int].0 == rider_id,
        r is None ==> !has_rider(plan@, rider_id),
{
    let mut i: usize = 0;
    while i < plan.entries.len()
        invariant
            0 <= i <= plan@.len(),
            forall|j: int| 0 <= j < i ==> #[trigger] plan@[j].0 != rider_id,
        decreases plan@.len() - i,
    {
        if plan.entries[i].0 == rider_id {
            return Some(i);
        }
        i += 1;
    }
    None
}

/// The position of this order id in a rider's sequence, if it is there.
fn find_order(os: &Vec<u64>, order_id: u64) -> (r: Option<usize>)
    ensures
        r matches Some(k) ==> k < os@.len() && os@[k as int] == order_id,
        r is None ==> !os@.contains(order_id),
{
    let mut k: usize = 0;
    while k < os.len()
        invariant
            0 <= k <= os@.len(),
            forall|j: int| 0 <= j < k ==> #[trigger] os@[j] != order_id,
        decreases os@.len() - k,
    {
        if os[k] == order_id {
            return Some(k);
        }
        k += 1;
    }
    None
}

/// Picks the entry with the fewest held orders among all entries other
/// than `ridx`, breaking ties by the smallest rider id.
fn find_target(plan: &Plan, ridx: usize) -> (t: usize)
    requires
        riders_unique(plan@),
        plan@.len() >= 2,
        ridx < plan@.len(),
    ensures
        t < plan@.len(),
        t != ridx,
        is_reject_target(plan@, ridx as int, t as int),
{
    let n = plan.entries.len();
    let mut t: usize = if ridx == 0 {
        1
    } else {
        0
    };
    let mut u: usize = 0;
    while u < n
        invariant
            0 <= u <= n,
            t < n,
            t != ridx,
            forall|w: int|
                0 <= w < u && w != ridx && w != t as int ==> plan@[t as int].1.len() < (
                #[trigger] plan@[w]).1.len() || (plan@[t as int].1.len() == plan@[w].1.len()
                    && plan@[t as int].0 < plan@[w].0),
        decreases n - u,
    {
        if u != ridx && u != t {
            let load_u = plan.entries[u].1.len();
            let load_t = plan.entries[t].1.len();
            if load_u < load_t || (load_u == load_t && plan.entries[u].0 < plan.entries[t].0) {
                t = u;
            }
        }
        u += 1;
    }
    t
}

/// Relocates a rejected order: removes it from the rejecting rider's
/// sequence and appends it to the least-loaded other rider's. A no-op when
/// the plan does not know the rider or the rider does not hold the order;
/// an error when relocation is impossible because no other rider exists.
pub fn reject_order(plan: &Plan, rider_id: u32, order_id: u64) -> (r: Result<Plan, PlanError>)
    requires
        plan_wf(plan@),
    ensures
        !reject_applicable(plan@, rider_id, order_id) ==> (r matches Ok(p) && p@ == plan@),
        reject_applicable(plan@, rider_id, order_id) && plan@.len() == 1 ==> r == Err::<
            Plan,
            PlanError,
        >(PlanError::NoAlternateRider),
        reject_applicable(plan@, rider_id, order_id) && plan@.len() > 1 ==> (r matches Ok(p)
            && exists|ridx: int, oidx: int, t: int|
            {
                &&& 0 <= ridx < plan@.len()
                &&& plan@[ridx].0 == rider_id
                &&& 0 <= oidx < plan@[ridx].1.len()
                &&& plan@[ridx].1[oidx] == order_id
                &&& is_reject_target(plan@, ridx, t)
                &&& p@ == #[trigger] reject_spec(plan@, ridx, oidx, t)
            }),
        r matches Ok(p) ==> plan_wf(p@),
        r matches Ok(p) ==> orders_mset(p@) == orders_mset(plan@),
{
    let ridx = match find_rider(plan, rider_id) {
        None => {
            return Ok(plan.duplicate());
        },
        Some(i) => i,
    };
    let oidx = match find_order(&plan.entries[ridx].1, order_id) {
        None => {
            proof {
                assert(plan@[ridx as int].1 == plan.entries@[ridx as int].1@);
            }
            return Ok(plan.duplicate());
        },
        Some(k) => k,
    };
    proof {
        assert(plan@[ridx as int].1[oidx as int] == order_id);
        assert(plan@[ridx as int].1.contains(order_id));
        assert(reject_applicable(plan@, rider_id, order_id));
    }
    if plan.entries.len() == 1 {
        return Err(PlanError::NoAlternateRider);
    }
    let tidx = find_target(plan, ridx);
    let n = plan.entries.len();
    let mut entries: Vec<(u32, Vec<u64>)> = Vec::new();
    let ghost w = reject_spec(plan@, ridx as int, oidx as int, tidx as int);
    let mut i: usize = 0;
    while i < n
        invariant
            0 <= i <= n,
            entries@.len() == i,
            w == reject_spec(plan@, ridx as int, oidx as int, tidx as int),
            ridx < n && tidx < n && tidx != ridx,
            oidx < plan@[ridx as int].1.len(),
            plan@[ridx as int].1[oidx as int] == order_id,
            forall|j: int|
                0 <= j < i ==> (#[trigger] entries@[j]).0 == w[j].0 && entries@[j].1@ == w[j].1,
        decreases n - i,
    {
        let base = clone_orders(&plan.entries[i].1);
        if i == ridx {
            let mut os = base;
            let removed: u64 = os.remove(oidx);
            entries.push((plan.entries[i].0, os));
        } else if i == tidx {
            let mut os = base;
            os.push(order_id);
            entries.push((plan.entries[i].0, os));
        } else {
            entries.push((plan.entries[i].0, base));
        }
        i += 1;
    }
    let p = Plan { entries };
    proof {
        assert(p@ =~= w);
        lemma_reject_properties(plan@, ridx as int, oidx as int, tidx as int);
    }
    Ok(p)
}

/// Applies one runtime event to the plan and returns the updated plan,
/// leaving the given plan untouched. A cancellation always succeeds and
/// removes the order from the one rider holding it, if any. A rejection
/// relocates the order to the least-loaded other rider (ties broken by
/// smallest rider id), is a no-op when the rider or order is unknown, and
/// fails when the rejecting rider is the only rider in the plan.
pub fn apply(plan: &Plan, event: Event) -> (r: Result<Plan, PlanError>)
    requires
        plan_wf(plan@),
    ensures
        r matches Ok(p) ==> plan_wf(p@),
        event matches Event::OrderCanceled { order_id } ==> (r matches Ok(p) && p@ == cancel_spec(
            plan@,
            order_id,
        ) && forall|y: u64|
            contains_order(p@, y) <==> (contains_order(plan@, y) && y != order_id)),
        event matches Event::RiderRejected { rider_id, order_id } ==> {
            &&& !reject_applicable(plan@, rider_id, order_id) ==> (r matches Ok(p) && p@
                == plan@)
            &&& reject_applicable(plan@, rider_id, order_id) && plan@.len() == 1 ==> r == Err::<
                Plan,
                PlanError,
            >(PlanError::NoAlternateRider)
            &&& reject_applicable(plan@, rider_id, order_id) && plan@.len() > 1 ==> (r matches Ok(
                p,
            ) && orders_mset(p@) == orders_mset(plan@) && exists|ridx: int, oidx: int, t: int|
                {
                    &&& 0 <= ridx < plan@.len()
                    &&& plan@[ridx].0 == rider_id
                    &&& 0 <= oidx < plan@[ridx].1.len()
                    &&& plan@[ridx].1[oidx] == order_id
                    &&& is_reject_target(plan@, ridx, t)
                    &&& p@ == #[trigger] reject_spec(plan@, ridx, oidx, t)
                })
        },
{
    match event {
        Event::OrderCanceled { order_id } => {
            let p = cancel_order(plan, order_id);
            proof {
                lemma_cancel_properties(plan@, order_id);
            }
            Ok(p)
        },
        Event::RiderRejected { rider_id, order_id } => reject_order(plan, rider_id, order_id),
    }
}

} // verus!
