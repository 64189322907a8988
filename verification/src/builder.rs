use crate::plan::{contains_order, plan_wf, Order, Plan, PlanError, PlanView, Rider};
use vstd::arithmetic::div_mod::{
    lemma_div_by_self, lemma_div_is_ordered, lemma_div_pos_is_pos, lemma_fundamental_div_mod,
    lemma_fundamental_div_mod_converse_div, lemma_fundamental_div_mod_converse_mod,
};
use vstd::arithmetic::mul::lemma_mul_inequality;
use vstd::prelude::*;

verus! {

/// How many orders strict round robin hands to the rider at position `j`
/// when `m` orders are walked over `n` riders: `m / n`, plus one for the
/// first `m % n` riders.
pub open spec fn slot_count(m: int, n: int, j: int) -> int {
    m / n + if j < m % n {
        1int
    } else {
        0int
    }
}

/// The ids of a rider sequence are pairwise distinct.
pub open spec fn rider_ids_unique(riders: Seq<Rider>) -> bool {
    forall|i: int, j: int| 0 <= i < j < riders.len() ==> riders[i].id != riders[j].id
}

/// The ids of an order sequence are pairwise distinct.
pub open spec fn order_ids_unique(orders: Seq<Order>) -> bool {
    forall|i: int, j: int| 0 <= i < j < orders.len() ==> orders[i].id != orders[j].id
}

/// A plan is exactly the strict round-robin assignment of `orders` over
/// `riders`: one entry per rider, in rider input order, and the order at
/// input position `i` standing at position `i / n` of the sequence of the
/// rider at position `i % n`.
pub open spec fn is_round_robin(v: PlanView, riders: Seq<Rider>, orders: Seq<Order>) -> bool {
    let n = riders.len() as int;
    let m = orders.len() as int;
    &&& v.len() == n
    &&& forall|j: int| 0 <= j < n ==> (#[trigger] v[j]).0 == riders[j].id
    &&& forall|j: int| 0 <= j < n ==> (#[trigger] v[j]).1.len() == slot_count(m, n, j)
    &&& forall|j: int, k: int|
        0 <= j < n && 0 <= k < v[j].1.len() ==> (#[trigger] v[j].1[k]) == orders[j + k * n].id
}

/// Walking one more order: the rider at position `i % n` gains exactly the
/// order at input position `i`, every other count is unchanged.
proof fn lemma_round_robin_step(i: int, n: int)
    requires
        n >= 1,
        i >= 0,
    ensures
        slot_count(i + 1, n, i % n) == slot_count(i, n, i % n) + 1,
        forall|j: int| 0 <= j < n && j != i % n ==> slot_count(i + 1, n, j) == slot_count(i, n, j),
        i % n + slot_count(i, n, i % n) * n == i,
        0 <= i % n < n,
{
    let q = i / n;
    let r = i % n;
    lemma_fundamental_div_mod(i, n);
    lemma_div_pos_is_pos(i, n);
    assert(i == q * n + r) by (nonlinear_arith)
        requires i == n * q + r,
    ;
    if r + 1 < n {
        lemma_fundamental_div_mod_converse_div(i + 1, n, q, r + 1);
        lemma_fundamental_div_mod_converse_mod(i + 1, n, q, r + 1);
    } else {
        assert(i + 1 == (q + 1) * n + 0) by (nonlinear_arith)
            requires i == q * n + r, r + 1 == n,
        ;
        lemma_fundamental_div_mod_converse_div(i + 1, n, q + 1, 0);
        lemma_fundamental_div_mod_converse_mod(i + 1, n, q + 1, 0);
    }
}

/// Each slot `(j, k)` of the round-robin layout names a real input
/// position `j + k * n`, and the map from slots to positions is injective:
/// position `j + k * n` decomposes back into `j` and `k`.
proof fn lemma_slot_to_index(m: int, n: int, j: int, k: int)
    requires
        n >= 1,
        m >= 0,
        0 <= j < n,
        0 <= k < slot_count(m, n, j),
    ensures
        0 <= j + k * n < m,
        (j + k * n) % n == j,
        (j + k * n) / n == k,
{
    lemma_fundamental_div_mod(m, n);
    lemma_div_pos_is_pos(m, n);
    assert(k * n >= 0) by (nonlinear_arith)
        requires k >= 0, n >= 1,
    ;
    if k <= m / n - 1 {
        lemma_mul_inequality(k, m / n - 1, n);
        assert((m / n - 1) * n == (m / n) * n - n) by (nonlinear_arith);
        assert((m / n) * n == n * (m / n)) by (nonlinear_arith);
    } else {
        // then k == m / n and j < m % n
        assert(k == m / n && j < m % n);
        assert(k * n == n * k) by (nonlinear_arith);
    }
    lemma_fundamental_div_mod_converse_mod(j + k * n, n, k, j);
    lemma_fundamental_div_mod_converse_div(j + k * n, n, k, j);
}

/// Each input position `i` lands in a real slot of the round-robin layout:
/// slot `(i % n, i / n)`.
proof fn lemma_index_to_slot(m: int, n: int, i: int)
    requires
        n >= 1,
        0 <= i < m,
    ensures
        0 <= i % n < n,
        0 <= i / n < slot_count(m, n, i % n),
        i % n + (i / n) * n == i,
{
    lemma_fundamental_div_mod(i, n);
    lemma_fundamental_div_mod(m, n);
    lemma_div_pos_is_pos(i, n);
    lemma_div_is_ordered(i, m, n);
    assert((i / n) * n == n * (i / n)) by (nonlinear_arith);
    if i / n == m / n {
        assert(i % n < m % n);
    }
}

/// Builds the initial fair plan: strict round robin over the riders in
/// input order. Fails exactly when there is no rider at all. When there
/// are at least as many orders as riders, every rider receives at least
/// one order, and any two riders' shares never differ by more than one.
pub fn build(riders: &Vec<Rider>, orders: &Vec<Order>) -> (r: Result<Plan, PlanError>)
    requires
        rider_ids_unique(riders@),
        order_ids_unique(orders@),
    ensures
        riders@.len() == 0 <==> r is Err,
        r is Err ==> r == Err::<Plan, PlanError>(PlanError::EmptyRiderSet),
        r matches Ok(p) ==> is_round_robin(p@, riders@, orders@),
        r matches Ok(p) ==> plan_wf(p@),
        r matches Ok(p) ==> forall|x: u64|
            contains_order(p@, x) <==> exists|i: int|
                0 <= i < orders@.len() && (#[trigger] orders@[i]).id == x,
        r matches Ok(p) ==> (orders@.len() >= riders@.len() ==> forall|j: int|
            0 <= j < p@.len() ==> (#[trigger] p@[j]).1.len() >= 1),
        r matches Ok(p) ==> forall|j1: int, j2: int|
            0 <= j1 < p@.len() && 0 <= j2 < p@.len() ==> (#[trigger] p@[j1]).1.len() as int
                - (#[trigger] p@[j2]).1.len() as int <= 1,
{
    let n = riders.len();
    if n == 0 {
        return Err(PlanError::EmptyRiderSet);
    }
    let mut entries: Vec<(u32, Vec<u64>)> = Vec::new();
    let mut j: usize = 0;
    while j < n
        invariant
            0 <= j <= n,
            entries@.len() == j,
            forall|jj: int| 0 <= jj < j ==> (#[trigger] entries@[jj]).0 == riders@[jj].id,
            forall|jj: int| 0 <= jj < j ==> (#[trigger] entries@[jj]).1@.len() == 0,
        decreases n - j,
    {
        entries.push((riders[j].id, Vec::new()));
        j += 1;
    }
    let mut i: usize = 0;
    while i < orders.len()
        invariant
            0 <= i <= orders@.len(),
            entries@.len() == n,
            forall|jj: int| 0 <= jj < n ==> (#[trigger] entries@[jj]).0 == riders@[jj].id,
            forall|jj: int|
                0 <= jj < n ==> (#[trigger] entries@[jj]).1@.len() == slot_count(
                    i as int,
                    n as int,
                    jj,
                ),
            forall|jj: int, k: int|
                0 <= jj < n && 0 <= k < entries@[jj].1@.len() ==> (#[trigger] entries@[jj].1@[k])
                    == orders@[jj + k * (n as int)].id,
        decreases orders@.len() - i,
    {
        proof {
            lemma_round_robin_step(i as int, n as int);
        }
        let j: usize = i % n;
        let ghost prev = entries@;
        let (rid, mut os) = entries.remove(j);
        os.push(orders[i].id);
        entries.insert(j, (rid, os));
        proof {
            assert(entries@ =~= prev.update(j as int, (rid, os)));
        }
        i += 1;
    }
    let p = Plan { entries };
    proof {
        assert(is_round_robin(p@, riders@, orders@));
        lemma_round_robin_properties(p@, riders@, orders@);
    }
    Ok(p)
}

/// What follows from the round-robin layout alone, for unique input ids:
/// the plan is well-formed, it holds exactly the input order ids, every
/// rider is served once there are enough orders, and no rider is ever more
/// than one order ahead of another.
pub proof fn lemma_round_robin_properties(v: PlanView, riders: Seq<Rider>, orders: Seq<Order>)
    requires
        riders.len() >= 1,
        rider_ids_unique(riders),
        order_ids_unique(orders),
        is_round_robin(v, riders, orders),
    ensures
        plan_wf(v),
        forall|x: u64|
            contains_order(v, x) <==> exists|i: int|
                0 <= i < orders.len() && (#[trigger] orders[i]).id == x,
        orders.len() >= riders.len() ==> forall|j: int|
            0 <= j < v.len() ==> (#[trigger] v[j]).1.len() >= 1,
        forall|j1: int, j2: int|
            0 <= j1 < v.len() && 0 <= j2 < v.len() ==> (#[trigger] v[j1]).1.len() as int
                - (#[trigger] v[j2]).1.len() as int <= 1,
{
    let n = riders.len() as int;
    let m = orders.len() as int;
    // Distinct slots name distinct input positions, hence distinct ids.
    assert forall|j1: int, k1: int, j2: int, k2: int|
        0 <= j1 < n && 0 <= k1 < v[j1].1.len() && 0 <= j2 < n && 0 <= k2 < v[j2].1.len() && (j1
            != j2 || k1 != k2) implies (#[trigger] v[j1].1[k1]) != (#[trigger] v[j2].1[k2]) by {
        lemma_slot_to_index(m, n, j1, k1);
        lemma_slot_to_index(m, n, j2, k2);
        assert(j1 + k1 * n != j2 + k2 * n);
    }
    assert forall|j: int| 0 <= j < v.len() implies (#[trigger] v[j]).1.no_duplicates() by {
        assert(forall|k1: int, k2: int|
            0 <= k1 < v[j].1.len() && 0 <= k2 < v[j].1.len() && k1 != k2 ==> v[j].1[k1]
                != v[j].1[k2]);
    }
    assert forall|i: int, j: int, x: u64|
        0 <= i < v.len() && 0 <= j < v.len() && i != j && #[trigger] v[i].1.contains(x) implies !(
    #[trigger] v[j].1.contains(x)) by {
        if v[j].1.contains(x) {
            let k1 = choose|k: int| 0 <= k < v[i].1.len() && v[i].1[k] == x;
            let k2 = choose|k: int| 0 <= k < v[j].1.len() && v[j].1[k] == x;
            assert(v[i].1[k1] != v[j].1[k2]);
        }
    }
    // The plan holds an id exactly when some input order carries it.
    assert forall|x: u64| contains_order(v, x) implies exists|i: int|
        0 <= i < orders.len() && (#[trigger] orders[i]).id == x by {
        let j = choose|j: int| 0 <= j < v.len() && #[trigger] v[j].1.contains(x);
        let k = choose|k: int| 0 <= k < v[j].1.len() && v[j].1[k] == x;
        lemma_slot_to_index(m, n, j, k);
        assert(orders[j + k * n].id == x);
    }
    assert forall|x: u64|
        (exists|i: int| 0 <= i < orders.len() && (#[trigger] orders[i]).id == x) implies
        contains_order(v, x) by {
        let i = choose|i: int| 0 <= i < orders.len() && (#[trigger] orders[i]).id == x;
        lemma_index_to_slot(m, n, i);
        let j = i % n;
        let k = i / n;
        assert(v[j].1[k] == orders[i].id);
        assert(v[j].1.contains(x));
    }
    // With at least as many orders as riders, every share is non-empty.
    if m >= n {
        assert forall|j: int| 0 <= j < v.len() implies (#[trigger] v[j]).1.len() >= 1 by {
            lemma_div_by_self(n);
            lemma_div_is_ordered(n, m, n);
        }
    }
}

} // verus!
