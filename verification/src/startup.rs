//! The order in which the units are started at boot: first those that are ordered after
//! no other unit, then, after each started unit, the units it is ordered before.
use vstd::prelude::*;

use crate::services::unit_with_id;
use crate::shutdown::{before_ids_known, count_true, id_known, index_of_id};
use crate::units::{table_wf, Unit};

verus! {

/// The ids of the units that the unit with id `id` is ordered before.
pub open spec fn before_of(units: Seq<Unit>, id: u64) -> Seq<u64> {
    unit_with_id(units, id).install.before@
}

/// `id` is the id of a unit of `units` that is ordered after no other unit.
pub open spec fn is_root(units: Seq<Unit>, id: u64) -> bool {
    exists|k: int| 0 <= k < units.len() && #[trigger] units[k].id == id && units[k].install.after@.len() == 0
}

/// No id occurs twice in `order`.
pub open spec fn ids_distinct(order: Seq<u64>) -> bool {
    forall|a: int, b: int| 0 <= a < b < order.len() ==> #[trigger] order[a] != #[trigger] order[b]
}

/// Every unit of `order` is ordered after no other unit, or is ordered before a unit that
/// comes earlier in `order`.
pub open spec fn follows_predecessor(units: Seq<Unit>, order: Seq<u64>) -> bool {
    forall|i: int|
        0 <= i < order.len() ==> is_root(units, #[trigger] order[i]) || exists|j: int|
            0 <= j < i && before_of(units, order[j]).contains(order[i])
}

/// Every unit that a unit of `order` is ordered before is in `order` too.
pub open spec fn closed_under_before(units: Seq<Unit>, order: Seq<u64>) -> bool {
    forall|i: int, y: u64| 0 <= i < order.len() && #[trigger] before_of(units, order[i]).contains(y) ==> order.contains(y)
}

/// Every unit that is ordered after no other unit is in `order`.
pub open spec fn roots_included(units: Seq<Unit>, order: Seq<u64>) -> bool {
    forall|k: int| 0 <= k < units.len() && units[k].install.after@.len() == 0 ==> order.contains(#[trigger] units[k].id)
}

proof fn lemma_unit_at(units: Seq<Unit>, id: u64, k: int)
    requires
        table_wf(units),
        0 <= k < units.len(),
        units[k].id == id,
    ensures
        unit_with_id(units, id) == units[k],
{
    let c = choose|m: int| 0 <= m < units.len() && #[trigger] units[m].id == id;
    assert(units[c].id == units[k].id);
}

proof fn lemma_count_true_set(s: Seq<bool>, k: int)
    requires
        0 <= k < s.len(),
        !s[k],
    ensures
        count_true(s.update(k, true)) == count_true(s) + 1,
    decreases s.len(),
{
    if k < s.len() - 1 {
        lemma_count_true_set(s.drop_last(), k);
        assert(s.update(k, true).drop_last() =~= s.drop_last().update(k, true));
    } else {
        assert(s.update(k, true).drop_last() =~= s.drop_last());
    }
}

proof fn lemma_count_true_le(s: Seq<bool>)
    ensures
        count_true(s) <= s.len(),
    decreases s.len(),
{
    if s.len() > 0 {
        lemma_count_true_le(s.drop_last());
    }
}

/// Everything the start-up order keeps while it grows.
pub open spec fn startup_inv(units: Seq<Unit>, queued: Seq<bool>, order: Seq<u64>) -> bool {
    &&& queued.len() == units.len()
    &&& forall|p: int| 0 <= p < units.len() ==> (#[trigger] queued[p] <==> order.contains(units[p].id))
    &&& order.len() == count_true(queued)
    &&& ids_distinct(order)
    &&& forall|i: int| 0 <= i < order.len() ==> id_known(units, #[trigger] order[i])
    &&& follows_predecessor(units, order)
}

/// Adds the unit at position `j` to `order`, unless it is queued already.
fn enqueue(units: &Vec<Unit>, queued: &mut Vec<bool>, order: &mut Vec<u64>, j: usize)
    requires
        table_wf(units@),
        j < units@.len(),
        startup_inv(units@, old(queued)@, old(order)@),
        !old(queued)@[j as int] ==> (is_root(units@, units@[j as int].id) || exists|q: int|
            0 <= q < old(order)@.len() && before_of(units@, old(order)@[q]).contains(units@[j as int].id)),
    ensures
        startup_inv(units@, final(queued)@, final(order)@),
        final(order)@.contains(units@[j as int].id),
        final(order)@ == if old(queued)@[j as int] {
            old(order)@
        } else {
            old(order)@.push(units@[j as int].id)
        },
{
    if queued[j] {
        return;
    }
    let ghost o0 = order@;
    let ghost q0 = queued@;
    let id = units[j].id;
    queued.set(j, true);
    order.push(id);
    proof {
        lemma_count_true_set(q0, j as int);
        assert(order@[o0.len() as int] == id);
        assert forall|p: int| 0 <= p < units@.len() implies (#[trigger] queued@[p] <==> order@.contains(units@[p].id)) by {
            if p == j as int {
                assert(order@[o0.len() as int] == units@[p].id);
            } else {
                if order@.contains(units@[p].id) {
                    let x = choose|x: int| 0 <= x < order@.len() && order@[x] == units@[p].id;
                    if x == o0.len() {
                        assert(units@[p].id == units@[j as int].id);
                    } else {
                        assert(o0[x] == units@[p].id);
                    }
                }
                if q0[p] {
                    let x = choose|x: int| 0 <= x < o0.len() && o0[x] == units@[p].id;
                    assert(order@[x] == units@[p].id);
                }
            }
        }
        assert forall|a: int, b: int| 0 <= a < b < order@.len() implies #[trigger] order@[a] != #[trigger] order@[b] by {
            if b == o0.len() {
                if order@[a] == id {
                    assert(o0[a] == id);
                    assert(o0.contains(units@[j as int].id));
                }
            } else {
                assert(o0[a] == order@[a] && o0[b] == order@[b]);
            }
        }
        assert forall|i: int| 0 <= i < order@.len() implies id_known(units@, #[trigger] order@[i]) by {
            if i == o0.len() {
                assert(units@[j as int].id == order@[i]);
            } else {
                assert(o0[i] == order@[i]);
            }
        }
        assert forall|i: int|
            0 <= i < order@.len() implies is_root(units@, #[trigger] order@[i]) || exists|q: int|
                0 <= q < i && before_of(units@, order@[q]).contains(order@[i]) by {
            if i == o0.len() {
                if !is_root(units@, order@[i]) {
                    let q = choose|q: int| 0 <= q < o0.len() && before_of(units@, o0[q]).contains(units@[j as int].id);
                    assert(order@[q] == o0[q]);
                }
            } else {
                assert(o0[i] == order@[i]);
                if !is_root(units@, o0[i]) {
                    let q = choose|q: int| 0 <= q < i && before_of(units@, o0[q]).contains(o0[i]);
                    assert(order@[q] == o0[q]);
                }
            }
        }
    }
}

/// The order in which the units are started at boot: first each unit that is ordered
/// after no other unit, then, after each started unit, the units it is ordered before
/// that are not started yet. Every unit started is one of these, none is started twice,
/// and every unit that a started unit is ordered before is started too.
pub fn startup_order(units: &Vec<Unit>) -> (res: Vec<u64>)
    requires
        table_wf(units@),
        before_ids_known(units@),
    ensures
        ids_distinct(res@),
        forall|i: int| 0 <= i < res@.len() ==> id_known(units@, #[trigger] res@[i]),
        follows_predecessor(units@, res@),
        roots_included(units@, res@),
        closed_under_before(units@, res@),
{
    let n = units.len();
    let mut queued: Vec<bool> = Vec::new();
    let mut p: usize = 0;
    while p < n
        invariant
            p <= n,
            n == units@.len(),
            queued@.len() == p,
            forall|m: int| 0 <= m < p ==> !#[trigger] queued@[m],
        decreases n - p,
    {
        queued.push(false);
        p = p + 1;
    }
    let mut order: Vec<u64> = Vec::new();
    proof {
        assert(count_true(queued@) == 0) by {
            lemma_count_zero(queued@);
        }
    }
    let mut k: usize = 0;
    while k < n
        invariant
            k <= n,
            n == units@.len(),
            table_wf(units@),
            startup_inv(units@, queued@, order@),
            forall|m: int| 0 <= m < k && units@[m].install.after@.len() == 0 ==> order@.contains(#[trigger] units@[m].id),
        decreases n - k,
    {
        let ghost o0 = order@;
        if units[k].install.after.len() == 0 {
            proof {
                assert(is_root(units@, units@[k as int].id));
            }
            enqueue(units, &mut queued, &mut order, k);
        }
        proof {
            assert forall|x: u64| o0.contains(x) implies order@.contains(x) by {
                let w = choose|w: int| 0 <= w < o0.len() && o0[w] == x;
                assert(order@[w] == x);
            }
        }
        k = k + 1;
    }
    let mut next: usize = 0;
    proof {
        lemma_count_true_le(queued@);
    }
    while next < order.len()
        invariant
            n == units@.len(),
            table_wf(units@),
            before_ids_known(units@),
            startup_inv(units@, queued@, order@),
            order@.len() <= n,
            next <= order@.len(),
            roots_included(units@, order@),
            forall|q: int, y: u64| 0 <= q < next && #[trigger] before_of(units@, order@[q]).contains(y) ==> order@.contains(y),
        decreases n - next,
    {
        let id = order[next];
        proof {
            assert(id_known(units@, order@[next as int]));
        }
        let k = index_of_id(units, id);
        proof {
            lemma_unit_at(units@, id, k as int);
        }
        let before = &units[k].install.before;
        let mut b: usize = 0;
        while b < before.len()
            invariant
                n == units@.len(),
                table_wf(units@),
                before_ids_known(units@),
                k < n,
                *before == units@[k as int].install.before,
                before_of(units@, id) == before@,
                startup_inv(units@, queued@, order@),
                next < order@.len(),
                order@[next as int] == id,
                roots_included(units@, order@),
                forall|q: int, y: u64| 0 <= q < next && #[trigger] before_of(units@, order@[q]).contains(y) ==> order@.contains(y),
                forall|m: int| 0 <= m < b ==> order@.contains(#[trigger] before@[m]),
            decreases before.len() - b,
        {
            proof {
                assert(id_known(units@, units@[k as int].install.before@[b as int]));
            }
            let j = index_of_id(units, before[b]);
            let ghost o0 = order@;
            proof {
                assert(before_of(units@, o0[next as int]).contains(units@[j as int].id)) by {
                    assert(before@[b as int] == units@[j as int].id);
                }
            }
            enqueue(units, &mut queued, &mut order, j);
            proof {
                assert forall|x: u64| o0.contains(x) implies order@.contains(x) by {
                    let w = choose|w: int| 0 <= w < o0.len() && o0[w] == x;
                    assert(order@[w] == x);
                }
                assert forall|q: int| 0 <= q < o0.len() implies order@[q] == o0[q] by {}
                assert(before@[b as int] == units@[j as int].id);
            }
            b = b + 1;
        }
        proof {
            assert forall|y: u64| #[trigger] before_of(units@, order@[next as int]).contains(y) implies order@.contains(y) by {
                let m = choose|m: int| 0 <= m < before@.len() && before@[m] == y;
                assert(order@.contains(before@[m]));
            }
            lemma_count_true_le(queued@);
        }
        next = next + 1;
    }
    order
}

proof fn lemma_count_zero(s: Seq<bool>)
    requires
        forall|m: int| 0 <= m < s.len() ==> !#[trigger] s[m],
    ensures
        count_true(s) == 0,
    decreases s.len(),
{
    if s.len() > 0 {
        lemma_count_zero(s.drop_last());
    }
}

} // verus!
