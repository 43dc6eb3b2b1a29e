//! Quota-based selection: each strategy with a positive quota contributes its
//! own top picks, and the combined ranking fills what room is left.
use crate::clock::unix_now;
use crate::key::Ratio;
use crate::order::{Address, Order};
use crate::ranking::{ranked, sort_orders_at};
use crate::strategy::{SortingStrategy, Strategy};
use std::collections::HashSet;
use vstd::prelude::*;

verus! {

broadcast use vstd::std_specs::hash::group_hash_axioms;

pub open spec fn uids(s: Seq<Order>) -> Seq<u64> {
    s.map_values(|o: Order| o.uid)
}

/// Appends to `acc`, in order, each order of `cands` whose identifier is not
/// yet in `acc`.
pub open spec fn append_new(acc: Seq<Order>, cands: Seq<Order>) -> Seq<Order>
    decreases cands.len(),
{
    if cands.len() == 0 {
        acc
    } else if uids(acc).contains(cands[0].uid) {
        append_new(acc, cands.drop_first())
    } else {
        append_new(acc.push(cands[0]), cands.drop_first())
    }
}

/// As [`append_new`], but stops once `acc` holds `max` orders.
pub open spec fn fill(acc: Seq<Order>, cands: Seq<Order>, max: int) -> Seq<Order>
    decreases cands.len(),
{
    if cands.len() == 0 || acc.len() >= max {
        acc
    } else if uids(acc).contains(cands[0].uid) {
        fill(acc, cands.drop_first(), max)
    } else {
        fill(acc.push(cands[0]), cands.drop_first(), max)
    }
}

/// `ceil(q * max)`, the number of top picks a quota `q` claims.
pub open spec fn quota_count(q: Ratio, max: nat) -> int {
    (q.numer * max + q.denom - 1) / q.denom as int
}

/// The first `n` orders of `s` (all of them if `s` is shorter).
pub open spec fn take_up_to(s: Seq<Order>, n: int) -> Seq<Order> {
    if n < s.len() {
        s.take(n)
    } else {
        s
    }
}

/// The orders that the strategies with a positive quota claim, strategy by
/// strategy, without repeating an identifier.
pub open spec fn quota_phase(
    s: Seq<Order>,
    strategies: Seq<Strategy>,
    solver: Address,
    now: i64,
    max: nat,
) -> Seq<Order>
    decreases strategies.len(),
{
    if strategies.len() == 0 {
        seq![]
    } else {
        let acc = quota_phase(s, strategies.drop_last(), solver, now, max);
        let st = strategies.last();
        let q = st.spec_min_fraction();
        if q.is_positive() {
            append_new(
                acc,
                take_up_to(ranked(s, seq![st], solver, now), quota_count(q, max)),
            )
        } else {
            acc
        }
    }
}

/// The full selection: the quota phase, then orders of the combined ranking
/// with new identifiers until `max` orders are held.
pub open spec fn selected(
    s: Seq<Order>,
    strategies: Seq<Strategy>,
    solver: Address,
    now: i64,
    max: nat,
) -> Seq<Order> {
    fill(quota_phase(s, strategies, solver, now, max), ranked(s, strategies, solver, now), max as int)
}

/// No identifier occurs twice.
pub open spec fn distinct_uids(s: Seq<Order>) -> bool {
    forall|i: int, j: int| 0 <= i < j < s.len() ==> s[i].uid != s[j].uid
}

proof fn lemma_push_distinct(acc: Seq<Order>, o: Order)
    requires
        distinct_uids(acc),
        !uids(acc).contains(o.uid),
    ensures
        distinct_uids(acc.push(o)),
{
    assert forall|i: int, j: int| 0 <= i < j < acc.push(o).len() implies acc.push(o)[i].uid
        != acc.push(o)[j].uid by {
        if j == acc.len() {
            assert(uids(acc)[i] == acc[i].uid);
        }
    }
}

pub(crate) proof fn lemma_append_new_distinct(acc: Seq<Order>, cands: Seq<Order>)
    requires
        distinct_uids(acc),
    ensures
        distinct_uids(append_new(acc, cands)),
    decreases cands.len(),
{
    if cands.len() > 0 {
        if uids(acc).contains(cands[0].uid) {
            lemma_append_new_distinct(acc, cands.drop_first());
        } else {
            lemma_push_distinct(acc, cands[0]);
            lemma_append_new_distinct(acc.push(cands[0]), cands.drop_first());
        }
    }
}

pub(crate) proof fn lemma_fill_distinct(acc: Seq<Order>, cands: Seq<Order>, max: int)
    requires
        distinct_uids(acc),
    ensures
        distinct_uids(fill(acc, cands, max)),
    decreases cands.len(),
{
    if cands.len() > 0 && acc.len() < max {
        if uids(acc).contains(cands[0].uid) {
            lemma_fill_distinct(acc, cands.drop_first(), max);
        } else {
            lemma_push_distinct(acc, cands[0]);
            lemma_fill_distinct(acc.push(cands[0]), cands.drop_first(), max);
        }
    }
}

pub(crate) proof fn lemma_quota_phase_distinct(
    s: Seq<Order>,
    strategies: Seq<Strategy>,
    solver: Address,
    now: i64,
    max: nat,
)
    ensures
        distinct_uids(quota_phase(s, strategies, solver, now, max)),
    decreases strategies.len(),
{
    if strategies.len() > 0 {
        let acc = quota_phase(s, strategies.drop_last(), solver, now, max);
        lemma_quota_phase_distinct(s, strategies.drop_last(), solver, now, max);
        let st = strategies.last();
        let q = st.spec_min_fraction();
        lemma_append_new_distinct(
            acc,
            take_up_to(ranked(s, seq![st], solver, now), quota_count(q, max)),
        );
    }
}

pub(crate) proof fn lemma_fill_len(acc: Seq<Order>, cands: Seq<Order>, max: int)
    requires
        acc.len() <= max,
    ensures
        fill(acc, cands, max).len() <= max,
    decreases cands.len(),
{
    if cands.len() > 0 && acc.len() < max {
        if uids(acc).contains(cands[0].uid) {
            lemma_fill_len(acc, cands.drop_first(), max);
        } else {
            lemma_fill_len(acc.push(cands[0]), cands.drop_first(), max);
        }
    }
}

pub(crate) proof fn lemma_quota_phase_zero(
    s: Seq<Order>,
    strategies: Seq<Strategy>,
    solver: Address,
    now: i64,
)
    requires
        quotas_wf(strategies),
    ensures
        quota_phase(s, strategies, solver, now, 0) == Seq::<Order>::empty(),
    decreases strategies.len(),
{
    if strategies.len() > 0 {
        let pre = strategies.drop_last();
        assert forall|i: int| 0 <= i < pre.len() implies (#[trigger] pre[i]).spec_min_fraction().wf() by {
            assert(pre[i] == strategies[i]);
        }
        lemma_quota_phase_zero(s, pre, solver, now);
        let st = strategies.last();
        let q = st.spec_min_fraction();
        assert(q.wf());
        assert(quota_count(q, 0) == 0) by {
            assert(q.numer * 0 == 0);
            let d = q.denom as int;
            assert((d - 1) / d == 0) by (nonlinear_arith)
                requires
                    d > 0,
            ;
        }
        let r = ranked(s, seq![st], solver, now);
        assert(take_up_to(r, 0) =~= Seq::<Order>::empty());
    }
}

/// With every quota zero, the quota phase selects nothing.
pub(crate) proof fn lemma_quota_phase_none(
    s: Seq<Order>,
    strategies: Seq<Strategy>,
    solver: Address,
    now: i64,
    max: nat,
)
    requires
        forall|i: int| 0 <= i < strategies.len() ==> (#[trigger] strategies[i]).spec_min_fraction().numer == 0,
    ensures
        quota_phase(s, strategies, solver, now, max) == Seq::<Order>::empty(),
    decreases strategies.len(),
{
    if strategies.len() > 0 {
        let pre = strategies.drop_last();
        assert forall|i: int| 0 <= i < pre.len() implies (#[trigger] pre[i]).spec_min_fraction().numer == 0 by {
            assert(pre[i] == strategies[i]);
        }
        lemma_quota_phase_none(s, pre, solver, now, max);
    }
}

/// Filling an empty selection from orders with distinct identifiers takes a
/// prefix of them.
pub(crate) proof fn lemma_fill_prefix(acc: Seq<Order>, cands: Seq<Order>, max: int)
    requires
        distinct_uids(acc + cands),
        acc.len() <= max,
    ensures
        fill(acc, cands, max) == acc + take_up_to(cands, max - acc.len()),
    decreases cands.len(),
{
    if cands.len() == 0 {
        assert(acc + take_up_to(cands, max - acc.len()) =~= acc);
    } else if acc.len() >= max {
        assert(acc + take_up_to(cands, max - acc.len()) =~= acc);
    } else {
        let c = cands[0];
        assert(!uids(acc).contains(c.uid)) by {
            if uids(acc).contains(c.uid) {
                let i = choose|i: int| 0 <= i < uids(acc).len() && uids(acc)[i] == c.uid;
                assert((acc + cands)[i].uid == (acc + cands)[acc.len() as int].uid);
            }
        }
        assert(acc.push(c) + cands.drop_first() =~= acc + cands);
        lemma_fill_prefix(acc.push(c), cands.drop_first(), max);
        assert(acc.push(c) + take_up_to(cands.drop_first(), max - acc.len() - 1) =~= acc
            + take_up_to(cands, max - acc.len()));
    }
}

pub open spec fn quotas_wf(strategies: Seq<Strategy>) -> bool {
    forall|i: int| 0 <= i < strategies.len() ==> (#[trigger] strategies[i]).spec_min_fraction().wf()
}

fn quota_count_exec(q: Ratio, max: usize) -> (r: u128)
    requires
        q.wf(),
        q.is_positive(),
    ensures
        r as int == quota_count(q, max as nat),
{
    let n: u128 = q.numer as u128;
    let m: u128 = max as u128;
    let d: u128 = q.denom as u128;
    assert(n * m <= 0x7fff_ffff_ffff_ffff * 0xffff_ffff_ffff_ffff) by (nonlinear_arith)
        requires
            0 <= n <= 0x7fff_ffff_ffff_ffff,
            0 <= m <= 0xffff_ffff_ffff_ffff,
    ;
    (n * m + d - 1) / d
}

fn copy_orders(orders: &Vec<Order>) -> (r: Vec<Order>)
    ensures
        r@ == orders@,
{
    let mut r: Vec<Order> = Vec::new();
    let mut i: usize = 0;
    while i < orders.len()
        invariant
            i <= orders@.len(),
            r@ == orders@.take(i as int),
        decreases orders@.len() - i,
    {
        r.push(orders[i]);
        i = i + 1;
        assert(r@ =~= orders@.take(i as int));
    }
    assert(orders@.take(orders@.len() as int) =~= orders@);
    r
}

proof fn lemma_uids_push(acc: Seq<Order>, o: Order)
    ensures
        forall|u: u64| uids(acc.push(o)).contains(u) <==> (uids(acc).contains(u) || u == o.uid),
{
    assert(uids(acc.push(o)) =~= uids(acc).push(o.uid));
    assert forall|u: u64| uids(acc.push(o)).contains(u) <==> (uids(acc).contains(u) || u
        == o.uid) by {
        if uids(acc).contains(u) {
            let j = choose|j: int| 0 <= j < uids(acc).len() && uids(acc)[j] == u;
            assert(uids(acc.push(o))[j] == u);
        }
        if u == o.uid {
            assert(uids(acc.push(o))[acc.len() as int] == u);
        }
        if uids(acc.push(o)).contains(u) && u != o.uid {
            let j = choose|j: int| 0 <= j < uids(acc.push(o)).len() && uids(acc.push(o))[j] == u;
            assert(uids(acc)[j] == u);
        }
    }
}

/// Builds a bounded, deduplicated selection at time `now` (unix seconds).
/// Each strategy with a positive quota, in list order, ranks a copy of
/// `orders` by its own key alone, and its top `ceil(quota * max_nr_orders)`
/// orders are appended unless their identifier was already selected. While
/// fewer than `max_nr_orders` orders are held, the ranking by all strategies
/// fills the rest, again skipping selected identifiers. `orders` is replaced
/// by the result.
pub fn sort_and_filter_orders_at(
    orders: &mut Vec<Order>,
    solver: &Address,
    strategies: &[Strategy],
    max_nr_orders: usize,
    now: i64,
)
    requires
        quotas_wf(strategies@),
    ensures
        final(orders)@ == selected(old(orders)@, strategies@, *solver, now, max_nr_orders as nat),
        distinct_uids(final(orders)@),
        quota_phase(old(orders)@, strategies@, *solver, now, max_nr_orders as nat).len()
            < max_nr_orders ==> final(orders)@.len() <= max_nr_orders,
{
    proof {
        crate::laws::law_selection_distinct(old(orders)@, strategies@, *solver, now, max_nr_orders as nat);
        crate::laws::law_fill_bounded(old(orders)@, strategies@, *solver, now, max_nr_orders as nat);
    }
    let ghost s = orders@;
    let ghost max = max_nr_orders as nat;
    let mut sorted_orders: Vec<Order> = Vec::new();
    let mut selected_ids: HashSet<u64> = HashSet::new();
    let mut i: usize = 0;
    assert(strategies@.take(0) =~= Seq::<Strategy>::empty());
    while i < strategies.len()
        invariant
            i <= strategies@.len(),
            orders@ == s,
            s == old(orders)@,
            max == max_nr_orders as nat,
            quotas_wf(strategies@),
            sorted_orders@ == quota_phase(s, strategies@.take(i as int), *solver, now, max),
            forall|u: u64| selected_ids@.contains(u) <==> uids(sorted_orders@).contains(u),
        decreases strategies@.len() - i,
    {
        let st = strategies[i];
        let q = st.min_fraction();
        assert(strategies@.take(i + 1).drop_last() =~= strategies@.take(i as int));
        assert(strategies@.take(i + 1).last() == st);
        if q.numer > 0 {
            assert(q.wf());
            let mut cmp_sorted = copy_orders(orders);
            let single = [st];
            assert(single@ =~= seq![st]);
            sort_orders_at(&mut cmp_sorted, solver, &single, now);
            let nr = quota_count_exec(q, max_nr_orders);
            if nr < cmp_sorted.len() as u128 {
                cmp_sorted.truncate(nr as usize);
            }
            let ghost cands = cmp_sorted@;
            let ghost acc0 = sorted_orders@;
            assert(cands == take_up_to(ranked(s, seq![st], *solver, now), quota_count(q, max)));
            let mut j: usize = 0;
            assert(cands.skip(0) =~= cands);
            while j < cmp_sorted.len()
                invariant
                    j <= cmp_sorted@.len(),
                    cmp_sorted@ == cands,
                    append_new(acc0, cands) == append_new(sorted_orders@, cands.skip(j as int)),
                    forall|u: u64| selected_ids@.contains(u) <==> uids(sorted_orders@).contains(u),
                decreases cmp_sorted@.len() - j,
            {
                let o = cmp_sorted[j];
                assert(cands.skip(j as int)[0] == o);
                assert(cands.skip(j as int).drop_first() =~= cands.skip(j + 1));
                if selected_ids.insert(o.uid) {
                    proof {
                        lemma_uids_push(sorted_orders@, o);
                    }
                    sorted_orders.push(o);
                }
                j = j + 1;
            }
            assert(cands.skip(j as int) =~= seq![]);
        }
        i = i + 1;
    }
    assert(strategies@.take(strategies@.len() as int) =~= strategies@);
    let ghost qp = sorted_orders@;
    if sorted_orders.len() < max_nr_orders {
        let mut cmp_sorted = copy_orders(orders);
        sort_orders_at(&mut cmp_sorted, solver, strategies, now);
        let ghost cands = cmp_sorted@;
        let mut j: usize = 0;
        assert(cands.skip(0) =~= cands);
        while j < cmp_sorted.len()
            invariant
                j <= cmp_sorted@.len(),
                cmp_sorted@ == cands,
                sorted_orders@.len() < max_nr_orders,
                max == max_nr_orders as nat,
                qp == quota_phase(s, strategies@, *solver, now, max),
                s == old(orders)@,
                cands == ranked(s, strategies@, *solver, now),
                fill(qp, cands, max as int) == fill(sorted_orders@, cands.skip(j as int), max as int),
                forall|u: u64| selected_ids@.contains(u) <==> uids(sorted_orders@).contains(u),
            decreases cmp_sorted@.len() - j,
        {
            let o = cmp_sorted[j];
            assert(cands.skip(j as int)[0] == o);
            assert(cands.skip(j as int).drop_first() =~= cands.skip(j + 1));
            if selected_ids.insert(o.uid) {
                proof {
                    lemma_uids_push(sorted_orders@, o);
                }
                sorted_orders.push(o);
                if sorted_orders.len() == max_nr_orders {
                    assert(sorted_orders@.len() >= max as int);
                    assert(fill(sorted_orders@, cands.skip(j + 1), max as int) == sorted_orders@);
                    proof {
                        crate::laws::law_selection_distinct(s, strategies@, *solver, now, max);
                    }
                    *orders = sorted_orders;
                    return;
                }
            }
            j = j + 1;
        }
        assert(cands.skip(j as int) =~= seq![]);
    }
    *orders = sorted_orders;
}

/// Selects as [`sort_and_filter_orders_at`] does, at the current time.
pub fn sort_and_filter_orders(
    orders: &mut Vec<Order>,
    solver: &Address,
    strategies: &[Strategy],
    max_nr_orders: usize,
)
    requires
        quotas_wf(strategies@),
    ensures
        exists|now: i64|
            final(orders)@ == selected(
                old(orders)@,
                strategies@,
                *solver,
                now,
                max_nr_orders as nat,
            ),
{
    let now = unix_now();
    sort_and_filter_orders_at(orders, solver, strategies, max_nr_orders, now);
}

} // verus!
