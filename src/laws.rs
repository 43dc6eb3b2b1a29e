//! Properties of ranking and selection, proved over their specifications.
use crate::key::{keys_wf, SortingKey};
use crate::order::{orders_wf, Address, Order};
use crate::ranking::{
    all_keys_wf, insert_ranked, key_class, key_fn, lemma_rank_idempotent, lemma_rank_same_members,
    lemma_rank_stable, lemma_ranked_sorted, order_keys, rank, ranked,
};
use crate::selection::{
    distinct_uids, fill, lemma_fill_distinct, lemma_fill_len, lemma_fill_prefix,
    lemma_quota_phase_distinct, lemma_quota_phase_none, lemma_quota_phase_zero, quota_phase,
    quotas_wf, selected, take_up_to,
};
use crate::strategy::{is_outdated, CreationTimestamp, OwnQuotes, SortingStrategy, Strategy};
use vstd::prelude::*;

verus! {

proof fn lemma_order_keys_wf(strategies: Seq<Strategy>, o: Order, solver: Address, now: i64)
    requires
        o.wf(),
    ensures
        keys_wf(order_keys(strategies, o, solver, now)),
{
    let ks = order_keys(strategies, o, solver, now);
    assert forall|i: int| 0 <= i < ks.len() implies (#[trigger] ks[i]).wf() by {
        assert(ks[i] == strategies[i].spec_key(o, solver, now));
    }
}

proof fn lemma_all_keys_wf(s: Seq<Order>, strategies: Seq<Strategy>, solver: Address, now: i64)
    requires
        orders_wf(s),
    ensures
        all_keys_wf(s, key_fn(strategies, solver, now)),
{
    assert forall|i: int| 0 <= i < s.len() implies keys_wf(
        #[trigger] key_fn(strategies, solver, now)(s[i]),
    ) by {
        lemma_order_keys_wf(strategies, s[i], solver, now);
    }
}

/// Ranking the result of a ranking again, with the same strategies, solver
/// and time, gives the same sequence.
pub proof fn law_sort_idempotent(s: Seq<Order>, strategies: Seq<Strategy>, solver: Address, now: i64)
    ensures
        ranked(ranked(s, strategies, solver, now), strategies, solver, now) == ranked(
            s,
            strategies,
            solver,
            now,
        ),
{
    lemma_rank_idempotent(s, key_fn(strategies, solver, now));
}

/// Orders whose key sequences are equivalent to `k` appear in the ranking in
/// the same relative order as in the input.
pub proof fn law_sort_stable(
    s: Seq<Order>,
    strategies: Seq<Strategy>,
    solver: Address,
    now: i64,
    k: Seq<SortingKey>,
)
    requires
        orders_wf(s),
        keys_wf(k),
    ensures
        key_class(ranked(s, strategies, solver, now), k, key_fn(strategies, solver, now))
            == key_class(s, k, key_fn(strategies, solver, now)),
{
    lemma_all_keys_wf(s, strategies, solver, now);
    lemma_rank_stable(s, k, key_fn(strategies, solver, now));
}

/// Ranked by own quotes alone, every order with a true key comes before every
/// order with a false key.
pub proof fn law_own_quotes_first(s: Seq<Order>, q: OwnQuotes, solver: Address, now: i64)
    ensures
        ({
            let r = ranked(s, seq![Strategy::OwnQuotes(q)], solver, now);
            forall|i: int, j: int|
                0 <= i < j < r.len() && q.spec_key(#[trigger] r[j], solver, now) == SortingKey::Bool(
                    true,
                ) ==> q.spec_key(#[trigger] r[i], solver, now) == SortingKey::Bool(true)
        }),
{
    let strategies = seq![Strategy::OwnQuotes(q)];
    let key = key_fn(strategies, solver, now);
    assert forall|i: int| 0 <= i < s.len() implies keys_wf(#[trigger] key(s[i])) by {
        let ks = key(s[i]);
        assert(ks[0] == q.spec_key(s[i], solver, now));
    }
    lemma_ranked_sorted(s, key);
    let r = rank(s, key);
    assert forall|i: int, j: int|
        0 <= i < j < r.len() && q.spec_key(#[trigger] r[j], solver, now) == SortingKey::Bool(
            true,
        ) implies q.spec_key(#[trigger] r[i], solver, now) == SortingKey::Bool(true) by {
        let (kj, ki) = (key(r[j]), key(r[i]));
        assert(kj[0] == q.spec_key(r[j], solver, now));
        assert(ki[0] == q.spec_key(r[i], solver, now));
        assert(kj.drop_first().len() == 0 && ki.drop_first().len() == 0);
    }
}

/// Ranked by creation time alone with a max age set, every order inside the
/// window comes before every order outside it.
pub proof fn law_recent_orders_first(s: Seq<Order>, c: CreationTimestamp, solver: Address, now: i64)
    requires
        c.max_order_age.is_some(),
    ensures
        ({
            let r = ranked(s, seq![Strategy::CreationTimestamp(c)], solver, now);
            forall|i: int, j: int|
                0 <= i < j < r.len() && !is_outdated(
                    (#[trigger] r[j]).created,
                    c.max_order_age,
                    now,
                ) ==> !is_outdated((#[trigger] r[i]).created, c.max_order_age, now)
        }),
{
    let strategies = seq![Strategy::CreationTimestamp(c)];
    let key = key_fn(strategies, solver, now);
    assert forall|i: int| 0 <= i < s.len() implies keys_wf(#[trigger] key(s[i])) by {
        let ks = key(s[i]);
        assert(ks[0] == c.spec_key(s[i], solver, now));
    }
    lemma_ranked_sorted(s, key);
    let r = rank(s, key);
    assert forall|i: int, j: int|
        0 <= i < j < r.len() && !is_outdated(
            (#[trigger] r[j]).created,
            c.max_order_age,
            now,
        ) implies !is_outdated((#[trigger] r[i]).created, c.max_order_age, now) by {
        let (kj, ki) = (key(r[j]), key(r[i]));
        assert(kj[0] == c.spec_key(r[j], solver, now));
        assert(ki[0] == c.spec_key(r[i], solver, now));
        assert(kj.drop_first().len() == 0 && ki.drop_first().len() == 0);
    }
}

/// No identifier occurs twice in a selection.
pub proof fn law_selection_distinct(
    s: Seq<Order>,
    strategies: Seq<Strategy>,
    solver: Address,
    now: i64,
    max: nat,
)
    ensures
        distinct_uids(selected(s, strategies, solver, now, max)),
{
    lemma_quota_phase_distinct(s, strategies, solver, now, max);
    lemma_fill_distinct(
        quota_phase(s, strategies, solver, now, max),
        ranked(s, strategies, solver, now),
        max as int,
    );
}

/// The fill phase never takes a selection beyond `max` orders; a quota phase
/// that already reached `max` is returned as it is.
pub proof fn law_fill_bounded(
    s: Seq<Order>,
    strategies: Seq<Strategy>,
    solver: Address,
    now: i64,
    max: nat,
)
    ensures
        quota_phase(s, strategies, solver, now, max).len() < max ==> selected(
            s,
            strategies,
            solver,
            now,
            max,
        ).len() <= max,
        quota_phase(s, strategies, solver, now, max).len() >= max ==> selected(
            s,
            strategies,
            solver,
            now,
            max,
        ) == quota_phase(s, strategies, solver, now, max),
{
    let qp = quota_phase(s, strategies, solver, now, max);
    if qp.len() < max {
        lemma_fill_len(qp, ranked(s, strategies, solver, now), max as int);
    }
}

/// With room for no order, the selection is empty.
pub proof fn law_zero_capacity(s: Seq<Order>, strategies: Seq<Strategy>, solver: Address, now: i64)
    requires
        quotas_wf(strategies),
    ensures
        selected(s, strategies, solver, now, 0) == Seq::<Order>::empty(),
{
    lemma_quota_phase_zero(s, strategies, solver, now);
}

proof fn lemma_insert_distinct(x: Order, t: Seq<Order>, key: spec_fn(Order) -> Seq<SortingKey>)
    requires
        distinct_uids(t),
        forall|k: int| 0 <= k < t.len() ==> (#[trigger] t[k]).uid != x.uid,
    ensures
        distinct_uids(insert_ranked(x, t, key)),
    decreases t.len(),
{
    let r = insert_ranked(x, t, key);
    if t.len() == 0 {
    } else if r == seq![x] + t {
        assert forall|i: int, j: int| 0 <= i < j < r.len() implies r[i].uid != r[j].uid by {
            if i > 0 {
                assert(r[i] == t[i - 1] && r[j] == t[j - 1]);
            } else {
                assert(r[j] == t[j - 1]);
            }
        }
    } else {
        let rest = t.drop_first();
        let u = insert_ranked(x, rest, key);
        assert(distinct_uids(rest)) by {
            assert forall|i: int, j: int| 0 <= i < j < rest.len() implies rest[i].uid
                != rest[j].uid by {
                assert(rest[i] == t[i + 1] && rest[j] == t[j + 1]);
            }
        }
        assert forall|k: int| 0 <= k < rest.len() implies (#[trigger] rest[k]).uid != x.uid by {
            assert(rest[k] == t[k + 1]);
        }
        lemma_insert_distinct(x, rest, key);
        crate::ranking::lemma_insert_members(x, rest, key);
        assert(r == seq![t[0]] + u);
        assert forall|i: int, j: int| 0 <= i < j < r.len() implies r[i].uid != r[j].uid by {
            if i > 0 {
                assert(r[i] == u[i - 1] && r[j] == u[j - 1]);
            } else {
                assert(r[j] == u[j - 1]);
                assert(u.contains(u[j - 1]));
                if u[j - 1] != x {
                    let m = choose|m: int| 0 <= m < rest.len() && rest[m] == u[j - 1];
                    assert(t[m + 1] == u[j - 1]);
                }
            }
        }
    }
}

proof fn lemma_rank_distinct(s: Seq<Order>, key: spec_fn(Order) -> Seq<SortingKey>)
    requires
        distinct_uids(s),
    ensures
        distinct_uids(rank(s, key)),
    decreases s.len(),
{
    if s.len() > 0 {
        let rest = s.drop_first();
        assert(distinct_uids(rest)) by {
            assert forall|i: int, j: int| 0 <= i < j < rest.len() implies rest[i].uid
                != rest[j].uid by {
                assert(rest[i] == s[i + 1] && rest[j] == s[j + 1]);
            }
        }
        lemma_rank_distinct(rest, key);
        lemma_rank_same_members(rest, key);
        let rr = rank(rest, key);
        assert forall|k: int| 0 <= k < rr.len() implies (#[trigger] rr[k]).uid != s[0].uid by {
            assert(rr.contains(rr[k]));
            assert(rest.contains(rr[k]));
            let m = choose|m: int| 0 <= m < rest.len() && rest[m] == rr[k];
            assert(s[m + 1] == rr[k]);
        }
        lemma_insert_distinct(s[0], rr, key);
    }
}

/// With every quota zero and identifiers distinct, the selection is the
/// combined ranking cut to its first `max` orders.
pub proof fn law_zero_quotas_truncate(
    s: Seq<Order>,
    strategies: Seq<Strategy>,
    solver: Address,
    now: i64,
    max: nat,
)
    requires
        forall|i: int|
            0 <= i < strategies.len() ==> (#[trigger] strategies[i]).spec_min_fraction().numer == 0,
        distinct_uids(s),
    ensures
        selected(s, strategies, solver, now, max) == take_up_to(
            ranked(s, strategies, solver, now),
            max as int,
        ),
{
    lemma_quota_phase_none(s, strategies, solver, now, max);
    let r = ranked(s, strategies, solver, now);
    lemma_rank_distinct(s, key_fn(strategies, solver, now));
    assert(Seq::<Order>::empty() + r =~= r);
    lemma_fill_prefix(Seq::<Order>::empty(), r, max as int);
    assert(Seq::<Order>::empty() + take_up_to(r, max as int) =~= take_up_to(r, max as int));
}

} // verus!
