//! Stable ranking of orders by the lexicographic combination of strategy keys.
use crate::clock::unix_now;
use crate::key::{compare_keys, keys_wf, lemma_seq_antisym, lemma_seq_trans, seq_cmp, SortingKey};
use crate::order::{Address, Order};
use crate::strategy::{SortingStrategy, Strategy};
use vstd::prelude::*;

verus! {

/// The key sequence of an order: one key per strategy, in strategy order.
pub open spec fn order_keys(strategies: Seq<Strategy>, o: Order, solver: Address, now: i64) -> Seq<
    SortingKey,
> {
    strategies.map_values(|s: Strategy| s.spec_key(o, solver, now))
}

pub open spec fn key_fn(strategies: Seq<Strategy>, solver: Address, now: i64) -> spec_fn(
    Order,
) -> Seq<SortingKey> {
    |o: Order| order_keys(strategies, o, solver, now)
}

/// Places `x` just before the first order of `t` whose key does not rank
/// above the key of `x`.
pub open spec fn insert_ranked(x: Order, t: Seq<Order>, key: spec_fn(Order) -> Seq<SortingKey>) -> Seq<
    Order,
>
    decreases t.len(),
{
    if t.len() == 0 {
        seq![x]
    } else if seq_cmp(key(t[0]), key(x)) <= 0 {
        seq![x] + t
    } else {
        seq![t[0]] + insert_ranked(x, t.drop_first(), key)
    }
}

/// The stable ranking of `s` in descending order of `key`: orders with
/// equivalent keys keep their relative positions.
pub open spec fn rank(s: Seq<Order>, key: spec_fn(Order) -> Seq<SortingKey>) -> Seq<Order>
    decreases s.len(),
{
    if s.len() == 0 {
        seq![]
    } else {
        insert_ranked(s[0], rank(s.drop_first(), key), key)
    }
}

/// `s` ranked by the combined keys of `strategies`.
pub open spec fn ranked(s: Seq<Order>, strategies: Seq<Strategy>, solver: Address, now: i64) -> Seq<
    Order,
> {
    rank(s, key_fn(strategies, solver, now))
}

proof fn lemma_insert_at(
    x: Order,
    t: Seq<Order>,
    key: spec_fn(Order) -> Seq<SortingKey>,
    p: int,
)
    requires
        0 <= p <= t.len(),
        forall|k: int| 0 <= k < p ==> seq_cmp(key(#[trigger] t[k]), key(x)) > 0,
        p < t.len() ==> seq_cmp(key(t[p]), key(x)) <= 0,
    ensures
        insert_ranked(x, t, key) == t.insert(p, x),
    decreases p,
{
    if t.len() == 0 {
        assert(t.insert(p, x) =~= seq![x]);
    } else if p == 0 {
        assert(t.insert(p, x) =~= seq![x] + t);
    } else {
        assert(seq_cmp(key(t[0]), key(x)) > 0);
        let r = t.drop_first();
        assert forall|k: int| 0 <= k < p - 1 implies seq_cmp(key(#[trigger] r[k]), key(x)) > 0 by {
            assert(r[k] == t[k + 1]);
        }
        lemma_insert_at(x, r, key, p - 1);
        assert(t.insert(p, x) =~= seq![t[0]] + r.insert(p - 1, x));
    }
}

/// Each order's key does not rank above its predecessor's.
pub open spec fn sorted_adj(t: Seq<Order>, key: spec_fn(Order) -> Seq<SortingKey>) -> bool {
    forall|i: int, j: int|
        0 <= i && j == i + 1 && j < t.len() ==> seq_cmp(key(#[trigger] t[j]), key(#[trigger] t[i]))
            <= 0
}

/// No order's key ranks above the key of an order before it.
pub open spec fn sorted_all(t: Seq<Order>, key: spec_fn(Order) -> Seq<SortingKey>) -> bool {
    forall|i: int, j: int| 0 <= i < j < t.len() ==> seq_cmp(key(#[trigger] t[j]), key(#[trigger] t[i])) <= 0
}

pub open spec fn all_keys_wf(t: Seq<Order>, key: spec_fn(Order) -> Seq<SortingKey>) -> bool {
    forall|i: int| 0 <= i < t.len() ==> keys_wf(key(#[trigger] t[i]))
}

proof fn lemma_cons_contains(a: Order, u: Seq<Order>)
    ensures
        forall|o: Order| (seq![a] + u).contains(o) <==> (o == a || u.contains(o)),
{
    let v = seq![a] + u;
    assert forall|o: Order| v.contains(o) <==> (o == a || u.contains(o)) by {
        if o == a {
            assert(v[0] == a);
        }
        if u.contains(o) {
            let k = choose|k: int| 0 <= k < u.len() && u[k] == o;
            assert(v[k + 1] == o);
        }
        if v.contains(o) && o != a {
            let k = choose|k: int| 0 <= k < v.len() && v[k] == o;
            assert(u[k - 1] == o);
        }
    }
}

proof fn lemma_insert_props(x: Order, t: Seq<Order>, key: spec_fn(Order) -> Seq<SortingKey>)
    ensures
        insert_ranked(x, t, key).len() == t.len() + 1,
        insert_ranked(x, t, key)[0] == x || insert_ranked(x, t, key)[0] == t[0],
        forall|o: Order| #[trigger] insert_ranked(x, t, key).contains(o) <==> (o == x || t.contains(o)),
        sorted_adj(t, key) ==> sorted_adj(insert_ranked(x, t, key), key),
    decreases t.len(),
{
    let r = insert_ranked(x, t, key);
    if t.len() == 0 {
        lemma_cons_contains(x, t);
        assert(r =~= seq![x] + t);
    } else if seq_cmp(key(t[0]), key(x)) <= 0 {
        lemma_cons_contains(x, t);
        if sorted_adj(t, key) {
            assert forall|i: int, j: int| 0 <= i && j == i + 1 && j < r.len() implies seq_cmp(key(#[trigger] r[j]), key(#[trigger] r[i])) <= 0 by {
                if i > 0 {
                    assert(r[i + 1] == t[i] && r[i] == t[i - 1]);
                }
            }
        }
    } else {
        let rest = t.drop_first();
        let u = insert_ranked(x, rest, key);
        lemma_insert_props(x, rest, key);
        lemma_cons_contains(t[0], u);
        lemma_cons_contains(t[0], rest);
        assert(seq![t[0]] + rest =~= t);
        assert(r == seq![t[0]] + u);
        assert forall|o: Order| r.contains(o) <==> (o == x || t.contains(o)) by {
            assert(r.contains(o) <==> (o == t[0] || u.contains(o)));
            assert(u.contains(o) <==> (o == x || rest.contains(o)));
            assert(t.contains(o) <==> (o == t[0] || rest.contains(o)));
        }
        if sorted_adj(t, key) {
            assert(sorted_adj(rest, key)) by {
                assert forall|i: int, j: int| 0 <= i && j == i + 1 && j < rest.len() implies seq_cmp(key(#[trigger] rest[j]), key(#[trigger] rest[i])) <= 0 by {
                    assert(rest[i + 1] == t[i + 2] && rest[i] == t[i + 1]);
                }
            }
            lemma_seq_antisym(key(t[0]), key(x));
            assert forall|i: int, j: int| 0 <= i && j == i + 1 && j < r.len() implies seq_cmp(key(#[trigger] r[j]), key(#[trigger] r[i])) <= 0 by {
                if i > 0 {
                    assert(r[i + 1] == u[i] && r[i] == u[i - 1]);
                } else {
                    assert(r[1] == u[0] && r[0] == t[0]);
                    if u[0] != x {
                        assert(u[0] == t[1]);
                    }
                }
            }
        }
    }
}

proof fn lemma_rank_props(s: Seq<Order>, key: spec_fn(Order) -> Seq<SortingKey>)
    ensures
        rank(s, key).len() == s.len(),
        sorted_adj(rank(s, key), key),
        forall|o: Order| rank(s, key).contains(o) <==> s.contains(o),
    decreases s.len(),
{
    if s.len() > 0 {
        let rest = s.drop_first();
        lemma_rank_props(rest, key);
        lemma_insert_props(s[0], rank(rest, key), key);
        lemma_cons_contains(s[0], rest);
        assert(seq![s[0]] + rest =~= s);
        assert(rank(s, key) == insert_ranked(s[0], rank(rest, key), key));
        assert forall|o: Order| rank(s, key).contains(o) <==> s.contains(o) by {
            assert(rank(rest, key).contains(o) <==> rest.contains(o));
            assert(s.contains(o) <==> (o == s[0] || rest.contains(o)));
        }
    }
}

proof fn lemma_rank_sorted_fixed(t: Seq<Order>, key: spec_fn(Order) -> Seq<SortingKey>)
    requires
        sorted_adj(t, key),
    ensures
        rank(t, key) == t,
    decreases t.len(),
{
    if t.len() > 0 {
        let rest = t.drop_first();
        assert(sorted_adj(rest, key)) by {
            assert forall|i: int, j: int| 0 <= i && j == i + 1 && j < rest.len() implies seq_cmp(key(#[trigger] rest[j]), key(#[trigger] rest[i])) <= 0 by {
                assert(rest[i + 1] == t[i + 2] && rest[i] == t[i + 1]);
            }
        }
        lemma_rank_sorted_fixed(rest, key);
        if rest.len() > 0 {
            assert(rest[0] == t[1]);
        }
        assert(seq![t[0]] + rest =~= t);
    }
}

proof fn lemma_sorted_all(t: Seq<Order>, key: spec_fn(Order) -> Seq<SortingKey>)
    requires
        sorted_adj(t, key),
        all_keys_wf(t, key),
    ensures
        sorted_all(t, key),
{
    assert forall|i: int, j: int| 0 <= i < j < t.len() implies seq_cmp(key(#[trigger] t[j]), key(#[trigger] t[i])) <= 0 by {
        lemma_sorted_span(t, key, i, j);
    }
}

proof fn lemma_sorted_span(t: Seq<Order>, key: spec_fn(Order) -> Seq<SortingKey>, i: int, j: int)
    requires
        sorted_adj(t, key),
        all_keys_wf(t, key),
        0 <= i < j < t.len(),
    ensures
        seq_cmp(key(t[j]), key(t[i])) <= 0,
    decreases j - i,
{
    if j > i + 1 {
        lemma_sorted_span(t, key, i, j - 1);
        assert(seq_cmp(key(t[j]), key(t[j - 1])) <= 0);
        lemma_seq_trans(key(t[j]), key(t[j - 1]), key(t[i]));
    } else {
        assert(seq_cmp(key(t[i + 1]), key(t[i])) <= 0);
    }
}

/// The ranking is sorted, and its keys are well formed where the input's are.
pub proof fn lemma_ranked_sorted(s: Seq<Order>, key: spec_fn(Order) -> Seq<SortingKey>)
    requires
        all_keys_wf(s, key),
    ensures
        sorted_all(rank(s, key), key),
        all_keys_wf(rank(s, key), key),
{
    lemma_rank_props(s, key);
    let r = rank(s, key);
    assert forall|i: int| 0 <= i < r.len() implies keys_wf(key(#[trigger] r[i])) by {
        assert(r.contains(r[i]));
        assert(s.contains(r[i]));
        let k = choose|k: int| 0 <= k < s.len() && s[k] == r[i];
        assert(keys_wf(key(s[k])));
    }
    lemma_sorted_all(r, key);
}

pub(crate) proof fn lemma_insert_members(x: Order, t: Seq<Order>, key: spec_fn(Order) -> Seq<SortingKey>)
    ensures
        insert_ranked(x, t, key).len() == t.len() + 1,
        forall|o: Order| #[trigger] insert_ranked(x, t, key).contains(o) <==> (o == x || t.contains(o)),
{
    lemma_insert_props(x, t, key);
}

pub(crate) proof fn lemma_rank_same_members(s: Seq<Order>, key: spec_fn(Order) -> Seq<SortingKey>)
    ensures
        rank(s, key).len() == s.len(),
        forall|o: Order| #[trigger] rank(s, key).contains(o) <==> s.contains(o),
{
    lemma_rank_props(s, key);
}

/// Ranking an already ranked sequence changes nothing.
pub proof fn lemma_rank_idempotent(s: Seq<Order>, key: spec_fn(Order) -> Seq<SortingKey>)
    ensures
        rank(rank(s, key), key) == rank(s, key),
{
    lemma_rank_props(s, key);
    lemma_rank_sorted_fixed(rank(s, key), key);
}

/// The orders of `s` whose key is equivalent to `k`, in their order in `s`.
pub open spec fn key_class(s: Seq<Order>, k: Seq<SortingKey>, key: spec_fn(Order) -> Seq<SortingKey>) -> Seq<Order>
    decreases s.len(),
{
    if s.len() == 0 {
        seq![]
    } else if seq_cmp(key(s[0]), k) == 0 {
        seq![s[0]] + key_class(s.drop_first(), k, key)
    } else {
        key_class(s.drop_first(), k, key)
    }
}

proof fn lemma_insert_class(
    x: Order,
    t: Seq<Order>,
    k: Seq<SortingKey>,
    key: spec_fn(Order) -> Seq<SortingKey>,
)
    requires
        all_keys_wf(t, key),
        keys_wf(key(x)),
        keys_wf(k),
    ensures
        key_class(insert_ranked(x, t, key), k, key) == if seq_cmp(key(x), k) == 0 {
            seq![x] + key_class(t, k, key)
        } else {
            key_class(t, k, key)
        },
    decreases t.len(),
{
    if t.len() == 0 {
        assert(seq![x].drop_first() =~= t);
        assert(insert_ranked(x, t, key) == seq![x]);
    } else if seq_cmp(key(t[0]), key(x)) <= 0 {
        let v = seq![x] + t;
        assert(v.drop_first() =~= t);
        assert(v[0] == x);
        assert(insert_ranked(x, t, key) == v);
    } else {
        let rest = t.drop_first();
        assert(all_keys_wf(rest, key)) by {
            assert forall|i: int| 0 <= i < rest.len() implies keys_wf(key(#[trigger] rest[i])) by {
                assert(rest[i] == t[i + 1]);
            }
        }
        assert(keys_wf(key(t[0])));
        lemma_insert_class(x, rest, k, key);
        let v = seq![t[0]] + insert_ranked(x, rest, key);
        assert(v.drop_first() =~= insert_ranked(x, rest, key));
        assert(v[0] == t[0]);
        assert(insert_ranked(x, t, key) == v);
        if seq_cmp(key(x), k) == 0 && seq_cmp(key(t[0]), k) == 0 {
            lemma_seq_antisym(key(x), k);
            lemma_seq_trans(key(t[0]), k, key(x));
        }
        let cr = key_class(rest, k, key);
        if seq_cmp(key(t[0]), k) == 0 {
            assert(key_class(t, k, key) == seq![t[0]] + cr);
            assert(key_class(v, k, key) == seq![t[0]] + key_class(insert_ranked(x, rest, key), k, key));
        } else {
            assert(key_class(t, k, key) == cr);
            assert(key_class(v, k, key) == key_class(insert_ranked(x, rest, key), k, key));
        }
    }
}

/// Ranking keeps, for every key, the relative order of the orders with an
/// equivalent key.
pub proof fn lemma_rank_stable(s: Seq<Order>, k: Seq<SortingKey>, key: spec_fn(Order) -> Seq<SortingKey>)
    requires
        all_keys_wf(s, key),
        keys_wf(k),
    ensures
        key_class(rank(s, key), k, key) == key_class(s, k, key),
    decreases s.len(),
{
    if s.len() > 0 {
        let rest = s.drop_first();
        assert(all_keys_wf(rest, key)) by {
            assert forall|i: int| 0 <= i < rest.len() implies keys_wf(key(#[trigger] rest[i])) by {
                assert(rest[i] == s[i + 1]);
            }
        }
        assert(keys_wf(key(s[0])));
        lemma_rank_stable(rest, k, key);
        lemma_ranked_sorted(rest, key);
        lemma_insert_class(s[0], rank(rest, key), k, key);
    }
}

fn order_keys_exec(o: &Order, solver: &Address, strategies: &[Strategy], now: i64) -> (r: Vec<
    SortingKey,
>)
    ensures
        r@ == order_keys(strategies@, *o, *solver, now),
{
    let mut r: Vec<SortingKey> = Vec::new();
    let mut i: usize = 0;
    while i < strategies.len()
        invariant
            i <= strategies@.len(),
            r@.len() == i,
            forall|j: int| 0 <= j < i ==> r@[j] == (#[trigger] strategies@[j]).spec_key(*o, *solver, now),
        decreases strategies@.len() - i,
    {
        let k = strategies[i].key(o, solver, now);
        r.push(k);
        i = i + 1;
    }
    assert(r@ =~= order_keys(strategies@, *o, *solver, now));
    r
}

/// Ranks `orders` at time `now` (unix seconds): a stable sort in descending
/// order of each order's key sequence, so that the most preferred order comes
/// first and orders with equivalent keys keep their input order.
pub fn sort_orders_at(orders: &mut Vec<Order>, solver: &Address, strategies: &[Strategy], now: i64)
    ensures
        final(orders)@ == ranked(old(orders)@, strategies@, *solver, now),
{
    let ghost key = key_fn(strategies@, *solver, now);
    let ghost s = orders@;
    let n = orders.len();
    let mut res: Vec<Order> = Vec::new();
    let mut res_keys: Vec<Vec<SortingKey>> = Vec::new();
    let mut i: usize = n;
    assert(s.skip(n as int) =~= seq![]);
    while i > 0
        invariant
            i <= n,
            n == s.len(),
            orders@ == s,
            key == key_fn(strategies@, *solver, now),
            res@ == rank(s.skip(i as int), key),
            res_keys@.len() == res@.len(),
            forall|j: int| 0 <= j < res@.len() ==> (#[trigger] res_keys@[j])@ == key(res@[j]),
        decreases i,
    {
        i = i - 1;
        let x = orders[i];
        let kx = order_keys_exec(&x, solver, strategies, now);
        assert(kx@ == key(x));
        let mut p: usize = 0;
        while p < res.len() && compare_keys(&res_keys[p], &kx) > 0
            invariant
                p <= res@.len(),
                kx@ == key(x),
                res_keys@.len() == res@.len(),
                forall|j: int| 0 <= j < res@.len() ==> (#[trigger] res_keys@[j])@ == key(res@[j]),
                forall|k: int| 0 <= k < p ==> seq_cmp(key(#[trigger] res@[k]), key(x)) > 0,
            decreases res@.len() - p,
        {
            p = p + 1;
        }
        proof {
            lemma_insert_at(x, res@, key, p as int);
            assert(s.skip(i as int).drop_first() =~= s.skip(i + 1));
            assert(s.skip(i as int)[0] == x);
        }
        let ghost old_keys = res_keys@;
        let ghost old_res = res@;
        res.insert(p, x);
        res_keys.insert(p, kx);
        assert forall|j: int| 0 <= j < res@.len() implies (#[trigger] res_keys@[j])@ == key(
            res@[j],
        ) by {
            if j > p {
                assert(res_keys@[j] == old_keys[j - 1]);
                assert(res@[j] == old_res[j - 1]);
            } else if j < p {
                assert(res_keys@[j] == old_keys[j]);
                assert(res@[j] == old_res[j]);
            }
        }
    }
    assert(s.skip(0) =~= s);
    *orders = res;
}

/// Ranks `orders` as [`sort_orders_at`] does, at the current time.
pub fn sort_orders(orders: &mut Vec<Order>, solver: &Address, strategies: &[Strategy])
    ensures
        exists|now: i64| final(orders)@ == ranked(old(orders)@, strategies@, *solver, now),
{
    let now = unix_now();
    sort_orders_at(orders, solver, strategies, now);
}

} // verus!
