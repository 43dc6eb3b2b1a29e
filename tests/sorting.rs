use order_sorting::{
    sort_and_filter_orders, sort_and_filter_orders_at, sort_orders, sort_orders_at, Address,
    CreationTimestamp, Error, ExternalPrice, ExternalSurplus, Order, OwnQuotes, Ratio,
    SortingKey, SortingStrategy, Strategy,
};

const ME: Address = Address([7u8; 20]);
const OTHER: Address = Address([9u8; 20]);

fn ratio(numer: i64, denom: u64) -> Ratio {
    Ratio { numer, denom }
}

fn order(uid: u64, created: u32) -> Order {
    Order {
        uid,
        created,
        quote_solver: None,
        likelihood: ratio(0, 1),
        likelihood_surplus: ratio(0, 1),
    }
}

fn uids(orders: &[Order]) -> Vec<u64> {
    orders.iter().map(|o| o.uid).collect()
}

fn four_orders() -> Vec<Order> {
    vec![order(1, 100), order(2, 200), order(3, 300), order(4, 400)]
}

fn by_creation(quota: Ratio, max_order_age: Option<i64>) -> Strategy {
    Strategy::CreationTimestamp(CreationTimestamp { min_fraction: quota, max_order_age })
}

#[test]
fn creation_timestamp_ranks_most_recent_first() {
    let mut orders = four_orders();
    sort_orders_at(&mut orders, &ME, &[by_creation(ratio(0, 1), None)], 0);
    assert_eq!(uids(&orders), vec![4, 3, 2, 1]);
}

#[test]
fn creation_timestamp_at_current_time() {
    let mut orders = four_orders();
    sort_orders(&mut orders, &ME, &[by_creation(ratio(0, 1), None)]);
    assert_eq!(uids(&orders), vec![4, 3, 2, 1]);
}

#[test]
fn half_quota_then_fill_selects_all_four() {
    let mut orders = four_orders();
    sort_and_filter_orders_at(&mut orders, &ME, &[by_creation(ratio(1, 2), None)], 4, 0);
    assert_eq!(uids(&orders), vec![4, 3, 2, 1]);
}

#[test]
fn half_quota_at_current_time() {
    let mut orders = four_orders();
    sort_and_filter_orders(&mut orders, &ME, &[by_creation(ratio(1, 2), None)], 4);
    assert_eq!(uids(&orders), vec![4, 3, 2, 1]);
}

#[test]
fn sorting_twice_changes_nothing() {
    let mut orders = vec![order(1, 300), order(2, 100), order(3, 300), order(4, 200)];
    let strategies = [by_creation(ratio(0, 1), None)];
    sort_orders_at(&mut orders, &ME, &strategies, 0);
    let once = uids(&orders);
    sort_orders_at(&mut orders, &ME, &strategies, 0);
    assert_eq!(uids(&orders), once);
    assert_eq!(once, vec![1, 3, 4, 2]);
}

#[test]
fn equal_keys_keep_input_order() {
    let mut orders = vec![order(5, 100), order(3, 200), order(9, 100), order(1, 100)];
    sort_orders_at(&mut orders, &ME, &[by_creation(ratio(0, 1), None)], 0);
    assert_eq!(uids(&orders), vec![3, 5, 9, 1]);
}

#[test]
fn empty_strategy_list_keeps_order() {
    let mut orders = vec![order(5, 100), order(3, 200), order(9, 300)];
    sort_orders_at(&mut orders, &ME, &[], 0);
    assert_eq!(uids(&orders), vec![5, 3, 9]);
}

#[test]
fn empty_order_list() {
    let mut orders: Vec<Order> = Vec::new();
    sort_orders_at(&mut orders, &ME, &[by_creation(ratio(0, 1), None)], 0);
    assert!(orders.is_empty());
    sort_and_filter_orders_at(&mut orders, &ME, &[by_creation(ratio(1, 2), None)], 3, 0);
    assert!(orders.is_empty());
}

#[test]
fn own_quotes_come_first() {
    let mut orders = four_orders();
    orders[0].quote_solver = Some(ME);
    orders[1].quote_solver = Some(OTHER);
    orders[2].quote_solver = Some(ME);
    let own = OwnQuotes { min_fraction: ratio(0, 1), max_order_age: None };
    sort_orders_at(&mut orders, &ME, &[Strategy::OwnQuotes(own)], 0);
    assert_eq!(uids(&orders), vec![1, 3, 2, 4]);
}

#[test]
fn outdated_own_quote_is_not_preferred() {
    let mut o = order(1, 100);
    o.quote_solver = Some(ME);
    let fresh = OwnQuotes { min_fraction: ratio(0, 1), max_order_age: Some(50) };
    // cutoff 1000 - 50 = 950: created at 100 is outdated
    assert!(matches!(fresh.key(&o, &ME, 1000), SortingKey::Bool(false)));
    // cutoff 1000 - 950 = 50: created at 100 is inside the window
    let wide = OwnQuotes { min_fraction: ratio(0, 1), max_order_age: Some(950) };
    assert!(matches!(wide.key(&o, &ME, 1000), SortingKey::Bool(true)));
    assert!(matches!(wide.key(&o, &OTHER, 1000), SortingKey::Bool(false)));
}

#[test]
fn orders_inside_the_age_window_come_first() {
    let mut orders = vec![order(1, 500), order(2, 950), order(3, 100), order(4, 990)];
    // now 1000, max age 100: cutoff 900
    sort_orders_at(&mut orders, &ME, &[by_creation(ratio(0, 1), Some(100))], 1000);
    assert_eq!(uids(&orders), vec![4, 2, 1, 3]);
}

#[test]
fn cutoff_before_epoch_saturates() {
    let c = CreationTimestamp { min_fraction: ratio(0, 1), max_order_age: Some(2000) };
    // 1000 - 2000 is negative: the cutoff saturates to u32::MAX
    assert!(matches!(c.key(&order(1, 999), &ME, 1000), SortingKey::Timestamp(None)));
    assert!(matches!(c.key(&order(2, u32::MAX), &ME, 1000), SortingKey::Timestamp(Some(u32::MAX))));
    let exact = CreationTimestamp { min_fraction: ratio(0, 1), max_order_age: Some(100) };
    assert!(matches!(exact.key(&order(3, 900), &ME, 1000), SortingKey::Timestamp(Some(900))));
    assert!(matches!(exact.key(&order(4, 899), &ME, 1000), SortingKey::Timestamp(None)));
}

#[test]
fn recent_order_at_current_time_ranks_above_old_one() {
    let now = std::time::SystemTime::now()
        .duration_since(std::time::UNIX_EPOCH)
        .unwrap()
        .as_secs() as u32;
    let mut orders = vec![order(1, 10), order(2, now)];
    let strategy = by_creation(ratio(0, 1), Some(3600));
    sort_orders(&mut orders, &ME, &[strategy]);
    assert_eq!(uids(&orders), vec![2, 1]);
    // a reversed pair stays as it is: the old order is outside the window
    let mut orders = vec![order(2, now), order(1, 10)];
    sort_orders(&mut orders, &ME, &[strategy]);
    assert_eq!(uids(&orders), vec![2, 1]);
}

#[test]
fn external_price_and_surplus_rank_by_value() {
    let mut orders = four_orders();
    orders[0].likelihood = ratio(1, 3);
    orders[1].likelihood = ratio(1, 2);
    orders[2].likelihood = ratio(-1, 1);
    orders[3].likelihood = ratio(2, 4);
    orders[0].likelihood_surplus = ratio(5, 1);
    orders[3].likelihood_surplus = ratio(7, 2);
    let price = Strategy::ExternalPrice(ExternalPrice { min_fraction: ratio(0, 1) });
    let mut by_price = orders.clone();
    sort_orders_at(&mut by_price, &ME, &[price], 0);
    // 1/2 and 2/4 are equal: their input order holds
    assert_eq!(uids(&by_price), vec![2, 4, 1, 3]);
    let surplus = Strategy::ExternalSurplus(ExternalSurplus { min_fraction: ratio(0, 1) });
    sort_orders_at(&mut orders, &ME, &[surplus], 0);
    assert_eq!(uids(&orders), vec![1, 4, 2, 3]);
}

#[test]
fn later_strategies_break_ties() {
    let mut orders = vec![order(1, 100), order(2, 200), order(3, 100), order(4, 200)];
    orders[0].quote_solver = Some(ME);
    orders[3].quote_solver = Some(ME);
    let own = Strategy::OwnQuotes(OwnQuotes { min_fraction: ratio(0, 1), max_order_age: None });
    sort_orders_at(&mut orders, &ME, &[own, by_creation(ratio(0, 1), None)], 0);
    assert_eq!(uids(&orders), vec![4, 1, 2, 3]);
}

#[test]
fn selection_never_repeats_an_identifier() {
    let mut orders = vec![order(1, 100), order(2, 200), order(1, 300), order(3, 400)];
    orders[0].likelihood = ratio(9, 1);
    let strategies = [
        by_creation(ratio(1, 2), None),
        Strategy::ExternalPrice(ExternalPrice { min_fraction: ratio(1, 2) }),
    ];
    sort_and_filter_orders_at(&mut orders, &ME, &strategies, 4, 0);
    let ids = uids(&orders);
    assert_eq!(ids, vec![3, 1, 2]);
}

#[test]
fn fill_stops_at_the_bound() {
    let mut orders = four_orders();
    sort_and_filter_orders_at(&mut orders, &ME, &[by_creation(ratio(1, 4), None)], 3, 0);
    assert_eq!(uids(&orders), vec![4, 3, 2]);
}

#[test]
fn quotas_above_one_may_exceed_the_bound() {
    let mut orders = four_orders();
    for (o, v) in orders.iter_mut().zip([4i64, 3, 2, 1]) {
        o.likelihood = ratio(v, 1);
    }
    let strategies = [
        by_creation(ratio(1, 1), None),
        Strategy::ExternalPrice(ExternalPrice { min_fraction: ratio(1, 1) }),
    ];
    sort_and_filter_orders_at(&mut orders, &ME, &strategies, 2, 0);
    assert_eq!(uids(&orders), vec![4, 3, 1, 2]);
}

#[test]
fn zero_quotas_truncate_the_ranking() {
    let strategies = [by_creation(ratio(0, 1), None)];
    let mut ranked = four_orders();
    sort_orders_at(&mut ranked, &ME, &strategies, 0);
    let mut selected = four_orders();
    sort_and_filter_orders_at(&mut selected, &ME, &strategies, 2, 0);
    assert_eq!(uids(&selected), uids(&ranked[..2]));
    assert_eq!(uids(&selected), vec![4, 3]);
}

#[test]
fn zero_capacity_selects_nothing() {
    let mut orders = four_orders();
    sort_and_filter_orders_at(&mut orders, &ME, &[by_creation(ratio(1, 2), None)], 0, 0);
    assert!(orders.is_empty());
}

#[test]
fn tiny_quota_still_claims_one_order() {
    let mut orders = four_orders();
    for (o, v) in orders.iter_mut().zip([4i64, 3, 2, 1]) {
        o.likelihood = ratio(v, 1);
    }
    let strategies = [
        Strategy::ExternalPrice(ExternalPrice { min_fraction: ratio(1, 1000) }),
        by_creation(ratio(0, 1), None),
    ];
    // ceil(10 / 1000) = 1: order 1 leads, then the combined ranking
    sort_and_filter_orders_at(&mut orders, &ME, &strategies, 10, 0);
    assert_eq!(uids(&orders), vec![1, 2, 3, 4]);
}

#[test]
fn ratio_comparison_is_by_value() {
    assert_eq!(ratio(1, 2).compare(&ratio(2, 4)), 0);
    assert_eq!(ratio(1, 3).compare(&ratio(1, 2)), -1);
    assert_eq!(ratio(-1, 2).compare(&ratio(-1, 3)), -1);
    assert_eq!(ratio(i64::MAX, 1).compare(&ratio(i64::MIN, u64::MAX)), 1);
}

#[test]
fn key_comparison_rules() {
    let none = SortingKey::Timestamp(None);
    let early = SortingKey::Timestamp(Some(1));
    let late = SortingKey::Timestamp(Some(2));
    assert_eq!(none.compare(&early), -1);
    assert_eq!(late.compare(&early), 1);
    assert_eq!(none.compare(&none), 0);
    assert_eq!(SortingKey::Bool(true).compare(&SortingKey::Bool(false)), 1);
    assert_eq!(SortingKey::Bool(false).compare(&SortingKey::Bool(false)), 0);
    assert_eq!(
        order_sorting::key::compare_keys(&vec![early, late], &vec![early, none]),
        1
    );
    assert_eq!(order_sorting::key::compare_keys(&vec![early], &vec![early, none]), -1);
}

#[test]
fn addresses_compare_by_bytes() {
    assert!(ME.same(&Address([7u8; 20])));
    let mut b = [7u8; 20];
    b[19] = 8;
    assert!(!ME.same(&Address(b)));
}

#[test]
fn min_fraction_is_the_configured_quota() {
    let s = by_creation(ratio(3, 10), None);
    let q = s.min_fraction();
    assert_eq!((q.numer, q.denom), (3, 10));
}

#[test]
fn error_holds_its_message() {
    assert_eq!(Error::new("bad auction".to_string()).0, "bad auction");
}
