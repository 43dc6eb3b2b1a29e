//! The four ranking strategies and the key each gives an order.
use crate::key::{Ratio, SortingKey};
use crate::order::{Address, Order};
use vstd::prelude::*;

verus! {

/// The earliest creation time (unix seconds) that a window of `max_age`
/// seconds before `now` admits. A cutoff outside the `u32` range saturates to
/// `u32::MAX`.
pub open spec fn earliest_allowed_creation(now: i64, max_age: i64) -> u32 {
    let t = now - max_age;
    if 0 <= t <= u32::MAX {
        t as u32
    } else {
        u32::MAX
    }
}

/// Whether the order falls outside the optional max-age window.
pub open spec fn is_outdated(created: u32, max_order_age: Option<i64>, now: i64) -> bool {
    match max_order_age {
        Some(age) => created < earliest_allowed_creation(now, age),
        None => false,
    }
}

fn exec_earliest_allowed_creation(now: i64, max_age: i64) -> (r: u32)
    ensures
        r == earliest_allowed_creation(now, max_age),
{
    let t: i128 = now as i128 - max_age as i128;
    if 0 <= t && t <= u32::MAX as i128 {
        t as u32
    } else {
        u32::MAX
    }
}

fn exec_is_outdated(created: u32, max_order_age: Option<i64>, now: i64) -> (r: bool)
    ensures
        r == is_outdated(created, max_order_age, now),
{
    match max_order_age {
        Some(age) => created < exec_earliest_allowed_creation(now, age),
        None => false,
    }
}

/// A ranking rule: a key for each order, and the minimum share of a bounded
/// result that its own top picks should occupy.
pub trait SortingStrategy {
    spec fn spec_key(&self, order: Order, solver: Address, now: i64) -> SortingKey;

    spec fn spec_min_fraction(&self) -> Ratio;

    /// The key of `order` when `solver` ranks at time `now` (unix seconds).
    fn key(&self, order: &Order, solver: &Address, now: i64) -> (r: SortingKey)
        ensures
            r == self.spec_key(*order, *solver, now),
    ;

    fn min_fraction(&self) -> (r: Ratio)
        ensures
            r == self.spec_min_fraction(),
    ;
}

/// Ranks by the likelihood of being fulfilled, most likely first.
#[derive(Clone, Copy, Debug)]
pub struct ExternalPrice {
    pub min_fraction: Ratio,
}

impl SortingStrategy for ExternalPrice {
    open spec fn spec_key(&self, order: Order, solver: Address, now: i64) -> SortingKey {
        SortingKey::Rational(order.likelihood)
    }

    open spec fn spec_min_fraction(&self) -> Ratio {
        self.min_fraction
    }

    fn key(&self, order: &Order, solver: &Address, now: i64) -> (r: SortingKey) {
        SortingKey::Rational(order.likelihood)
    }

    fn min_fraction(&self) -> (r: Ratio) {
        self.min_fraction
    }
}

/// Ranks by the likelihood of surplus, most likely first.
#[derive(Clone, Copy, Debug)]
pub struct ExternalSurplus {
    pub min_fraction: Ratio,
}

impl SortingStrategy for ExternalSurplus {
    open spec fn spec_key(&self, order: Order, solver: Address, now: i64) -> SortingKey {
        SortingKey::Rational(order.likelihood_surplus)
    }

    open spec fn spec_min_fraction(&self) -> Ratio {
        self.min_fraction
    }

    fn key(&self, order: &Order, solver: &Address, now: i64) -> (r: SortingKey) {
        SortingKey::Rational(order.likelihood_surplus)
    }

    fn min_fraction(&self) -> (r: Ratio) {
        self.min_fraction
    }
}

/// Ranks by creation time, most recent first. With a max age (in seconds),
/// orders created before the window are ineligible and rank last.
#[derive(Clone, Copy, Debug)]
pub struct CreationTimestamp {
    pub min_fraction: Ratio,
    pub max_order_age: Option<i64>,
}

impl SortingStrategy for CreationTimestamp {
    open spec fn spec_key(&self, order: Order, solver: Address, now: i64) -> SortingKey {
        SortingKey::Timestamp(
            if is_outdated(order.created, self.max_order_age, now) {
                None
            } else {
                Some(order.created)
            },
        )
    }

    open spec fn spec_min_fraction(&self) -> Ratio {
        self.min_fraction
    }

    fn key(&self, order: &Order, solver: &Address, now: i64) -> (r: SortingKey) {
        SortingKey::Timestamp(
            if exec_is_outdated(order.created, self.max_order_age, now) {
                None
            } else {
                Some(order.created)
            },
        )
    }

    fn min_fraction(&self) -> (r: Ratio) {
        self.min_fraction
    }
}

/// Ranks first the orders whose winning quote came from the ranking solver
/// and that are not outdated by the optional max age (in seconds).
#[derive(Clone, Copy, Debug)]
pub struct OwnQuotes {
    pub min_fraction: Ratio,
    pub max_order_age: Option<i64>,
}

impl SortingStrategy for OwnQuotes {
    open spec fn spec_key(&self, order: Order, solver: Address, now: i64) -> SortingKey {
        SortingKey::Bool(
            !is_outdated(order.created, self.max_order_age, now) && order.quoted_by(solver),
        )
    }

    open spec fn spec_min_fraction(&self) -> Ratio {
        self.min_fraction
    }

    fn key(&self, order: &Order, solver: &Address, now: i64) -> (r: SortingKey) {
        let outdated = exec_is_outdated(order.created, self.max_order_age, now);
        let own = match &order.quote_solver {
            Some(q) => q.same(solver),
            None => false,
        };
        SortingKey::Bool(!outdated && own)
    }

    fn min_fraction(&self) -> (r: Ratio) {
        self.min_fraction
    }
}

/// Any one of the strategies.
#[derive(Clone, Copy, Debug)]
pub enum Strategy {
    ExternalPrice(ExternalPrice),
    ExternalSurplus(ExternalSurplus),
    CreationTimestamp(CreationTimestamp),
    OwnQuotes(OwnQuotes),
}

impl SortingStrategy for Strategy {
    open spec fn spec_key(&self, order: Order, solver: Address, now: i64) -> SortingKey {
        match self {
            Strategy::ExternalPrice(s) => s.spec_key(order, solver, now),
            Strategy::ExternalSurplus(s) => s.spec_key(order, solver, now),
            Strategy::CreationTimestamp(s) => s.spec_key(order, solver, now),
            Strategy::OwnQuotes(s) => s.spec_key(order, solver, now),
        }
    }

    open spec fn spec_min_fraction(&self) -> Ratio {
        match self {
            Strategy::ExternalPrice(s) => s.min_fraction,
            Strategy::ExternalSurplus(s) => s.min_fraction,
            Strategy::CreationTimestamp(s) => s.min_fraction,
            Strategy::OwnQuotes(s) => s.min_fraction,
        }
    }

    fn key(&self, order: &Order, solver: &Address, now: i64) -> (r: SortingKey) {
        match self {
            Strategy::ExternalPrice(s) => s.key(order, solver, now),
            Strategy::ExternalSurplus(s) => s.key(order, solver, now),
            Strategy::CreationTimestamp(s) => s.key(order, solver, now),
            Strategy::OwnQuotes(s) => s.key(order, solver, now),
        }
    }

    fn min_fraction(&self) -> (r: Ratio) {
        match self {
            Strategy::ExternalPrice(s) => s.min_fraction,
            Strategy::ExternalSurplus(s) => s.min_fraction,
            Strategy::CreationTimestamp(s) => s.min_fraction,
            Strategy::OwnQuotes(s) => s.min_fraction,
        }
    }
}

} // verus!
