use std::cmp::Ordering;

use vstd::prelude::*;

verus! {

/// Fill tolerance, in quantity units: a resting order whose remaining
/// quantity is at or below it counts as filled and leaves its book.
pub const EPS: u64 = 10;

/// Side of the market an order belongs to.
#[derive(Clone, Copy, Debug, PartialEq, Eq, Structural)]
pub enum TypeOrder {
    Sell,
    Buy,
}

/// Which extreme arrival time a boundary probe carries.
#[derive(Clone, Copy, Debug, PartialEq, Eq, Structural)]
pub enum SearchTime {
    Lower,
    Upper,
}

/// A limit order.
///
/// Prices are integer ticks and quantities integer units (one unit is a
/// thousandth of the traded amount). `time` is the arrival stamp and
/// `hash` the caller's identifier, which alone decides equality.
#[derive(Clone, Copy, Debug)]
pub struct Order {
    pub type_order: TypeOrder,
    pub price: i64,
    pub quantity: u64,
    pub time: u64,
    pub hash: i64,
}

/// Arrival tie-break: among sells at one price an earlier arrival sorts
/// after a later one; among buys it sorts before.
pub open spec fn time_lt(a: Order, b: Order) -> bool {
    match a.type_order {
        TypeOrder::Sell => b.time < a.time,
        TypeOrder::Buy => a.time < b.time,
    }
}

/// The strict order that sorts a book: price ascending, then arrival
/// (side-dependent), then identifier.
pub open spec fn order_lt(a: Order, b: Order) -> bool {
    ||| a.price < b.price
    ||| a.price == b.price && time_lt(a, b)
    ||| a.price == b.price && a.time == b.time && a.hash < b.hash
}

/// `order_lt` is a strict total order on orders of one side.
pub proof fn lemma_order_lt_strict_total(a: Order, b: Order, c: Order)
    requires
        a.type_order == b.type_order,
        b.type_order == c.type_order,
    ensures
        !order_lt(a, a),
        order_lt(a, b) ==> !order_lt(b, a),
        order_lt(a, b) && order_lt(b, c) ==> order_lt(a, c),
        order_lt(a, b) || order_lt(b, a) || (a.price == b.price && a.time == b.time && a.hash
            == b.hash),
{
}

/// No order sorts before itself.
pub proof fn lemma_order_lt_irreflexive(a: Order)
    ensures
        !order_lt(a, a),
{
}

impl Order {
    /// A new order created at `time`, a reading of a monotonic clock; the
    /// stamp is never changed afterwards.
    pub fn new(type_order: TypeOrder, price: i64, quantity: u64, hash: i64, time: u64) -> (r: Order)
        ensures
            r.type_order == type_order,
            r.price == price,
            r.quantity == quantity,
            r.time == time,
            r.hash == hash,
    {
        Order { type_order, price, quantity, time, hash }
    }

    /// Whether `self` sorts strictly before `other` in a book.
    pub fn precedes(&self, other: &Order) -> (r: bool)
        ensures
            r == order_lt(*self, *other),
    {
        if self.price != other.price {
            return self.price < other.price;
        }
        if self.time != other.time {
            return match self.type_order {
                TypeOrder::Sell => other.time < self.time,
                TypeOrder::Buy => self.time < other.time,
            };
        }
        self.hash < other.hash
    }
}

impl PartialEq for Order {
    fn eq(&self, other: &Order) -> (r: bool) {
        self.hash == other.hash
    }
}

impl vstd::std_specs::cmp::PartialEqSpecImpl for Order {
    open spec fn obeys_eq_spec() -> bool {
        true
    }

    open spec fn eq_spec(&self, other: &Order) -> bool {
        self.hash == other.hash
    }
}

impl Eq for Order {
}

/// The comparator: equal for one identifier, otherwise the book order.
pub open spec fn order_cmp(a: Order, b: Order) -> Ordering {
    if a.hash == b.hash {
        Ordering::Equal
    } else if order_lt(a, b) {
        Ordering::Less
    } else {
        Ordering::Greater
    }
}

impl PartialOrd for Order {
    fn partial_cmp(&self, other: &Order) -> (r: Option<Ordering>) {
        if self.hash == other.hash {
            Some(Ordering::Equal)
        } else if self.precedes(other) {
            Some(Ordering::Less)
        } else {
            Some(Ordering::Greater)
        }
    }
}

impl vstd::std_specs::cmp::PartialOrdSpecImpl for Order {
    open spec fn obeys_partial_cmp_spec() -> bool {
        true
    }

    open spec fn partial_cmp_spec(&self, other: &Order) -> Option<Ordering> {
        Some(order_cmp(*self, *other))
    }
}

} // verus!
