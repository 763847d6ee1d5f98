use vstd::prelude::*;

use crate::book::{
    fill_back, fill_fwd, lemma_fill_back_exhausts, lemma_fill_fwd_exhausts, lower_index, rank,
    upper_index, with_quantity, Asset, OrderBook,
};
use crate::order::{Order, TypeOrder, EPS};

verus! {

/// Whether the resting order `r` may trade with the incoming `o`: a sell
/// trades with bids at or above its limit, a buy with asks at or below it.
pub open spec fn compatible(r: Order, o: Order) -> bool {
    match o.type_order {
        TypeOrder::Sell => r.price >= o.price,
        TypeOrder::Buy => r.price <= o.price,
    }
}

/// What matching the incoming `o` against the opposite side's sorted
/// orders `s` gives: the orders left on that side, the quantity of `o`
/// still unfilled, and the price of the last trade, if any.
///
/// A sell scans upward from the first bid that does not sort before the
/// bid-side probe at its limit; a buy scans downward from the last ask that
/// does not sort after the ask-side probe at its limit.
pub open spec fn match_against(s: Seq<Order>, o: Order) -> (Seq<Order>, nat, Option<i64>) {
    match o.type_order {
        TypeOrder::Sell => {
            let lo = lower_index(s, TypeOrder::Buy, o.price);
            let t = fill_fwd(s.subrange(lo, s.len() as int), o.quantity as nat);
            (s.subrange(0, lo) + t.0, t.1, t.2)
        },
        TypeOrder::Buy => {
            let hi = upper_index(s, TypeOrder::Sell, o.price);
            let t = fill_back(s.subrange(0, hi), o.quantity as nat);
            (t.0 + s.subrange(hi, s.len() as int), t.1, t.2)
        },
    }
}

/// The matching core for one asset: a bid book, an ask book, the last
/// traded price (0 before any trade), and a monotonic clock that stamps the
/// orders made through `new_order`. The clock starts at 1, so that every
/// stamp it gives sorts after the boundary probes' stamp 0.
pub struct Engine {
    pub asset: Asset,
    pub buy_book: OrderBook,
    pub sell_book: OrderBook,
    pub current_price: i64,
    pub clock: u64,
}

impl Engine {
    /// Both books are well formed and of their own side, no identifier is
    /// in both, and the clock has left the probes' stamp 0 behind.
    pub open spec fn wf(&self) -> bool {
        &&& self.buy_book.wf()
        &&& self.sell_book.wf()
        &&& self.buy_book.book_type == TypeOrder::Buy
        &&& self.sell_book.book_type == TypeOrder::Sell
        &&& self.clock >= 1
        &&& forall|h: i64| #[trigger]
            self.buy_book.references@.contains_key(h) ==> !self.sell_book.references@.contains_key(
                h,
            )
    }

    /// The book that holds orders of `side`.
    pub open spec fn book(&self, side: TypeOrder) -> OrderBook {
        match side {
            TypeOrder::Buy => self.buy_book,
            TypeOrder::Sell => self.sell_book,
        }
    }

    /// The book that orders of `side` trade against.
    pub open spec fn opposite(&self, side: TypeOrder) -> OrderBook {
        match side {
            TypeOrder::Buy => self.sell_book,
            TypeOrder::Sell => self.buy_book,
        }
    }

    /// An engine for `asset` with two empty books and no trade yet.
    pub fn new(asset: Asset) -> (r: Engine)
        ensures
            r.wf(),
            r.asset == asset,
            r.buy_book.tree@ == Seq::<Order>::empty(),
            r.sell_book.tree@ == Seq::<Order>::empty(),
            r.current_price == 0,
            r.clock == 1,
    {
        let buy_book = OrderBook::new(TypeOrder::Buy, asset.clone());
        let sell_book = OrderBook::new(TypeOrder::Sell, asset.clone());
        Engine { asset, buy_book, sell_book, current_price: 0, clock: 1 }
    }

    /// A new order stamped with the engine's clock, which then advances
    /// (it stays at its largest value once there).
    pub fn new_order(&mut self, type_order: TypeOrder, price: i64, quantity: u64, hash: i64) -> (r:
        Order)
        requires
            old(self).wf(),
        ensures
            final(self).wf(),
            r.time >= 1,
            r.type_order == type_order,
            r.price == price,
            r.quantity == quantity,
            r.hash == hash,
            r.time == old(self).clock,
            final(self).clock == if old(self).clock < u64::MAX {
                (old(self).clock + 1) as u64
            } else {
                old(self).clock
            },
            final(self).asset == old(self).asset,
            final(self).buy_book == old(self).buy_book,
            final(self).sell_book == old(self).sell_book,
            final(self).current_price == old(self).current_price,
    {
        let r = Order::new(type_order, price, quantity, hash, self.clock);
        if self.clock < u64::MAX {
            self.clock = self.clock + 1;
        }
        r
    }

    /// Submits `order`: matches it against the opposite book, and rests
    /// what is left of it, if more than the fill tolerance, in its own book,
    /// with its own stamp.
    pub fn add_order(&mut self, order: Order)
        requires
            old(self).wf(),
            !old(self).buy_book.references@.contains_key(order.hash),
            !old(self).sell_book.references@.contains_key(order.hash),
            order.time > 0,
        ensures
            final(self).wf(),
            final(self).asset == old(self).asset,
            final(self).buy_book.asset == old(self).buy_book.asset,
            final(self).sell_book.asset == old(self).sell_book.asset,
            final(self).clock == old(self).clock,
            ({
                let side = order.type_order;
                let m = match_against(old(self).opposite(side).tree@, order);
                let own = old(self).book(side);
                let rest = with_quantity(order, m.1 as u64);
                &&& final(self).opposite(side).tree@ == m.0
                &&& m.1 > EPS ==> final(self).book(side).tree@ == own.tree@.insert(
                    rank(own.tree@, rest),
                    rest,
                ) && final(self).book(side).references@ == own.references@.insert(order.hash, rest)
                &&& m.1 > EPS ==> forall|i: int|
                    0 <= i < final(self).opposite(side).tree@.len() ==> !compatible(
                        #[trigger] final(self).opposite(side).tree@[i],
                        order,
                    )
                &&& m.1 <= EPS ==> final(self).book(side).tree@ == own.tree@
                    && final(self).book(side).references@ == own.references@
                &&& final(self).current_price == match m.2 {
                    Some(p) => p,
                    None => old(self).current_price,
                }
            }),
    {
        let (need, last) = match order.type_order {
            TypeOrder::Sell => {
                let lo = self.buy_book.lower_bound(order.price);
                proof {
                    let s = self.buy_book.tree@;
                    lemma_fill_fwd_exhausts(s.subrange(lo as int, s.len() as int), order.quantity as nat);
                }
                self.buy_book.fill_ascending(lo, order.quantity)
            },
            TypeOrder::Buy => {
                let hi = self.sell_book.upper_bound(order.price);
                proof {
                    lemma_fill_back_exhausts(self.sell_book.tree@.subrange(0, hi as int), order.quantity as nat);
                }
                self.sell_book.fill_descending(hi, order.quantity)
            },
        };
        match last {
            Some(p) => {
                self.current_price = p;
            },
            None => {},
        }
        if need > EPS {
            let rest = Order { quantity: need, ..order };
            match order.type_order {
                TypeOrder::Sell => self.sell_book.add_order(rest),
                TypeOrder::Buy => self.buy_book.add_order(rest),
            }
        }
    }

    /// Cancels the order `hash` in the book of `order_type`; the other book
    /// is left as it is.
    pub fn erase_order(&mut self, hash: i64, order_type: TypeOrder)
        requires
            old(self).wf(),
        ensures
            final(self).wf(),
            final(self).asset == old(self).asset,
            final(self).current_price == old(self).current_price,
            final(self).clock == old(self).clock,
            final(self).opposite(order_type) == old(self).opposite(order_type),
            OrderBook::cancelled(old(self).book(order_type), final(self).book(order_type), hash),
    {
        match order_type {
            TypeOrder::Sell => self.sell_book.erase_order(hash),
            TypeOrder::Buy => self.buy_book.erase_order(hash),
        }
    }

    /// The last traded price; 0 before any trade.
    pub fn current_price(&self) -> (r: i64)
        ensures
            r == self.current_price,
    {
        self.current_price
    }
}

} // verus!
