use vstd::prelude::*;

use crate::book::{
    count_where, fill_back, fill_fwd, ids, lower_index, probe, sorted, upper_index, with_quantity,
    OrderBook,
};
use crate::engine::{compatible, match_against, Engine};
use crate::order::{order_lt, Order, TypeOrder, EPS};

verus! {

/// Sum of the quantities of `s`.
pub open spec fn total(s: Seq<Order>) -> int
    decreases s.len(),
{
    if s.len() == 0 {
        0
    } else {
        s[0].quantity + total(s.skip(1))
    }
}

proof fn lemma_total_concat(a: Seq<Order>, b: Seq<Order>)
    ensures
        total(a + b) == total(a) + total(b),
    decreases a.len(),
{
    if a.len() == 0 {
        assert(a + b =~= b);
    } else {
        assert((a + b).skip(1) =~= a.skip(1) + b);
        lemma_total_concat(a.skip(1), b);
    }
}

proof fn lemma_total_last(s: Seq<Order>)
    requires
        s.len() > 0,
    ensures
        total(s) == total(s.drop_last()) + s.last().quantity,
{
    let one = seq![s.last()];
    assert(one.skip(1) =~= Seq::<Order>::empty());
    assert(total(one.skip(1)) == 0);
    assert(total(one) == s.last().quantity);
    assert(s =~= s.drop_last() + one);
    lemma_total_concat(s.drop_last(), one);
}

/// Where a property holds of an order whenever it holds of a later one,
/// the orders that have it form a prefix, as long as their count.
proof fn lemma_count_where_prefix(s: Seq<Order>, f: spec_fn(Order) -> bool)
    requires
        forall|i: int, j: int| 0 <= i < j < s.len() && f(#[trigger] s[j]) ==> f(#[trigger] s[i]),
    ensures
        count_where(s, f) <= s.len(),
        forall|i: int| 0 <= i < count_where(s, f) ==> f(#[trigger] s[i]),
        forall|i: int| count_where(s, f) <= i < s.len() ==> !f(#[trigger] s[i]),
    decreases s.len(),
{
    if s.len() > 0 {
        let t = s.drop_last();
        assert forall|i: int, j: int| 0 <= i < j < t.len() && f(#[trigger] t[j]) implies f(
            #[trigger] t[i],
        ) by {
            assert(t[i] == s[i] && t[j] == s[j]);
        }
        lemma_count_where_prefix(t, f);
        assert forall|i: int| 0 <= i < t.len() implies t[i] == s[i] by {}
        if f(s.last()) {
            assert forall|i: int| 0 <= i < t.len() implies f(#[trigger] t[i]) by {
                assert(f(s[s.len() - 1]));
                assert(t[i] == s[i]);
            }
        }
    }
}

/// The split points of a sorted book at a probe separate the orders priced
/// at or below the probe's price from those priced at or above it.
proof fn lemma_price_splits(s: Seq<Order>, side: TypeOrder, p: i64)
    requires
        sorted(s),
        forall|i: int| 0 <= i < s.len() ==> (#[trigger] s[i]).type_order == side,
    ensures
        0 <= lower_index(s, side, p) <= s.len(),
        forall|i: int| 0 <= i < lower_index(s, side, p) ==> (#[trigger] s[i]).price <= p,
        forall|i: int| lower_index(s, side, p) <= i < s.len() ==> (#[trigger] s[i]).price >= p,
        0 <= upper_index(s, side, p) <= s.len(),
        forall|i: int| 0 <= i < upper_index(s, side, p) ==> (#[trigger] s[i]).price <= p,
        forall|i: int| upper_index(s, side, p) <= i < s.len() ==> (#[trigger] s[i]).price >= p,
{
    let pr = probe(side, p);
    lemma_count_where_prefix(s, |x: Order| order_lt(x, pr));
    lemma_count_where_prefix(s, |x: Order| !order_lt(pr, x));
}

proof fn lemma_fill_fwd_price(s: Seq<Order>, need: nat)
    ensures
        match fill_fwd(s, need).2 {
            Some(x) => exists|k: int| 0 <= k < s.len() && (#[trigger] s[k]).price == x,
            None => true,
        },
    decreases s.len(),
{
    if need > EPS && s.len() > 0 && s[0].quantity < need {
        let t = fill_fwd(s.skip(1), (need - s[0].quantity) as nat);
        lemma_fill_fwd_price(s.skip(1), (need - s[0].quantity) as nat);
        if let Some(x) = t.2 {
            let k = choose|k: int| 0 <= k < s.len() - 1 && (#[trigger] s.skip(1)[k]).price == x;
            assert(s[k + 1].price == x);
        }
    }
}

proof fn lemma_fill_back_price(s: Seq<Order>, need: nat)
    ensures
        match fill_back(s, need).2 {
            Some(x) => exists|k: int| 0 <= k < s.len() && (#[trigger] s[k]).price == x,
            None => true,
        },
    decreases s.len(),
{
    if need > EPS && s.len() > 0 && s.last().quantity < need {
        let t = fill_back(s.drop_last(), (need - s.last().quantity) as nat);
        lemma_fill_back_price(s.drop_last(), (need - s.last().quantity) as nat);
        if let Some(x) = t.2 {
            let k = choose|k: int| 0 <= k < s.len() - 1 && (#[trigger] s.drop_last()[k]).price == x;
            assert(s[k].price == x);
        }
    }
}

proof fn lemma_fill_fwd_conserves(s: Seq<Order>, need: nat)
    ensures
        ({
            let t = fill_fwd(s, need);
            &&& t.1 <= need
            &&& 0 <= total(s) - total(t.0) - (need - t.1) <= EPS
            &&& t.1 > 0 ==> total(s) - total(t.0) == need - t.1
            &&& t.2 is None ==> t.0 == s && t.1 == need
        }),
    decreases s.len(),
{
    if need > EPS && s.len() > 0 {
        if s[0].quantity >= need {
            let left = (s[0].quantity - need) as u64;
            if left > EPS {
                let u = s.update(0, with_quantity(s[0], left));
                assert(u.skip(1) =~= s.skip(1));
            }
        } else {
            lemma_fill_fwd_conserves(s.skip(1), (need - s[0].quantity) as nat);
        }
    }
}

proof fn lemma_fill_back_conserves(s: Seq<Order>, need: nat)
    ensures
        ({
            let t = fill_back(s, need);
            &&& t.1 <= need
            &&& 0 <= total(s) - total(t.0) - (need - t.1) <= EPS
            &&& t.1 > 0 ==> total(s) - total(t.0) == need - t.1
            &&& t.2 is None ==> t.0 == s && t.1 == need
        }),
    decreases s.len(),
{
    if need > EPS && s.len() > 0 {
        lemma_total_last(s);
        if s.last().quantity >= need {
            let left = (s.last().quantity - need) as u64;
            if left > EPS {
                let u = s.update(s.len() - 1, with_quantity(s.last(), left));
                assert(u.drop_last() =~= s.drop_last());
                lemma_total_last(u);
            }
        } else {
            lemma_fill_back_conserves(s.drop_last(), (need - s.last().quantity) as nat);
        }
    }
}

/// Price priority: an incoming order trades only with resting orders at a
/// compatible price. Every resting order at an incompatible price is still
/// there, unchanged, after the match, and the last trade price, if any, is
/// compatible with the incoming limit.
pub proof fn lemma_trades_only_compatible(s: Seq<Order>, o: Order)
    requires
        sorted(s),
        forall|i: int| 0 <= i < s.len() ==> (#[trigger] s[i]).type_order != o.type_order,
    ensures
        forall|k: int|
            0 <= k < s.len() && !compatible(#[trigger] s[k], o) ==> match_against(
                s,
                o,
            ).0.contains(s[k]),
        match match_against(s, o).2 {
            Some(x) => match o.type_order {
                TypeOrder::Sell => x >= o.price,
                TypeOrder::Buy => x <= o.price,
            },
            None => true,
        },
{
    let side = match o.type_order {
        TypeOrder::Sell => TypeOrder::Buy,
        TypeOrder::Buy => TypeOrder::Sell,
    };
    lemma_price_splits(s, side, o.price);
    let m = match_against(s, o);
    match o.type_order {
        TypeOrder::Sell => {
            let lo = lower_index(s, side, o.price);
            let scanned = s.subrange(lo, s.len() as int);
            lemma_fill_fwd_price(scanned, o.quantity as nat);
            assert forall|k: int| 0 <= k < s.len() && !compatible(#[trigger] s[k], o) implies m.0.contains(
                s[k],
            ) by {
                assert(m.0[k] == s[k]);
            }
            if let Some(x) = m.2 {
                let k = choose|k: int| 0 <= k < scanned.len() && (#[trigger] scanned[k]).price == x;
                assert(s[lo + k].price == x);
            }
        },
        TypeOrder::Buy => {
            let hi = upper_index(s, side, o.price);
            let scanned = s.subrange(0, hi);
            let t = fill_back(scanned, o.quantity as nat);
            lemma_fill_back_price(scanned, o.quantity as nat);
            assert forall|k: int| 0 <= k < s.len() && !compatible(#[trigger] s[k], o) implies m.0.contains(
                s[k],
            ) by {
                assert(m.0[t.0.len() + (k - hi)] == s[k]);
            }
            if let Some(x) = m.2 {
                let k = choose|k: int| 0 <= k < scanned.len() && (#[trigger] scanned[k]).price == x;
                assert(s[k].price == x);
            }
        },
    }
}

/// Quantity conservation: what the incoming order gives up is what the
/// resting side loses, but for at most the fill tolerance of dust dropped
/// with a partly filled resting order. Where part of the incoming order is
/// left, no dust was dropped and the two are equal. Where nothing trades,
/// the resting side and the incoming quantity are unchanged.
pub proof fn lemma_quantity_conservation(s: Seq<Order>, o: Order)
    requires
        sorted(s),
        forall|i: int| 0 <= i < s.len() ==> (#[trigger] s[i]).type_order != o.type_order,
    ensures
        ({
            let m = match_against(s, o);
            let traded = o.quantity - m.1;
            &&& m.1 <= o.quantity
            &&& traded <= total(s) - total(m.0) <= traded + EPS
            &&& m.1 > 0 ==> total(s) - total(m.0) == traded
            &&& m.2 is None ==> m.0 == s && m.1 == o.quantity
        }),
{
    let side = match o.type_order {
        TypeOrder::Sell => TypeOrder::Buy,
        TypeOrder::Buy => TypeOrder::Sell,
    };
    lemma_price_splits(s, side, o.price);
    let m = match_against(s, o);
    match o.type_order {
        TypeOrder::Sell => {
            let lo = lower_index(s, side, o.price);
            let pre = s.subrange(0, lo);
            let suf = s.subrange(lo, s.len() as int);
            let t = fill_fwd(suf, o.quantity as nat);
            lemma_fill_fwd_conserves(suf, o.quantity as nat);
            assert(s =~= pre + suf);
            lemma_total_concat(pre, suf);
            lemma_total_concat(pre, t.0);
        },
        TypeOrder::Buy => {
            let hi = upper_index(s, side, o.price);
            let pre = s.subrange(0, hi);
            let suf = s.subrange(hi, s.len() as int);
            let t = fill_back(pre, o.quantity as nat);
            lemma_fill_back_conserves(pre, o.quantity as nat);
            assert(s =~= pre + suf);
            lemma_total_concat(pre, suf);
            lemma_total_concat(t.0, suf);
        },
    }
}

/// `s` without its first `k` orders, the next one's quantity set to `q`
/// unless `q` is 0.
pub open spec fn trimmed_front(s: Seq<Order>, k: int, q: u64) -> Seq<Order> {
    if q == 0 {
        s.subrange(k, s.len() as int)
    } else {
        s.subrange(k, s.len() as int).update(0, with_quantity(s[k], q))
    }
}

/// `s` without its last `k` orders, the one before them with its quantity
/// set to `q` unless `q` is 0.
pub open spec fn trimmed_back(s: Seq<Order>, k: int, q: u64) -> Seq<Order> {
    if q == 0 {
        s.subrange(0, s.len() - k)
    } else {
        s.subrange(0, s.len() - k).update(s.len() - k - 1, with_quantity(s[s.len() - k - 1], q))
    }
}

proof fn lemma_fill_fwd_shape(s: Seq<Order>, need: nat)
    ensures
        exists|k: int, q: u64|
            0 <= k <= s.len() && (q == 0 || (k < s.len() && EPS < q < s[k].quantity))
                && #[trigger] trimmed_front(s, k, q) == fill_fwd(s, need).0 && (q != 0 ==> total(
                s.subrange(0, k),
            ) + (s[k].quantity - q) == need && fill_fwd(s, need).1 == 0),
    decreases s.len(),
{
    let t = fill_fwd(s, need);
    if need <= EPS || s.len() == 0 {
        assert(trimmed_front(s, 0, 0) =~= t.0);
    } else if s[0].quantity >= need {
        let left = (s[0].quantity - need) as u64;
        if left > EPS {
            assert(trimmed_front(s, 0, left) =~= t.0);
            assert(s.subrange(0, 0) =~= Seq::<Order>::empty());
        } else {
            assert(trimmed_front(s, 1, 0) =~= t.0);
        }
    } else {
        let n2 = (need - s[0].quantity) as nat;
        lemma_fill_fwd_shape(s.skip(1), n2);
        let d = s.skip(1);
        let (k, q) = choose|k: int, q: u64|
            0 <= k <= d.len() && (q == 0 || (k < d.len() && EPS < q < d[k].quantity))
                && #[trigger] trimmed_front(d, k, q) == fill_fwd(d, n2).0 && (q != 0 ==> total(
                d.subrange(0, k),
            ) + (d[k].quantity - q) == n2 && fill_fwd(d, n2).1 == 0);
        assert(trimmed_front(s, k + 1, q) =~= trimmed_front(d, k, q));
        assert(s.subrange(0, k + 1).skip(1) =~= d.subrange(0, k));
    }
}

proof fn lemma_fill_back_shape(s: Seq<Order>, need: nat)
    ensures
        exists|k: int, q: u64|
            0 <= k <= s.len() && (q == 0 || (k < s.len() && EPS < q < s[s.len() - k - 1].quantity))
                && #[trigger] trimmed_back(s, k, q) == fill_back(s, need).0 && (q != 0 ==> total(
                s.subrange(s.len() - k, s.len() as int),
            ) + (s[s.len() - k - 1].quantity - q) == need && fill_back(s, need).1 == 0),
    decreases s.len(),
{
    let t = fill_back(s, need);
    if need <= EPS || s.len() == 0 {
        assert(trimmed_back(s, 0, 0) =~= t.0);
    } else if s.last().quantity >= need {
        let left = (s.last().quantity - need) as u64;
        if left > EPS {
            assert(trimmed_back(s, 0, left) =~= t.0);
            assert(s.subrange(s.len() as int, s.len() as int) =~= Seq::<Order>::empty());
        } else {
            assert(trimmed_back(s, 1, 0) =~= t.0);
        }
    } else {
        let d = s.drop_last();
        let n2 = (need - s.last().quantity) as nat;
        lemma_fill_back_shape(d, n2);
        let (k, q) = choose|k: int, q: u64|
            0 <= k <= d.len() && (q == 0 || (k < d.len() && EPS < q < d[d.len() - k - 1].quantity))
                && #[trigger] trimmed_back(d, k, q) == fill_back(d, n2).0 && (q != 0 ==> total(
                d.subrange(d.len() - k, d.len() as int),
            ) + (d[d.len() - k - 1].quantity - q) == n2 && fill_back(d, n2).1 == 0);
        assert(trimmed_back(s, k + 1, q) =~= trimmed_back(d, k, q));
        let run = s.subrange(s.len() - k - 1, s.len() as int);
        assert(run.drop_last() =~= d.subrange(d.len() - k, d.len() as int));
        lemma_total_last(run);
    }
}

/// A match takes from the resting side a run of whole orders next to the
/// boundary where its scan starts, and reduces at most one more order, the
/// next in the scan, which keeps its price, arrival stamp, side and
/// identifier and stays above the fill tolerance. Where one is reduced, the
/// whole orders taken and the reduction add up exactly to the incoming
/// quantity, and nothing of the incoming order is left. Nothing else
/// changes.
pub proof fn lemma_match_touches_a_run(s: Seq<Order>, o: Order)
    ensures
        match o.type_order {
            TypeOrder::Sell => {
                let lo = lower_index(s, TypeOrder::Buy, o.price);
                let scanned = s.subrange(lo, s.len() as int);
                exists|k: int, q: u64|
                    0 <= k <= scanned.len() && (q == 0 || (k < scanned.len() && EPS < q
                        < scanned[k].quantity)) && match_against(s, o).0 == s.subrange(0, lo)
                        + #[trigger] trimmed_front(scanned, k, q) && (q != 0 ==> total(
                        scanned.subrange(0, k),
                    ) + (scanned[k].quantity - q) == o.quantity && match_against(s, o).1 == 0)
            },
            TypeOrder::Buy => {
                let hi = upper_index(s, TypeOrder::Sell, o.price);
                let scanned = s.subrange(0, hi);
                exists|k: int, q: u64|
                    0 <= k <= scanned.len() && (q == 0 || (k < scanned.len() && EPS < q
                        < scanned[scanned.len() - k - 1].quantity)) && match_against(s, o).0
                        == #[trigger] trimmed_back(scanned, k, q) + s.subrange(hi, s.len() as int)
                        && (q != 0 ==> total(
                        scanned.subrange(scanned.len() - k, scanned.len() as int),
                    ) + (scanned[scanned.len() - k - 1].quantity - q) == o.quantity && match_against(
                        s,
                        o,
                    ).1 == 0)
            },
        },
{
    match o.type_order {
        TypeOrder::Sell => {
            let lo = lower_index(s, TypeOrder::Buy, o.price);
            lemma_fill_fwd_shape(s.subrange(lo, s.len() as int), o.quantity as nat);
        },
        TypeOrder::Buy => {
            let hi = upper_index(s, TypeOrder::Sell, o.price);
            lemma_fill_back_shape(s.subrange(0, hi), o.quantity as nat);
        },
    }
}

/// No order rests in a book with a quantity at or below the fill tolerance.
pub proof fn lemma_no_dust(b: OrderBook)
    requires
        b.wf(),
    ensures
        forall|i: int| 0 <= i < b.tree@.len() ==> (#[trigger] b.tree@[i]).quantity > EPS,
{
}

/// Cancelling an identifier that a book does not hold changes nothing.
pub proof fn lemma_cancel_absent(b0: OrderBook, b1: OrderBook, hash: i64)
    requires
        b0.wf(),
        !b0.references@.contains_key(hash),
        OrderBook::cancelled(b0, b1, hash),
    ensures
        b1.tree@ == b0.tree@,
        b1.references@ == b0.references@,
{
    assert(b1.references@ =~= b0.references@);
}

/// Cancelling the same identifier twice leaves the book as the first
/// cancellation left it.
pub proof fn lemma_cancel_idempotent(b0: OrderBook, b1: OrderBook, b2: OrderBook, hash: i64)
    requires
        b0.wf(),
        OrderBook::cancelled(b0, b1, hash),
        OrderBook::cancelled(b1, b2, hash),
    ensures
        b2.tree@ == b1.tree@,
        b2.references@ == b1.references@,
{
    lemma_cancel_absent(b1, b2, hash);
}

/// The identifiers in a book's index are exactly those of its sorted
/// orders. Every operation keeps the book well formed, so this holds after
/// any sequence of them.
pub proof fn lemma_index_matches_orders(b: OrderBook)
    requires
        b.wf(),
    ensures
        b.references@.dom() == ids(b.tree@),
{
    assert(b.references@.dom() =~= ids(b.tree@));
}

/// Every operation keeps an engine well formed, so after any sequence of
/// them each book's index holds exactly its orders' identifiers and no
/// identifier is in both books.
pub proof fn lemma_engine_ids_consistent(e: Engine)
    requires
        e.wf(),
    ensures
        e.buy_book.references@.dom() == ids(e.buy_book.tree@),
        e.sell_book.references@.dom() == ids(e.sell_book.tree@),
        e.buy_book.references@.dom().disjoint(e.sell_book.references@.dom()),
{
    lemma_index_matches_orders(e.buy_book);
    lemma_index_matches_orders(e.sell_book);
}

} // verus!
