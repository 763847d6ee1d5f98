use std::cmp::Ordering;
use std::time::Instant;

use matching_engine::{Asset, Engine, Order, OrderBook, SearchTime, TypeOrder, EPS};
use rand::Rng;

/// Prices and quantities are counted in thousandths.
fn ticks(x: f64) -> i64 {
    (x * 1000.0).round() as i64
}

fn units(x: f64) -> u64 {
    (x * 1000.0).round() as u64
}

fn create_engine() -> Engine {
    Engine::new(Asset::new("USD"))
}

/// An order outside any engine, stamped with `id + 1`.
fn sell(price: f64, quantity: f64, id: i64) -> Order {
    Order::new(TypeOrder::Sell, ticks(price), units(quantity), id, id as u64 + 1)
}

fn buy(price: f64, quantity: f64, id: i64) -> Order {
    Order::new(TypeOrder::Buy, ticks(price), units(quantity), id, id as u64 + 1)
}

/// Creates an order stamped by the engine's clock and submits it.
fn submit(engine: &mut Engine, side: TypeOrder, price: f64, quantity: f64, id: i64) {
    let order = engine.new_order(side, ticks(price), units(quantity), id);
    engine.add_order(order);
}

fn total(book: &OrderBook) -> u64 {
    book.tree.iter().map(|o| o.quantity).sum()
}

fn ids_agree(book: &OrderBook) -> bool {
    let mut tree_ids: Vec<i64> = book.tree.iter().map(|o| o.hash).collect();
    tree_ids.sort();
    let index_ids: Vec<i64> = book.references.keys().copied().collect();
    tree_ids == index_ids
}

#[test]
fn small_test1() {
    let mut engine = create_engine();
    submit(&mut engine, TypeOrder::Sell, 1., 1., 1);
    submit(&mut engine, TypeOrder::Sell, 1., 1., 2);
    submit(&mut engine, TypeOrder::Buy, 2., 1.5, 3);

    assert_eq!(engine.sell_book.len(), 1);
    assert_eq!(engine.sell_book.tree[0].quantity, units(0.5));
    assert_eq!(engine.sell_book.len(), 1);
}

#[test]
fn small_test2() {
    let mut engine = create_engine();
    submit(&mut engine, TypeOrder::Sell, 1.2, 1., 1);
    submit(&mut engine, TypeOrder::Sell, 1.2, 1.1, 2);
    submit(&mut engine, TypeOrder::Buy, 1.3, 2.101, 3);
    assert_eq!(engine.sell_book.len(), 0);
    assert_eq!(engine.buy_book.len(), 0);
}

#[test]
fn small_test3() {
    let mut engine = create_engine();
    submit(&mut engine, TypeOrder::Sell, 1., 1., 1);
    assert_eq!(engine.sell_book.len(), 1);
    submit(&mut engine, TypeOrder::Buy, 1.2, 0.3, 2);
    assert_eq!(engine.buy_book.len(), 0);
}

#[test]
fn large_test() {
    let time_st = Instant::now();
    let mut engine = create_engine();
    let mut rng = rand::thread_rng();
    let n = 1_000_000;

    for i in 0..n {
        let sell_or_buy = rand::random::<bool>();
        let price = engine.current_price();
        let offset = ticks((rng.gen::<f64>() - 0.4) / 10.);
        let quantity = units(3. + rng.gen::<f64>());
        match sell_or_buy {
            true => {
                let order = engine.new_order(TypeOrder::Buy, price + offset, quantity, i);
                engine.add_order(order);
            }
            false => {
                let order = engine.new_order(TypeOrder::Sell, price + offset, quantity, i);
                engine.add_order(order);
            }
        }
    }

    let duration = Instant::now() - time_st;
    assert!(duration.as_secs() < 10);
}

#[test]
fn one_more_speed_test() {
    let n = 1_000_000;
    let time_st = Instant::now();
    let mut orderbook = OrderBook::new(TypeOrder::Buy, Asset::new("near"));
    for i in 0..n {
        orderbook.add_order(Order::new(TypeOrder::Buy, ticks(i as f64), units(1.), i, i as u64 + 1));
    }

    for j in (0..n / 1000).map(|x| x * 999 + 2) {
        let x = orderbook.tree[orderbook.lower_bound(ticks(j as f64))].hash;
        orderbook.erase_order(x);
    }

    let duration = Instant::now() - time_st;
    assert_eq!(orderbook.len(), 999000);
    assert!(duration.as_secs() < 10);
}

#[test]
fn something_strange_work() {
    let a = buy(1., 1., 1);
    let c = buy(0.2, 2., 3);
    let mut z = OrderBook::new(TypeOrder::Buy, Asset::new("USD"));
    z.add_order(a);
    z.add_order(c);
    let cursor = z.upper_bound(ticks(1.));
    println!("{:#?}", z.tree[..cursor].last());
}

#[test]
fn last_price_is_zero_before_any_trade() {
    let mut engine = create_engine();
    assert_eq!(engine.current_price(), 0);
    submit(&mut engine, TypeOrder::Sell, 1., 1., 1);
    submit(&mut engine, TypeOrder::Buy, 0.5, 1., 2);
    assert_eq!(engine.current_price(), 0);
    assert_eq!(engine.sell_book.len(), 1);
    assert_eq!(engine.buy_book.len(), 1);
}

#[test]
fn scenario_two_sells_one_buy_leaves_half() {
    let mut engine = create_engine();
    submit(&mut engine, TypeOrder::Sell, 1., 1., 1);
    submit(&mut engine, TypeOrder::Sell, 1., 1., 2);
    submit(&mut engine, TypeOrder::Buy, 2., 1.5, 3);
    assert_eq!(engine.sell_book.len(), 1);
    assert_eq!(engine.sell_book.tree[0].quantity, 500);
    assert_eq!(engine.sell_book.tree[0].hash, 2);
    assert_eq!(engine.current_price(), 1000);
    assert_eq!(engine.buy_book.len(), 0);
}

#[test]
fn scenario_leftover_below_tolerance_is_dropped() {
    let mut engine = create_engine();
    submit(&mut engine, TypeOrder::Sell, 1.2, 1., 1);
    submit(&mut engine, TypeOrder::Sell, 1.2, 1.1, 2);
    submit(&mut engine, TypeOrder::Buy, 1.3, 2.101, 3);
    assert_eq!(engine.sell_book.len(), 0);
    assert_eq!(engine.buy_book.len(), 0);
    assert_eq!(engine.current_price(), 1200);
}

#[test]
fn scenario_partial_fill_of_resting_sell() {
    let mut engine = create_engine();
    submit(&mut engine, TypeOrder::Sell, 1., 1., 1);
    assert_eq!(engine.sell_book.len(), 1);
    submit(&mut engine, TypeOrder::Buy, 1.2, 0.3, 2);
    assert_eq!(engine.buy_book.len(), 0);
    assert_eq!(engine.sell_book.len(), 1);
    assert_eq!(engine.sell_book.tree[0].quantity, 700);
    assert_eq!(engine.sell_book.references[&1].quantity, 700);
}

#[test]
fn buy_never_trades_above_its_limit() {
    let mut engine = create_engine();
    submit(&mut engine, TypeOrder::Sell, 1., 1., 1);
    submit(&mut engine, TypeOrder::Sell, 2., 1., 2);
    submit(&mut engine, TypeOrder::Buy, 1.5, 5., 3);
    assert_eq!(engine.sell_book.len(), 1);
    assert_eq!(engine.sell_book.tree[0].hash, 2);
    assert_eq!(engine.current_price(), 1000);
    assert_eq!(engine.buy_book.len(), 1);
    assert_eq!(engine.buy_book.tree[0].quantity, 4000);
}

#[test]
fn sell_never_trades_below_its_limit() {
    let mut engine = create_engine();
    submit(&mut engine, TypeOrder::Buy, 1., 1., 1);
    submit(&mut engine, TypeOrder::Buy, 2., 1., 2);
    submit(&mut engine, TypeOrder::Sell, 1.5, 5., 3);
    assert_eq!(engine.buy_book.len(), 1);
    assert_eq!(engine.buy_book.tree[0].hash, 1);
    assert_eq!(engine.current_price(), 2000);
    assert_eq!(engine.sell_book.len(), 1);
    assert_eq!(engine.sell_book.tree[0].quantity, 4000);
}

#[test]
fn buy_scans_from_its_limit_downward() {
    let mut engine = create_engine();
    submit(&mut engine, TypeOrder::Sell, 1., 1., 1);
    submit(&mut engine, TypeOrder::Sell, 2., 1., 2);
    submit(&mut engine, TypeOrder::Buy, 3., 1., 3);
    assert_eq!(engine.current_price(), 2000);
    assert_eq!(engine.sell_book.len(), 1);
    assert_eq!(engine.sell_book.tree[0].hash, 1);
}

#[test]
fn sell_scans_from_its_limit_upward() {
    let mut engine = create_engine();
    submit(&mut engine, TypeOrder::Buy, 1., 1., 1);
    submit(&mut engine, TypeOrder::Buy, 2., 1., 2);
    submit(&mut engine, TypeOrder::Sell, 0.5, 1., 3);
    assert_eq!(engine.current_price(), 1000);
    assert_eq!(engine.buy_book.len(), 1);
    assert_eq!(engine.buy_book.tree[0].hash, 2);
}

#[test]
fn earlier_arrival_trades_first_at_one_price() {
    let mut engine = create_engine();
    submit(&mut engine, TypeOrder::Buy, 1., 1., 7);
    submit(&mut engine, TypeOrder::Buy, 1., 1., 8);
    submit(&mut engine, TypeOrder::Sell, 1., 1., 9);
    assert_eq!(engine.buy_book.len(), 1);
    assert_eq!(engine.buy_book.tree[0].hash, 8);
}

#[test]
fn traded_quantity_leaves_the_resting_side() {
    let mut engine = create_engine();
    submit(&mut engine, TypeOrder::Sell, 1., 2., 1);
    submit(&mut engine, TypeOrder::Sell, 1.1, 3., 2);
    let before = total(&engine.sell_book);
    submit(&mut engine, TypeOrder::Buy, 1.2, 2.5, 3);
    let after = total(&engine.sell_book);
    assert_eq!(before - after, units(2.5));
    assert_eq!(engine.buy_book.len(), 0);
}

#[test]
fn no_trade_keeps_the_resting_side() {
    let mut engine = create_engine();
    submit(&mut engine, TypeOrder::Sell, 2., 2., 1);
    let before = total(&engine.sell_book);
    submit(&mut engine, TypeOrder::Buy, 1., 1., 2);
    assert_eq!(total(&engine.sell_book), before);
    assert_eq!(total(&engine.buy_book), units(1.));
}

#[test]
fn dust_is_removed_from_the_book() {
    let mut engine = create_engine();
    submit(&mut engine, TypeOrder::Sell, 1., 1.005, 1);
    submit(&mut engine, TypeOrder::Buy, 1., 1., 2);
    assert_eq!(engine.sell_book.len(), 0);
    assert!(engine.sell_book.references.is_empty());
    assert_eq!(engine.buy_book.len(), 0);
}

#[test]
fn resting_exactly_at_tolerance_is_removed() {
    let mut engine = create_engine();
    submit(&mut engine, TypeOrder::Sell, 1., 1., 1);
    submit(&mut engine, TypeOrder::Buy, 1., 1. - EPS as f64 / 1000., 2);
    assert_eq!(engine.sell_book.len(), 0);
}

#[test]
fn order_at_or_below_tolerance_never_rests() {
    let mut engine = create_engine();
    let small = engine.new_order(TypeOrder::Buy, 1000, EPS, 1);
    engine.add_order(small);
    let empty = engine.new_order(TypeOrder::Sell, 1000, 0, 2);
    engine.add_order(empty);
    assert_eq!(engine.buy_book.len(), 0);
    assert_eq!(engine.sell_book.len(), 0);
}

#[test]
fn cancelling_twice_is_a_no_op() {
    let mut engine = create_engine();
    submit(&mut engine, TypeOrder::Sell, 1., 1., 1);
    submit(&mut engine, TypeOrder::Sell, 2., 1., 2);
    engine.erase_order(1, TypeOrder::Sell);
    assert_eq!(engine.sell_book.len(), 1);
    engine.erase_order(1, TypeOrder::Sell);
    assert_eq!(engine.sell_book.len(), 1);
    assert_eq!(engine.sell_book.tree[0].hash, 2);
    engine.erase_order(42, TypeOrder::Sell);
    assert_eq!(engine.sell_book.len(), 1);
}

#[test]
fn cancelling_on_the_wrong_side_does_nothing() {
    let mut engine = create_engine();
    submit(&mut engine, TypeOrder::Sell, 1., 1., 1);
    engine.erase_order(1, TypeOrder::Buy);
    assert_eq!(engine.sell_book.len(), 1);
}

#[test]
fn cancelling_a_filled_order_is_a_no_op() {
    let mut engine = create_engine();
    submit(&mut engine, TypeOrder::Sell, 1., 1., 1);
    submit(&mut engine, TypeOrder::Buy, 1., 1., 2);
    engine.erase_order(1, TypeOrder::Sell);
    assert_eq!(engine.sell_book.len(), 0);
}

#[test]
fn index_and_sorted_orders_agree() {
    let mut engine = create_engine();
    for i in 0..50 {
        let p = 1. + (i % 7) as f64 / 10.;
        if i % 2 == 0 {
            submit(&mut engine, TypeOrder::Sell, p, 1. + (i % 3) as f64, i);
        } else {
            submit(&mut engine, TypeOrder::Buy, p, 1.5, i);
        }
        if i % 5 == 0 {
            engine.erase_order(i - 3, TypeOrder::Buy);
        }
        assert!(ids_agree(&engine.buy_book));
        assert!(ids_agree(&engine.sell_book));
    }
}

#[test]
fn books_stay_sorted() {
    let mut engine = create_engine();
    for i in 0..40 {
        submit(&mut engine, TypeOrder::Sell, 1. + (i % 5) as f64, 1., i);
    }
    let tree = &engine.sell_book.tree;
    for k in 1..tree.len() {
        assert!(tree[k - 1].precedes(&tree[k]));
    }
}

#[test]
fn sells_at_one_price_sort_earliest_last() {
    let early = Order { time: 1, ..sell(1., 1., 1) };
    let late = Order { time: 2, ..sell(1., 1., 2) };
    assert!(late.precedes(&early));
    assert!(!early.precedes(&late));
    let early_bid = Order { time: 1, ..buy(1., 1., 1) };
    let late_bid = Order { time: 2, ..buy(1., 1., 2) };
    assert!(early_bid.precedes(&late_bid));
    let cheap = sell(1., 1., 3);
    let dear = sell(2., 1., 4);
    assert!(cheap.precedes(&dear));
}

#[test]
fn equality_is_by_identifier() {
    let a = sell(1., 1., 5);
    let b = buy(2., 3., 5);
    let c = sell(1., 1., 6);
    assert!(a == b);
    assert!(a != c);
}

#[test]
fn boundary_probe_fields() {
    let book = OrderBook::new(TypeOrder::Sell, Asset::new("USD"));
    let lower = book.create_fantom_order_for_search(SearchTime::Lower, 1500);
    assert_eq!(lower.price, 1500);
    assert_eq!(lower.quantity, 0);
    assert_eq!(lower.hash, -1);
    assert_eq!(lower.time, 0);
    assert_eq!(lower.type_order, TypeOrder::Sell);
    let upper = book.create_fantom_order_for_search(SearchTime::Upper, 1500);
    assert_eq!(upper.time, u64::MAX);
}

#[test]
fn bounds_split_by_price() {
    let mut book = OrderBook::new(TypeOrder::Buy, Asset::new("USD"));
    book.add_order(buy(1., 1., 1));
    book.add_order(buy(2., 1., 2));
    book.add_order(buy(2., 1., 3));
    book.add_order(buy(3., 1., 4));
    assert_eq!(book.lower_bound(2000), 1);
    assert_eq!(book.upper_bound(2000), 1);
    assert_eq!(book.lower_bound(500), 0);
    assert_eq!(book.upper_bound(4000), 4);
}

#[test]
fn engine_stamps_arrival() {
    let mut engine = create_engine();
    submit(&mut engine, TypeOrder::Sell, 1., 1., 1);
    submit(&mut engine, TypeOrder::Sell, 1., 1., 2);
    assert_eq!(engine.clock, 3);
    assert_eq!(engine.sell_book.references[&1].time, 1);
    assert_eq!(engine.sell_book.references[&2].time, 2);
    assert_eq!(engine.asset.0, "USD");
}

#[test]
fn comparator_matches_book_order() {
    let a = buy(1., 1., 1);
    let b = buy(2., 1., 2);
    let same_id = buy(3., 9., 1);
    assert_eq!(a.partial_cmp(&b), Some(Ordering::Less));
    assert_eq!(b.partial_cmp(&a), Some(Ordering::Greater));
    assert_eq!(a.partial_cmp(&same_id), Some(Ordering::Equal));
    assert!(a < b);
}

#[test]
fn submitted_order_keeps_its_creation_stamp() {
    let mut engine = create_engine();
    let first = engine.new_order(TypeOrder::Sell, 1000, 1000, 1);
    let second = engine.new_order(TypeOrder::Sell, 1000, 1000, 2);
    engine.add_order(second);
    engine.add_order(first);
    assert_eq!(engine.sell_book.references[&1].time, 1);
    assert_eq!(engine.sell_book.references[&2].time, 2);
    assert_eq!(engine.clock, 3);
    submit(&mut engine, TypeOrder::Buy, 1., 1., 3);
    assert_eq!(engine.sell_book.len(), 1);
    assert_eq!(engine.sell_book.tree[0].hash, 2);
}

#[test]
fn order_new_takes_the_given_stamp() {
    let o = Order::new(TypeOrder::Buy, 1500, 2000, 9, 77);
    assert_eq!(o.time, 77);
    assert_eq!(o.price, 1500);
    assert_eq!(o.quantity, 2000);
    assert_eq!(o.hash, 9);
    assert_eq!(o.type_order, TypeOrder::Buy);
}

#[test]
fn ask_lower_bound_skips_asks_at_the_price() {
    let mut book = OrderBook::new(TypeOrder::Sell, Asset::new("USD"));
    book.add_order(Order::new(TypeOrder::Sell, 1000, 1000, 1, 5));
    assert_eq!(book.lower_bound(1000), 1);
    assert_eq!(book.upper_bound(1000), 1);
    assert_eq!(book.upper_bound(999), 0);
}

#[test]
fn bid_upper_bound_stops_before_bids_at_the_price() {
    let mut book = OrderBook::new(TypeOrder::Buy, Asset::new("USD"));
    book.add_order(Order::new(TypeOrder::Buy, 1000, 1000, 1, 5));
    assert_eq!(book.upper_bound(1000), 0);
    assert_eq!(book.lower_bound(1000), 0);
    assert_eq!(book.lower_bound(1001), 1);
}

#[test]
fn buy_at_the_ask_price_reaches_the_earliest_ask() {
    let mut engine = create_engine();
    engine.add_order(Order::new(TypeOrder::Sell, 1000, 1000, 1, 1));
    engine.add_order(Order::new(TypeOrder::Sell, 1000, 1000, 2, 5));
    engine.add_order(Order::new(TypeOrder::Buy, 1000, 500, 3, 6));
    assert_eq!(engine.buy_book.len(), 0);
    assert_eq!(engine.sell_book.references[&1].quantity, 500);
    assert_eq!(engine.sell_book.references[&2].quantity, 1000);
    assert_eq!(engine.current_price(), 1000);
}

#[test]
fn resting_remainder_faces_no_compatible_order() {
    let mut engine = create_engine();
    submit(&mut engine, TypeOrder::Sell, 1., 1., 1);
    submit(&mut engine, TypeOrder::Sell, 2., 1., 2);
    submit(&mut engine, TypeOrder::Buy, 1., 3., 3);
    assert_eq!(engine.buy_book.len(), 1);
    assert_eq!(engine.buy_book.tree[0].quantity, 2000);
    assert!(engine.sell_book.tree.iter().all(|o| o.price > 1000));
}
