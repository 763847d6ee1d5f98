//! The matching core of a single-asset limit order book: bid and ask books
//! kept in price-time order with an identifier index, matching of incoming
//! orders with partial fills, cancellation, and the last traded price.

mod book;
mod engine;
mod laws;
mod order;

pub use book::{
    count_where, fill_back, fill_fwd, ids, lemma_count_where_split, lemma_fill_back_exhausts,
    lemma_fill_fwd_exhausts, lower_index, probe, rank, sorted, upper_index, with_quantity, Asset,
    OrderBook,
};
pub use engine::{compatible, match_against, Engine};
pub use order::{
    lemma_order_lt_irreflexive, lemma_order_lt_strict_total, order_cmp, order_lt, time_lt, Order,
    SearchTime, TypeOrder, EPS,
};
pub use laws::{
    lemma_cancel_absent, lemma_cancel_idempotent, lemma_engine_ids_consistent,
    lemma_index_matches_orders, lemma_match_touches_a_run, lemma_no_dust, lemma_quantity_conservation,
    lemma_trades_only_compatible, total, trimmed_back, trimmed_front,
};
