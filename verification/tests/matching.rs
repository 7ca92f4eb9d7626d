use matching_engine::book::OrderBook;
use matching_engine::submission::process_order;
use matching_engine::matching::{orders_cross, MatchingEngine};
use matching_engine::order::{EngineError, Order, OrderState, Side, Trade, TradeId};

fn ord(id: &str, side: Side, price: u64, qty: u32) -> Order {
    Order::new(id.to_string(), "X".to_string(), side, price, qty)
}

fn open_on(book: &OrderBook, ids: &[&str]) -> u64 {
    ids.iter().map(|id| book.get(id).map_or(0, |o| o.leaves_qty as u64)).sum()
}

#[test]
fn orders_cross_by_side() {
    let buy = ord("b", Side::Buy, 100, 1);
    let sell = ord("s", Side::Sell, 100, 1);
    let low = ord("l", Side::Sell, 99, 1);
    let high = ord("h", Side::Sell, 101, 1);
    assert!(orders_cross(&buy, &sell));
    assert!(orders_cross(&buy, &low));
    assert!(!orders_cross(&buy, &high));
    let bid_low = ord("bl", Side::Buy, 99, 1);
    let bid_high = ord("bh", Side::Buy, 101, 1);
    assert!(orders_cross(&sell, &buy));
    assert!(orders_cross(&sell, &bid_high));
    assert!(!orders_cross(&sell, &bid_low));
}

#[test]
fn run_reports_missing_order() {
    let mut book = OrderBook::new("X".to_string());
    assert_eq!(MatchingEngine::run(&mut book, "none").unwrap_err(), EngineError::OrderNotFound);
}

#[test]
fn run_matches_an_added_order() {
    let mut book = OrderBook::new("X".to_string());
    assert_eq!(book.add_order(ord("ask", Side::Sell, 100, 4)), Ok(()));
    assert_eq!(book.add_order(ord("bid", Side::Buy, 100, 6)), Ok(()));
    let report = MatchingEngine::run(&mut book, "bid").unwrap();
    assert_eq!(report.final_state, OrderState::PartiallyFilled);
    assert_eq!(report.order.leaves_qty, 2);
    assert_eq!(report.order.cum_qty, 4);
    assert_eq!(report.trades.len(), 2);
    assert!(!book.contains("ask"));
    assert_eq!(book.get("bid").unwrap().leaves_qty, 2);
    let again = MatchingEngine::run(&mut book, "bid").unwrap();
    assert!(again.trades.is_empty());
    assert_eq!(again.final_state, OrderState::PartiallyFilled);
}

#[test]
fn no_cross_rests_without_trades() {
    let mut book = OrderBook::new("X".to_string());
    process_order(&mut book, ord("ask", Side::Sell, 101, 4));
    let bid = process_order(&mut book, ord("bid", Side::Buy, 100, 4));
    assert!(bid.trades.is_empty());
    assert_eq!(bid.final_state, OrderState::Resting);
    assert_eq!(book.depth(Side::Buy), 1);
    assert_eq!(book.depth(Side::Sell), 1);
}

#[test]
fn trade_executes_at_resting_price() {
    let mut book = OrderBook::new("X".to_string());
    process_order(&mut book, ord("ask", Side::Sell, 95, 4));
    let bid = process_order(&mut book, ord("bid", Side::Buy, 100, 4));
    assert_eq!(bid.trades.len(), 2);
    assert_eq!(
        bid.trades[0],
        Trade {
            trade_id: TradeId { order_seq: 1, counter_seq: 0 },
            order_id: "bid".to_string(),
            symbol: "X".to_string(),
            trade_price: 95,
            trade_qty: 4,
            trade_side: Side::Buy,
        }
    );
    assert_eq!(
        bid.trades[1],
        Trade {
            trade_id: TradeId { order_seq: 0, counter_seq: 1 },
            order_id: "ask".to_string(),
            symbol: "X".to_string(),
            trade_price: 95,
            trade_qty: 4,
            trade_side: Side::Sell,
        }
    );
    assert_eq!(bid.final_state, OrderState::Filled);
    assert_eq!(book.depth(Side::Buy), 0);
    assert_eq!(book.depth(Side::Sell), 0);
}

#[test]
fn aggressor_walks_the_book_until_price_stops_it() {
    let mut book = OrderBook::new("X".to_string());
    process_order(&mut book, ord("a1", Side::Sell, 100, 2));
    process_order(&mut book, ord("a2", Side::Sell, 101, 2));
    process_order(&mut book, ord("a3", Side::Sell, 102, 2));
    process_order(&mut book, ord("a4", Side::Sell, 103, 2));
    let bid = process_order(&mut book, ord("bid", Side::Buy, 102, 10));
    let prices: Vec<u64> = bid.trades.iter().map(|t| t.trade_price).collect();
    assert_eq!(prices, vec![100, 100, 101, 101, 102, 102]);
    let makers: Vec<&str> = bid.trades.iter().skip(1).step_by(2).map(|t| t.order_id.as_str()).collect();
    assert_eq!(makers, vec!["a1", "a2", "a3"]);
    assert_eq!(bid.final_state, OrderState::PartiallyFilled);
    assert_eq!(bid.order.leaves_qty, 4);
    assert_eq!(bid.order.cum_qty, 6);
    assert_eq!(book.best(Side::Buy).unwrap().order_id, "bid");
    assert_eq!(book.best(Side::Buy).unwrap().leaves_qty, 4);
    assert_eq!(book.best(Side::Sell).unwrap().order_id, "a4");
    assert_eq!(book.depth(Side::Sell), 1);
}

#[test]
fn remainder_rests_under_its_submission_stamp() {
    let mut book = OrderBook::new("X".to_string());
    process_order(&mut book, ord("ask", Side::Sell, 100, 2));
    let early = process_order(&mut book, ord("early", Side::Buy, 100, 5));
    assert_eq!(early.order.seq, 1);
    process_order(&mut book, ord("late", Side::Buy, 100, 5));
    assert_eq!(book.get("early").unwrap().seq, 1);
    assert_eq!(book.get("late").unwrap().seq, 2);
    let sell = process_order(&mut book, ord("sell", Side::Sell, 100, 4));
    assert_eq!(sell.trades[1].order_id, "early");
    assert_eq!(sell.trades[1].trade_qty, 3);
    assert_eq!(sell.trades[3].order_id, "late");
    assert_eq!(sell.trades[3].trade_qty, 1);
}

#[test]
fn quantity_is_conserved() {
    let mut book = OrderBook::new("X".to_string());
    let bids = ["b1", "b2", "b3", "b4"];
    process_order(&mut book, ord("b1", Side::Buy, 100, 7));
    process_order(&mut book, ord("b2", Side::Buy, 101, 3));
    process_order(&mut book, ord("b3", Side::Buy, 99, 9));
    process_order(&mut book, ord("b4", Side::Buy, 101, 4));
    let before = open_on(&book, &bids);
    assert_eq!(before, 23);
    let sell = process_order(&mut book, ord("s", Side::Sell, 100, 12));
    let after = open_on(&book, &bids);
    let traded: u64 = sell.trades.iter().map(|t| t.trade_qty as u64).sum();
    let aggressor_drop = (12 - sell.order.leaves_qty) as u64;
    assert_eq!(traded, (before - after) + aggressor_drop);
    assert_eq!(before - after, aggressor_drop);
    assert_eq!(traded, 24);
    assert_eq!(sell.final_state, OrderState::Filled);
    assert_eq!(book.get("b1").unwrap().leaves_qty, 2);
    assert_eq!(book.get("b3").unwrap().leaves_qty, 9);
}

#[test]
fn fills_never_exceed_open_quantity() {
    let mut book = OrderBook::new("X".to_string());
    process_order(&mut book, ord("a1", Side::Sell, 100, 3));
    process_order(&mut book, ord("a2", Side::Sell, 100, 8));
    let bid = process_order(&mut book, ord("bid", Side::Buy, 100, 5));
    assert_eq!(bid.trades.len(), 4);
    assert_eq!(bid.trades[0].trade_qty, 3);
    assert_eq!(bid.trades[2].trade_qty, 2);
    for trade in &bid.trades {
        assert!(trade.trade_qty > 0);
        assert!(trade.trade_qty <= 5);
    }
    let rest = book.get("a2").unwrap();
    assert_eq!(rest.leaves_qty, 6);
    assert_eq!(rest.cum_qty + rest.leaves_qty, rest.qty);
    assert_eq!(bid.order.cum_qty + bid.order.leaves_qty, bid.order.qty);
    assert_eq!(bid.order.leaves_qty, 0);
}

#[test]
fn rejected_order_causes_no_trades_and_no_change() {
    let mut book = OrderBook::new("X".to_string());
    process_order(&mut book, ord("ask", Side::Sell, 100, 3));
    let zero_qty = process_order(&mut book, ord("z", Side::Buy, 100, 0));
    assert_eq!(zero_qty.final_state, OrderState::Rejected(EngineError::InvalidOrder));
    assert!(zero_qty.trades.is_empty());
    assert_eq!(zero_qty.order.order_id, "z");
    let zero_price = process_order(&mut book, ord("p", Side::Buy, 0, 5));
    assert_eq!(zero_price.final_state, OrderState::Rejected(EngineError::InvalidOrder));
    let dup = process_order(&mut book, ord("ask", Side::Buy, 100, 3));
    assert_eq!(dup.final_state, OrderState::Rejected(EngineError::DuplicateOrder));
    assert!(dup.trades.is_empty());
    assert_eq!(book.depth(Side::Sell), 1);
    assert_eq!(book.depth(Side::Buy), 0);
    assert_eq!(book.get("ask").unwrap().leaves_qty, 3);
    let next = process_order(&mut book, ord("n", Side::Sell, 100, 1));
    assert_eq!(next.order.seq, 1);
}

#[test]
fn second_submission_of_resting_order_is_duplicate() {
    let mut book = OrderBook::new("X".to_string());
    let first = process_order(&mut book, ord("a", Side::Buy, 100, 3));
    assert_eq!(first.final_state, OrderState::Resting);
    let second = process_order(&mut book, ord("a", Side::Buy, 100, 3));
    assert_eq!(second.final_state, OrderState::Rejected(EngineError::DuplicateOrder));
    assert_eq!(book.depth(Side::Buy), 1);
    assert_eq!(book.depth(Side::Sell), 0);
}

#[test]
fn identifier_of_filled_order_may_be_used_again() {
    let mut book = OrderBook::new("X".to_string());
    process_order(&mut book, ord("ask", Side::Sell, 100, 3));
    let first = process_order(&mut book, ord("a", Side::Buy, 100, 3));
    assert_eq!(first.final_state, OrderState::Filled);
    let second = process_order(&mut book, ord("a", Side::Buy, 100, 3));
    assert_eq!(second.final_state, OrderState::Resting);
    assert_eq!(book.depth(Side::Buy), 1);
}

#[test]
fn sell_aggressor_takes_highest_bid_first() {
    let mut book = OrderBook::new("X".to_string());
    process_order(&mut book, ord("b1", Side::Buy, 99, 1));
    process_order(&mut book, ord("b2", Side::Buy, 101, 1));
    process_order(&mut book, ord("b3", Side::Buy, 100, 1));
    let sell = process_order(&mut book, ord("s", Side::Sell, 100, 5));
    let makers: Vec<&str> = sell.trades.iter().skip(1).step_by(2).map(|t| t.order_id.as_str()).collect();
    assert_eq!(makers, vec!["b2", "b3"]);
    assert_eq!(sell.trades[0].trade_price, 101);
    assert_eq!(sell.trades[2].trade_price, 100);
    assert_eq!(sell.order.leaves_qty, 3);
    assert_eq!(book.best(Side::Sell).unwrap().order_id, "s");
    assert_eq!(book.best(Side::Buy).unwrap().order_id, "b1");
}

#[test]
fn exhausted_stamps_reject_the_submission() {
    let mut book = OrderBook::starting_at("X".to_string(), u64::MAX);
    let result = process_order(&mut book, ord("a", Side::Buy, 100, 3));
    assert_eq!(result.final_state, OrderState::Rejected(EngineError::SequenceExhausted));
    assert!(result.trades.is_empty());
    assert_eq!(book.depth(Side::Buy), 0);
}
