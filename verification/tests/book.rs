use matching_engine::book::OrderBook;
use matching_engine::book_view::Snapshot;
use matching_engine::order::{EngineError, Order, OrderState, Side};

fn make(id: &str, side: Side, price: u64, qty: u32) -> Order {
    Order::new(id.to_string(), "MSFT".to_string(), side, price, qty)
}

fn drain(book: &mut OrderBook, side: Side) -> Vec<String> {
    let mut ids = Vec::new();
    while let Some(order) = book.pop_order(side) {
        ids.push(order.order_id);
    }
    ids
}

#[test]
fn new_book_is_empty() {
    let book = OrderBook::new("MSFT".to_string());
    assert_eq!(book.symbol(), "MSFT");
    assert_eq!(book.depth(Side::Buy), 0);
    assert_eq!(book.depth(Side::Sell), 0);
    assert!(book.best(Side::Buy).is_none());
    assert!(book.best(Side::Sell).is_none());
    assert_eq!(
        book.snapshot(),
        Snapshot { best_bid: None, best_ask: None, bid_depth: 0, ask_depth: 0 }
    );
}

#[test]
fn add_order_stamps_in_arrival_order() {
    let mut book = OrderBook::new("MSFT".to_string());
    assert_eq!(book.add_order(make("a", Side::Buy, 10, 1)), Ok(()));
    assert_eq!(book.add_order(make("b", Side::Sell, 20, 1)), Ok(()));
    assert_eq!(book.add_order(make("c", Side::Buy, 11, 1)), Ok(()));
    assert_eq!(book.get("a").unwrap().seq, 0);
    assert_eq!(book.get("b").unwrap().seq, 1);
    assert_eq!(book.get("c").unwrap().seq, 2);
}

#[test]
fn add_order_overwrites_the_callers_stamp() {
    let mut book = OrderBook::new("MSFT".to_string());
    let mut order = make("a", Side::Buy, 10, 1);
    order.seq = 77;
    assert_eq!(book.add_order(order), Ok(()));
    assert_eq!(book.get("a").unwrap().seq, 0);
}

#[test]
fn add_order_does_not_match() {
    let mut book = OrderBook::new("MSFT".to_string());
    assert_eq!(book.add_order(make("bid", Side::Buy, 100, 5)), Ok(()));
    assert_eq!(book.add_order(make("ask", Side::Sell, 90, 5)), Ok(()));
    assert_eq!(book.depth(Side::Buy), 1);
    assert_eq!(book.depth(Side::Sell), 1);
    assert_eq!(book.get("bid").unwrap().leaves_qty, 5);
    assert_eq!(book.get("ask").unwrap().leaves_qty, 5);
}

#[test]
fn bids_pop_by_price_descending_then_arrival() {
    let mut book = OrderBook::new("MSFT".to_string());
    let arrivals = [("a", 100), ("b", 105), ("c", 100), ("d", 99), ("e", 105), ("f", 101)];
    for (id, price) in arrivals {
        assert_eq!(book.add_order(make(id, Side::Buy, price, 1)), Ok(()));
    }
    assert_eq!(book.best(Side::Buy).unwrap().order_id, "b");
    assert_eq!(drain(&mut book, Side::Buy), vec!["b", "e", "f", "a", "c", "d"]);
    assert_eq!(book.depth(Side::Buy), 0);
}

#[test]
fn asks_pop_by_price_ascending_then_arrival() {
    let mut book = OrderBook::new("MSFT".to_string());
    let arrivals = [("a", 100), ("b", 105), ("c", 100), ("d", 99), ("e", 105), ("f", 101)];
    for (id, price) in arrivals {
        assert_eq!(book.add_order(make(id, Side::Sell, price, 1)), Ok(()));
    }
    assert_eq!(book.best(Side::Sell).unwrap().order_id, "d");
    assert_eq!(drain(&mut book, Side::Sell), vec!["d", "a", "c", "f", "b", "e"]);
}

#[test]
fn many_orders_pop_in_price_time_order() {
    let mut book = OrderBook::new("MSFT".to_string());
    let mut expected: Vec<(u64, u64, String)> = Vec::new();
    let mut state: u64 = 12345;
    for n in 0..200u64 {
        state = state.wrapping_mul(6364136223846793005).wrapping_add(1442695040888963407);
        let price = 1 + (state >> 33) % 17;
        let id = format!("o{}", n);
        assert_eq!(book.add_order(make(&id, Side::Buy, price, 1)), Ok(()));
        expected.push((u64::MAX - price, n, id));
    }
    expected.sort();
    let want: Vec<String> = expected.into_iter().map(|e| e.2).collect();
    assert_eq!(drain(&mut book, Side::Buy), want);
}

#[test]
fn sides_are_kept_apart() {
    let mut book = OrderBook::new("MSFT".to_string());
    assert_eq!(book.add_order(make("bid", Side::Buy, 50, 1)), Ok(()));
    assert_eq!(book.add_order(make("ask", Side::Sell, 60, 1)), Ok(()));
    assert_eq!(book.best(Side::Buy).unwrap().order_id, "bid");
    assert_eq!(book.best(Side::Sell).unwrap().order_id, "ask");
    assert_eq!(drain(&mut book, Side::Buy), vec!["bid"]);
    assert_eq!(book.depth(Side::Sell), 1);
    assert!(book.contains("ask"));
    assert!(!book.contains("bid"));
}

#[test]
fn best_does_not_remove() {
    let mut book = OrderBook::new("MSFT".to_string());
    assert_eq!(book.add_order(make("a", Side::Buy, 50, 1)), Ok(()));
    assert_eq!(book.best(Side::Buy).unwrap().order_id, "a");
    assert_eq!(book.best(Side::Buy).unwrap().order_id, "a");
    assert_eq!(book.depth(Side::Buy), 1);
}

#[test]
fn duplicate_order_is_rejected_and_book_unchanged() {
    let mut book = OrderBook::new("MSFT".to_string());
    assert_eq!(book.add_order(make("a", Side::Buy, 50, 4)), Ok(()));
    assert_eq!(book.add_order(make("a", Side::Buy, 60, 9)), Err(EngineError::DuplicateOrder));
    assert_eq!(book.add_order(make("a", Side::Sell, 70, 9)), Err(EngineError::DuplicateOrder));
    assert_eq!(book.depth(Side::Buy), 1);
    assert_eq!(book.depth(Side::Sell), 0);
    let kept = book.get("a").unwrap();
    assert_eq!(kept.price, 50);
    assert_eq!(kept.qty, 4);
    assert_eq!(book.add_order(make("b", Side::Buy, 50, 4)), Ok(()));
    assert_eq!(book.get("b").unwrap().seq, 1);
}

#[test]
fn identifier_is_free_again_after_removal() {
    let mut book = OrderBook::new("MSFT".to_string());
    assert_eq!(book.add_order(make("a", Side::Buy, 50, 4)), Ok(()));
    assert!(book.remove("a").is_some());
    assert_eq!(book.add_order(make("a", Side::Sell, 55, 2)), Ok(()));
    assert_eq!(book.get("a").unwrap().side, Side::Sell);
}

#[test]
fn invalid_orders_are_rejected() {
    let mut book = OrderBook::new("MSFT".to_string());
    assert_eq!(book.add_order(make("p", Side::Buy, 0, 4)), Err(EngineError::InvalidOrder));
    assert_eq!(book.add_order(make("q", Side::Buy, 10, 0)), Err(EngineError::InvalidOrder));
    let mut part = make("c", Side::Buy, 10, 4);
    part.cum_qty = 1;
    part.leaves_qty = 3;
    assert_eq!(book.add_order(part), Err(EngineError::InvalidOrder));
    let mut over = make("l", Side::Buy, 10, 4);
    over.leaves_qty = 5;
    assert_eq!(book.add_order(over), Err(EngineError::InvalidOrder));
    assert_eq!(book.depth(Side::Buy), 0);
    assert_eq!(book.add_order(make("ok", Side::Buy, 1, 1)), Ok(()));
    assert_eq!(book.get("ok").unwrap().seq, 0);
}

#[test]
fn order_for_another_symbol_is_rejected() {
    let mut book = OrderBook::new("MSFT".to_string());
    let stray = Order::new("a".to_string(), "AAPL".to_string(), Side::Buy, 10, 1);
    assert_eq!(book.add_order(stray), Err(EngineError::UnknownSymbol));
    let both = Order::new("b".to_string(), "AAPL".to_string(), Side::Buy, 0, 0);
    assert_eq!(book.add_order(both), Err(EngineError::UnknownSymbol));
    assert!(!book.contains("a"));
}

#[test]
fn invalid_is_reported_before_duplicate() {
    let mut book = OrderBook::new("MSFT".to_string());
    assert_eq!(book.add_order(make("a", Side::Buy, 50, 4)), Ok(()));
    assert_eq!(book.add_order(make("a", Side::Buy, 0, 4)), Err(EngineError::InvalidOrder));
}

#[test]
fn remove_takes_the_order_out_of_index_and_side() {
    let mut book = OrderBook::new("MSFT".to_string());
    assert_eq!(book.add_order(make("a", Side::Buy, 50, 1)), Ok(()));
    assert_eq!(book.add_order(make("b", Side::Buy, 60, 2)), Ok(()));
    assert_eq!(book.add_order(make("c", Side::Buy, 55, 3)), Ok(()));
    let gone = book.remove("b").unwrap();
    assert_eq!(gone.order_id, "b");
    assert_eq!(gone.price, 60);
    assert_eq!(gone.leaves_qty, 2);
    assert!(book.remove("b").is_none());
    assert!(book.remove("zz").is_none());
    assert!(!book.contains("b"));
    assert_eq!(book.depth(Side::Buy), 2);
    assert_eq!(drain(&mut book, Side::Buy), vec!["c", "a"]);
}

#[test]
fn pop_order_on_empty_side_gives_nothing() {
    let mut book = OrderBook::new("MSFT".to_string());
    assert_eq!(book.add_order(make("a", Side::Buy, 50, 1)), Ok(()));
    assert!(book.pop_order(Side::Sell).is_none());
    assert_eq!(book.depth(Side::Buy), 1);
    let top = book.pop_order(Side::Buy).unwrap();
    assert_eq!(top.order_id, "a");
    assert!(book.get("a").is_none());
    assert!(book.pop_order(Side::Buy).is_none());
}

#[test]
fn update_leaves_keeps_priority() {
    let mut book = OrderBook::new("MSFT".to_string());
    assert_eq!(book.add_order(make("a", Side::Sell, 50, 10)), Ok(()));
    assert_eq!(book.add_order(make("b", Side::Sell, 50, 10)), Ok(()));
    assert_eq!(book.update_leaves("a", 4), Ok(()));
    let a = book.get("a").unwrap();
    assert_eq!(a.leaves_qty, 4);
    assert_eq!(a.cum_qty, 6);
    assert_eq!(a.qty, 10);
    assert_eq!(a.state(), OrderState::PartiallyFilled);
    assert_eq!(book.best(Side::Sell).unwrap().order_id, "a");
    assert_eq!(book.depth(Side::Sell), 2);
}

#[test]
fn update_leaves_to_zero_removes() {
    let mut book = OrderBook::new("MSFT".to_string());
    assert_eq!(book.add_order(make("a", Side::Sell, 50, 10)), Ok(()));
    assert_eq!(book.add_order(make("b", Side::Sell, 50, 10)), Ok(()));
    assert_eq!(book.update_leaves("a", 0), Ok(()));
    assert!(!book.contains("a"));
    assert_eq!(book.depth(Side::Sell), 1);
    assert_eq!(book.best(Side::Sell).unwrap().order_id, "b");
}

#[test]
fn update_leaves_errors() {
    let mut book = OrderBook::new("MSFT".to_string());
    assert_eq!(book.update_leaves("a", 1), Err(EngineError::OrderNotFound));
    assert_eq!(book.add_order(make("a", Side::Sell, 50, 10)), Ok(()));
    assert_eq!(book.update_leaves("a", 11), Err(EngineError::InvalidOrder));
    assert_eq!(book.get("a").unwrap().leaves_qty, 10);
    assert_eq!(book.update_leaves("a", 10), Ok(()));
    assert_eq!(book.get("a").unwrap().leaves_qty, 10);
    assert_eq!(book.get("a").unwrap().cum_qty, 0);
    assert_eq!(book.update_leaves("a", 3), Ok(()));
    assert_eq!(book.update_leaves("a", 4), Err(EngineError::InvalidOrder));
    assert_eq!(book.get("a").unwrap().leaves_qty, 3);
}

#[test]
fn close_order_reports_cancelled() {
    let mut book = OrderBook::new("MSFT".to_string());
    assert_eq!(book.add_order(make("a", Side::Sell, 50, 10)), Ok(()));
    assert_eq!(book.update_leaves("a", 7), Ok(()));
    let closed = book.close_order("a").unwrap();
    assert_eq!(closed.final_state, OrderState::Cancelled);
    assert_eq!(closed.order.leaves_qty, 7);
    assert_eq!(closed.order.cum_qty, 3);
    assert!(closed.trades.is_empty());
    assert_eq!(book.close_order("a").unwrap_err(), EngineError::OrderNotFound);
    assert_eq!(book.depth(Side::Sell), 0);
}

#[test]
fn snapshot_reports_best_prices_and_depth() {
    let mut book = OrderBook::new("MSFT".to_string());
    for (id, price) in [("a", 98), ("b", 99), ("c", 97)] {
        assert_eq!(book.add_order(make(id, Side::Buy, price, 1)), Ok(()));
    }
    for (id, price) in [("x", 103), ("y", 101)] {
        assert_eq!(book.add_order(make(id, Side::Sell, price, 1)), Ok(()));
    }
    assert_eq!(
        book.snapshot(),
        Snapshot { best_bid: Some(99), best_ask: Some(101), bid_depth: 3, ask_depth: 2 }
    );
}

#[test]
fn arrival_stamps_run_out() {
    let mut book = OrderBook::starting_at("MSFT".to_string(), u64::MAX - 1);
    assert_eq!(book.add_order(make("a", Side::Buy, 50, 1)), Ok(()));
    assert_eq!(book.get("a").unwrap().seq, u64::MAX - 1);
    assert_eq!(book.add_order(make("b", Side::Buy, 50, 1)), Err(EngineError::SequenceExhausted));
    assert_eq!(book.add_order(make("c", Side::Sell, 40, 1)), Err(EngineError::SequenceExhausted));
    assert!(!book.contains("b"));
    assert_eq!(book.depth(Side::Buy), 1);
    assert_eq!(book.depth(Side::Sell), 0);
    assert_eq!(book.add_order(make("a", Side::Buy, 50, 1)), Err(EngineError::DuplicateOrder));
}

#[test]
fn late_stamps_still_rank_by_arrival() {
    let mut book = OrderBook::starting_at("MSFT".to_string(), u64::MAX - 3);
    assert_eq!(book.add_order(make("a", Side::Sell, 50, 1)), Ok(()));
    assert_eq!(book.add_order(make("b", Side::Sell, 50, 1)), Ok(()));
    assert_eq!(book.add_order(make("c", Side::Sell, 49, 1)), Ok(()));
    assert_eq!(drain(&mut book, Side::Sell), vec!["c", "a", "b"]);
}
