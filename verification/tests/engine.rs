use matching_engine::engine::TradingEngine;
use matching_engine::ticker::Ticker;
use matching_engine::order::{EngineError, Order, OrderState, Side};
use matching_engine::priority::rank_key;
use matching_engine::refresh::{refresh_step, RefreshAction, RefreshEvent, RefreshState};

fn ord(id: &str, symbol: &str, side: Side, price: u64, qty: u32) -> Order {
    Order::new(id.to_string(), symbol.to_string(), side, price, qty)
}

#[test]
fn default_symbols_are_aapl_and_googl() {
    let engine = TradingEngine::new(None, true);
    assert!(engine.is_live());
    assert!(engine.has_symbol("AAPL"));
    assert!(engine.has_symbol("GOOGL"));
    assert!(!engine.has_symbol("MSFT"));
    assert_eq!(engine.reference_price("AAPL"), None);
}

#[test]
fn given_symbols_replace_the_defaults() {
    let engine = TradingEngine::new(Some(vec!["MSFT".to_string()]), false);
    assert!(!engine.is_live());
    assert!(engine.has_symbol("MSFT"));
    assert!(!engine.has_symbol("AAPL"));
    let none = TradingEngine::new(Some(Vec::new()), false);
    assert!(!none.has_symbol("AAPL"));
}

#[test]
fn unknown_symbol_is_rejected() {
    let mut engine = TradingEngine::new(None, true);
    let result = engine.submit_order(ord("a", "MSFT", Side::Buy, 10, 1));
    assert_eq!(result.final_state, OrderState::Rejected(EngineError::UnknownSymbol));
    assert!(result.trades.is_empty());
    assert_eq!(result.order.order_id, "a");
    assert_eq!(engine.snapshot("MSFT").unwrap_err(), EngineError::UnknownSymbol);
    assert_eq!(engine.cancel_order("MSFT", "a").unwrap_err(), EngineError::UnknownSymbol);
}

#[test]
fn unknown_symbol_is_reported_before_invalid_order() {
    let mut engine = TradingEngine::new(None, true);
    let result = engine.submit_order(ord("a", "MSFT", Side::Buy, 0, 0));
    assert_eq!(result.final_state, OrderState::Rejected(EngineError::UnknownSymbol));
    let result = engine.submit_order(ord("a", "AAPL", Side::Buy, 0, 0));
    assert_eq!(result.final_state, OrderState::Rejected(EngineError::InvalidOrder));
}

#[test]
fn symbols_do_not_share_orders() {
    let mut engine = TradingEngine::new(None, true);
    let bid = engine.submit_order(ord("a", "AAPL", Side::Buy, 100, 5));
    assert_eq!(bid.final_state, OrderState::Resting);
    let ask = engine.submit_order(ord("a", "GOOGL", Side::Sell, 90, 5));
    assert_eq!(ask.final_state, OrderState::Resting);
    assert!(ask.trades.is_empty());
    let aapl = engine.snapshot("AAPL").unwrap();
    let googl = engine.snapshot("GOOGL").unwrap();
    assert_eq!((aapl.best_bid, aapl.best_ask, aapl.bid_depth, aapl.ask_depth), (Some(100), None, 1, 0));
    assert_eq!((googl.best_bid, googl.best_ask, googl.bid_depth, googl.ask_depth), (None, Some(90), 0, 1));
    assert!(engine.cancel_order("GOOGL", "a").is_ok());
    assert_eq!(engine.snapshot("AAPL").unwrap().bid_depth, 1);
}

#[test]
fn duplicate_submission_is_rejected_by_the_engine() {
    let mut engine = TradingEngine::new(None, true);
    engine.submit_order(ord("a", "AAPL", Side::Buy, 100, 5));
    let again = engine.submit_order(ord("a", "AAPL", Side::Buy, 100, 5));
    assert_eq!(again.final_state, OrderState::Rejected(EngineError::DuplicateOrder));
    assert_eq!(engine.snapshot("AAPL").unwrap().bid_depth, 1);
}

#[test]
fn init_orderbook_is_idempotent() {
    let mut engine = TradingEngine::new(Some(vec!["AAPL".to_string()]), true);
    engine.submit_order(ord("a", "AAPL", Side::Buy, 100, 5));
    engine.init_orderbook(vec!["AAPL".to_string(), "MSFT".to_string(), "MSFT".to_string()]);
    assert!(engine.has_symbol("MSFT"));
    let aapl = engine.snapshot("AAPL").unwrap();
    assert_eq!(aapl.bid_depth, 1);
    assert_eq!(aapl.best_bid, Some(100));
    let msft = engine.snapshot("MSFT").unwrap();
    assert_eq!((msft.bid_depth, msft.ask_depth), (0, 0));
    let next = engine.submit_order(ord("b", "AAPL", Side::Buy, 100, 5));
    assert_eq!(next.order.seq, 1);
    let first = engine.submit_order(ord("m", "MSFT", Side::Buy, 100, 5));
    assert_eq!(first.order.seq, 0);
}

#[test]
fn ticks_overwrite_per_symbol() {
    let mut engine = TradingEngine::new(None, true);
    engine.apply_external_tick(vec![("AAPL".to_string(), 150), ("GOOGL".to_string(), 99)]);
    assert_eq!(engine.reference_price("AAPL"), Some(150));
    assert_eq!(engine.reference_price("GOOGL"), Some(99));
    engine.apply_external_tick(vec![("AAPL".to_string(), 151)]);
    assert_eq!(engine.reference_price("AAPL"), Some(151));
    assert_eq!(engine.reference_price("GOOGL"), Some(99));
    engine.apply_external_tick(Vec::new());
    assert_eq!(engine.reference_price("AAPL"), Some(151));
}

#[test]
fn later_tick_in_a_batch_wins() {
    let mut ticker = Ticker::new();
    assert_eq!(ticker.price("X"), None);
    ticker.update_ticker(vec![
        ("X".to_string(), 1),
        ("Y".to_string(), 2),
        ("X".to_string(), 3),
    ]);
    assert_eq!(ticker.price("X"), Some(3));
    assert_eq!(ticker.price("Y"), Some(2));
    assert_eq!(ticker.price("Z"), None);
}

#[test]
fn ticks_do_not_touch_books_and_accept_untraded_symbols() {
    let mut engine = TradingEngine::new(None, true);
    engine.submit_order(ord("a", "AAPL", Side::Buy, 100, 5));
    engine.apply_external_tick(vec![("AAPL".to_string(), 1), ("MSFT".to_string(), 7)]);
    assert_eq!(engine.reference_price("MSFT"), Some(7));
    assert!(!engine.has_symbol("MSFT"));
    let shot = engine.snapshot("AAPL").unwrap();
    assert_eq!((shot.best_bid, shot.bid_depth), (Some(100), 1));
}

#[test]
fn rank_key_values() {
    assert_eq!(rank_key(Side::Buy, 1000, 0), (1000, u64::MAX));
    assert_eq!(rank_key(Side::Buy, 1000, 7), (1000, u64::MAX - 7));
    assert_eq!(rank_key(Side::Sell, 1000, 7), (u64::MAX - 1000, u64::MAX - 7));
    assert_eq!(rank_key(Side::Sell, u64::MAX, u64::MAX), (0, 0));
    assert!(rank_key(Side::Buy, 11, 5) > rank_key(Side::Buy, 10, 1));
    assert!(rank_key(Side::Buy, 10, 1) > rank_key(Side::Buy, 10, 2));
    assert!(rank_key(Side::Sell, 10, 5) > rank_key(Side::Sell, 11, 1));
    assert!(rank_key(Side::Sell, 10, 1) > rank_key(Side::Sell, 10, 2));
}

#[test]
fn order_new_is_unfilled() {
    let order = ord("a", "AAPL", Side::Sell, 12, 34);
    assert_eq!(order.order_id, "a");
    assert_eq!(order.symbol, "AAPL");
    assert_eq!(order.side, Side::Sell);
    assert_eq!(order.price, 12);
    assert_eq!(order.qty, 34);
    assert_eq!(order.cum_qty, 0);
    assert_eq!(order.leaves_qty, 34);
    assert_eq!(order.seq, 0);
    assert!(order.is_fresh());
    assert_eq!(order.state(), OrderState::Resting);
    assert_eq!(order.clone(), order);
    assert_eq!(Side::Buy.opposite(), Side::Sell);
    assert_eq!(Side::Sell.opposite(), Side::Buy);
}

#[test]
fn trade_log_is_appended_in_order() {
    let mut engine = TradingEngine::new(None, true);
    assert!(engine.trade_log().is_empty());
    engine.submit_order(ord("a", "AAPL", Side::Sell, 100, 2));
    engine.submit_order(ord("g", "GOOGL", Side::Sell, 50, 1));
    assert!(engine.trade_log().is_empty());
    let first = engine.submit_order(ord("b", "AAPL", Side::Buy, 100, 1));
    assert_eq!(engine.trade_log().len(), 2);
    assert_eq!(engine.trade_log()[..], first.trades[..]);
    let rejected = engine.submit_order(ord("b", "AAPL", Side::Buy, 0, 1));
    assert_eq!(rejected.final_state, OrderState::Rejected(EngineError::InvalidOrder));
    assert_eq!(engine.trade_log().len(), 2);
    let second = engine.submit_order(ord("h", "GOOGL", Side::Buy, 60, 1));
    assert_eq!(engine.trade_log().len(), 4);
    assert_eq!(engine.trade_log()[2..], second.trades[..]);
    assert_eq!(engine.trade_log()[0].order_id, "b");
    assert_eq!(engine.trade_log()[1].order_id, "a");
    assert_eq!(engine.trade_log()[2].order_id, "h");
    assert_eq!(engine.trade_log()[3].order_id, "g");
    assert_eq!(engine.trade_log()[3].trade_price, 50);
    engine.cancel_order("AAPL", "a").unwrap();
    engine.apply_external_tick(vec![("AAPL".to_string(), 5)]);
    assert_eq!(engine.trade_log().len(), 4);
}

#[test]
fn refresh_task_polls_until_told_to_stop() {
    let (state, action) = refresh_step(RefreshState::Running, RefreshEvent::IntervalElapsed);
    assert_eq!((state, action), (RefreshState::Running, RefreshAction::PollFeed));
    let (state, action) = refresh_step(state, RefreshEvent::ShutdownRequested);
    assert_eq!((state, action), (RefreshState::Stopped, RefreshAction::Exit));
    let (state, action) = refresh_step(state, RefreshEvent::IntervalElapsed);
    assert_eq!((state, action), (RefreshState::Stopped, RefreshAction::Exit));
    let (state, action) = refresh_step(state, RefreshEvent::ShutdownRequested);
    assert_eq!((state, action), (RefreshState::Stopped, RefreshAction::Exit));
}
