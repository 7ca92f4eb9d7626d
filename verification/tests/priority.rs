use std::cmp::Ordering;

use matching_engine::order::{Order, Side};
use matching_engine::priority::compare;

fn stamped(side: Side, price: u64, seq: u64) -> Order {
    let mut order = Order::new(format!("o{}", seq), "X".to_string(), side, price, 1);
    order.seq = seq;
    order
}

#[test]
fn higher_bid_trades_first() {
    let high = stamped(Side::Buy, 101, 9);
    let low = stamped(Side::Buy, 100, 1);
    assert_eq!(compare(&high, &low), Ordering::Greater);
    assert_eq!(compare(&low, &high), Ordering::Less);
}

#[test]
fn lower_ask_trades_first() {
    let high = stamped(Side::Sell, 101, 1);
    let low = stamped(Side::Sell, 100, 9);
    assert_eq!(compare(&low, &high), Ordering::Greater);
    assert_eq!(compare(&high, &low), Ordering::Less);
}

#[test]
fn earlier_arrival_trades_first_at_one_price() {
    for side in [Side::Buy, Side::Sell] {
        let early = stamped(side, 100, 3);
        let late = stamped(side, 100, 4);
        assert_eq!(compare(&early, &late), Ordering::Greater);
        assert_eq!(compare(&late, &early), Ordering::Less);
        assert_eq!(compare(&early, &early), Ordering::Equal);
    }
}

#[test]
fn compare_ignores_quantity_and_identifier() {
    let mut a = stamped(Side::Buy, 100, 3);
    let mut b = stamped(Side::Buy, 100, 3);
    a.qty = 50;
    a.leaves_qty = 50;
    b.order_id = "other".to_string();
    assert_eq!(compare(&a, &b), Ordering::Equal);
}
