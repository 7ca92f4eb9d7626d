//! Orders, trades and the outcomes the engine reports.

use vstd::prelude::*;

verus! {

/// The side of the market an order is on.
#[derive(Clone, Copy, Debug, PartialEq, Eq, Hash, Structural)]
pub enum Side {
    Buy,
    Sell,
}

impl Side {
    /// The side an order on `self` trades against.
    pub open spec fn spec_opposite(self) -> Side {
        match self {
            Side::Buy => Side::Sell,
            Side::Sell => Side::Buy,
        }
    }

    /// The side an order on `self` trades against.
    #[verifier::when_used_as_spec(spec_opposite)]
    pub fn opposite(self) -> (other: Side)
        ensures
            other == self.spec_opposite(),
    {
        match self {
            Side::Buy => Side::Sell,
            Side::Sell => Side::Buy,
        }
    }
}

/// Why the engine turned a request down.
#[derive(Clone, Copy, Debug, PartialEq, Eq, Hash, Structural)]
pub enum EngineError {
    /// An order with this identifier is already live in the book.
    DuplicateOrder,
    /// The price or the quantity is zero, or the order does not arrive unfilled.
    InvalidOrder,
    /// No book is kept for the symbol.
    UnknownSymbol,
    /// No live order has this identifier.
    OrderNotFound,
    /// The book has handed out every arrival stamp it has.
    SequenceExhausted,
}

/// Where an order stands once a request has been handled.
#[derive(Clone, Copy, Debug, PartialEq, Eq, Hash, Structural)]
pub enum OrderState {
    /// In the book, nothing filled yet.
    Resting,
    /// In the book, some of it filled.
    PartiallyFilled,
    /// Filled completely; no longer in the book.
    Filled,
    /// Taken out of the book at the caller's request.
    Cancelled,
    /// Never entered the book.
    Rejected(EngineError),
}

/// A limit order.
///
/// `price` is in ticks. `seq` is the arrival stamp the book gives the order
/// when it is added; what a caller puts there is overwritten.
#[derive(Debug, PartialEq, Eq)]
pub struct Order {
    pub order_id: String,
    pub symbol: String,
    pub side: Side,
    pub price: u64,
    pub qty: u32,
    pub cum_qty: u32,
    pub leaves_qty: u32,
    pub seq: u64,
}

/// What an [`Order`] says, with its strings as character sequences.
pub struct OrderView {
    pub order_id: Seq<char>,
    pub symbol: Seq<char>,
    pub side: Side,
    pub price: u64,
    pub qty: u32,
    pub cum_qty: u32,
    pub leaves_qty: u32,
    pub seq: u64,
}

impl View for Order {
    type V = OrderView;

    open spec fn view(&self) -> OrderView {
        OrderView {
            order_id: self.order_id@,
            symbol: self.symbol@,
            side: self.side,
            price: self.price,
            qty: self.qty,
            cum_qty: self.cum_qty,
            leaves_qty: self.leaves_qty,
            seq: self.seq,
        }
    }
}

impl OrderView {
    /// The filled and the open part add up to the whole.
    pub open spec fn balanced(self) -> bool {
        self.cum_qty + self.leaves_qty == self.qty
    }

    /// The order as it is owed on arrival: priced, sized, and wholly open.
    pub open spec fn fresh(self) -> bool {
        &&& self.price > 0
        &&& self.qty > 0
        &&& self.cum_qty == 0
        &&& self.leaves_qty == self.qty
    }

    /// The order may rest in a book: priced, balanced, and with something open.
    pub open spec fn live(self) -> bool {
        &&& self.price > 0
        &&& self.leaves_qty > 0
        &&& self.balanced()
    }

    /// The same order carrying the arrival stamp `seq`.
    pub open spec fn stamped(self, seq: u64) -> OrderView {
        OrderView { seq, ..self }
    }

    /// The same order with `leaves` still open and the rest of it filled.
    pub open spec fn with_leaves(self, leaves: u32) -> OrderView {
        OrderView { leaves_qty: leaves, cum_qty: (self.qty - leaves) as u32, ..self }
    }

    /// The same order after `fill` more units of it have traded.
    pub open spec fn filled(self, fill: int) -> OrderView {
        self.with_leaves((self.leaves_qty - fill) as u32)
    }

    /// The state of an order that is in the book, or has just been filled.
    pub open spec fn state(self) -> OrderState {
        if self.leaves_qty == 0 {
            OrderState::Filled
        } else if self.cum_qty == 0 {
            OrderState::Resting
        } else {
            OrderState::PartiallyFilled
        }
    }
}

impl Clone for Order {
    fn clone(&self) -> (copy: Self)
        ensures
            copy == *self,
    {
        Order {
            order_id: self.order_id.clone(),
            symbol: self.symbol.clone(),
            side: self.side,
            price: self.price,
            qty: self.qty,
            cum_qty: self.cum_qty,
            leaves_qty: self.leaves_qty,
            seq: self.seq,
        }
    }
}

impl Order {
    /// A new, unfilled order.
    pub fn new(order_id: String, symbol: String, side: Side, price: u64, qty: u32) -> (order: Order)
        ensures
            order@ == (OrderView {
                order_id: order_id@,
                symbol: symbol@,
                side,
                price,
                qty,
                cum_qty: 0,
                leaves_qty: qty,
                seq: 0,
            }),
    {
        Order { order_id, symbol, side, price, qty, cum_qty: 0, leaves_qty: qty, seq: 0 }
    }

    /// Whether the order is priced, sized and wholly open, as a submission must be.
    pub fn is_fresh(&self) -> (fresh: bool)
        ensures
            fresh == self@.fresh(),
    {
        self.price > 0 && self.qty > 0 && self.cum_qty == 0 && self.leaves_qty == self.qty
    }

    /// Where the order stands, judged by its quantities.
    pub fn state(&self) -> (state: OrderState)
        ensures
            state == self@.state(),
    {
        if self.leaves_qty == 0 {
            OrderState::Filled
        } else if self.cum_qty == 0 {
            OrderState::Resting
        } else {
            OrderState::PartiallyFilled
        }
    }
}

/// Names one trade record: the arrival stamp of the order it settles, then
/// that of the order it traded against.
#[derive(Clone, Copy, Debug, PartialEq, Eq, Hash, Structural)]
pub struct TradeId {
    pub order_seq: u64,
    pub counter_seq: u64,
}

/// One side of a fill. Every fill is recorded twice, once for each order.
#[derive(Debug, PartialEq, Eq)]
pub struct Trade {
    pub trade_id: TradeId,
    pub order_id: String,
    pub symbol: String,
    pub trade_price: u64,
    pub trade_qty: u32,
    pub trade_side: Side,
}

/// What a [`Trade`] says, with its strings as character sequences.
pub struct TradeView {
    pub trade_id: TradeId,
    pub order_id: Seq<char>,
    pub symbol: Seq<char>,
    pub trade_price: u64,
    pub trade_qty: u32,
    pub trade_side: Side,
}

impl View for Trade {
    type V = TradeView;

    open spec fn view(&self) -> TradeView {
        TradeView {
            trade_id: self.trade_id,
            order_id: self.order_id@,
            symbol: self.symbol@,
            trade_price: self.trade_price,
            trade_qty: self.trade_qty,
            trade_side: self.trade_side,
        }
    }
}

impl Clone for Trade {
    fn clone(&self) -> (copy: Self)
        ensures
            copy == *self,
    {
        Trade {
            trade_id: self.trade_id,
            order_id: self.order_id.clone(),
            symbol: self.symbol.clone(),
            trade_price: self.trade_price,
            trade_qty: self.trade_qty,
            trade_side: self.trade_side,
        }
    }
}

/// The record of a fill of `fill` units at `price`, written for `order`, which
/// traded against `counter`.
pub open spec fn trade_record(order: OrderView, counter: OrderView, price: u64, fill: u32) -> TradeView {
    TradeView {
        trade_id: TradeId { order_seq: order.seq, counter_seq: counter.seq },
        order_id: order.order_id,
        symbol: order.symbol,
        trade_price: price,
        trade_qty: fill,
        trade_side: order.side,
    }
}

impl Trade {
    /// The record of a fill of `fill` units at `price`, written for `order`,
    /// which traded against `counter`.
    pub fn record(order: &Order, counter: &Order, price: u64, fill: u32) -> (trade: Trade)
        ensures
            trade@ == trade_record(order@, counter@, price, fill),
    {
        Trade {
            trade_id: TradeId { order_seq: order.seq, counter_seq: counter.seq },
            order_id: order.order_id.clone(),
            symbol: order.symbol.clone(),
            trade_price: price,
            trade_qty: fill,
            trade_side: order.side,
        }
    }
}

/// What became of a request: the trades it caused, the order as it now stands,
/// and its state.
#[derive(Debug)]
pub struct OrderResult {
    pub trades: Vec<Trade>,
    pub order: Order,
    pub final_state: OrderState,
}

} // verus!
