//! The trading engine: one book for each symbol, the table of the latest
//! reference prices, and the log of all trades.
//!
//! [`TradingEngine`] routes each request to the book of its symbol. It is not
//! synchronised; a caller that serves several threads keeps the books apart,
//! each behind a lock of its own, and hands them to
//! [`process_order`](crate::submission::process_order) itself.

use vstd::prelude::*;
use vstd::hash_map::StringHashMap;
use crate::book::OrderBook;
use crate::book_view::{BookView, Snapshot};
use crate::matching::trade_views;
use crate::order::{
    EngineError, Order, OrderResult, OrderState, OrderView, Trade, TradeView,
};
use crate::submission::{process_order, submission, submitted};
use crate::ticker::{no_prices, tick_views, ticked, Ticker};

verus! {

/// The book of a symbol for which no order has arrived yet.
pub open spec fn empty_book(symbol: Seq<char>) -> BookView {
    BookView { symbol, bids: Seq::empty(), asks: Seq::empty(), next_seq: 0 }
}

/// The symbols that `symbols` names.
pub open spec fn names(symbols: Seq<String>) -> Set<Seq<char>> {
    Set::new(|name: Seq<char>| exists|i: int| 0 <= i < symbols.len() && (#[trigger] symbols[i])@ == name)
}

/// The books after a book has been opened for each of `symbols` that had
/// none. A symbol that had a book keeps it as it is.
pub open spec fn opened(books: Map<Seq<char>, BookView>, symbols: Set<Seq<char>>) -> Map<
    Seq<char>,
    BookView,
> {
    Map::new(
        |name: Seq<char>| books.contains_key(name) || symbols.contains(name),
        |name: Seq<char>|
            if books.contains_key(name) {
                books[name]
            } else {
                empty_book(name)
            },
    )
}

/// The symbols an engine trades when it is told of none.
pub open spec fn default_symbols() -> Set<Seq<char>> {
    set!["AAPL"@, "GOOGL"@]
}

/// The symbols an engine starts with.
pub open spec fn startup_symbols(symbols: Option<Vec<String>>) -> Set<Seq<char>> {
    match symbols {
        Some(given) => names(given@),
        None => default_symbols(),
    }
}

/// An engine as its callers see it: the book of each symbol it trades, the
/// latest reference prices, every trade record so far in the order in which
/// the trades took place, and whether it trades live.
pub struct EngineView {
    pub books: Map<Seq<char>, BookView>,
    pub ticker: Map<Seq<char>, u64>,
    pub trades: Seq<TradeView>,
    pub is_live: bool,
}

impl EngineView {
    /// Every book is valid and kept under its own symbol.
    pub open spec fn valid(self) -> bool {
        forall|name: Seq<char>| #[trigger]
            self.books.contains_key(name) ==> self.books[name].valid() && self.books[name].symbol
                == name
    }

    /// Why the arrival of `o` is rejected, if it is.
    pub open spec fn reject_reason(self, o: OrderView) -> Option<EngineError> {
        if !self.books.contains_key(o.symbol) {
            Some(EngineError::UnknownSymbol)
        } else {
            self.books[o.symbol].add_error(o)
        }
    }

    /// The engine after `o` has arrived. If it is rejected, nothing has
    /// changed. Otherwise the book of its symbol has taken it in, and the
    /// records of its fills stand at the end of the trade log.
    pub open spec fn submitted(self, o: OrderView) -> EngineView {
        if self.reject_reason(o) is Some {
            self
        } else {
            EngineView {
                books: self.books.insert(o.symbol, submitted(self.books[o.symbol], o)),
                trades: self.trades + submission(self.books[o.symbol], o).trades,
                ..self
            }
        }
    }

    /// Why the order `id` of `symbol` cannot be cancelled, if it cannot.
    pub open spec fn cancel_error(self, symbol: Seq<char>, id: Seq<char>) -> Option<EngineError> {
        if !self.books.contains_key(symbol) {
            Some(EngineError::UnknownSymbol)
        } else if !self.books[symbol].contains(id) {
            Some(EngineError::OrderNotFound)
        } else {
            None
        }
    }

    /// The engine after the order `id` of `symbol` has been cancelled.
    pub open spec fn cancelled(self, symbol: Seq<char>, id: Seq<char>) -> EngineView {
        EngineView { books: self.books.insert(symbol, self.books[symbol].removed(id)), ..self }
    }
}

/// Keeps the book of every symbol and the table of reference prices, and
/// routes each request to the book of its symbol.
pub struct TradingEngine {
    orderbook_mapping: StringHashMap<usize>,
    books: Vec<OrderBook>,
    ticker_mapping: Ticker,
    trade_log: Vec<Trade>,
    is_live: bool,
}

impl View for TradingEngine {
    type V = EngineView;

    closed spec fn view(&self) -> EngineView {
        EngineView {
            books: Map::new(
                |name: Seq<char>| self.orderbook_mapping@.contains_key(name),
                |name: Seq<char>| self.books@[self.orderbook_mapping@[name] as int]@,
            ),
            ticker: self.ticker_mapping@,
            trades: trade_views(self.trade_log@),
            is_live: self.is_live,
        }
    }
}

impl TradingEngine {
    /// Each symbol is mapped to the place of its book, and each book is well
    /// formed and mapped from its symbol.
    pub closed spec fn inv(&self) -> bool {
        &&& forall|name: Seq<char>| #[trigger]
            self.orderbook_mapping@.contains_key(name) ==> {
                &&& self.orderbook_mapping@[name] < self.books@.len()
                &&& self.books@[self.orderbook_mapping@[name] as int]@.symbol == name
            }
        &&& forall|i: int|
            0 <= i < self.books@.len() ==> {
                &&& (#[trigger] self.books@[i]).wf()
                &&& self.orderbook_mapping@.contains_key(self.books@[i]@.symbol)
                &&& self.orderbook_mapping@[self.books@[i]@.symbol] == i
            }
    }

    /// The engine is well formed: its parts agree with its view, and the view is valid.
    pub open spec fn wf(&self) -> bool {
        self.inv() && self@.valid()
    }

    /// An engine with an empty book for each of `symbols`, or for `AAPL` and
    /// `GOOGL` if none are given, with no reference prices and no trades.
    pub fn new(symbols: Option<Vec<String>>, is_live: bool) -> (engine: TradingEngine)
        ensures
            engine.wf(),
            engine@.books == opened(Map::empty(), startup_symbols(symbols)),
            engine@.ticker == no_prices(),
            engine@.trades == Seq::<TradeView>::empty(),
            engine@.is_live == is_live,
    {
        let given = match symbols {
            Some(given) => given,
            None => {
                let mut defaults: Vec<String> = Vec::new();
                defaults.push("AAPL".to_owned());
                defaults.push("GOOGL".to_owned());
                proof {
                    assert(names(defaults@) =~= default_symbols()) by {
                        assert(defaults@[0]@ == "AAPL"@);
                        assert(defaults@[1]@ == "GOOGL"@);
                    }
                }
                defaults
            },
        };
        let mut engine = TradingEngine {
            orderbook_mapping: StringHashMap::new(),
            books: Vec::new(),
            ticker_mapping: Ticker::new(),
            trade_log: Vec::new(),
            is_live,
        };
        proof {
            assert(engine@.books =~= Map::<Seq<char>, BookView>::empty());
            assert(engine@.trades =~= Seq::<TradeView>::empty());
        }
        engine.init_orderbook(given);
        engine
    }

    /// Opens an empty book for each of `symbols` that has none. A symbol that
    /// has a book keeps it, with every order in it.
    pub fn init_orderbook(&mut self, symbols: Vec<String>)
        requires
            old(self).wf(),
        ensures
            final(self).wf(),
            final(self)@.books == opened(old(self)@.books, names(symbols@)),
            final(self)@.ticker == old(self)@.ticker,
            final(self)@.trades == old(self)@.trades,
            final(self)@.is_live == old(self)@.is_live,
    {
        let mut i: usize = 0;
        proof {
            assert(names(symbols@.take(0)) =~= Set::<Seq<char>>::empty());
            assert(self@.books =~= opened(old(self)@.books, names(symbols@.take(0))));
        }
        while i < symbols.len()
            invariant
                i <= symbols.len(),
                self.wf(),
                self@.books == opened(old(self)@.books, names(symbols@.take(i as int))),
                self@.ticker == old(self)@.ticker,
                self@.trades == old(self)@.trades,
                self@.is_live == old(self)@.is_live,
            decreases symbols.len() - i,
        {
            let ghost before = *self;
            let ghost seen = names(symbols@.take(i as int));
            let ghost name = symbols@[i as int]@;
            proof {
                assert(names(symbols@.take(i + 1)) =~= seen.insert(name)) by {
                    assert forall|n: Seq<char>| seen.insert(name).contains(n) implies names(
                        symbols@.take(i + 1),
                    ).contains(n) by {
                        if n == name {
                            assert(symbols@.take(i + 1)[i as int]@ == n);
                        } else {
                            let j = choose|j: int|
                                0 <= j < symbols@.take(i as int).len() && (#[trigger] symbols@.take(
                                    i as int,
                                )[j])@ == n;
                            assert(symbols@.take(i + 1)[j]@ == n);
                        }
                    }
                    assert forall|n: Seq<char>| names(symbols@.take(i + 1)).contains(n) implies seen.insert(
                        name,
                    ).contains(n) by {
                        let j = choose|j: int|
                            0 <= j < symbols@.take(i + 1).len() && (#[trigger] symbols@.take(i + 1)[j])@
                                == n;
                        if j < i {
                            assert(symbols@.take(i as int)[j]@ == n);
                        }
                    }
                }
            }
            if !self.orderbook_mapping.contains_key(symbols[i].as_str()) {
                let slot = self.books.len();
                self.books.push(OrderBook::new(symbols[i].clone()));
                self.orderbook_mapping.insert(symbols[i].clone(), slot);
                proof {
                    assert forall|j: int| 0 <= j < self.books@.len() implies {
                        &&& (#[trigger] self.books@[j]).wf()
                        &&& self.orderbook_mapping@.contains_key(self.books@[j]@.symbol)
                        &&& self.orderbook_mapping@[self.books@[j]@.symbol] == j
                    } by {
                        if j < slot {
                            assert(self.books@[j] == before.books@[j]);
                        }
                    }
                    assert forall|n: Seq<char>| #[trigger]
                        self.orderbook_mapping@.contains_key(n) implies {
                        &&& self.orderbook_mapping@[n] < self.books@.len()
                        &&& self.books@[self.orderbook_mapping@[n] as int]@.symbol == n
                    } by {
                        if n != name {
                            assert(before.orderbook_mapping@.contains_key(n));
                            assert(self.books@[before.orderbook_mapping@[n] as int]
                                == before.books@[before.orderbook_mapping@[n] as int]);
                        }
                    }
                    assert(self.inv());
                    assert(!before@.books.contains_key(name));
                    assert(!old(self)@.books.contains_key(name) && !seen.contains(name)) by {
                        assert(!opened(old(self)@.books, seen).contains_key(name));
                    }
                    assert(self.books@[slot as int]@ == empty_book(name));
                    assert forall|n: Seq<char>| self@.books.contains_key(n) <==> opened(
                        old(self)@.books,
                        seen.insert(name),
                    ).contains_key(n) by {
                        assert(before@.books.contains_key(n) <==> opened(
                            old(self)@.books,
                            seen,
                        ).contains_key(n));
                        assert(self.orderbook_mapping@.contains_key(n) <==> (
                        before.orderbook_mapping@.contains_key(n) || n == name));
                    }
                    assert(self@.books =~= opened(old(self)@.books, seen.insert(name))) by {
                        assert forall|n: Seq<char>| #[trigger]
                            self@.books.contains_key(n) implies self@.books[n] == opened(
                            old(self)@.books,
                            seen.insert(name),
                        )[n] by {
                            if n != name {
                                assert(before.orderbook_mapping@.contains_key(n));
                                assert(self.books@[before.orderbook_mapping@[n] as int]
                                    == before.books@[before.orderbook_mapping@[n] as int]);
                                assert(before@.books.contains_key(n));
                            } else {
                                assert(!before@.books.contains_key(n));
                            }
                        }
                    }
                    assert(self@.valid());
                }
            } else {
                proof {
                    assert(before@.books.contains_key(name));
                    assert(self@.books =~= opened(old(self)@.books, seen.insert(name)));
                }
            }
            i = i + 1;
        }
        proof {
            assert(symbols@.take(i as int) =~= symbols@);
        }
    }

    /// Whether the engine trades live.
    pub fn is_live(&self) -> (live: bool)
        ensures
            live == self@.is_live,
    {
        self.is_live
    }

    /// Whether the engine keeps a book for `symbol`.
    pub fn has_symbol(&self, symbol: &str) -> (known: bool)
        ensures
            known == self@.books.contains_key(symbol@),
    {
        self.orderbook_mapping.contains_key(symbol)
    }

    /// The latest reference price of `symbol`, if one has arrived.
    pub fn reference_price(&self, symbol: &str) -> (price: Option<u64>)
        ensures
            price == if self@.ticker.contains_key(symbol@) {
                Some(self@.ticker[symbol@])
            } else {
                None
            },
    {
        self.ticker_mapping.price(symbol)
    }

    /// Writes a batch of reference prices into the price table, in the order
    /// given. No book is touched.
    pub fn apply_external_tick(&mut self, new_ticker: Vec<(String, u64)>)
        requires
            old(self).wf(),
        ensures
            final(self).wf(),
            final(self)@.ticker == ticked(old(self)@.ticker, tick_views(new_ticker@)),
            final(self)@.books == old(self)@.books,
            final(self)@.trades == old(self)@.trades,
            final(self)@.is_live == old(self)@.is_live,
    {
        self.ticker_mapping.update_ticker(new_ticker);
    }

    /// Handles the arrival of an order: routes it to the book of its symbol,
    /// adds it there and matches it.
    ///
    /// The order is rejected, and nothing changes, if the engine keeps no
    /// book for its symbol or the book cannot add it.
    pub fn submit_order(&mut self, order: Order) -> (result: OrderResult)
        requires
            old(self).wf(),
        ensures
            final(self).wf(),
            final(self)@ == old(self)@.submitted(order@),
            match old(self)@.reject_reason(order@) {
                Some(e) => {
                    &&& result.final_state == OrderState::Rejected(e)
                    &&& result.trades@.len() == 0
                    &&& result.order@ == order@
                },
                None => {
                    &&& trade_views(result.trades@) == submission(
                        old(self)@.books[order@.symbol],
                        order@,
                    ).trades
                    &&& result.order@ == submission(old(self)@.books[order@.symbol], order@).aggressor
                    &&& result.final_state == result.order@.state()
                },
            },
    {
        let slot = match self.orderbook_mapping.get(order.symbol.as_str()) {
            Some(found) => *found,
            None => {
                return OrderResult {
                    trades: Vec::new(),
                    order,
                    final_state: OrderState::Rejected(EngineError::UnknownSymbol),
                };
            },
        };
        let ghost before = *self;
        let result = process_order(&mut self.books[slot], order);
        proof {
            self.lemma_book_changed(&before, slot as int);
            assert(before@.books[order@.symbol] == before.books@[slot as int]@);
            if before@.reject_reason(order@) is Some {
                assert(self@.books =~= before@.books);
            }
        }
        let ghost taken = *self;
        let mut i: usize = 0;
        while i < result.trades.len()
            invariant
                i <= result.trades.len(),
                self.orderbook_mapping == taken.orderbook_mapping,
                self.books == taken.books,
                self.ticker_mapping == taken.ticker_mapping,
                self.is_live == taken.is_live,
                self.trade_log@ == taken.trade_log@ + result.trades@.take(i as int),
            decreases result.trades.len() - i,
        {
            self.trade_log.push(result.trades[i].clone());
            proof {
                assert(result.trades@.take(i + 1) =~= result.trades@.take(i as int).push(
                    result.trades@[i as int],
                ));
            }
            i = i + 1;
        }
        proof {
            assert(result.trades@.take(i as int) =~= result.trades@);
            assert(trade_views(self.trade_log@) =~= trade_views(taken.trade_log@) + trade_views(
                result.trades@,
            ));
            assert(self@.books == taken@.books);
            if before@.reject_reason(order@) is Some {
                assert(trade_views(result.trades@) =~= Seq::<TradeView>::empty());
                assert(self@.trades =~= before@.trades);
            }
        }
        result
    }

    /// Every trade record so far, in the order in which the trades took place.
    pub fn trade_log(&self) -> (log: &Vec<Trade>)
        ensures
            trade_views(log@) == self@.trades,
    {
        &self.trade_log
    }

    /// Cancels the resting order `order_id` of `symbol`: takes it out of its
    /// book and reports it as cancelled.
    ///
    /// Fails, and changes nothing, with `UnknownSymbol` if the engine keeps no
    /// book for the symbol, and with `OrderNotFound` if no such order rests
    /// in its book.
    pub fn cancel_order(&mut self, symbol: &str, order_id: &str) -> (res: Result<
        OrderResult,
        EngineError,
    >)
        requires
            old(self).wf(),
        ensures
            final(self).wf(),
            match res {
                Ok(closed) => {
                    &&& old(self)@.cancel_error(symbol@, order_id@) is None
                    &&& final(self)@ == old(self)@.cancelled(symbol@, order_id@)
                    &&& closed.order@ == old(self)@.books[symbol@].order(order_id@)
                    &&& closed.trades@.len() == 0
                    &&& closed.final_state == OrderState::Cancelled
                },
                Err(e) => {
                    &&& old(self)@.cancel_error(symbol@, order_id@) == Some(e)
                    &&& final(self)@ == old(self)@
                },
            },
    {
        let slot = match self.orderbook_mapping.get(symbol) {
            Some(found) => *found,
            None => {
                return Err(EngineError::UnknownSymbol);
            },
        };
        let ghost before = *self;
        let res = self.books[slot].close_order(order_id);
        proof {
            self.lemma_book_changed(&before, slot as int);
            assert(before@.books[symbol@] == before.books@[slot as int]@);
            if res is Err {
                assert(self@.books =~= before@.books);
            }
        }
        res
    }

    /// The best prices and the depth of the book of `symbol`.
    pub fn snapshot(&self, symbol: &str) -> (res: Result<Snapshot, EngineError>)
        requires
            self.wf(),
        ensures
            match res {
                Ok(shot) => self@.books.contains_key(symbol@) && shot == self@.books[symbol@].snapshot(),
                Err(e) => e == EngineError::UnknownSymbol && !self@.books.contains_key(symbol@),
            },
    {
        match self.orderbook_mapping.get(symbol) {
            Some(found) => Ok(self.books[*found].snapshot()),
            None => Err(EngineError::UnknownSymbol),
        }
    }

    /// After one book has changed and kept its symbol, the engine is well
    /// formed and only that book's entry of the view has changed.
    proof fn lemma_book_changed(&self, before: &TradingEngine, slot: int)
        requires
            before.wf(),
            0 <= slot < before.books@.len(),
            self.orderbook_mapping == before.orderbook_mapping,
            self.ticker_mapping == before.ticker_mapping,
            self.trade_log == before.trade_log,
            self.is_live == before.is_live,
            self.books@ == before.books@.update(slot, self.books@[slot]),
            self.books@[slot].wf(),
            self.books@[slot]@.symbol == before.books@[slot]@.symbol,
        ensures
            self.wf(),
            self@ == (EngineView {
                books: before@.books.insert(before.books@[slot]@.symbol, self.books@[slot]@),
                ..before@
            }),
    {
        let name = before.books@[slot]@.symbol;
        assert(before.books@[slot].wf());
        assert forall|i: int| 0 <= i < self.books@.len() implies {
            &&& (#[trigger] self.books@[i]).wf()
            &&& self.orderbook_mapping@.contains_key(self.books@[i]@.symbol)
            &&& self.orderbook_mapping@[self.books@[i]@.symbol] == i
        } by {
            if i != slot {
                assert(self.books@[i] == before.books@[i]);
            }
        }
        assert forall|n: Seq<char>| #[trigger] self.orderbook_mapping@.contains_key(n) implies {
            &&& self.orderbook_mapping@[n] < self.books@.len()
            &&& self.books@[self.orderbook_mapping@[n] as int]@.symbol == n
        } by {
            let j = before.orderbook_mapping@[n] as int;
            if j != slot {
                assert(self.books@[j] == before.books@[j]);
            }
        }
        assert(self@.books =~= before@.books.insert(name, self.books@[slot]@)) by {
            assert forall|n: Seq<char>| #[trigger] self@.books.contains_key(n) implies self@.books[n]
                == before@.books.insert(name, self.books@[slot]@)[n] by {
                let j = before.orderbook_mapping@[n] as int;
                if j != slot {
                    assert(self.books@[j] == before.books@[j]);
                }
            }
        }
        assert forall|n: Seq<char>| #[trigger] self@.books.contains_key(n) implies self@.books[n].valid()
            && self@.books[n].symbol == n by {
            let j = before.orderbook_mapping@[n] as int;
            if j != slot {
                assert(self.books@[j] == before.books@[j]);
                assert(before@.books.contains_key(n));
            }
        }
    }
}

} // verus!
