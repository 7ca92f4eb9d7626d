//! Continuous matching: one aggressor at a time against the resting orders of
//! the opposite side.
//!
//! The aggressor trades with the first resting order as long as their prices
//! cross, at the resting order's price, for as much as both have open. A
//! resting order that is filled leaves the book; one that is filled in part
//! keeps its place.
//!
//! Orders carry no owner, so every cross trades: whether an owner may trade
//! with itself is for the caller to settle before an order arrives.

use vstd::prelude::*;
use crate::book::OrderBook;
use crate::book_view::{holds, index_of, BookView};
use crate::order::{
    trade_record, EngineError, Order, OrderResult, OrderView, Side, Trade, TradeView,
};

verus! {

/// The aggressor's limit reaches the resting order's price.
pub open spec fn crosses(aggressor: OrderView, resting: OrderView) -> bool {
    match aggressor.side {
        Side::Buy => aggressor.price >= resting.price,
        Side::Sell => aggressor.price <= resting.price,
    }
}

/// What the two orders can trade with each other: the smaller of their open
/// quantities.
pub open spec fn fill_qty(aggressor: OrderView, resting: OrderView) -> u32 {
    if aggressor.leaves_qty <= resting.leaves_qty {
        aggressor.leaves_qty
    } else {
        resting.leaves_qty
    }
}

/// The two records of the fill between the aggressor and the first resting
/// order: the aggressor's, then the resting order's. Both carry the resting
/// order's price.
pub open spec fn fill_records(aggressor: OrderView, resting: OrderView) -> Seq<TradeView> {
    let fill = fill_qty(aggressor, resting);
    seq![
        trade_record(aggressor, resting, resting.price, fill),
        trade_record(resting, aggressor, resting.price, fill),
    ]
}

/// How a match ends: the aggressor and the opposite side as they then stand,
/// and the trade records in the order in which the fills took place.
pub struct MatchView {
    pub aggressor: OrderView,
    pub resting: Seq<OrderView>,
    pub trades: Seq<TradeView>,
}

/// The match of `aggressor` against the opposite side `resting`, whose first
/// order trades first.
pub open spec fn match_against(aggressor: OrderView, resting: Seq<OrderView>) -> MatchView
    decreases resting.len(),
{
    if aggressor.leaves_qty == 0 || resting.len() == 0 || !crosses(aggressor, resting[0]) {
        MatchView { aggressor, resting, trades: Seq::empty() }
    } else {
        let maker = resting[0];
        let fill = fill_qty(aggressor, maker);
        let taker = aggressor.filled(fill as int);
        if fill == maker.leaves_qty {
            let rest = match_against(taker, resting.skip(1));
            MatchView { trades: fill_records(aggressor, maker) + rest.trades, ..rest }
        } else {
            MatchView {
                aggressor: taker,
                resting: resting.update(0, maker.filled(fill as int)),
                trades: fill_records(aggressor, maker),
            }
        }
    }
}

/// The match of the resting order `id` of `book` against the other side of the book.
pub open spec fn match_of(book: BookView, id: Seq<char>) -> MatchView {
    let aggressor = book.order(id);
    match_against(aggressor, book.side(aggressor.side.spec_opposite()))
}

/// The book after the resting order `id` has been matched against the other
/// side: that side is what the match left of it, and the order keeps its
/// place with what it has left open, or has left the book if that is nothing.
pub open spec fn matched(book: BookView, id: Seq<char>) -> BookView {
    let aggressor = book.order(id);
    let outcome = match_of(book, id);
    book.with_side(aggressor.side.spec_opposite(), outcome.resting).leaves_set(
        id,
        outcome.aggressor.leaves_qty,
    )
}

/// The open quantity of all the orders of `s` together.
pub open spec fn total_leaves(s: Seq<OrderView>) -> int
    decreases s.len(),
{
    if s.len() == 0 {
        0
    } else {
        s[0].leaves_qty + total_leaves(s.skip(1))
    }
}

/// The quantity of all the trade records of `trades` together.
pub open spec fn total_traded(trades: Seq<TradeView>) -> int
    decreases trades.len(),
{
    if trades.len() == 0 {
        0
    } else {
        trades[0].trade_qty + total_traded(trades.skip(1))
    }
}

/// The two records of one fill, put before other records, add twice the
/// fill to their total.
proof fn lemma_total_traded_fill(aggressor: OrderView, resting: OrderView, rest: Seq<TradeView>)
    ensures
        total_traded(fill_records(aggressor, resting) + rest) == 2 * fill_qty(aggressor, resting)
            + total_traded(rest),
{
    let all = fill_records(aggressor, resting) + rest;
    assert(all.skip(1).skip(1) =~= rest);
    assert(total_traded(all) == all[0].trade_qty + total_traded(all.skip(1)));
    assert(total_traded(all.skip(1)) == all.skip(1)[0].trade_qty + total_traded(
        all.skip(1).skip(1),
    ));
    assert(all[0].trade_qty == fill_qty(aggressor, resting));
    assert(all.skip(1)[0].trade_qty == fill_qty(aggressor, resting));
}

/// Quantity is conserved: what the trade records of a match add up to is what
/// the aggressor and the resting orders together have less open than before.
/// Every fill is recorded once for each of its two orders, and takes as much
/// from the one as from the other.
pub proof fn lemma_quantity_conserved(aggressor: OrderView, resting: Seq<OrderView>)
    ensures
        total_traded(match_against(aggressor, resting).trades) == (aggressor.leaves_qty
            - match_against(aggressor, resting).aggressor.leaves_qty) + (total_leaves(resting)
            - total_leaves(match_against(aggressor, resting).resting)),
        aggressor.leaves_qty - match_against(aggressor, resting).aggressor.leaves_qty
            == total_leaves(resting) - total_leaves(match_against(aggressor, resting).resting),
    decreases resting.len(),
{
    if aggressor.leaves_qty == 0 || resting.len() == 0 || !crosses(aggressor, resting[0]) {
    } else {
        let maker = resting[0];
        let fill = fill_qty(aggressor, maker);
        let taker = aggressor.filled(fill as int);
        if fill == maker.leaves_qty {
            let rest = match_against(taker, resting.skip(1));
            lemma_quantity_conserved(taker, resting.skip(1));
            lemma_total_traded_fill(aggressor, maker, rest.trades);
        } else {
            let left = resting.update(0, maker.filled(fill as int));
            assert(left.skip(1) =~= resting.skip(1));
            lemma_total_traded_fill(aggressor, maker, Seq::empty());
            assert(fill_records(aggressor, maker) + Seq::<TradeView>::empty() =~= fill_records(
                aggressor,
                maker,
            ));
        }
    }
}

/// A match keeps every order what it was but for the quantities, and never
/// gives an order more to fill than it had. Of the resting orders the first
/// few, filled, are gone; the next may have less open than before; the others
/// are untouched. When the match ends, the aggressor is filled, or nothing
/// rests opposite, or the first order there is out of its reach.
pub proof fn lemma_match_shape(aggressor: OrderView, resting: Seq<OrderView>)
    requires
        aggressor.balanced(),
        forall|i: int| 0 <= i < resting.len() ==> (#[trigger] resting[i]).live(),
    ensures
        ({
            let end = match_against(aggressor, resting);
            let gone = resting.len() - end.resting.len();
            &&& 0 <= gone <= resting.len()
            &&& end.aggressor == aggressor.with_leaves(end.aggressor.leaves_qty)
            &&& end.aggressor.leaves_qty <= aggressor.leaves_qty
            &&& forall|i: int|
                0 <= i < end.resting.len() ==> {
                    &&& (#[trigger] end.resting[i]) == resting[gone + i].with_leaves(
                        end.resting[i].leaves_qty,
                    )
                    &&& 0 < end.resting[i].leaves_qty <= resting[gone + i].leaves_qty
                    &&& (i > 0 ==> end.resting[i] == resting[gone + i])
                }
            &&& (end.aggressor.leaves_qty == 0 || end.resting.len() == 0 || !crosses(
                end.aggressor,
                end.resting[0],
            ))
        }),
    decreases resting.len(),
{
    let end = match_against(aggressor, resting);
    if aggressor.leaves_qty == 0 || resting.len() == 0 || !crosses(aggressor, resting[0]) {
        assert forall|i: int| 0 <= i < end.resting.len() implies (#[trigger] end.resting[i])
            == resting[i].with_leaves(end.resting[i].leaves_qty) by {
            assert(resting[i].live());
        }
    } else {
        let maker = resting[0];
        let fill = fill_qty(aggressor, maker);
        let taker = aggressor.filled(fill as int);
        assert(maker.live());
        if fill == maker.leaves_qty {
            let tail = resting.skip(1);
            assert forall|i: int| 0 <= i < tail.len() implies (#[trigger] tail[i]).live() by {
                assert(tail[i] == resting[i + 1]);
            }
            lemma_match_shape(taker, tail);
            let gone = resting.len() - end.resting.len();
            assert forall|i: int| 0 <= i < end.resting.len() implies {
                &&& (#[trigger] end.resting[i]) == resting[gone + i].with_leaves(
                    end.resting[i].leaves_qty,
                )
                &&& 0 < end.resting[i].leaves_qty <= resting[gone + i].leaves_qty
                &&& (i > 0 ==> end.resting[i] == resting[gone + i])
            } by {
                assert(tail[gone - 1 + i] == resting[gone + i]);
            }
        } else {
            assert forall|i: int| 0 <= i < end.resting.len() implies {
                &&& (#[trigger] end.resting[i]) == resting[i].with_leaves(end.resting[i].leaves_qty)
                &&& 0 < end.resting[i].leaves_qty <= resting[i].leaves_qty
                &&& (i > 0 ==> end.resting[i] == resting[i])
            } by {
                assert(resting[i].live());
            }
        }
    }
}

/// No fill is more than either of its orders has open. The fills of a match
/// go down the opposite side in order: the records of the `j`-th fill are
/// those of the aggressor and of the `j`-th resting order, both at that
/// order's price and for one positive quantity. That quantity is no more
/// than the resting order has open, and no more than the earlier fills have
/// left open of the aggressor.
pub proof fn lemma_fills_bounded(aggressor: OrderView, resting: Seq<OrderView>, j: int)
    requires
        forall|i: int| 0 <= i < resting.len() ==> (#[trigger] resting[i]).leaves_qty > 0,
        0 <= j,
        2 * j < match_against(aggressor, resting).trades.len(),
    ensures
        ({
            let trades = match_against(aggressor, resting).trades;
            let fill = trades[2 * j].trade_qty;
            &&& 2 * j + 1 < trades.len()
            &&& j < resting.len()
            &&& trades[2 * j] == trade_record(aggressor, resting[j], resting[j].price, fill)
            &&& trades[2 * j + 1] == trade_record(resting[j], aggressor, resting[j].price, fill)
            &&& 0 < fill <= resting[j].leaves_qty
            &&& 2 * fill + total_traded(trades.take(2 * j)) <= 2 * aggressor.leaves_qty
            &&& crosses(aggressor, resting[j])
        }),
    decreases resting.len(),
{
    let trades = match_against(aggressor, resting).trades;
    if aggressor.leaves_qty == 0 || resting.len() == 0 || !crosses(aggressor, resting[0]) {
    } else {
        let maker = resting[0];
        let fill = fill_qty(aggressor, maker);
        let taker = aggressor.filled(fill as int);
        assert(maker.leaves_qty > 0);
        if j > 0 {
            let tail = resting.skip(1);
            let rest = match_against(taker, tail);
            assert(fill == maker.leaves_qty);
            assert forall|i: int| 0 <= i < tail.len() implies (#[trigger] tail[i]).leaves_qty > 0 by {
                assert(tail[i] == resting[i + 1]);
            }
            lemma_fills_bounded(taker, tail, j - 1);
            assert(trades[2 * j] == rest.trades[2 * (j - 1)]);
            assert(trades[2 * j + 1] == rest.trades[2 * (j - 1) + 1]);
            assert(tail[j - 1] == resting[j]);
            assert(trades.take(2 * j) =~= fill_records(aggressor, maker) + rest.trades.take(
                2 * (j - 1),
            ));
            lemma_total_traded_fill(aggressor, maker, rest.trades.take(2 * (j - 1)));
        } else {
            assert(trades.take(0) =~= Seq::<TradeView>::empty());
        }
    }
}

/// Within one match no two trade records carry the same identifier, given
/// that no two of the orders involved carry the same arrival stamp.
pub proof fn lemma_trade_ids_distinct(
    aggressor: OrderView,
    resting: Seq<OrderView>,
    p: int,
    q: int,
)
    requires
        forall|i: int| 0 <= i < resting.len() ==> (#[trigger] resting[i]).leaves_qty > 0,
        forall|i: int| 0 <= i < resting.len() ==> (#[trigger] resting[i]).seq != aggressor.seq,
        forall|i: int, j: int|
            0 <= i < j < resting.len() ==> (#[trigger] resting[i]).seq != (#[trigger] resting[j]).seq,
        0 <= p < q < match_against(aggressor, resting).trades.len(),
    ensures
        match_against(aggressor, resting).trades[p].trade_id != match_against(
            aggressor,
            resting,
        ).trades[q].trade_id,
{
    let first = p / 2;
    let second = q / 2;
    lemma_fills_bounded(aggressor, resting, first);
    lemma_fills_bounded(aggressor, resting, second);
    assert(p == 2 * first || p == 2 * first + 1);
    assert(q == 2 * second || q == 2 * second + 1);
    assert(resting[first].seq != aggressor.seq);
    assert(resting[second].seq != aggressor.seq);
    if first < second {
        assert(resting[first].seq != resting[second].seq);
    }
}

/// What each of the trades says.
pub open spec fn trade_views(trades: Seq<Trade>) -> Seq<TradeView> {
    trades.map_values(|t: Trade| t@)
}

/// Whether the aggressor's limit reaches the resting order's price.
pub fn orders_cross(aggressor: &Order, resting: &Order) -> (cross: bool)
    ensures
        cross == crosses(aggressor@, resting@),
{
    match aggressor.side {
        Side::Buy => aggressor.price >= resting.price,
        Side::Sell => aggressor.price <= resting.price,
    }
}

/// The matching algorithm.
pub struct MatchingEngine;

impl MatchingEngine {
    /// Matches the resting order `order_id` against the other side of its
    /// book, and reports the trades and where the order then stands. There
    /// is at most one fill for each order that rests on the other side.
    ///
    /// Fails with `OrderNotFound`, and leaves the book as it was, if no order
    /// with this identifier rests in the book.
    pub fn run(book: &mut OrderBook, order_id: &str) -> (res: Result<OrderResult, EngineError>)
        requires
            old(book).wf(),
        ensures
            final(book).wf(),
            match res {
                Ok(report) => {
                    &&& old(book)@.contains(order_id@)
                    &&& final(book)@ == matched(old(book)@, order_id@)
                    &&& trade_views(report.trades@) == match_of(old(book)@, order_id@).trades
                    &&& report.order@ == match_of(old(book)@, order_id@).aggressor
                    &&& report.final_state == report.order@.state()
                },
                Err(e) => {
                    &&& e == EngineError::OrderNotFound
                    &&& !old(book)@.contains(order_id@)
                    &&& final(book)@ == old(book)@
                },
            },
    {
        let ghost before = book@;
        let mut aggressor = match book.get(order_id) {
            Some(found) => found.clone(),
            None => {
                return Err(EngineError::OrderNotFound);
            },
        };
        let own = aggressor.side;
        let opposite = own.opposite();
        let ghost start = aggressor@;
        let ghost place = before.place(order_id@);
        proof {
            if holds(before.bids, order_id@) {
                let i = index_of(before.bids, order_id@);
                assert(before.bids[i].order_id == order_id@);
                assert(before.side_valid(Side::Buy));
                before.lemma_order_at(Side::Buy, i);
            } else {
                let i = index_of(before.asks, order_id@);
                assert(before.asks[i].order_id == order_id@);
                assert(before.side_valid(Side::Sell));
                before.lemma_order_at(Side::Sell, i);
            }
            assert(before.side(own)[place] == start);
            assert(start.live());
        }
        let mut trades: Vec<Trade> = Vec::new();
        loop
            invariant
                book.wf(),
                before.valid(),
                own == start.side,
                opposite == own.spec_opposite(),
                0 <= place < before.side(own).len(),
                before.side(own)[place] == start,
                start.order_id == order_id@,
                start.live(),
                book@ == before.with_side(opposite, book@.side(opposite)),
                aggressor.leaves_qty <= start.leaves_qty,
                aggressor@ == start.with_leaves(aggressor.leaves_qty),
                match_against(start, before.side(opposite)) == (MatchView {
                    trades: trade_views(trades@) + match_against(
                        aggressor@,
                        book@.side(opposite),
                    ).trades,
                    ..match_against(aggressor@, book@.side(opposite))
                }),
            ensures
                aggressor.leaves_qty == 0 || book@.side(opposite).len() == 0 || !crosses(
                    aggressor@,
                    book@.side(opposite)[0],
                ),
            decreases book@.side(opposite).len() + aggressor.leaves_qty,
        {
            if aggressor.leaves_qty == 0 {
                break ;
            }
            let resting = match book.best(opposite) {
                Some(top) => top.clone(),
                None => {
                    break ;
                },
            };
            if !orders_cross(&aggressor, &resting) {
                break ;
            }
            let ghost now = book@;
            let ghost taker = aggressor@;
            let ghost so_far = trades@;
            proof {
                assert(now.side_valid(opposite));
                assert(now.side(opposite)[0].live());
                now.lemma_order_at(opposite, 0);
            }
            let fill = if aggressor.leaves_qty <= resting.leaves_qty {
                aggressor.leaves_qty
            } else {
                resting.leaves_qty
            };
            trades.push(Trade::record(&aggressor, &resting, resting.price, fill));
            trades.push(Trade::record(&resting, &aggressor, resting.price, fill));
            aggressor.leaves_qty = aggressor.leaves_qty - fill;
            aggressor.cum_qty = aggressor.qty - aggressor.leaves_qty;
            match book.update_leaves(resting.order_id.as_str(), resting.leaves_qty - fill) {
                Ok(()) => {},
                Err(e) => {
                    return Err(e);
                },
            }
            proof {
                assert(aggressor@ == taker.filled(fill as int));
                assert(trade_views(trades@) =~= trade_views(so_far) + fill_records(taker, resting@));
                let was = match_against(taker, now.side(opposite));
                let is = match_against(aggressor@, book@.side(opposite));
                if fill == resting.leaves_qty {
                    now.lemma_removed_valid(opposite, 0);
                    assert(now.side(opposite).remove(0) =~= now.side(opposite).skip(1));
                    assert(book@.side(opposite) == now.side(opposite).skip(1));
                    assert(was.trades == fill_records(taker, resting@) + is.trades);
                } else {
                    now.lemma_updated_valid(opposite, 0, (resting.leaves_qty - fill) as u32);
                    assert(book@.side(opposite) == now.side(opposite).update(
                        0,
                        resting@.filled(fill as int),
                    ));
                    assert(was.trades == fill_records(taker, resting@));
                    assert(is.trades == Seq::<TradeView>::empty());
                }
                assert(trade_views(trades@) + is.trades =~= trade_views(so_far) + was.trades);
            }
        }
        let ghost now = book@;
        proof {
            assert(now.side(own) == before.side(own));
            now.lemma_order_at(own, place);
        }
        match book.update_leaves(order_id, aggressor.leaves_qty) {
            Ok(()) => {},
            Err(e) => {
                return Err(e);
            },
        }
        let final_state = aggressor.state();
        Ok(OrderResult { trades, order: aggressor, final_state })
    }
}

} // verus!
