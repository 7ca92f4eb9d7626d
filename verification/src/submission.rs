//! The arrival of an order at the book of its symbol.
//!
//! An order that arrives is added to the book and matched against the
//! opposite side. [`process_order`] does both; while it runs, nothing else
//! may touch the book.

use vstd::prelude::*;
use crate::book::OrderBook;
use crate::book_view::{holds, index_of, replaced, without, BookView};
use crate::matching::{
    lemma_match_shape, match_against, match_of, matched, trade_views, MatchView, MatchingEngine,
};
use crate::order::{EngineError, Order, OrderResult, OrderState, OrderView, Side};
use crate::priority::{count_ahead, lemma_count_ahead, lemma_count_ahead_by_rank, rank_insert};

verus! {

/// The match that the arrival of `o` at `book` sets off: `o`, under the next
/// arrival stamp, against the opposite side.
pub open spec fn submission(book: BookView, o: OrderView) -> MatchView {
    match_against(o.stamped(book.next_seq), book.side(o.side.spec_opposite()))
}

/// The book after `o` has arrived. A book that cannot add `o` stays as it is.
/// Otherwise the opposite side is what the match left of it, and what `o` has
/// left open rests on its own side, ranked by the stamp it arrived under.
pub open spec fn submitted(book: BookView, o: OrderView) -> BookView {
    if book.add_error(o) is Some {
        book
    } else {
        let outcome = submission(book, o);
        let crossed = BookView {
            next_seq: (book.next_seq + 1) as u64,
            ..book.with_side(o.side.spec_opposite(), outcome.resting)
        };
        if outcome.aggressor.leaves_qty == 0 {
            crossed
        } else {
            crossed.with_side(o.side, rank_insert(o.side, book.side(o.side), outcome.aggressor))
        }
    }
}

/// A sequence in which no order has the identifier `id` is what it is
/// without that identifier.
proof fn lemma_absent(s: Seq<OrderView>, id: Seq<char>, o: OrderView)
    requires
        forall|i: int| 0 <= i < s.len() ==> (#[trigger] s[i]).order_id != id,
    ensures
        !holds(s, id),
        without(s, id) == s,
        replaced(s, id, o) == s,
{
    if holds(s, id) {
        let i = index_of(s, id);
        assert(s[i].order_id == id);
    }
}

/// An order placed into a sequence that lacked its identifier is found where
/// it was placed; taking it out again gives the sequence back, and putting
/// another in its place is as if that one had been placed there at first.
proof fn lemma_placed(s: Seq<OrderView>, k: int, placed: OrderView, other: OrderView)
    requires
        0 <= k <= s.len(),
        forall|i: int| 0 <= i < s.len() ==> (#[trigger] s[i]).order_id != placed.order_id,
    ensures
        holds(s.insert(k, placed), placed.order_id),
        index_of(s.insert(k, placed), placed.order_id) == k,
        without(s.insert(k, placed), placed.order_id) == s,
        replaced(s.insert(k, placed), placed.order_id, other) == s.insert(k, other),
{
    let t = s.insert(k, placed);
    let id = placed.order_id;
    assert(t[k].order_id == id);
    let i = index_of(t, id);
    if i < k {
        assert(t[i] == s[i]);
    } else if i > k {
        assert(t[i] == s[i - 1]);
    }
    assert(t.remove(k) =~= s);
    assert(t.update(k, other) =~= s.insert(k, other));
}

/// The match that adding `o` to a valid book and matching it there sets off
/// is the match of `o`'s arrival.
proof fn lemma_added_match(book: BookView, o: OrderView)
    requires
        book.valid(),
        book.add_error(o) is None,
    ensures
        match_of(book.added(o), o.order_id) == submission(book, o),
{
    book.lemma_added_valid(o);
}

/// To add an order and then match it is to match it first and then rest what
/// it has left open, under the stamp it arrived with.
pub proof fn lemma_add_then_match(book: BookView, o: OrderView)
    requires
        book.valid(),
        book.add_error(o) is None,
    ensures
        match_of(book.added(o), o.order_id) == submission(book, o),
        matched(book.added(o), o.order_id) == submitted(book, o),
{
    lemma_added_match(book, o);
    let id = o.order_id;
    let side = o.side;
    let opposite = side.spec_opposite();
    let stamped = o.stamped(book.next_seq);
    let own = book.side(side);
    let facing = book.side(opposite);
    let k = count_ahead(side, own, stamped) as int;
    let outcome = submission(book, o);
    let left = outcome.aggressor;
    assert(0 <= k <= own.len()) by {
        assert(book.side_valid(side));
        lemma_count_ahead(side, own, stamped);
    }
    assert forall|i: int| 0 <= i < own.len() implies (#[trigger] own[i]).order_id != id by {
        assert(!holds(own, id));
    }
    assert(left == stamped.with_leaves(left.leaves_qty) && (forall|i: int|
        0 <= i < outcome.resting.len() ==> (#[trigger] outcome.resting[i]).order_id != id)) by {
        assert(book.side_valid(opposite));
        assert forall|i: int| 0 <= i < facing.len() implies (#[trigger] facing[i]).live() by {}
        lemma_match_shape(stamped, facing);
        let gone = facing.len() - outcome.resting.len();
        assert forall|i: int| 0 <= i < outcome.resting.len() implies (
        #[trigger] outcome.resting[i]).order_id != id by {
            assert(outcome.resting[i].order_id == facing[gone + i].order_id);
            assert(!holds(facing, id));
        }
    }
    lemma_placed(own, k, stamped, left);
    lemma_absent(outcome.resting, id, left);
    lemma_count_ahead_by_rank(side, own, stamped, left);
    let added = book.added(o);
    let crossed = added.with_side(opposite, outcome.resting);
    assert(added.side(side) == own.insert(k, stamped));
    assert(crossed.side(side) == own.insert(k, stamped));
    assert(crossed.side(opposite) == outcome.resting);
    assert(crossed.order(id) == stamped);
    match side {
        Side::Buy => {
            assert(crossed.bids == own.insert(k, stamped));
            assert(crossed.asks == outcome.resting);
        },
        Side::Sell => {
            assert(crossed.asks == own.insert(k, stamped));
            assert(crossed.bids == outcome.resting);
        },
    }
}

/// An order that has arrived and rests is not taken in twice: the arrival of
/// another order with its identifier is rejected as a duplicate.
pub proof fn lemma_resubmission_rejected(book: BookView, first: OrderView, second: OrderView)
    requires
        book.valid(),
        book.add_error(first) is None,
        submission(book, first).aggressor.leaves_qty > 0,
        second.order_id == first.order_id,
        second.symbol == book.symbol,
        second.fresh(),
    ensures
        submitted(book, first).add_error(second) == Some(EngineError::DuplicateOrder),
        submitted(submitted(book, first), second) == submitted(book, first),
{
    let side = first.side;
    let own = book.side(side);
    let left = submission(book, first).aggressor;
    let k = count_ahead(side, own, left) as int;
    assert(book.side_valid(side));
    lemma_count_ahead(side, own, left);
    assert(book.side_valid(side.spec_opposite()));
    assert forall|i: int| 0 <= i < book.side(side.spec_opposite()).len() implies (
    #[trigger] book.side(side.spec_opposite())[i]).live() by {}
    lemma_match_shape(first.stamped(book.next_seq), book.side(side.spec_opposite()));
    assert(rank_insert(side, own, left)[k].order_id == first.order_id);
    assert(holds(submitted(book, first).side(side), first.order_id));
}

/// Handles the arrival of one order at the book of its symbol: adds it, and
/// matches it against the opposite side.
///
/// The order is rejected, and the book left as it was, if the book cannot add
/// it. Otherwise the result holds the records of its fills in the order in
/// which they took place, the order as it stands after them, and its state.
pub fn process_order(book: &mut OrderBook, order: Order) -> (result: OrderResult)
    requires
        old(book).wf(),
    ensures
        final(book).wf(),
        final(book)@ == submitted(old(book)@, order@),
        match old(book)@.add_error(order@) {
            Some(e) => {
                &&& result.final_state == OrderState::Rejected(e)
                &&& result.trades@.len() == 0
                &&& result.order@ == order@
            },
            None => {
                &&& trade_views(result.trades@) == submission(old(book)@, order@).trades
                &&& result.order@ == submission(old(book)@, order@).aggressor
                &&& result.final_state == result.order@.state()
            },
        },
{
    let submitted = order.clone();
    match book.add_order(order) {
        Err(e) => OrderResult {
            trades: Vec::new(),
            order: submitted,
            final_state: OrderState::Rejected(e),
        },
        Ok(()) => {
            proof {
                old(book)@.lemma_added_valid(order@);
                lemma_add_then_match(old(book)@, order@);
            }
            match MatchingEngine::run(book, submitted.order_id.as_str()) {
                Ok(report) => report,
                Err(e) => {
                    proof {
                        assert(false);
                    }
                    OrderResult {
                        trades: Vec::new(),
                        order: submitted,
                        final_state: OrderState::Rejected(e),
                    }
                },
            }
        },
    }
}

} // verus!
