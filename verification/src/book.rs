//! The order book of one symbol.
//!
//! Behind the view of [`BookView`] stand one priority queue for each side,
//! which ranks the identifiers of the resting orders, and an index from
//! identifier to order. Every operation keeps the three in step.

use vstd::prelude::*;
use vstd::hash_map::StringHashMap;
use crate::book_view::{
    distinct_ids, holds, index_of, lemma_holds_insert, lemma_holds_remove, lemma_index_of,
    BookView, Snapshot,
};
use crate::order::{EngineError, Order, OrderResult, OrderState, OrderView, Side};
use crate::priority::{
    count_ahead, key_le, lemma_count_ahead, lemma_key_order, rank_insert, rank_key, rank_key_of,
    ranked, RankKey,
};
use crate::queue::{
    queue_entries, queue_len, queue_new, queue_peek, queue_pop, queue_push, queue_remove,
    SideQueue,
};

verus! {

/// The order book of one symbol.
pub struct OrderBook {
    symbol: String,
    bids: SideQueue,
    asks: SideQueue,
    order_id_mapping: StringHashMap<Order>,
    next_seq: u64,
    bid_rank: Ghost<Seq<OrderView>>,
    ask_rank: Ghost<Seq<OrderView>>,
}

/// One side's queue and the index agree with the orders `rank` of that side:
/// each order is indexed under its identifier and queued under its key, and
/// the queue holds nothing else.
spec fn side_inv(
    side: Side,
    rank: Seq<OrderView>,
    entries: Map<Seq<char>, RankKey>,
    index: Map<Seq<char>, Order>,
) -> bool {
    &&& forall|i: int|
        0 <= i < rank.len() ==> {
            let o = #[trigger] rank[i];
            &&& index.contains_key(o.order_id)
            &&& index[o.order_id]@ == o
            &&& entries.contains_key(o.order_id)
            &&& entries[o.order_id] == rank_key_of(side, o.price, o.seq)
        }
    &&& forall|id: Seq<char>| #[trigger] entries.contains_key(id) ==> holds(rank, id)
}

/// Adding an order to a side keeps that side's queue and the index in step
/// with its orders.
proof fn lemma_side_inv_insert(
    side: Side,
    rank: Seq<OrderView>,
    entries: Map<Seq<char>, RankKey>,
    index: Map<Seq<char>, Order>,
    o: Order,
)
    requires
        side_inv(side, rank, entries, index),
        ranked(side, rank),
        !index.contains_key(o@.order_id),
    ensures
        side_inv(
            side,
            rank_insert(side, rank, o@),
            entries.insert(o@.order_id, rank_key_of(side, o@.price, o@.seq)),
            index.insert(o@.order_id, o),
        ),
{
    lemma_count_ahead(side, rank, o@);
    let k = count_ahead(side, rank, o@) as int;
    let t = rank_insert(side, rank, o@);
    let entries2 = entries.insert(o@.order_id, rank_key_of(side, o@.price, o@.seq));
    let index2 = index.insert(o@.order_id, o);
    assert forall|i: int| 0 <= i < t.len() implies {
        let x = #[trigger] t[i];
        &&& index2.contains_key(x.order_id)
        &&& index2[x.order_id]@ == x
        &&& entries2.contains_key(x.order_id)
        &&& entries2[x.order_id] == rank_key_of(side, x.price, x.seq)
    } by {
        if i < k {
            assert(t[i] == rank[i]);
        } else if i > k {
            assert(t[i] == rank[i - 1]);
        }
    }
    assert forall|id: Seq<char>| #[trigger] entries2.contains_key(id) implies holds(t, id) by {
        lemma_holds_insert(rank, k, o@, id);
    }
}

/// Indexing an order that no side holds leaves a side in step with its orders.
proof fn lemma_side_inv_indexed(
    side: Side,
    rank: Seq<OrderView>,
    entries: Map<Seq<char>, RankKey>,
    index: Map<Seq<char>, Order>,
    o: Order,
)
    requires
        side_inv(side, rank, entries, index),
        !index.contains_key(o@.order_id),
    ensures
        side_inv(side, rank, entries, index.insert(o@.order_id, o)),
{
    let index2 = index.insert(o@.order_id, o);
    assert forall|i: int| 0 <= i < rank.len() implies {
        let x = #[trigger] rank[i];
        &&& index2.contains_key(x.order_id)
        &&& index2[x.order_id]@ == x
    } by {
        assert(index.contains_key(rank[i].order_id));
    }
}

/// Taking an order off a side keeps that side's queue and the index in step
/// with its orders.
proof fn lemma_side_inv_remove(
    side: Side,
    rank: Seq<OrderView>,
    entries: Map<Seq<char>, RankKey>,
    index: Map<Seq<char>, Order>,
    i: int,
)
    requires
        side_inv(side, rank, entries, index),
        distinct_ids(rank),
        0 <= i < rank.len(),
    ensures
        side_inv(
            side,
            rank.remove(i),
            entries.remove(rank[i].order_id),
            index.remove(rank[i].order_id),
        ),
{
    let gone = rank[i].order_id;
    let t = rank.remove(i);
    let entries2 = entries.remove(gone);
    let index2 = index.remove(gone);
    assert forall|j: int| 0 <= j < t.len() implies {
        let x = #[trigger] t[j];
        &&& index2.contains_key(x.order_id)
        &&& index2[x.order_id]@ == x
        &&& entries2.contains_key(x.order_id)
        &&& entries2[x.order_id] == rank_key_of(side, x.price, x.seq)
    } by {
        if j < i {
            assert(t[j] == rank[j]);
            assert(rank[j].order_id != rank[i].order_id);
        } else {
            assert(t[j] == rank[j + 1]);
            assert(rank[i].order_id != rank[j + 1].order_id);
        }
    }
    assert forall|id: Seq<char>| #[trigger] entries2.contains_key(id) implies holds(t, id) by {
        lemma_holds_remove(rank, i, id);
    }
}

/// Dropping from the index an order that a side does not hold leaves that
/// side in step with its orders.
proof fn lemma_side_inv_unindexed(
    side: Side,
    rank: Seq<OrderView>,
    entries: Map<Seq<char>, RankKey>,
    index: Map<Seq<char>, Order>,
    id: Seq<char>,
)
    requires
        side_inv(side, rank, entries, index),
        !holds(rank, id),
    ensures
        side_inv(side, rank, entries, index.remove(id)),
{
    let index2 = index.remove(id);
    assert forall|i: int| 0 <= i < rank.len() implies {
        let x = #[trigger] rank[i];
        &&& index2.contains_key(x.order_id)
        &&& index2[x.order_id]@ == x
    } by {
        assert(index.contains_key(rank[i].order_id));
    }
}

/// Writing a new open quantity into an order of a side keeps that side's
/// queue and the index in step with its orders.
proof fn lemma_side_inv_update(
    side: Side,
    rank: Seq<OrderView>,
    entries: Map<Seq<char>, RankKey>,
    index: Map<Seq<char>, Order>,
    i: int,
    o: Order,
)
    requires
        side_inv(side, rank, entries, index),
        distinct_ids(rank),
        0 <= i < rank.len(),
        o@.order_id == rank[i].order_id,
        o@.price == rank[i].price,
        o@.seq == rank[i].seq,
    ensures
        side_inv(side, rank.update(i, o@), entries, index.insert(o@.order_id, o)),
{
    let t = rank.update(i, o@);
    let index2 = index.insert(o@.order_id, o);
    assert forall|j: int| 0 <= j < t.len() implies {
        let x = #[trigger] t[j];
        &&& index2.contains_key(x.order_id)
        &&& index2[x.order_id]@ == x
        &&& entries.contains_key(x.order_id)
        &&& entries[x.order_id] == rank_key_of(side, x.price, x.seq)
    } by {
        if j < i {
            assert(t[j] == rank[j]);
            assert(rank[j].order_id != rank[i].order_id);
        } else if j > i {
            assert(t[j] == rank[j]);
            assert(rank[i].order_id != rank[j].order_id);
        } else {
            assert(entries.contains_key(rank[i].order_id));
        }
    }
    assert forall|id: Seq<char>| #[trigger] entries.contains_key(id) implies holds(t, id) by {
        let j = index_of(rank, id);
        assert(t[j].order_id == id);
    }
}

/// Overwriting in the index an order that a side does not hold leaves that
/// side in step with its orders.
proof fn lemma_side_inv_reindexed(
    side: Side,
    rank: Seq<OrderView>,
    entries: Map<Seq<char>, RankKey>,
    index: Map<Seq<char>, Order>,
    o: Order,
)
    requires
        side_inv(side, rank, entries, index),
        !holds(rank, o@.order_id),
    ensures
        side_inv(side, rank, entries, index.insert(o@.order_id, o)),
{
    let index2 = index.insert(o@.order_id, o);
    assert forall|i: int| 0 <= i < rank.len() implies {
        let x = #[trigger] rank[i];
        &&& index2.contains_key(x.order_id)
        &&& index2[x.order_id]@ == x
    } by {
        assert(index.contains_key(rank[i].order_id));
    }
}

impl View for OrderBook {
    type V = BookView;

    closed spec fn view(&self) -> BookView {
        BookView {
            symbol: self.symbol@,
            bids: self.bid_rank@,
            asks: self.ask_rank@,
            next_seq: self.next_seq,
        }
    }
}

impl OrderBook {
    /// The queues and the index hold exactly the orders of the view.
    pub closed spec fn inv(&self) -> bool {
        &&& side_inv(Side::Buy, self.bid_rank@, queue_entries(self.bids), self.order_id_mapping@)
        &&& side_inv(Side::Sell, self.ask_rank@, queue_entries(self.asks), self.order_id_mapping@)
        &&& forall|id: Seq<char>| #[trigger]
            self.order_id_mapping@.contains_key(id) ==> holds(self.bid_rank@, id) || holds(
                self.ask_rank@,
                id,
            )
    }

    /// The book is well formed: its parts agree with its view, and the view is valid.
    pub open spec fn wf(&self) -> bool {
        self.inv() && self@.valid()
    }

    /// An empty book for `symbol`, whose first order will carry the stamp 0.
    pub fn new(symbol: String) -> (book: OrderBook)
        ensures
            book.wf(),
            book@ == (BookView { symbol: symbol@, bids: Seq::empty(), asks: Seq::empty(), next_seq: 0 }),
    {
        OrderBook::starting_at(symbol, 0)
    }

    /// An empty book for `symbol`, whose first order will carry the stamp
    /// `next_seq`. A book that takes the place of an earlier one starts
    /// where that one stopped, so that no stamp is handed out twice.
    pub fn starting_at(symbol: String, next_seq: u64) -> (book: OrderBook)
        ensures
            book.wf(),
            book@ == (BookView { symbol: symbol@, bids: Seq::empty(), asks: Seq::empty(), next_seq }),
    {
        OrderBook {
            symbol,
            bids: queue_new(),
            asks: queue_new(),
            order_id_mapping: StringHashMap::new(),
            next_seq,
            bid_rank: Ghost(Seq::empty()),
            ask_rank: Ghost(Seq::empty()),
        }
    }

    /// The symbol the book is kept for.
    pub fn symbol(&self) -> (symbol: &String)
        ensures
            symbol@ == self@.symbol,
    {
        &self.symbol
    }

    /// An order is indexed exactly when it rests on one of the sides.
    proof fn lemma_indexed(&self, id: Seq<char>)
        requires
            self.wf(),
        ensures
            self.order_id_mapping@.contains_key(id) <==> self@.contains(id),
            self@.contains(id) ==> self.order_id_mapping@[id]@ == self@.order(id),
            self@.contains(id) ==> (holds(self@.side(self@.order(id).side), id) && !holds(
                self@.side(self@.order(id).side.spec_opposite()),
                id,
            )),
    {
        if holds(self.bid_rank@, id) {
            let i = index_of(self.bid_rank@, id);
            assert(self.bid_rank@[i].order_id == id);
            assert(self@.side(Side::Buy)[i].side == Side::Buy);
            if holds(self.ask_rank@, id) {
                let j = index_of(self.ask_rank@, id);
                assert(self.bid_rank@[i].order_id != self.ask_rank@[j].order_id);
            }
        } else if holds(self.ask_rank@, id) {
            let j = index_of(self.ask_rank@, id);
            assert(self.ask_rank@[j].order_id == id);
            assert(self@.side(Side::Sell)[j].side == Side::Sell);
        }
    }

    /// Whether an order with this identifier rests in the book.
    pub fn contains(&self, order_id: &str) -> (found: bool)
        requires
            self.wf(),
        ensures
            found == self@.contains(order_id@),
    {
        proof {
            self.lemma_indexed(order_id@);
        }
        self.order_id_mapping.contains_key(order_id)
    }

    /// The resting order with this identifier, if there is one.
    pub fn get(&self, order_id: &str) -> (found: Option<&Order>)
        requires
            self.wf(),
        ensures
            match found {
                Some(order) => self@.contains(order_id@) && order@ == self@.order(order_id@),
                None => !self@.contains(order_id@),
            },
    {
        proof {
            self.lemma_indexed(order_id@);
        }
        self.order_id_mapping.get(order_id)
    }
    /// What the queue of one side holds.
    spec fn entries(&self, side: Side) -> Map<Seq<char>, RankKey> {
        match side {
            Side::Buy => queue_entries(self.bids),
            Side::Sell => queue_entries(self.asks),
        }
    }

    /// The identifier that a side's queue ranks highest is that of the first
    /// order of the side.
    proof fn lemma_top(&self, side: Side, id: Seq<char>, key: RankKey)
        requires
            self.wf(),
            self.entries(side).contains_key(id),
            self.entries(side)[id] == key,
            forall|other: Seq<char>| #[trigger]
                self.entries(side).contains_key(other) ==> key_le(self.entries(side)[other], key),
        ensures
            self@.side(side).len() > 0,
            self@.side(side)[0].order_id == id,
            key == rank_key_of(side, self@.side(side)[0].price, self@.side(side)[0].seq),
    {
        let s = self@.side(side);
        assert(side_inv(side, s, self.entries(side), self.order_id_mapping@));
        assert(holds(s, id));
        let i = index_of(s, id);
        assert(s[i].order_id == id);
        if i > 0 {
            lemma_key_order(side, s[0], s[i]);
            assert(self.entries(side).contains_key(s[0].order_id));
            assert(false);
        }
    }

    /// A side whose queue is empty has no orders.
    proof fn lemma_none(&self, side: Side)
        requires
            self.wf(),
            self.entries(side).dom() == Set::<Seq<char>>::empty(),
        ensures
            self@.side(side).len() == 0,
    {
        let s = self@.side(side);
        assert(side_inv(side, s, self.entries(side), self.order_id_mapping@));
        if s.len() > 0 {
            assert(self.entries(side).contains_key(s[0].order_id));
            assert(self.entries(side).dom().contains(s[0].order_id));
        }
    }

    /// The order of `side` that trades first, if the side has any.
    pub fn best(&self, side: Side) -> (top: Option<&Order>)
        requires
            self.wf(),
        ensures
            match top {
                Some(order) => self@.side(side).len() > 0 && order@ == self@.side(side)[0],
                None => self@.side(side).len() == 0,
            },
    {
        let top = match side {
            Side::Buy => queue_peek(&self.bids),
            Side::Sell => queue_peek(&self.asks),
        };
        match top {
            None => {
                proof {
                    self.lemma_none(side);
                }
                None
            },
            Some((id, key)) => {
                proof {
                    self.lemma_top(side, id@, key);
                    lemma_index_of(self@.side(side), 0);
                    self.lemma_indexed(id@);
                }
                self.order_id_mapping.get(id.as_str())
            },
        }
    }

    /// Adds a new order to the book, behind every resting order of its side
    /// that outranks it, under the next arrival stamp. Nothing is matched.
    ///
    /// The order is turned down, and the book left as it was, if it is for
    /// another symbol, is not fresh, shares its identifier with a resting
    /// order, or if the arrival stamps have run out.
    pub fn add_order(&mut self, order: Order) -> (res: Result<(), EngineError>)
        requires
            old(self).wf(),
        ensures
            final(self).wf(),
            match res {
                Ok(()) => old(self)@.add_error(order@) is None && final(self)@ == old(self)@.added(
                    order@,
                ),
                Err(e) => old(self)@.add_error(order@) == Some(e) && final(self)@ == old(self)@,
            },
    {
        if order.symbol != self.symbol {
            return Err(EngineError::UnknownSymbol);
        }
        if !order.is_fresh() {
            return Err(EngineError::InvalidOrder);
        }
        proof {
            self.lemma_indexed(order@.order_id);
        }
        if self.order_id_mapping.contains_key(order.order_id.as_str()) {
            return Err(EngineError::DuplicateOrder);
        }
        if self.next_seq == u64::MAX {
            return Err(EngineError::SequenceExhausted);
        }
        let ghost before = *self;
        let mut stamped = order;
        stamped.seq = self.next_seq;
        let side = stamped.side;
        let key = rank_key(side, stamped.price, stamped.seq);
        proof {
            assert(stamped@ == order@.stamped(self.next_seq));
            lemma_count_ahead(side, before@.side(side), stamped@);
            lemma_side_inv_insert(
                side,
                before@.side(side),
                before.entries(side),
                before.order_id_mapping@,
                stamped,
            );
            lemma_side_inv_indexed(
                side.spec_opposite(),
                before@.side(side.spec_opposite()),
                before.entries(side.spec_opposite()),
                before.order_id_mapping@,
                stamped,
            );
        }
        match side {
            Side::Buy => {
                queue_push(&mut self.bids, stamped.order_id.clone(), key);
                self.bid_rank = Ghost(rank_insert(Side::Buy, self.bid_rank@, stamped@));
            },
            Side::Sell => {
                queue_push(&mut self.asks, stamped.order_id.clone(), key);
                self.ask_rank = Ghost(rank_insert(Side::Sell, self.ask_rank@, stamped@));
            },
        }
        self.next_seq = self.next_seq + 1;
        self.order_id_mapping.insert(stamped.order_id.clone(), stamped);
        proof {
            let k = count_ahead(side, before@.side(side), stamped@) as int;
            assert(self@ == before@.added(order@));
            assert forall|id: Seq<char>| #[trigger]
                self.order_id_mapping@.contains_key(id) implies holds(self.bid_rank@, id) || holds(
                self.ask_rank@,
                id,
            ) by {
                lemma_holds_insert(before@.side(side), k, stamped@, id);
            }
            assert(self.inv());
            before@.lemma_added_valid(order@);
        }
        Ok(())
    }
    /// Once the order at place `i` of `side` is out of the side's queue, out
    /// of the index and out of the rank, the book is well formed and is the
    /// book without that order.
    proof fn lemma_taken(before: &OrderBook, after: &OrderBook, side: Side, i: int)
        requires
            before.wf(),
            0 <= i < before@.side(side).len(),
            after@ == before@.with_side(side, before@.side(side).remove(i)),
            after.entries(side) == before.entries(side).remove(before@.side(side)[i].order_id),
            after.entries(side.spec_opposite()) == before.entries(side.spec_opposite()),
            after.order_id_mapping@ == before.order_id_mapping@.remove(
                before@.side(side)[i].order_id,
            ),
        ensures
            after.wf(),
            after@ == before@.removed(before@.side(side)[i].order_id),
    {
        let id = before@.side(side)[i].order_id;
        before@.lemma_removed_valid(side, i);
        before@.lemma_order_at(side, i);
        assert(before@.side_valid(side));
        lemma_side_inv_remove(
            side,
            before@.side(side),
            before.entries(side),
            before.order_id_mapping@,
            i,
        );
        lemma_side_inv_unindexed(
            side.spec_opposite(),
            before@.side(side.spec_opposite()),
            before.entries(side.spec_opposite()),
            before.order_id_mapping@,
            id,
        );
        assert(after@.side(side.spec_opposite()) == before@.side(side.spec_opposite()));
        assert forall|other: Seq<char>| #[trigger]
            after.order_id_mapping@.contains_key(other) implies holds(after.bid_rank@, other)
            || holds(after.ask_rank@, other) by {
            lemma_holds_remove(before@.side(side), i, other);
            assert(before.order_id_mapping@.contains_key(other));
        }
        assert(side_inv(
            side,
            after@.side(side),
            after.entries(side),
            after.order_id_mapping@,
        ));
        assert(side_inv(
            side.spec_opposite(),
            after@.side(side.spec_opposite()),
            after.entries(side.spec_opposite()),
            after.order_id_mapping@,
        ));
        assert(after.inv());
    }

    /// Takes the order of `side` that trades first out of the book and
    /// returns it, if the side has any.
    pub fn pop_order(&mut self, side: Side) -> (top: Option<Order>)
        requires
            old(self).wf(),
        ensures
            final(self).wf(),
            match top {
                Some(order) => {
                    &&& old(self)@.side(side).len() > 0
                    &&& order@ == old(self)@.side(side)[0]
                    &&& final(self)@ == old(self)@.with_side(side, old(self)@.side(side).skip(1))
                },
                None => old(self)@.side(side).len() == 0 && final(self)@ == old(self)@,
            },
    {
        let ghost before = *self;
        let top = match side {
            Side::Buy => queue_pop(&mut self.bids),
            Side::Sell => queue_pop(&mut self.asks),
        };
        match top {
            None => {
                proof {
                    before.lemma_none(side);
                    assert(self.inv());
                }
                None
            },
            Some((id, key)) => {
                proof {
                    before.lemma_top(side, id@, key);
                    before@.lemma_order_at(side, 0);
                    before.lemma_indexed(id@);
                }
                let order = match self.order_id_mapping.get(id.as_str()) {
                    Some(found) => found.clone(),
                    None => {
                        proof {
                            assert(false);
                        }
                        return None;
                    },
                };
                self.order_id_mapping.remove(id.as_str());
                proof {
                    let rest = before@.side(side).remove(0);
                    assert(rest =~= before@.side(side).skip(1));
                    match side {
                        Side::Buy => {
                            self.bid_rank = Ghost(rest);
                        },
                        Side::Sell => {
                            self.ask_rank = Ghost(rest);
                        },
                    }
                    assert(self@ == before@.with_side(side, rest));
                    Self::lemma_taken(&before, self, side, 0);
                }
                Some(order)
            },
        }
    }

    /// Takes the order with this identifier out of the book and returns it,
    /// if it rests there.
    pub fn remove(&mut self, order_id: &str) -> (removed: Option<Order>)
        requires
            old(self).wf(),
        ensures
            final(self).wf(),
            match removed {
                Some(order) => {
                    &&& old(self)@.contains(order_id@)
                    &&& order@ == old(self)@.order(order_id@)
                    &&& final(self)@ == old(self)@.removed(order_id@)
                },
                None => !old(self)@.contains(order_id@) && final(self)@ == old(self)@,
            },
    {
        let ghost before = *self;
        proof {
            before.lemma_indexed(order_id@);
        }
        let order = match self.order_id_mapping.get(order_id) {
            Some(found) => found.clone(),
            None => {
                return None;
            },
        };
        let side = order.side;
        let ghost i = index_of(before@.side(side), order_id@);
        proof {
            assert(before@.side(side)[i].order_id == order_id@);
            before@.lemma_order_at(side, i);
        }
        match side {
            Side::Buy => {
                queue_remove(&mut self.bids, order_id);
                self.bid_rank = Ghost(self.bid_rank@.remove(i));
            },
            Side::Sell => {
                queue_remove(&mut self.asks, order_id);
                self.ask_rank = Ghost(self.ask_rank@.remove(i));
            },
        }
        self.order_id_mapping.remove(order_id);
        proof {
            assert(self@ == before@.with_side(side, before@.side(side).remove(i)));
            Self::lemma_taken(&before, self, side, i);
        }
        Some(order)
    }

    /// Sets the open quantity of a resting order after a fill. With nothing
    /// left open the order leaves the book; otherwise it keeps its place and
    /// its priority.
    ///
    /// Fails, and leaves the book as it was, if no such order rests in the
    /// book, or if `new_leaves_qty` is more than is open now.
    pub fn update_leaves(&mut self, order_id: &str, new_leaves_qty: u32) -> (res: Result<
        (),
        EngineError,
    >)
        requires
            old(self).wf(),
        ensures
            final(self).wf(),
            match res {
                Ok(()) => {
                    &&& old(self)@.update_error(order_id@, new_leaves_qty) is None
                    &&& final(self)@ == old(self)@.leaves_set(order_id@, new_leaves_qty)
                },
                Err(e) => {
                    &&& old(self)@.update_error(order_id@, new_leaves_qty) == Some(e)
                    &&& final(self)@ == old(self)@
                },
            },
    {
        let ghost before = *self;
        proof {
            before.lemma_indexed(order_id@);
        }
        let mut order = match self.order_id_mapping.get(order_id) {
            Some(found) => found.clone(),
            None => {
                return Err(EngineError::OrderNotFound);
            },
        };
        if new_leaves_qty > order.leaves_qty {
            return Err(EngineError::InvalidOrder);
        }
        if new_leaves_qty == 0 {
            self.remove(order_id);
            return Ok(());
        }
        let side = order.side;
        let ghost i = index_of(before@.side(side), order_id@);
        proof {
            assert(before@.side(side)[i].order_id == order_id@);
            before@.lemma_order_at(side, i);
            before@.lemma_updated_valid(side, i, new_leaves_qty);
            assert(before@.side_valid(side));
            assert(before@.side(side)[i].live());
        }
        order.leaves_qty = new_leaves_qty;
        order.cum_qty = order.qty - new_leaves_qty;
        proof {
            assert(order@ == before@.order(order_id@).with_leaves(new_leaves_qty));
            lemma_side_inv_update(
                side,
                before@.side(side),
                before.entries(side),
                before.order_id_mapping@,
                i,
                order,
            );
            lemma_side_inv_reindexed(
                side.spec_opposite(),
                before@.side(side.spec_opposite()),
                before.entries(side.spec_opposite()),
                before.order_id_mapping@,
                order,
            );
            match side {
                Side::Buy => {
                    self.bid_rank = Ghost(self.bid_rank@.update(i, order@));
                },
                Side::Sell => {
                    self.ask_rank = Ghost(self.ask_rank@.update(i, order@));
                },
            }
        }
        self.order_id_mapping.insert(order.order_id.clone(), order);
        proof {
            assert(self@ == before@.with_side(side, before@.side(side).update(i, order@)));
            assert forall|other: Seq<char>| #[trigger]
                self.order_id_mapping@.contains_key(other) implies holds(self.bid_rank@, other)
                || holds(self.ask_rank@, other) by {
                if other == order_id@ {
                    assert(self@.side(side)[i].order_id == other);
                } else {
                    assert(before.order_id_mapping@.contains_key(other));
                    if holds(before@.side(side), other) {
                        let j = index_of(before@.side(side), other);
                        assert(self@.side(side)[j].order_id == other);
                    }
                }
            }
            assert(self.inv());
        }
        Ok(())
    }
    /// Cancels a resting order: takes it out of the book and reports it as
    /// cancelled. Fails with `OrderNotFound`, and leaves the book as it was,
    /// if no order with this identifier rests in the book.
    pub fn close_order(&mut self, order_id: &str) -> (res: Result<OrderResult, EngineError>)
        requires
            old(self).wf(),
        ensures
            final(self).wf(),
            match res {
                Ok(closed) => {
                    &&& old(self)@.contains(order_id@)
                    &&& final(self)@ == old(self)@.removed(order_id@)
                    &&& closed.order@ == old(self)@.order(order_id@)
                    &&& closed.trades@.len() == 0
                    &&& closed.final_state == OrderState::Cancelled
                },
                Err(e) => {
                    &&& e == EngineError::OrderNotFound
                    &&& !old(self)@.contains(order_id@)
                    &&& final(self)@ == old(self)@
                },
            },
    {
        match self.remove(order_id) {
            Some(order) => Ok(
                OrderResult { trades: Vec::new(), order, final_state: OrderState::Cancelled },
            ),
            None => Err(EngineError::OrderNotFound),
        }
    }

    /// A side's queue holds as many identifiers as the side has orders.
    proof fn lemma_depth(&self, side: Side)
        requires
            self.wf(),
        ensures
            self.entries(side).dom().finite(),
            self.entries(side).dom().len() == self@.side(side).len(),
    {
        let s = self@.side(side);
        let ids = s.map_values(|o: OrderView| o.order_id);
        assert(side_inv(side, s, self.entries(side), self.order_id_mapping@));
        assert(self@.side_valid(side));
        assert(ids.no_duplicates()) by {
            assert forall|i: int, j: int| 0 <= i < ids.len() && 0 <= j < ids.len() && i != j implies ids[i]
                != ids[j] by {
                if i < j {
                    assert(s[i].order_id != s[j].order_id);
                } else {
                    assert(s[j].order_id != s[i].order_id);
                }
            }
        }
        assert(ids.to_set() =~= self.entries(side).dom()) by {
            assert forall|id: Seq<char>| ids.to_set().contains(id) implies self.entries(
                side,
            ).dom().contains(id) by {
                let i = choose|i: int| 0 <= i < ids.len() && ids[i] == id;
                assert(s[i].order_id == id);
            }
            assert forall|id: Seq<char>| self.entries(side).dom().contains(id) implies ids.to_set().contains(
                id,
            ) by {
                assert(self.entries(side).contains_key(id));
                let i = index_of(s, id);
                assert(ids[i] == id);
            }
        }
        ids.unique_seq_to_set();
        vstd::seq_lib::seq_to_set_is_finite(ids);
    }

    /// How many orders rest on `side`.
    pub fn depth(&self, side: Side) -> (n: usize)
        requires
            self.wf(),
        ensures
            n == self@.side(side).len(),
    {
        proof {
            self.lemma_depth(side);
        }
        match side {
            Side::Buy => queue_len(&self.bids),
            Side::Sell => queue_len(&self.asks),
        }
    }

    /// The best bid and ask prices and the number of orders on each side.
    pub fn snapshot(&self) -> (shot: Snapshot)
        requires
            self.wf(),
        ensures
            shot == self@.snapshot(),
    {
        let best_bid = match self.best(Side::Buy) {
            Some(order) => Some(order.price),
            None => None,
        };
        let best_ask = match self.best(Side::Sell) {
            Some(order) => Some(order.price),
            None => None,
        };
        Snapshot {
            best_bid,
            best_ask,
            bid_depth: self.depth(Side::Buy),
            ask_depth: self.depth(Side::Sell),
        }
    }
}

} // verus!
