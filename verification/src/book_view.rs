//! The order book of one symbol, as its callers see it.
//!
//! A book is two sequences of resting orders, bids and asks, each with the
//! order that trades first at the front. This file says what it means for
//! such a book to be valid and what each operation of the book makes of it,
//! and proves that the operations keep a valid book valid.

use vstd::prelude::*;
use crate::order::{EngineError, OrderView, Side};
use crate::priority::{
    better_price, count_ahead, lemma_count_ahead, lemma_rank_insert_ranked, outranks, rank_insert,
    ranked,
};

verus! {

/// Some order of `s` has the identifier `id`.
pub open spec fn holds(s: Seq<OrderView>, id: Seq<char>) -> bool {
    exists|i: int| 0 <= i < s.len() && (#[trigger] s[i]).order_id == id
}

/// Where in `s` an order with the identifier `id` stands, if one does.
pub open spec fn index_of(s: Seq<OrderView>, id: Seq<char>) -> int {
    choose|i: int| 0 <= i < s.len() && (#[trigger] s[i]).order_id == id
}

/// No two orders of `s` share an identifier.
pub open spec fn distinct_ids(s: Seq<OrderView>) -> bool {
    forall|i: int, j: int|
        0 <= i < j < s.len() ==> (#[trigger] s[i]).order_id != (#[trigger] s[j]).order_id
}

/// `s` without the order that has the identifier `id`.
pub open spec fn without(s: Seq<OrderView>, id: Seq<char>) -> Seq<OrderView> {
    if holds(s, id) {
        s.remove(index_of(s, id))
    } else {
        s
    }
}

/// `s` with `o` in the place of the order that has the identifier `id`.
pub open spec fn replaced(s: Seq<OrderView>, id: Seq<char>, o: OrderView) -> Seq<OrderView> {
    if holds(s, id) {
        s.update(index_of(s, id), o)
    } else {
        s
    }
}

/// An order placed into a sequence is held there, and so is what was held before.
pub proof fn lemma_holds_insert(s: Seq<OrderView>, k: int, o: OrderView, id: Seq<char>)
    requires
        0 <= k <= s.len(),
    ensures
        holds(s.insert(k, o), id) <==> (holds(s, id) || id == o.order_id),
{
    let t = s.insert(k, o);
    if holds(s, id) {
        let i = index_of(s, id);
        if i < k {
            assert(t[i].order_id == id);
        } else {
            assert(t[i + 1].order_id == id);
        }
    }
    if id == o.order_id {
        assert(t[k].order_id == id);
    }
    if holds(t, id) {
        let i = index_of(t, id);
        if i < k {
            assert(s[i].order_id == id);
        } else if i > k {
            assert(s[i - 1].order_id == id);
        }
    }
}

/// With distinct identifiers, an order stands where its identifier is found.
pub proof fn lemma_index_of(s: Seq<OrderView>, i: int)
    requires
        distinct_ids(s),
        0 <= i < s.len(),
    ensures
        holds(s, s[i].order_id),
        index_of(s, s[i].order_id) == i,
{
    let id = s[i].order_id;
    assert(s[i].order_id == id);
    let j = index_of(s, id);
    if j < i {
        assert(s[j].order_id != s[i].order_id);
    } else if i < j {
        assert(s[i].order_id != s[j].order_id);
    }
}

/// Taking an order out of a sequence with distinct identifiers takes its
/// identifier out, and no other.
pub proof fn lemma_holds_remove(s: Seq<OrderView>, i: int, id: Seq<char>)
    requires
        distinct_ids(s),
        0 <= i < s.len(),
    ensures
        holds(s.remove(i), id) <==> (holds(s, id) && id != s[i].order_id),
{
    let t = s.remove(i);
    if holds(s, id) && id != s[i].order_id {
        let j = index_of(s, id);
        if j < i {
            assert(t[j].order_id == id);
        } else {
            assert(t[j - 1].order_id == id);
        }
    }
    if holds(t, id) {
        let j = index_of(t, id);
        if j < i {
            assert(s[j].order_id == id);
            assert(s[j].order_id != s[i].order_id);
        } else {
            assert(s[j + 1].order_id == id);
            assert(s[i].order_id != s[j + 1].order_id);
        }
    }
}

/// A book as its callers see it.
pub struct BookView {
    pub symbol: Seq<char>,
    /// Resting buy orders, the highest bid first.
    pub bids: Seq<OrderView>,
    /// Resting sell orders, the lowest ask first.
    pub asks: Seq<OrderView>,
    /// The arrival stamp that the next order added will get.
    pub next_seq: u64,
}

impl BookView {
    /// The resting orders of one side, the first to trade at the front.
    pub open spec fn side(self, side: Side) -> Seq<OrderView> {
        match side {
            Side::Buy => self.bids,
            Side::Sell => self.asks,
        }
    }

    /// The same book with `orders` resting on `side`.
    pub open spec fn with_side(self, side: Side, orders: Seq<OrderView>) -> BookView {
        match side {
            Side::Buy => BookView { bids: orders, ..self },
            Side::Sell => BookView { asks: orders, ..self },
        }
    }

    /// An order with this identifier rests in the book.
    pub open spec fn contains(self, id: Seq<char>) -> bool {
        holds(self.bids, id) || holds(self.asks, id)
    }

    /// The resting order with this identifier.
    pub open spec fn order(self, id: Seq<char>) -> OrderView {
        if holds(self.bids, id) {
            self.bids[index_of(self.bids, id)]
        } else {
            self.asks[index_of(self.asks, id)]
        }
    }

    /// What holds of the orders resting on one side: each is on that side, of
    /// this symbol, live, and stamped before `next_seq`; they stand in the
    /// order in which they trade; no two share an identifier.
    pub open spec fn side_valid(self, side: Side) -> bool {
        &&& ranked(side, self.side(side))
        &&& distinct_ids(self.side(side))
        &&& forall|i: int|
            0 <= i < self.side(side).len() ==> {
                let o = #[trigger] self.side(side)[i];
                &&& o.side == side
                &&& o.symbol == self.symbol
                &&& o.live()
                &&& o.seq < self.next_seq
            }
    }

    /// What holds of every book: both sides are valid, and no identifier
    /// rests on both.
    pub open spec fn valid(self) -> bool {
        &&& self.side_valid(Side::Buy)
        &&& self.side_valid(Side::Sell)
        &&& forall|i: int, j: int|
            0 <= i < self.bids.len() && 0 <= j < self.asks.len() ==> (#[trigger] self.bids[i]).order_id
                != (#[trigger] self.asks[j]).order_id
    }

    /// Why `o` cannot be added, if it cannot.
    pub open spec fn add_error(self, o: OrderView) -> Option<EngineError> {
        if o.symbol != self.symbol {
            Some(EngineError::UnknownSymbol)
        } else if !o.fresh() {
            Some(EngineError::InvalidOrder)
        } else if self.contains(o.order_id) {
            Some(EngineError::DuplicateOrder)
        } else if self.next_seq == u64::MAX {
            Some(EngineError::SequenceExhausted)
        } else {
            None
        }
    }

    /// The book after `o` has been added: `o` carries the next arrival stamp
    /// and rests on its side behind every order that outranks it.
    pub open spec fn added(self, o: OrderView) -> BookView {
        let stamped = o.stamped(self.next_seq);
        let rested = self.with_side(o.side, rank_insert(o.side, self.side(o.side), stamped));
        BookView { next_seq: (self.next_seq + 1) as u64, ..rested }
    }

    /// The book without the order that has the identifier `id`.
    pub open spec fn removed(self, id: Seq<char>) -> BookView {
        BookView { bids: without(self.bids, id), asks: without(self.asks, id), ..self }
    }

    /// The book with `o` in the place of the order that has the identifier `id`.
    pub open spec fn updated(self, id: Seq<char>, o: OrderView) -> BookView {
        BookView { bids: replaced(self.bids, id, o), asks: replaced(self.asks, id, o), ..self }
    }

    /// The price of the first order of `side`, if the side has any.
    pub open spec fn best_price(self, side: Side) -> Option<u64> {
        if self.side(side).len() > 0 {
            Some(self.side(side)[0].price)
        } else {
            None
        }
    }

    /// The best prices and the depth of the book.
    pub open spec fn snapshot(self) -> Snapshot {
        Snapshot {
            best_bid: self.best_price(Side::Buy),
            best_ask: self.best_price(Side::Sell),
            bid_depth: self.bids.len() as usize,
            ask_depth: self.asks.len() as usize,
        }
    }

    /// Why the open quantity of the order `id` cannot be set to `leaves`, if
    /// it cannot.
    pub open spec fn update_error(self, id: Seq<char>, leaves: u32) -> Option<EngineError> {
        if !self.contains(id) {
            Some(EngineError::OrderNotFound)
        } else if leaves > self.order(id).leaves_qty {
            Some(EngineError::InvalidOrder)
        } else {
            None
        }
    }

    /// The book after the open quantity of the order `id` has been set to
    /// `leaves`: with nothing left open the order leaves the book, otherwise it
    /// keeps its place.
    pub open spec fn leaves_set(self, id: Seq<char>, leaves: u32) -> BookView {
        if leaves == 0 {
            self.removed(id)
        } else {
            self.updated(id, self.order(id).with_leaves(leaves))
        }
    }
}

impl BookView {
    /// Where on its side the resting order `id` stands.
    pub open spec fn place(self, id: Seq<char>) -> int {
        index_of(self.side(self.order(id).side), id)
    }

    /// In a valid book an identifier rests on one side at most, the side of
    /// its order, and is found where the order stands.
    pub proof fn lemma_order_at(self, side: Side, i: int)
        requires
            self.valid(),
            0 <= i < self.side(side).len(),
        ensures
            self.contains(self.side(side)[i].order_id),
            self.order(self.side(side)[i].order_id) == self.side(side)[i],
            index_of(self.side(side), self.side(side)[i].order_id) == i,
            holds(self.side(side), self.side(side)[i].order_id),
            !holds(self.side(side.spec_opposite()), self.side(side)[i].order_id),
    {
        let id = self.side(side)[i].order_id;
        assert(self.side_valid(side));
        lemma_index_of(self.side(side), i);
        let other = self.side(side.spec_opposite());
        if holds(other, id) {
            let j = index_of(other, id);
            assert(other[j].order_id == id);
            match side {
                Side::Buy => {
                    assert(self.bids[i].order_id != self.asks[j].order_id);
                },
                Side::Sell => {
                    assert(self.bids[j].order_id != self.asks[i].order_id);
                },
            }
        }
    }

    /// Adding an order that the book accepts leaves a valid book, in which
    /// the order rests under its identifier, once, with the stamp it was given.
    pub proof fn lemma_added_valid(self, o: OrderView)
        requires
            self.valid(),
            self.add_error(o) is None,
        ensures
            self.added(o).valid(),
            self.added(o).contains(o.order_id),
            self.added(o).order(o.order_id) == o.stamped(self.next_seq),
            self.added(o).side(o.side).len() == self.side(o.side).len() + 1,
            self.added(o).side(o.side.spec_opposite()) == self.side(o.side.spec_opposite()),
    {
        let side = o.side;
        let stamped = o.stamped(self.next_seq);
        let s0 = self.side(side);
        let after = self.added(o);
        let s = after.side(side);
        assert(self.side_valid(side));
        assert(self.side_valid(side.spec_opposite()));
        lemma_count_ahead(side, s0, stamped);
        let k = count_ahead(side, s0, stamped) as int;
        assert(s == s0.insert(k, stamped));
        assert forall|i: int| 0 <= i < s0.len() implies (#[trigger] s0[i]).seq != stamped.seq by {}
        lemma_rank_insert_ranked(side, s0, stamped);
        assert forall|i: int| 0 <= i < s.len() implies {
            let x = #[trigger] after.side(side)[i];
            &&& x.side == side
            &&& x.symbol == after.symbol
            &&& x.live()
            &&& x.seq < after.next_seq
            &&& (i != k ==> x.order_id != o.order_id)
        } by {
            if i < k {
                assert(s[i] == s0[i]);
            } else if i > k {
                assert(s[i] == s0[i - 1]);
            }
        }
        assert(distinct_ids(s)) by {
            assert forall|i: int, j: int| 0 <= i < j < s.len() implies (#[trigger] s[i]).order_id
                != (#[trigger] s[j]).order_id by {
                let a = if i < k { i } else { i - 1 };
                let b = if j < k { j } else { j - 1 };
                if i != k && j != k {
                    assert(s[i] == s0[a] && s[j] == s0[b]);
                    assert(s0[a].order_id != s0[b].order_id);
                } else if i == k {
                    assert(after.side(side)[j].order_id != o.order_id);
                } else {
                    assert(after.side(side)[i].order_id != o.order_id);
                }
            }
        }
        assert(after.side_valid(side));
        let other = self.side(side.spec_opposite());
        assert(after.side(side.spec_opposite()) == other);
        assert forall|i: int| 0 <= i < other.len() implies {
            let x = #[trigger] after.side(side.spec_opposite())[i];
            &&& x.side == side.spec_opposite()
            &&& x.symbol == after.symbol
            &&& x.live()
            &&& x.seq < after.next_seq
        } by {
            assert(self.side(side.spec_opposite())[i].live());
        }
        assert(after.side_valid(side.spec_opposite()));
        assert forall|a: int, b: int|
            0 <= a < after.bids.len() && 0 <= b < after.asks.len() implies (#[trigger] after.bids[a]).order_id
            != (#[trigger] after.asks[b]).order_id by {
            match side {
                Side::Buy => {
                    if a < k {
                        assert(after.bids[a] == self.bids[a]);
                        assert(self.bids[a].order_id != self.asks[b].order_id);
                    } else if a > k {
                        assert(after.bids[a] == self.bids[a - 1]);
                        assert(self.bids[a - 1].order_id != self.asks[b].order_id);
                    } else {
                        assert(self.asks[b].order_id != o.order_id);
                    }
                },
                Side::Sell => {
                    if b < k {
                        assert(after.asks[b] == self.asks[b]);
                        assert(self.bids[a].order_id != self.asks[b].order_id);
                    } else if b > k {
                        assert(after.asks[b] == self.asks[b - 1]);
                        assert(self.bids[a].order_id != self.asks[b - 1].order_id);
                    } else {
                        assert(self.bids[a].order_id != o.order_id);
                    }
                },
            }
        }
        assert(after.valid());
        assert(s[k].order_id == o.order_id);
        after.lemma_order_at(side, k);
    }

    /// Time priority. An order that the book accepts comes to stand behind
    /// every resting order of its side whose price is as good as its own or
    /// better, and before every one whose price is worse.
    pub proof fn lemma_added_place(self, o: OrderView)
        requires
            self.valid(),
            self.add_error(o) is None,
        ensures
            ({
                let after = self.added(o).side(o.side);
                let at = count_ahead(o.side, self.side(o.side), o.stamped(self.next_seq)) as int;
                &&& 0 <= at < after.len()
                &&& after[at] == o.stamped(self.next_seq)
                &&& forall|i: int| 0 <= i < at ==> !better_price(o.side, o.price, (#[trigger] after[i]).price)
                &&& forall|i: int|
                    at < i < after.len() ==> better_price(o.side, o.price, (#[trigger] after[i]).price)
            }),
    {
        let side = o.side;
        let stamped = o.stamped(self.next_seq);
        let before = self.side(side);
        let after = self.added(o).side(side);
        let at = count_ahead(side, before, stamped) as int;
        assert(self.side_valid(side));
        lemma_count_ahead(side, before, stamped);
        assert(after == before.insert(at, stamped));
        assert forall|i: int| 0 <= i < at implies !better_price(
            side,
            o.price,
            (#[trigger] after[i]).price,
        ) by {
            assert(after[i] == before[i]);
            assert(outranks(side, before[i], stamped));
        }
        assert forall|i: int| at < i < after.len() implies better_price(
            side,
            o.price,
            (#[trigger] after[i]).price,
        ) by {
            assert(after[i] == before[i - 1]);
            assert(!outranks(side, before[i - 1], stamped));
            assert(before[i - 1].seq < self.next_seq);
        }
    }

    /// An identifier is taken once. After an order has been added, another
    /// with its identifier is turned down as a duplicate, and the book holds
    /// the identifier in one place only.
    pub proof fn lemma_duplicate_rejected(self, first: OrderView, second: OrderView)
        requires
            self.valid(),
            self.add_error(first) is None,
            second.order_id == first.order_id,
            second.symbol == self.symbol,
            second.fresh(),
        ensures
            self.added(first).add_error(second) == Some(EngineError::DuplicateOrder),
            ({
                let all = self.added(first).bids + self.added(first).asks;
                forall|i: int, j: int|
                    0 <= i < all.len() && 0 <= j < all.len() && (#[trigger] all[i]).order_id
                        == first.order_id && (#[trigger] all[j]).order_id == first.order_id ==> i == j
            }),
    {
        self.lemma_added_valid(first);
        let after = self.added(first);
        let all = after.bids + after.asks;
        assert(after.side_valid(Side::Buy));
        assert(after.side_valid(Side::Sell));
        assert forall|i: int, j: int|
            0 <= i < all.len() && 0 <= j < all.len() && (#[trigger] all[i]).order_id == first.order_id && (
            #[trigger] all[j]).order_id == first.order_id implies i == j by {
            let n = after.bids.len();
            if i < n && j < n {
                if i < j {
                    assert(after.bids[i].order_id != after.bids[j].order_id);
                } else if j < i {
                    assert(after.bids[j].order_id != after.bids[i].order_id);
                }
            } else if i >= n && j >= n {
                if i < j {
                    assert(after.asks[i - n].order_id != after.asks[j - n].order_id);
                } else if j < i {
                    assert(after.asks[j - n].order_id != after.asks[i - n].order_id);
                }
            } else if i < n {
                assert(after.bids[i].order_id != after.asks[j - n].order_id);
            } else {
                assert(after.bids[j].order_id != after.asks[i - n].order_id);
            }
        }
    }

    /// Taking a resting order out of a valid book leaves a valid book, in
    /// which only the side of that order has changed.
    pub proof fn lemma_removed_valid(self, side: Side, i: int)
        requires
            self.valid(),
            0 <= i < self.side(side).len(),
        ensures
            self.removed(self.side(side)[i].order_id) == self.with_side(
                side,
                self.side(side).remove(i),
            ),
            self.removed(self.side(side)[i].order_id).valid(),
    {
        self.lemma_order_at(side, i);
        let s = self.side(side);
        let t = s.remove(i);
        let after = self.with_side(side, t);
        assert(self.side_valid(side));
        assert(self.side_valid(side.spec_opposite()));
        assert forall|j: int| 0 <= j < t.len() implies t[j] == s[if j < i { j } else { j + 1 }] by {}
        assert(ranked(side, t)) by {
            assert forall|a: int, b: int| 0 <= a < b < t.len() implies outranks(
                side,
                #[trigger] t[a],
                #[trigger] t[b],
            ) by {
                let a0 = if a < i { a } else { a + 1 };
                let b0 = if b < i { b } else { b + 1 };
                assert(t[a] == s[a0] && t[b] == s[b0]);
            }
        }
        assert(distinct_ids(t)) by {
            assert forall|a: int, b: int| 0 <= a < b < t.len() implies (#[trigger] t[a]).order_id != (
            #[trigger] t[b]).order_id by {
                let a0 = if a < i { a } else { a + 1 };
                let b0 = if b < i { b } else { b + 1 };
                assert(t[a] == s[a0] && t[b] == s[b0]);
            }
        }
        assert forall|j: int| 0 <= j < t.len() implies {
            let o = #[trigger] after.side(side)[j];
            &&& o.side == side
            &&& o.symbol == after.symbol
            &&& o.live()
            &&& o.seq < after.next_seq
        } by {
            let j0 = if j < i { j } else { j + 1 };
            assert(t[j] == s[j0]);
        }
        assert(after.side_valid(side));
        assert(after.side(side.spec_opposite()) == self.side(side.spec_opposite()));
        assert(after.side_valid(side.spec_opposite()));
        assert forall|a: int, b: int|
            0 <= a < after.bids.len() && 0 <= b < after.asks.len() implies (#[trigger] after.bids[a]).order_id
            != (#[trigger] after.asks[b]).order_id by {
            match side {
                Side::Buy => {
                    let a0 = if a < i { a } else { a + 1 };
                    assert(after.bids[a] == self.bids[a0]);
                    assert(self.bids[a0].order_id != self.asks[b].order_id);
                },
                Side::Sell => {
                    let b0 = if b < i { b } else { b + 1 };
                    assert(after.asks[b] == self.asks[b0]);
                    assert(self.bids[a].order_id != self.asks[b0].order_id);
                },
            }
        }
    }

    /// Writing a smaller, positive open quantity into a resting order of a
    /// valid book leaves a valid book, in which only that order has changed.
    pub proof fn lemma_updated_valid(self, side: Side, i: int, leaves: u32)
        requires
            self.valid(),
            0 <= i < self.side(side).len(),
            0 < leaves <= self.side(side)[i].leaves_qty,
        ensures
            self.updated(
                self.side(side)[i].order_id,
                self.side(side)[i].with_leaves(leaves),
            ) == self.with_side(side, self.side(side).update(i, self.side(side)[i].with_leaves(leaves))),
            self.updated(self.side(side)[i].order_id, self.side(side)[i].with_leaves(leaves)).valid(),
    {
        self.lemma_order_at(side, i);
        let s = self.side(side);
        let o = s[i].with_leaves(leaves);
        let t = s.update(i, o);
        let after = self.with_side(side, t);
        assert(self.side_valid(side));
        assert(self.side_valid(side.spec_opposite()));
        assert(s[i].live());
        assert(ranked(side, t)) by {
            assert forall|a: int, b: int| 0 <= a < b < t.len() implies outranks(
                side,
                #[trigger] t[a],
                #[trigger] t[b],
            ) by {
                assert(outranks(side, s[a], s[b]));
            }
        }
        assert(distinct_ids(t)) by {
            assert forall|a: int, b: int| 0 <= a < b < t.len() implies (#[trigger] t[a]).order_id != (
            #[trigger] t[b]).order_id by {
                assert(s[a].order_id != s[b].order_id);
            }
        }
        assert forall|j: int| 0 <= j < t.len() implies {
            let x = #[trigger] after.side(side)[j];
            &&& x.side == side
            &&& x.symbol == after.symbol
            &&& x.live()
            &&& x.seq < after.next_seq
        } by {
            assert(s[j].live());
        }
        assert(after.side_valid(side));
        assert(after.side(side.spec_opposite()) == self.side(side.spec_opposite()));
        assert(after.side_valid(side.spec_opposite()));
        assert forall|a: int, b: int|
            0 <= a < after.bids.len() && 0 <= b < after.asks.len() implies (#[trigger] after.bids[a]).order_id
            != (#[trigger] after.asks[b]).order_id by {
            assert(self.bids[a].order_id != self.asks[b].order_id);
        }
    }
}

/// The best prices and the depth of a book, for monitoring.
#[derive(Clone, Copy, Debug, PartialEq, Eq, Structural)]
pub struct Snapshot {
    pub best_bid: Option<u64>,
    pub best_ask: Option<u64>,
    pub bid_depth: usize,
    pub ask_depth: usize,
}

} // verus!
