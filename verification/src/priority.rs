//! Price-time priority: which of two orders on one side of a book trades first.
//!
//! A better price wins; at one price the earlier arrival wins. Each side of a
//! book keeps its orders under an integer key that grows with priority, so the
//! two sides never compare against each other.

use vstd::prelude::*;
use std::cmp::Ordering;
use crate::order::{Order, OrderView, Side};

verus! {

/// The key under which an order is ranked: a pair of integers, compared first
/// by the first and then by the second. The greater key trades first.
pub type RankKey = (u64, u64);

/// `a` comes before `b`, or is `b`, in the order of pairs.
pub open spec fn key_le(a: RankKey, b: RankKey) -> bool {
    a.0 < b.0 || (a.0 == b.0 && a.1 <= b.1)
}

/// `a` comes strictly before `b` in the order of pairs.
pub open spec fn key_lt(a: RankKey, b: RankKey) -> bool {
    a.0 < b.0 || (a.0 == b.0 && a.1 < b.1)
}

/// On `side`, the price `p` beats the price `q`: a buyer who bids more, a
/// seller who asks less.
pub open spec fn better_price(side: Side, p: u64, q: u64) -> bool {
    match side {
        Side::Buy => p > q,
        Side::Sell => p < q,
    }
}

/// On `side`, `a` trades before `b`: at a better price, or at the same price
/// having arrived earlier.
pub open spec fn outranks(side: Side, a: OrderView, b: OrderView) -> bool {
    better_price(side, a.price, b.price) || (a.price == b.price && a.seq < b.seq)
}

/// Compares two orders of one side by priority: `Greater` if `a` trades
/// before `b`, `Less` if `b` trades before `a`, `Equal` if they have one price
/// and one arrival stamp.
///
/// Orders of different sides have no priority over each other, and are not
/// to be compared.
pub fn compare(a: &Order, b: &Order) -> (ordering: Ordering)
    requires
        a@.side == b@.side,
    ensures
        ordering == Ordering::Greater <==> outranks(a@.side, a@, b@),
        ordering == Ordering::Less <==> outranks(a@.side, b@, a@),
        ordering == Ordering::Equal <==> (a@.price == b@.price && a@.seq == b@.seq),
{
    let ahead = match a.side {
        Side::Buy => a.price > b.price,
        Side::Sell => a.price < b.price,
    };
    let behind = match a.side {
        Side::Buy => a.price < b.price,
        Side::Sell => a.price > b.price,
    };
    if ahead {
        Ordering::Greater
    } else if behind {
        Ordering::Less
    } else if a.seq < b.seq {
        Ordering::Greater
    } else if a.seq > b.seq {
        Ordering::Less
    } else {
        Ordering::Equal
    }
}

/// The key of an order on `side` with the price `price` and the arrival stamp `seq`.
pub open spec fn rank_key_of(side: Side, price: u64, seq: u64) -> RankKey {
    match side {
        Side::Buy => (price, (u64::MAX - seq) as u64),
        Side::Sell => ((u64::MAX - price) as u64, (u64::MAX - seq) as u64),
    }
}

/// The key of an order on `side` with the price `price` and the arrival stamp `seq`.
pub fn rank_key(side: Side, price: u64, seq: u64) -> (key: RankKey)
    ensures
        key == rank_key_of(side, price, seq),
{
    match side {
        Side::Buy => (price, u64::MAX - seq),
        Side::Sell => (u64::MAX - price, u64::MAX - seq),
    }
}

/// Keys order the way priority does: the key of `b` is the smaller exactly
/// when `a` outranks `b`.
pub proof fn lemma_key_order(side: Side, a: OrderView, b: OrderView)
    ensures
        key_lt(rank_key_of(side, b.price, b.seq), rank_key_of(side, a.price, a.seq)) <==> outranks(
            side,
            a,
            b,
        ),
        rank_key_of(side, a.price, a.seq) == rank_key_of(side, b.price, b.seq) <==> (a.price
            == b.price && a.seq == b.seq),
{
}

/// No order outranks itself.
pub proof fn lemma_outranks_irreflexive(side: Side, a: OrderView)
    ensures
        !outranks(side, a, a),
{
}

/// Two orders never outrank each other.
pub proof fn lemma_outranks_asymmetric(side: Side, a: OrderView, b: OrderView)
    requires
        outranks(side, a, b),
    ensures
        !outranks(side, b, a),
{
}

/// If `a` outranks `b` and `b` outranks `c`, then `a` outranks `c`.
pub proof fn lemma_outranks_transitive(side: Side, a: OrderView, b: OrderView, c: OrderView)
    requires
        outranks(side, a, b),
        outranks(side, b, c),
    ensures
        outranks(side, a, c),
{
}

/// Of two orders with different arrival stamps, one outranks the other.
pub proof fn lemma_outranks_total(side: Side, a: OrderView, b: OrderView)
    requires
        a.seq != b.seq,
    ensures
        outranks(side, a, b) || outranks(side, b, a),
{
}

/// Every order of `s` outranks, on `side`, all that follow it.
pub open spec fn ranked(side: Side, s: Seq<OrderView>) -> bool {
    forall|i: int, j: int| 0 <= i < j < s.len() ==> outranks(side, #[trigger] s[i], #[trigger] s[j])
}

/// How many orders of `s` outrank `o` on `side`.
pub open spec fn count_ahead(side: Side, s: Seq<OrderView>, o: OrderView) -> nat
    decreases s.len(),
{
    if s.len() == 0 {
        0
    } else {
        count_ahead(side, s.drop_last(), o) + if outranks(side, s.last(), o) {
            1nat
        } else {
            0nat
        }
    }
}

/// Where an order is placed depends on its price and its arrival stamp alone.
pub proof fn lemma_count_ahead_by_rank(side: Side, s: Seq<OrderView>, a: OrderView, b: OrderView)
    requires
        a.price == b.price,
        a.seq == b.seq,
    ensures
        count_ahead(side, s, a) == count_ahead(side, s, b),
    decreases s.len(),
{
    if s.len() > 0 {
        lemma_count_ahead_by_rank(side, s.drop_last(), a, b);
    }
}

/// `s` with `o` placed behind every order that outranks it.
pub open spec fn rank_insert(side: Side, s: Seq<OrderView>, o: OrderView) -> Seq<OrderView> {
    s.insert(count_ahead(side, s, o) as int, o)
}

/// In a ranked sequence the orders that outrank `o` are exactly the first
/// `count_ahead` of them.
pub proof fn lemma_count_ahead(side: Side, s: Seq<OrderView>, o: OrderView)
    requires
        ranked(side, s),
    ensures
        count_ahead(side, s, o) <= s.len(),
        forall|i: int| 0 <= i < s.len() ==> (outranks(side, #[trigger] s[i], o) <==> i < count_ahead(side, s, o)),
    decreases s.len(),
{
    if s.len() > 0 {
        let init = s.drop_last();
        lemma_count_ahead(side, init, o);
        assert forall|i: int| 0 <= i < s.len() implies (outranks(side, #[trigger] s[i], o) <==> i
            < count_ahead(side, s, o)) by {
            if i < s.len() - 1 {
                assert(s[i] == init[i]);
                if outranks(side, s.last(), o) {
                    assert(outranks(side, s[i], s[s.len() - 1]));
                }
            }
        }
    }
}

/// Placing an order with a new arrival stamp into a ranked sequence leaves it ranked.
pub proof fn lemma_rank_insert_ranked(side: Side, s: Seq<OrderView>, o: OrderView)
    requires
        ranked(side, s),
        forall|i: int| 0 <= i < s.len() ==> (#[trigger] s[i]).seq != o.seq,
    ensures
        ranked(side, rank_insert(side, s, o)),
        rank_insert(side, s, o).len() == s.len() + 1,
{
    lemma_count_ahead(side, s, o);
    let k = count_ahead(side, s, o) as int;
    let t = rank_insert(side, s, o);
    assert forall|i: int, j: int| 0 <= i < j < t.len() implies outranks(side, #[trigger] t[i], #[trigger] t[j]) by {
        if j < k {
            assert(t[i] == s[i] && t[j] == s[j]);
        } else if j == k {
            assert(t[i] == s[i]);
        } else if i < k {
            assert(t[i] == s[i] && t[j] == s[j - 1]);
        } else if i == k {
            assert(t[j] == s[j - 1]);
            assert(!outranks(side, s[j - 1], o));
        } else {
            assert(t[i] == s[i - 1] && t[j] == s[j - 1]);
        }
    }
}

/// The orders of `arrivals` placed, one after the other, into a side that
/// was empty.
pub open spec fn rank_all(side: Side, arrivals: Seq<OrderView>) -> Seq<OrderView>
    decreases arrivals.len(),
{
    if arrivals.len() == 0 {
        Seq::empty()
    } else {
        rank_insert(side, rank_all(side, arrivals.drop_last()), arrivals.last())
    }
}

/// Placing an order into a sequence adds that order to what the sequence
/// holds, and nothing else.
proof fn lemma_insert_multiset(s: Seq<OrderView>, k: int, o: OrderView)
    requires
        0 <= k <= s.len(),
    ensures
        s.insert(k, o).to_multiset() == s.to_multiset().insert(o),
{
    let t = s.insert(k, o);
    assert(t.remove(k) =~= s);
    assert(t[k] == o);
    vstd::seq_lib::to_multiset_remove(t, k);
    t.to_multiset_ensures();
    assert(t.contains(o));
    assert(t.to_multiset() =~= t.to_multiset().remove(o).insert(o));
}

/// Price-time ordering. Orders that arrive on one side under increasing
/// stamps come to stand by price, the best price first, and among equal
/// prices in the order in which they arrived. The side holds each of them
/// once and nothing else, so taking the first order again and again yields
/// them all in that order.
pub proof fn lemma_price_time_ordering(side: Side, arrivals: Seq<OrderView>)
    requires
        forall|i: int, j: int|
            0 <= i < j < arrivals.len() ==> (#[trigger] arrivals[i]).seq < (#[trigger] arrivals[j]).seq,
    ensures
        ranked(side, rank_all(side, arrivals)),
        rank_all(side, arrivals).len() == arrivals.len(),
        rank_all(side, arrivals).to_multiset() == arrivals.to_multiset(),
    decreases arrivals.len(),
{
    if arrivals.len() > 0 {
        let init = arrivals.drop_last();
        let last = arrivals.last();
        let placed = rank_all(side, init);
        lemma_price_time_ordering(side, init);
        assert forall|i: int| 0 <= i < placed.len() implies (#[trigger] placed[i]).seq != last.seq by {
            placed.to_multiset_ensures();
            init.to_multiset_ensures();
            assert(placed.contains(placed[i]));
            assert(placed.to_multiset().count(placed[i]) > 0);
            assert(init.to_multiset().count(placed[i]) > 0);
            assert(init.contains(placed[i]));
            let j = choose|j: int| 0 <= j < init.len() && init[j] == placed[i];
            assert(arrivals[j].seq < arrivals[arrivals.len() - 1].seq);
        }
        lemma_rank_insert_ranked(side, placed, last);
        lemma_count_ahead(side, placed, last);
        lemma_insert_multiset(placed, count_ahead(side, placed, last) as int, last);
        assert(arrivals =~= init.push(last));
        vstd::seq_lib::to_multiset_build(init, last);
    } else {
        assert(arrivals =~= Seq::<OrderView>::empty());
    }
}

} // verus!
