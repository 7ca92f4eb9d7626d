//! The table of the latest reference price of each symbol.
//!
//! The table lives apart from the books: price updates touch no order, and
//! matching reads no price from it.

use vstd::prelude::*;
use vstd::hash_map::StringHashMap;

verus! {

/// What each of the price updates says.
pub open spec fn tick_views(updates: Seq<(String, u64)>) -> Seq<(Seq<char>, u64)> {
    updates.map_values(|u: (String, u64)| (u.0@, u.1))
}

/// The price table after the updates have been written into it one after the
/// other: a later price for a symbol replaces an earlier one.
pub open spec fn ticked(table: Map<Seq<char>, u64>, updates: Seq<(Seq<char>, u64)>) -> Map<
    Seq<char>,
    u64,
>
    decreases updates.len(),
{
    if updates.len() == 0 {
        table
    } else {
        ticked(table, updates.drop_last()).insert(updates.last().0, updates.last().1)
    }
}

/// A price that no later update of the batch overwrites stands in the table
/// afterwards.
pub proof fn lemma_last_tick_stands(
    table: Map<Seq<char>, u64>,
    updates: Seq<(Seq<char>, u64)>,
    i: int,
)
    requires
        0 <= i < updates.len(),
        forall|j: int| i < j < updates.len() ==> (#[trigger] updates[j]).0 != updates[i].0,
    ensures
        ticked(table, updates).contains_key(updates[i].0),
        ticked(table, updates)[updates[i].0] == updates[i].1,
    decreases updates.len(),
{
    if i < updates.len() - 1 {
        let init = updates.drop_last();
        assert(updates[updates.len() - 1].0 != updates[i].0);
        assert forall|j: int| i < j < init.len() implies (#[trigger] init[j]).0 != init[i].0 by {
            assert(init[j] == updates[j]);
        }
        lemma_last_tick_stands(table, init, i);
    }
}

/// A symbol that the batch does not name keeps the price it had, or stays
/// without one.
pub proof fn lemma_other_prices_stay(
    table: Map<Seq<char>, u64>,
    updates: Seq<(Seq<char>, u64)>,
    symbol: Seq<char>,
)
    requires
        forall|j: int| 0 <= j < updates.len() ==> (#[trigger] updates[j]).0 != symbol,
    ensures
        ticked(table, updates).contains_key(symbol) == table.contains_key(symbol),
        table.contains_key(symbol) ==> ticked(table, updates)[symbol] == table[symbol],
    decreases updates.len(),
{
    if updates.len() > 0 {
        let init = updates.drop_last();
        assert(updates[updates.len() - 1].0 != symbol);
        assert forall|j: int| 0 <= j < init.len() implies (#[trigger] init[j]).0 != symbol by {
            assert(init[j] == updates[j]);
        }
        lemma_other_prices_stay(table, init, symbol);
    }
}

/// A price table that holds no price.
pub open spec fn no_prices() -> Map<Seq<char>, u64> {
    Map::empty()
}

/// The latest reference price of each symbol, in ticks.
pub struct Ticker {
    prices: StringHashMap<u64>,
}

impl View for Ticker {
    type V = Map<Seq<char>, u64>;

    closed spec fn view(&self) -> Map<Seq<char>, u64> {
        self.prices@
    }
}

impl Ticker {
    /// A table that holds no price.
    pub fn new() -> (ticker: Ticker)
        ensures
            ticker@ == no_prices(),
    {
        Ticker { prices: StringHashMap::new() }
    }

    /// Writes a batch of price updates into the table, in the order given.
    pub fn update_ticker(&mut self, new_ticker: Vec<(String, u64)>)
        ensures
            final(self)@ == ticked(old(self)@, tick_views(new_ticker@)),
    {
        let ghost all = tick_views(new_ticker@);
        let mut i: usize = 0;
        while i < new_ticker.len()
            invariant
                i <= new_ticker.len(),
                all == tick_views(new_ticker@),
                self@ == ticked(old(self)@, all.take(i as int)),
            decreases new_ticker.len() - i,
        {
            let symbol = new_ticker[i].0.clone();
            let price = new_ticker[i].1;
            proof {
                assert(all.take(i + 1).drop_last() =~= all.take(i as int));
                assert(all.take(i + 1).last() == (symbol@, price));
            }
            self.prices.insert(symbol, price);
            i = i + 1;
        }
        proof {
            assert(all.take(i as int) =~= all);
        }
    }

    /// The latest price of `symbol`, if one has been written.
    pub fn price(&self, symbol: &str) -> (price: Option<u64>)
        ensures
            price == if self@.contains_key(symbol@) {
                Some(self@[symbol@])
            } else {
                None
            },
    {
        match self.prices.get(symbol) {
            Some(found) => Some(*found),
            None => None,
        }
    }
}

} // verus!
