//! The open trades and their bookkeeping. A trade carries its entry price
//! and the features seen at entry as values of a type `F` that the
//! bookkeeping does not read.

use vstd::prelude::*;
use crate::features::{hypothesis_holds, FeatureCollector};
use crate::state::{total_volume, OrderBook};

verus! {

#[derive(Debug, Clone)]
pub struct Trade<F> {
    pub id: String,
    pub entry_price: F,
    pub side: char,
    pub features_at_entry: Vec<F>,
    pub is_active: bool,
}

pub struct Executor<F> {
    pub trades: Vec<Trade<F>>,
    pub magic_number: u64,
}

/// Number of trades on `side`.
pub open spec fn count_side<F>(trades: Seq<Trade<F>>, side: char) -> nat
    decreases trades.len(),
{
    if trades.len() == 0 {
        0
    } else {
        count_side(trades.drop_last(), side) + if trades.last().side == side { 1nat } else { 0nat }
    }
}

/// The trade with its activity flag set to `active`, all else kept.
pub open spec fn with_activity<F>(t: Trade<F>, active: bool) -> Trade<F> {
    Trade { id: t.id, entry_price: t.entry_price, side: t.side, features_at_entry: t.features_at_entry, is_active: active }
}

impl<F> Executor<F> {
    pub fn new(magic_number: u64) -> (executor: Self)
        ensures
            executor.trades@.len() == 0,
            executor.magic_number == magic_number,
    {
        Self { trades: Vec::new(), magic_number }
    }

    /// Deactivates every active trade whose hypothesis no longer holds for
    /// the book (see `hypothesis_holds`); all else is kept.
    pub fn manage_hypotheses(&mut self, ob: &OrderBook, collector: &FeatureCollector)
        requires
            forall|i: int|
                0 <= i < old(self).trades@.len() && (#[trigger] old(self).trades@[i]).is_active
                    ==> old(self).trades@[i].features_at_entry@.len() > 0,
        ensures
            final(self).magic_number == old(self).magic_number,
            final(self).trades@.len() == old(self).trades@.len(),
            forall|i: int|
                0 <= i < old(self).trades@.len() ==> #[trigger] final(self).trades@[i] == with_activity(
                    old(self).trades@[i],
                    old(self).trades@[i].is_active && hypothesis_holds(
                        total_volume(ob.bids@),
                        total_volume(ob.asks@),
                        old(self).trades@[i].side,
                    ),
                ),
    {
        let n = self.trades.len();
        let mut i: usize = 0;
        while i < n
            invariant
                i <= n,
                n == old(self).trades@.len(),
                self.magic_number == old(self).magic_number,
                self.trades@.len() == n,
                forall|k: int|
                    0 <= k < i ==> #[trigger] self.trades@[k] == with_activity(
                        old(self).trades@[k],
                        old(self).trades@[k].is_active && hypothesis_holds(
                            total_volume(ob.bids@),
                            total_volume(ob.asks@),
                            old(self).trades@[k].side,
                        ),
                    ),
                forall|k: int| i <= k < n ==> #[trigger] self.trades@[k] == old(self).trades@[k],
            decreases n - i,
        {
            if self.trades[i].is_active {
                let side = self.trades[i].side;
                if !collector.is_hypothesis_valid(ob, side) {
                    self.trades[i].is_active = false;
                }
            }
            i += 1;
        }
    }

    /// The numbers of trades on the buy ('1') and sell ('2') sides.
    pub fn count_positions(&self) -> (counts: (usize, usize))
        ensures
            counts.0 == count_side(self.trades@, '1'),
            counts.1 == count_side(self.trades@, '2'),
            counts.0 == self.trades@.filter(|t: Trade<F>| t.side == '1').len(),
            counts.1 == self.trades@.filter(|t: Trade<F>| t.side == '2').len(),
    {
        proof {
            lemma_count_side_counts_every_trade(self.trades@, '1');
            lemma_count_side_counts_every_trade(self.trades@, '2');
        }
        let mut buys: usize = 0;
        let mut sells: usize = 0;
        let mut i: usize = 0;
        while i < self.trades.len()
            invariant
                i <= self.trades@.len(),
                buys == count_side(self.trades@.take(i as int), '1'),
                sells == count_side(self.trades@.take(i as int), '2'),
                buys <= i,
                sells <= i,
            decreases self.trades@.len() - i,
        {
            assert(self.trades@.take(i + 1).drop_last() =~= self.trades@.take(i as int));
            if self.trades[i].side == '1' {
                buys += 1;
            } else if self.trades[i].side == '2' {
                sells += 1;
            }
            i += 1;
        }
        assert(self.trades@.take(i as int) =~= self.trades@);
        (buys, sells)
    }
}

/// Opening a trade adds one to the count of its side and leaves the count
/// of every other side as it was.
pub proof fn lemma_count_side_push<F>(trades: Seq<Trade<F>>, t: Trade<F>, side: char)
    ensures
        count_side(trades.push(t), side) == count_side(trades, side) + (if t.side == side { 1int } else { 0int }),
{
    assert(trades.push(t).drop_last() =~= trades);
}

/// Every trade is counted, once, on its own side: the count for a side is
/// the number of trades whose side it is.
pub proof fn lemma_count_side_counts_every_trade<F>(trades: Seq<Trade<F>>, side: char)
    ensures
        count_side(trades, side) == trades.filter(|t: Trade<F>| t.side == side).len(),
    decreases trades.len(),
{
    reveal_with_fuel(Seq::filter, 1);
    if trades.len() > 0 {
        lemma_count_side_counts_every_trade(trades.drop_last(), side);
    }
}

/// Buys and sells together are never more than the trades.
pub proof fn lemma_count_sides_bounded<F>(trades: Seq<Trade<F>>)
    ensures
        count_side(trades, '1') + count_side(trades, '2') <= trades.len(),
    decreases trades.len(),
{
    if trades.len() > 0 {
        lemma_count_sides_bounded(trades.drop_last());
    }
}

/// Position counts depend on the trades' sides alone: deactivating trades,
/// as `manage_hypotheses` does, leaves the counts that the risk check reads
/// unchanged.
pub proof fn lemma_counts_follow_sides<F>(a: Seq<Trade<F>>, b: Seq<Trade<F>>, side: char)
    requires
        a.len() == b.len(),
        forall|i: int| 0 <= i < a.len() ==> (#[trigger] a[i]).side == b[i].side,
    ensures
        count_side(a, side) == count_side(b, side),
    decreases a.len(),
{
    if a.len() > 0 {
        let a0 = a.drop_last();
        let b0 = b.drop_last();
        assert forall|i: int| 0 <= i < a0.len() implies (#[trigger] a0[i]).side == b0[i].side by {
            assert(a0[i] == a[i] && b0[i] == b[i]);
        }
        lemma_counts_follow_sides(a0, b0, side);
        assert(a[a.len() - 1].side == b[b.len() - 1].side);
    }
}

} // verus!
