//! Feature collection over the order book; here, the check of an open
//! trade's hypothesis against the book's order-flow imbalance.

use vstd::prelude::*;
use crate::state::{total_volume, OrderBook};

verus! {

/// Whether the hypothesis of a trade on `side` still holds for total bid
/// volume `bm` and ask volume `am`. With the order-flow imbalance
/// `ofi = (bm - am) / (bm + am)` (taken as 0 when `bm + am` is not
/// positive), a buy ('1') needs `ofi > -0.1` and any other side `ofi < 0.1`.
pub open spec fn hypothesis_holds(bm: int, am: int, side: char) -> bool {
    let total = bm + am;
    if side == '1' {
        total <= 0 || 10 * (bm - am) > -total
    } else {
        total <= 0 || 10 * (bm - am) < total
    }
}

pub struct FeatureCollector {
    pub window_size: usize,
}

impl FeatureCollector {
    pub fn new(window_size: usize) -> (collector: Self)
        ensures
            collector.window_size == window_size,
    {
        Self { window_size }
    }

    /// Whether the hypothesis of a trade on `side` still holds for the book
    /// (see `hypothesis_holds`).
    pub fn is_hypothesis_valid(&self, ob: &OrderBook, side: char) -> (valid: bool)
        ensures
            valid == hypothesis_holds(total_volume(ob.bids@), total_volume(ob.asks@), side),
    {
        let (bm, am) = ob.get_total_liquidity();
        proof {
            lemma_total_volume_bound(ob.bids@);
            lemma_total_volume_bound(ob.asks@);
        }
        let total = bm + am;
        if side == '1' {
            total <= 0 || 10 * (bm - am) > -total
        } else {
            total <= 0 || 10 * (bm - am) < total
        }
    }
}

/// The total volume of `s` is within `s.len()` times the range of `i64`.
pub proof fn lemma_total_volume_bound(s: Seq<(i64, i64)>)
    ensures
        -0x8000_0000_0000_0000 * s.len() <= total_volume(s) <= 0x8000_0000_0000_0000 * s.len(),
    decreases s.len(),
{
    if s.len() > 0 {
        lemma_total_volume_bound(s.drop_last());
    }
}

} // verus!
