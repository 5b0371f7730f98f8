//! Position limits per side.

use vstd::prelude::*;
use vstd::string::StringSliceAdditionalSpecFns;
use crate::decimal::{parse_unsigned, parse_unsigned_spec};

verus! {

/// Order volumes go out in lots of a thousand units.
pub const VOLUME_STEP: u64 = 1000;

/// `qty` rounded down to a whole number of lots of `VOLUME_STEP`.
pub open spec fn normalized_qty(qty: nat) -> nat {
    (qty - qty % (VOLUME_STEP as nat)) as nat
}

/// Rounding a volume down to whole lots gives a multiple of the lot that
/// is at most the volume and less than one lot below it; rounding again
/// changes nothing.
pub proof fn lemma_normalized_qty_lots(qty: nat)
    ensures
        normalized_qty(qty) % (VOLUME_STEP as nat) == 0,
        normalized_qty(qty) <= qty,
        qty - normalized_qty(qty) < VOLUME_STEP,
        normalized_qty(normalized_qty(qty)) == normalized_qty(qty),
{
    let r = normalized_qty(qty);
    assert(r % 1000 == 0) by {
        vstd::arithmetic::div_mod::lemma_fundamental_div_mod(qty as int, 1000);
        vstd::arithmetic::div_mod::lemma_mod_multiples_basic(qty as int / 1000, 1000);
    }
}

pub struct RiskManager {
    pub max_buys: usize,
    pub max_sells: usize,
    pub magic_number: u64,
}

impl RiskManager {
    /// The limits read from their settings' text (decimal integers, see
    /// `parse_unsigned_spec`); `None` when one of them is not such a number
    /// or does not fit its field.
    pub fn from_settings(max_buys: &str, max_sells: &str, magic_number: &str) -> (r: Option<Self>)
        ensures
            match (
                parse_unsigned_spec(max_buys.spec_bytes()),
                parse_unsigned_spec(max_sells.spec_bytes()),
                parse_unsigned_spec(magic_number.spec_bytes()),
            ) {
                (Some(b), Some(s), Some(m)) => if b <= usize::MAX && s <= usize::MAX {
                    r matches Some(rm) && rm.max_buys == b && rm.max_sells == s && rm.magic_number == m
                } else {
                    r is None
                },
                _ => r is None,
            },
    {
        let b = parse_unsigned(max_buys.as_bytes());
        let s = parse_unsigned(max_sells.as_bytes());
        let m = parse_unsigned(magic_number.as_bytes());
        match (b, s, m) {
            (Some(b), Some(s), Some(m)) => {
                if b <= usize::MAX as u64 && s <= usize::MAX as u64 {
                    Some(Self { max_buys: b as usize, max_sells: s as usize, magic_number: m })
                } else {
                    None
                }
            },
            _ => None,
        }
    }

    /// An order volume rounded down to a multiple of `VOLUME_STEP` (see
    /// `normalized_qty`): the largest such multiple that does not exceed
    /// `qty`.
    pub fn normalize_qty(qty: u64) -> (r: u64)
        ensures
            r == normalized_qty(qty as nat),
            r % VOLUME_STEP == 0,
            r <= qty,
            qty - r < VOLUME_STEP,
    {
        qty - qty % VOLUME_STEP
    }

    /// Whether one more position may be opened on `side`: a buy ('1') while
    /// fewer than `max_buys` are open, a sell ('2') while fewer than
    /// `max_sells` are; never for any other side.
    pub fn can_open_more(&self, current_buys: usize, current_sells: usize, side: char) -> (allowed: bool)
        ensures
            allowed == ((side == '1' && current_buys < self.max_buys) || (side == '2' && current_sells
                < self.max_sells)),
    {
        if side == '1' {
            if current_buys < self.max_buys {
                return true;
            }
        } else if side == '2' {
            if current_sells < self.max_sells {
                return true;
            }
        }
        false
    }
}

} // verus!
