//! Verified core of a FIX market-data and order engine: a five-level limit
//! order book with fixed-point prices, the quote parser that feeds it, the
//! FIX message builders, and the position and risk bookkeeping around them.

pub mod clock;
pub mod state;
pub mod decimal;
pub mod scan;
pub mod lob;
pub mod fix_engine;
pub mod features;
pub mod risk;
pub mod executor;
