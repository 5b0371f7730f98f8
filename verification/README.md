# state_engine

The verified core of a FIX 4.4 market-data and order engine for a
Bayesian trading bot.

- `src/state.rs`: the five-level order book. Prices and volumes are
  fixed-point `i64` values with five decimals. Laws: every update keeps the
  levels strictly ranked, a written volume is read back, a removed price is
  gone, removing a freshly added level from a side with a free slot gives
  back its levels (in the same order when the side was ranked).
- `src/lob.rs`: the depth-of-book parser for snapshot (`35=W`) and
  incremental (`35=X`) messages, gated on a Symbol field (`55`) whose value
  is the traded symbol, and the burst reader that splits the quote stream
  on `8=FIX.4.4`.
- `src/fix_engine.rs`: Logon, Heartbeat, MarketDataRequest and order
  builders; `fefix` frames the messages (BodyLength, CheckSum), order
  volumes go out in whole lots of 1000.
- `src/clock.rs`: the system clock and `chrono`'s UTC formatting, which
  give SendingTime. Each builder has an `_at` form that takes the clock
  reading and writes exactly one message for it.
- `src/decimal.rs`, `src/scan.rs`: decimal text (plain and exponent
  notation) and byte search.
- `src/features.rs`, `src/risk.rs`, `src/executor.rs`: the order-flow
  hypothesis check, position limits and trade bookkeeping.
- `app/`: the process itself: TCP sessions, logging, the floating-point
  model and features, and the main loop.
