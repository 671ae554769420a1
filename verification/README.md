# polyfill_fill

Trade execution and fill handling for a prediction-market client, verified with Verus.

* `src/engine.rs` fills market and limit orders against an order book and records the fills of
  each order; `src/quote.rs` says what becomes of an order.
* `src/processor.rs` takes in fill events and keeps a bounded number of them.
* `src/ledger.rs` keeps fills by order id, `src/order_id.rs` orders the ids, `src/totals.rs` adds
  fills up.
* `src/decimal.rs` is the arithmetic of the `rust_decimal` crate and what is known of it,
  `src/math.rs` the slippage of a price and `src/slippage.rs` what that of fills does not depend on.
* `src/book.rs`, `src/types.rs`, `src/errors.rs` and `src/stamp.rs` hold the values that the rest
  works on.
* `app/` connects the library to the types and the logging of a client.

A number that cannot be computed (an overflow, a division by zero) is ruled out by the `requires`
of `execute_market_order`, `execute_limit_order`, `calculate_fee` and `get_stats`. The functions
beside them, `try_execute_market_order`, `try_execute_limit_order`, `checked_fee` and
`try_get_stats`, take any input and return `None` there.
