# order_book

A small central limit order book for a toy exchange, verified with Verus.
Traders hold balances of a stable asset (USDC) and of traded assets (BTC).
Placing an order debits its full collateral, matches it against the best
resting orders of the other side at the makers' prices, and then rests a
good-until-cancelled limit remainder, refuses a market remainder (which cannot
rest) with `MarketOrderCannotRest` and refunds it, or refunds an
immediate-or-cancel one.

Amounts are `rust_decimal` decimals: the library keeps their mantissa and
scale and lets `rust_decimal` do the arithmetic.

`place_order`, `process_order` and `match_orders` ask their callers to show
that the decimal arithmetic of the run stays within range (where
`rust_decimal` would panic) and that the matching ends. `try_place_order`,
`try_process_order` and `try_match_orders` ask nothing: they test this on a
copy first and return `None`, changing nothing, when it cannot be shown.

## Layout

- `src/amount.rs`, `src/amount_ops.rs`: amounts, their model in units of
  `10^-28`, and the calls into `rust_decimal`.
- `src/types.rs`: assets, orders and the two sides of the book.
- `src/account.rs`: display names, assets, accounts and the account summary.
- `src/match_engine.rs`: pricing and sizing of one trade.
- `src/order_book.rs`: the book, its state as the specifications see it, and
  placing, matching and cancelling orders.
- `src/laws.rs`: what every operation keeps: the book's shape, bids below
  asks, the best price over adds and removes, the sequence of order ids, what
  matches credit; that cancelling an unmatched order undoes its placement; and
  that the matching ends within one pass more than the book has orders when
  every match finishes a side (as it does under exact arithmetic).
- `src/conservation.rs`: every asset's total (balances plus locked collateral)
  is kept by placing and cancelling orders.
- `tests/`: the tests, run against the compiled library.
- `app/`: printing and `rust_decimal` conversions, outside verification.
