# perpx

The core of a perpetual-futures exchange, verified with Verus: an order book
with price-time priority matching, isolated-margin positions with
liquidation, user balances, and the handling of each exchange request.

## Layout

- `src/decimal.rs`: fixed-point decimals as `rust_decimal` holds them, with
  the arithmetic done by `rust_decimal` behind trusted calls.
- `src/order.rs`: orders, the order book and the matching engine, with the
  price-time priority law and the law that each fill opens a long and a short.
- `src/position.rs`: positions, margin ratio, liquidation price, the position
  book, and the liquidation laws.
- `src/user.rs`, `src/trades.rs`: users with their balances, and the trade log.
- `src/exchange.rs`: what each request does to the whole exchange state.
- `src/feed.rs`, `src/jwt.rs`, `src/http.rs`, `src/inmemory.rs`: price feed
  messages, token claims, HTTP request details, registry records.
- `src/ext.rs`: identifiers and the clock.
- `app/`: the server around the library (HTTP routes, the price feed
  connection, Redis publishing, the candle store, token signing).
- `tests/`: tests of the library on concrete values.

## Design notes

- Each side of the order book is a `Vec<Level>` kept sorted best price
  first, rather than a `BTreeMap` keyed by price. Prices are decimals that
  compare by value across scales (1.0 and 1 are one price). A map keyed by
  them would rest on an ordering of the key type that Verus cannot be given
  here: a derived `Ord` on the decimal compares mantissa and scale, not
  value. Nor can a price be turned into an integer key that keeps its order,
  since writing every price at 28 decimal places overflows `i128`. Placing an
  order is therefore linear in the number of levels.
- The liquidation queue is a `Vec` kept sorted by margin ratio, riskiest
  first, standing in for a priority queue.
- The concurrent registries in `app/registry.rs` share `DashMap`s through
  `Arc` and change them through shared references. A contract on what such a
  map holds could be broken by any other holder of the `Arc`, so they stay
  outside the verified library.
