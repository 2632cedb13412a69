# AstraPort

Portfolio contracts whose rules are proved: valuation and performance, an
order book with atomic batches, staking yields with early withdrawal and
alerts, fees, price feeds, event subscriptions with delivery, gamification,
rebalancing, versioning and an audit log.

- `src/` is the library. Each contract is a state with a view as a value (its
  ledger); every function says in its contract which ledger it leaves and what
  it answers. What holds across functions is stated as public proof functions
  next to them.
- `src/host.rs` and `src/text.rs` hold what is believed of outside code: host
  vectors of numbers, SHA-256, strkeys, and appending a character to a string.
- `app/` runs the library inside a Soroban host: the requests of each contract
  with who has to authorize them, the clock, persistent storage, published
  events, and a client of the audit log.
- `tests/` runs the library on concrete values.
