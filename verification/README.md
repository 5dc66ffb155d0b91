# payments_engine

A payments engine that applies deposits, withdrawals, disputes, resolves
and chargebacks to client accounts, verified with Verus.

- `src/amount.rs` — amounts as `i128` ten-thousandths; reading an amount
  field (trimming, `rust_decimal` parsing, at most four decimal places);
  writing an amount with exactly four decimal places.
- `src/models.rs` — client accounts, stored transactions, incoming rows,
  and the integer model (`Account`) of an account's balances.
- `src/engine.rs` — the engine over `HashMap`s, specified by the `Ledger`
  model: every operation's result is stated exactly as a `Ledger` function.
- `src/ids.rs` — merge sort of client ids.
- `src/laws.rs` — properties of the engine proved over the model (locked
  accounts are frozen, a resolve undoes a dispute, held funds are the sum of
  the disputed amounts, and so on).
- `app/main.rs` — the command-line program: CSV in, CSV out.
- `tests/` — scenario tests, run against the compiled library.
