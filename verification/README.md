# auto_invest_pool

An auto-invest pool: users deposit a lump sum that is dripped every month into
registered real-world-asset projects that suit their risk profile, ranked by how
many of their preferred tags a project carries. Users can pause, resume and
withdraw; an administrator registers and deregisters projects and can pause the
whole pool.

- `src/` is the verified library (Verus). `AutoInvestPool` holds what the
  contract stores; every call is proved equal to a transition of the model in
  `src/model.rs` (`PoolState`). `src/ranking.rs` proves the ranking (bubble
  sort, highest score first, ties in registration order); `src/keyed.rs` reads
  lists of keyed entries as maps; `src/laws.rs` states what holds of single
  calls and pairs of calls, and `src/across_calls.rs` what holds over any
  sequence of calls (`PoolState::run`).
- `app/` is the Soroban contract around the library: it reads storage, asks the
  library to decide, and performs authorisation, token transfers, `invest`
  calls and events.
- `tests/` exercises the library.
