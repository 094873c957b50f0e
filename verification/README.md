# juggler

Balances JSON-RPC requests over several Ethereum nodes. The decisions are a library that
Verus verifies; a thin shell performs the requests.

- `src/` is the library. It never sends anything: a request, a subscription or a round of
  pings is a sequence of steps, each from an event to the action to perform next.
  - `lib.rs`: a balancer that hands requests to a fixed list of providers in turn.
  - `provider.rs`: a balancer that also takes failing providers out of rotation and brings
    them back once they answer a ping.
  - `attempt.rs`: the events and actions.
  - `pool.rs`, `round_robin.rs`: the mathematical models that the contracts speak of.
  - `laws.rs`, `recovery.rs`, `turns.rs`: what holds of whole requests, of the pool over
    time, and of taking turns.
  - `transport.rs`: the error type of `alloy`, and the one function of it that is called.
- `app/` runs the library on `tokio`, over WebSocket and IPC connections of `alloy`.
- `tests/` runs the library on simulated nodes.

What is proved, in short:

- As long as nothing else changes the pool, every available provider is selected once per
  round. It gets its even share of any number of selections, and of any number of requests
  that the first provider they go to answers.
- As long as nothing else changes the pool during it, a request succeeds exactly when a
  provider that is available at its start answers it. It goes to no provider twice, and moves
  those that fail or do not reply in time to the unavailable list. It ends after finitely many
  tries whatever else happens, and each of its steps is known for any pool that others have
  left behind.
- A provider on that list gets no request until a ping finds it online. No provider is lost:
  each is available or is pinged in the next round, which comes with the next tick.
- A subscription hands over every item of its stream in order. It moves on to another provider
  when its stream ends, and fails only when every available provider refuses it or does not
  reply in time.
