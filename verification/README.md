# concurrency_kit

Verified building blocks for small concurrent programs, written in Verus.

`src/` is the verified library. Each synchronisation primitive is a state
machine: its methods take the shared state by `&mut` (the caller holds the
lock) and answer what to do next, for instance `Step::Block` while a waiter
has to keep waiting. Clocks are passed in as tick counts.

- `circular_buffer`: fixed-capacity ring buffer.
- `lru_cache`: expiring key/value cache with least-recently-used eviction.
- `latch`, `count_down`, `ranking_barrier`: latches and a ranking barrier.
- `bounded_channel`: bounded FIFO channel with a closing `Stop` marker.
- `multi_channel`: broadcast of bytes to every subscribed receiver.
- `forgettable`: a channel whose messages their sender may cancel until
  the receiver takes them, over `std::sync::mpsc` and a lock per message.
- `token_manager`: caching of an access token until it expires.
- `readings`: measures grouped by sensor for one sampling period.
- `game`, `primes`: the "make ten" puzzle and trial-division primes.

`app/` runs the primitives across threads (mutexes, condition variables,
`std::sync::mpsc`, the system clock) and holds the demonstrations.
