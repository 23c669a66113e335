# halter_goals

A memory of goals for an agent: what it set out to do, what it found out on the
way, and what of that is worth keeping. The library is written in Rust with
Verus; every function in `src/` states what it does and is proved to do it.

- `src/goal_model/`: goal trees folded from an append-only log of events, the
  content hash of a resolved subtree, and the store that creates, revises and
  closes goals.
- `src/tier1/`: canonical tool arguments, validity tokens, and the cache of tool
  results that serves a value only while its token holds.
- `src/tier2/`: memories and their store, retrieval, replay, summaries, the
  vectors that memories are recalled by, and the engine that learns a memory
  from a closed goal.
- `src/integration.rs`: from a closed goal to a memory, and from a new goal to
  what is known about it.

Properties that relate several functions are public proof functions whose names
begin with `law_`. What is taken on trust from other crates (SHA-256, random
identifiers, JSON strings, an LRU cache) stands in functions marked
`external_body`, each with a comment that says what is claimed.

`app/` holds what touches the outside world: the SQLite database, backends that
are waited for, state shared between tasks, and serialised forms. Floating-point
distances are computed there and handed to the library as bits.
