# corr

The runtime core of the corr journey runner, written in Verus.

A journey asks its user for typed variables, keeps what it learns in a
variable store addressed by dotted paths (`hobby.name`, `hobbies.size`), and
loops over list variables with a loop variable bound to each element.

Layout:

- `src/value.rs` — values, variable types, raw (typed-in) values; validation
  and conversion of raw values; equality and cloning of values.
- `src/json.rs` — JSON documents and the values they stand for.
- `src/text.rs` — recognisers for the integer, boolean and float literals a
  user types in, with their grammar as spec functions.
- `src/keys.rs`, `src/path.rs` — string-keyed association lists; dotted paths.
- `src/store.rs` — the variable store: nodes, root names, index references,
  the fallback provider, and the laws of the store (what is saved is read
  back, reads are remembered, loop variables alias list elements, releasing a
  name forgets it and what is below it, operations keep the store well formed).
- `src/env.rs` — the environment: the store plus loops over list variables.
- `src/conversation.rs`, `src/proto.rs` — how front ends ask for a variable:
  the messages, and the step taken after each user action.
- `app/` — the web and terminal front ends (warp, serde, stdin/stdout),
  reading and writing JSON text, and everything that handles doubles as
  floating-point numbers.
- `tests/` — tests of the library.
