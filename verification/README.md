# tinyhivemind

Pure decisions for a shared conversation between agents and people, written
in Verus and proved against their contracts.

## Layout

- `src/` — the verified library.
  - `masking` — which byte ranges of a message body are code (fenced blocks
    and inline spans), and whether an offset falls in one.
  - `roster`, `desk` — snapshots of agents, people and desks, their
    validation, and the lookups every decision makes.
  - `aside` — whether one message may address fewer readers than its desk,
    and who may read a row with a narrowed audience.
  - `exchange` — whether an episode may open one more round of private
    exchange, for whom, and how much is left.
  - `budget` — a fair, max-min split of one character budget among sources.
  - `agents` — a registry of host-instantiated agents and the resolution of a
    routing plan onto it.
  - `dispatch`, `responder`, `mention`, `error` — the payload types these
    decisions exchange, and the sentences an agent may repeat to a person.
  - `text` — character and UTF-8 facts shared by the modules above.
- `tests/` — executable tests of the library on concrete values.
- `app/` — unverified glue for hosts: serde wire forms and `thiserror`
  error types that mirror the library's, with conversions both ways, and
  `Display` renderings of the library's sentences.

Each public function states its result in its `ensures`: for a function that
can fail, on which inputs it succeeds and which error comes otherwise. The
laws that relate several calls, or hold of every input, are public proof
functions named `law_*`.
