# reasons

A truth maintenance system for justified beliefs, verified with Verus.

Beliefs are nodes that are IN or OUT. Justifications link them: a node with
a justification whose in-list is all IN and whose out-list is all OUT is IN;
a node without justifications (a premise) keeps its own value. Changes
cascade breadth-first through the dependents. Challenges, defenses and
supersessions set nodes against each other through out-lists; recorded
contradictions are resolved by retracting the least entrenched premise.

## Layout

- `src/` — the verified library.
  - `model.rs`: the mathematical model (truth values, justifications,
    propagation as a breadth-first state machine).
  - `network.rs`: the network and its operations (load, propagate, retract,
    assert, add and remove justifications, full recomputation,
    entrenchment, tracing premises, culprits).
  - `revise.rs`, `edit.rs`, `nogood.rs`: challenges, defenses, supersession,
    adding beliefs and justifications, contradictions.
  - `query.rs`, `explain.rs`, `tree.rs`, `listing.rs`, `search.rs`,
    `format.rs`: what the commands show.
  - `beliefs.rs`, `export.rs`, `import.rs`, `json.rs`, `jsontext.rs`: the
    markdown registry and the JSON document, read and written (JSON text is
    read with serde_json).
  - `tags.rs`: adding a justification, with the inheritance of access
    tags from the antecedents.
  - `laws.rs`, `cascade.rs`, `roundtrip.rs`, `mdtrip.rs`: proofs of what
    propagation, retraction, challenges and the two file formats guarantee.
  - `text.rs`, `clock.rs`, `types.rs`: strings, the clock (std's system
    time and chrono's RFC 3339 text), the records.
- `tests/` — tests of the library on concrete values.
- `app/` — the command line: argument handling, the SQLite store, JSON
  (de)serialisation and printing around the library.
