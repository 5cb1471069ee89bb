# systems_lab

Verified cores of concurrency, systems-performance, graphics and
language-tooling techniques, written in Verus, with a command-line program
that runs them against real threads, sockets, files and floating-point
renderers.

## Layout

- `src/` is the library. Every function in it is verified by Verus against
  its `requires`/`ensures` contract. Concurrent structures appear as the
  sequential state machines their threads share (stacks, queues, deques,
  monitors, locks, counters, snapshots), together with the decisions of
  actors, transactions and executors, parallel prefix scans, integer line and
  dot rasterisation, an event store, order validation, a packet parser, a
  unifier and a bidirectional type checker. Laws that relate several
  operations are public proof functions (`lemma_*`).
- `tests/` runs the library on concrete inputs.
- `app/` is the program: `main.rs` dispatches on a demo name
  (`systems_lab <demo>`). It owns the threads, the Tokio runtime, io_uring,
  software transactional memory, file output and every floating-point
  computation, and calls into the library for the logic.

The few places where the library relies on the standard library or on rayon
without proof are functions marked `#[verifier::external_body]`; each one's
doc comment says what its contract claims about the call it makes.
