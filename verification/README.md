# event_emitter

An event emitter whose consumers run concurrently by default, but are
serialized whenever they don't commute. The event type implements
`Interleaves` to say which pairs of emissions may run at the same time; an
emission that depends on an earlier unfinished one waits in a backlog until
that one finished.

## Layout

- `src/` — the library, verified with Verus.
  - `interleaving.rs`: the `Interleaves` trait.
  - `general_emitter.rs`: the `GeneralEmitter` API, `PanicPolicy`, `WaitStep`.
  - `scheduler.rs`: the scheduling core shared by every emitter, with its
    abstract state `SchedulerView` and the spec of each operation.
  - `tokio_events.rs`, `events.rs`, `cascading.rs`: the emitters built on that
    core (consumers run as async tasks, on threads, or emit further events).
  - `utils.rs`: the `GeneralMap` trait, with its impls for `HashMap` and for
    `Vec<Option<V>>`.
  - `laws.rs`: properties that hold across operations, and over every run of
    operations from a fresh emitter: emissions that run together always
    interleave, no emission is lost or held twice, waiting always makes
    progress, registrations change only when nothing waits on them, and
    panicking consumers are recorded or propagated as the panic policy says.
- `tests/` — tests of the library, with the async runtime and the threads
  simulated on a clock.
- `app/` — the demo program: it runs the consumers the library hands out on
  threads or on a tokio runtime, reports finished ones back, and sleeps when
  the library says so.
