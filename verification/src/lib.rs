//! An event emitter whose consumers run concurrently by default, but are
//! serialized whenever they don't commute: implement `Interleaves` on the event
//! type to say which emissions may run at the same time, register consumers,
//! and emit events; emissions that depend on earlier unfinished ones wait in a
//! backlog until those finished.
pub mod cascading;
pub mod events;
pub mod general_emitter;
pub mod interleaving;
pub mod laws;
pub mod scheduler;
pub mod tokio_events;
pub mod utils;
