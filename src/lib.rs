//! An upsert operator's logic: key fingerprints, staging of commands until their time
//! closes, the per-time consolidation of commands into retractions and insertions against
//! a state backend, rehydration of that state from a replay of earlier output, and the
//! decision to move the state from memory to disk.
pub mod datum;
pub mod key;
pub mod index;
pub mod codec;
pub mod state;
pub mod stage;
pub mod upsert;
pub mod health;
pub mod operator;
pub mod snapshot;
pub mod spill;
