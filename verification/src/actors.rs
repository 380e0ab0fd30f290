//! Actors: mailboxes, per-type pools and their router.

pub mod director;
pub mod envelope;
pub mod manager;
pub mod proxy;
