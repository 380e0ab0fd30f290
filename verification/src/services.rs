//! Services: worker sets, their router and the publish/subscribe table.

pub mod broker;
pub mod director;
pub mod manager;
pub mod service;
