//! Placement, replication and coordination logic for a sharded key-value
//! store with a social-feed front end on top.

pub mod colon;
pub mod order;
pub mod ring;
pub mod client;
pub mod migration;
pub mod replica;
pub mod keeper;
pub mod front;
pub mod timeline;
