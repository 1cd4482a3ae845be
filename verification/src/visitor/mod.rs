//! The passes over a value: writing, reading, replaying an update and
//! refreshing the connections.

pub mod deserializer;
pub mod refresher;
pub mod serializer;
pub mod updater;
