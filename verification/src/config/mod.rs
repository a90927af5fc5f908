//! Configuration: projects, destinations and settings.

pub mod model;
pub mod changes;
pub mod store;
