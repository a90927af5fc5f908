//! Devices: volumes and which of them may be a copy source, device kinds, arrival
//! events, ejecting, and the safety checks before formatting a card.

pub mod kind;
pub mod volume;
pub mod format;
pub mod eject;
pub mod watch;
pub mod formatter;
