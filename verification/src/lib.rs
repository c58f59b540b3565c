//! Wake-on-LAN by request: a hardware address is read from its written form,
//! the magic packet for it is laid out, and a small connection protocol
//! decides when that packet is to be broadcast.
//!
//! Nothing here reads or writes. [`address`] and [`packet`] turn a text into
//! the 102 octets to send, [`listener`] is the protocol of one connection as
//! a state machine that a driver runs, [`broadcast`] says what goes where
//! when the machine asks for it, and [`config`] makes the configuration out
//! of what the environment variables and the command line gave.

pub mod address;
pub mod broadcast;
pub mod config;
pub mod groups;
pub mod listener;
pub mod packet;

pub use address::{HardwareAddress, ParseError};
pub use broadcast::{wake_datagram, Datagram, WAKE_PORT};
pub use config::{Config, ConfigurationError, Settings};
pub use listener::{Action, Event, Outcome, Phase};
pub use packet::MagicPacket;
