//! A verified core for a UDP packet forwarder: the broadcast ring that fans
//! packets out to senders, target-address validation, the INI configuration
//! model, and the state of the settings window.
pub mod text;
pub mod address;
pub mod ring;
pub mod config;
pub mod settings;
pub mod cli;
