//! Core of `bdmount`, which presents an encrypted Blu-ray as a plain folder.
//!
//! Nothing here does I/O. Where an operation needs the outside, it says what it
//! needs and is told the outcome.

pub mod cache;
pub mod da;
pub mod decrypt;
pub mod disc;
pub mod drives;
pub mod idle;
pub mod mmbd;
pub mod mount;
pub mod number;
pub mod order;
pub mod path;
pub mod plist;
pub mod rawudf;
pub mod session;
pub mod text;
pub mod vfs;
pub mod watch;
