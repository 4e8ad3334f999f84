//! Verified core logic of a small network shell for a Wi-Fi microcontroller
//! board: command dispatch, path resolution, configuration records, packet
//! formats and clock arithmetic.

pub mod text;
pub mod number;
pub mod datetime;
pub mod path;
pub mod config;
pub mod cli;
pub mod dhcp;
pub mod ntp;
pub mod zeroconf;
pub mod editor;
pub mod device;
pub mod scan;
pub mod http;
pub mod logfile;
