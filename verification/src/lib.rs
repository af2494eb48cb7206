//! Core logic of a developer-port watcher: parsing port-range expressions,
//! parsing the text output of OS socket- and process-listing tools, and the
//! guarded process-termination protocol. Everything here is verified; the
//! process execution and TCP probing around it live in the application crate.

pub mod kill;
pub mod ports;
pub mod report;
pub mod scan;
pub mod sockets;
pub mod text;
