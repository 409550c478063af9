//! Peer-to-peer collaborative editing daemon library.
//!
//! A session synchronizes a rooted directory tree across a mesh of connected
//! daemons and multiplexes in-buffer edits among editor front-ends attached to
//! the same logical file.  This crate holds the daemon's logic: the
//! content-addressed file registry, the dual-index table of attached editor
//! clients, the router that dispatches every inbound event, the watcher's
//! event decisions, the CSV form of buffer edits, the session-key record and
//! naming scheme, and the ignore subsystem.  All I/O (sockets, disk,
//! filesystem notifications) lives outside, in the binary that drives the
//! router loop and turns frames into messages.

pub mod addr;
pub mod clients;
pub mod csv;
pub mod errors;
pub mod hashing;
pub mod json;
pub mod matcher;
pub mod messages;
pub mod paths;
pub mod perms;
pub mod registry;
pub mod router;
pub mod session;
pub mod watcher;
pub mod wire;
