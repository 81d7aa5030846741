//! rtun forwards TCP and UDP ports between two machines, over a direct QUIC
//! connection between two endpoints that name each other by public key.
//!
//! This crate holds every decision of the tunnel: which peer is admitted and which
//! port it may reach, how a datagram is framed and routed, when a listener is
//! bound, retargeted or dropped, when a lost link is dialled again, and what the
//! admin surface answers. Sockets, clocks, files and tasks live in the program
//! around it, which hands in what happened and carries out what is decided.
use vstd::prelude::*;

pub mod address;
pub mod admin;
pub mod config;
pub mod config_file;
pub mod connect;
pub mod edit;
pub mod edit_laws;
pub mod endpoint;
pub mod entry_laws;
pub mod error;
pub mod grants;
pub mod identity;
pub mod idle;
pub mod link;
pub mod listeners;
pub mod lists;
pub mod operations;
pub mod path;
pub mod portmap;
pub mod proto;
pub mod report;
pub mod seed;
pub mod serve;
pub mod share;
pub mod state;
pub mod table;
pub mod text;
pub mod token;

pub use crate::portmap::PortMap;

verus! {

/// What the two ends of a link call the protocol they speak.
pub const ALPN: &'static str = "rtun/0";

} // verus!
