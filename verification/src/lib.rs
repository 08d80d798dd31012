//! qsh: a small remote shell over QUIC.

pub mod admin;
pub mod admission;
pub mod cgroup;
pub mod child;
pub mod cli;
pub mod client;
pub mod clock;
pub mod config;
pub mod crypto;
pub mod net;
pub mod order;
pub mod path;
pub mod proto;
pub mod pty;
pub mod server;
pub mod session;
pub mod text;
