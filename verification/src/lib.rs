//! A WireGuard-fronted reverse proxy gateway: the control plane that drives a
//! WireGuard interface through the `wg`/`wg-quick` tools, a durable directory
//! mapping peer identities to VPN-internal and public addresses, and the
//! classifier that decides where each inbound HTTP request is forwarded.
//!
//! All decision logic lives here and is verified; process execution, file and
//! network I/O stay outside and hand this crate plain values.

pub mod api;
pub mod command;
pub mod dec;
pub mod dump;
pub mod errors;
pub mod handlers;
pub mod ip;
pub mod ip_scan;
pub mod ipmap;
pub mod json;
pub mod peer;
pub mod proxy_db;
pub mod strmap;
pub mod text;
pub mod vpn;
