//! A UDP port-forwarding proxy: address parsing, route tables and
//! configuration, with their contracts proved.
pub mod text;
pub mod ip;
pub mod dns;
pub mod port_range;
pub mod config;
pub mod config2;
pub mod route_table;
pub mod router;
pub mod stream_router;
pub mod startup;
pub mod pool;
pub mod connection;
pub mod args;
