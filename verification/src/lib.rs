//! A service manager in the style of systemd: unit files, dependency ordering,
//! socket activation and the decisions around starting and stopping services.
use vstd::prelude::*;

pub mod cgroups;
pub mod config;
pub mod control;
pub mod dbus_wait;
pub mod exec_helper;
pub mod fd_store;
pub mod jsonrpc2;
pub mod net;
pub mod net_text;
pub mod notification_handler;
pub mod service_manager;
pub mod services;
pub mod shutdown;
pub mod socket_activation;
pub mod sockets;
pub mod startup;
pub mod text;
pub mod unit_parser;
pub mod units;

verus! {
} // verus!
