//! Device discovery: what was seen on the network, merged into a list of devices.

pub mod devices;
pub mod forest;
pub mod list_laws;
pub mod mdns;
pub mod registry;
pub mod search;
pub mod service;
pub mod ssdp;
