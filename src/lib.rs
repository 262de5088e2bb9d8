//! Machine inventory core: WireGuard address allocation, network-link
//! priorities, path resolution between machines, and peer-list assembly.
pub mod digits;
pub mod ip;
pub mod links;
pub mod models;
pub mod natural;
pub mod paths;
pub mod peers;
pub mod wireguard;
