//! Link-failover controller: probes candidate egress interfaces, scores them,
//! decides with hysteresis when to promote another interface, and plans the
//! changes to the persisted routing configuration.
pub mod config;
pub mod decision;
pub mod network;
pub mod openwrt;
pub mod probe;
pub mod text;
