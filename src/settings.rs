//! The configuration that the resolver is started with, as plain values.
use vstd::prelude::*;

verus! {

/// All settings.
#[derive(Debug)]
pub struct Settings {
    pub listeners: ListenersSettings,
    pub resolver: ResolverSettings,
}

/// The two transport listeners.
#[derive(Debug)]
pub struct ListenersSettings {
    pub udp: ListenerSettings,
    pub tcp: ListenerSettings,
}

/// One listener: whether it runs, and where it binds.
#[derive(Debug)]
pub struct ListenerSettings {
    pub enabled: bool,
    pub address: String,
    pub port: u16,
}

/// The resolution pipeline: its cache, its ordered upstream servers, and what it
/// does with a query for a blocked name (`drop`, `nxdomain` or `refused`).
#[derive(Debug)]
pub struct ResolverSettings {
    pub cache: CacheSettings,
    pub upstreams: Vec<UpstreamSettings>,
    pub blocked: String,
}

/// Whether the cache runs, and how many entries it holds at most.
#[derive(Debug)]
pub struct CacheSettings {
    pub enabled: bool,
    pub size: usize,
}

/// One upstream server: its address, port and transport protocol (`udp` or `tcp`).
#[derive(Debug)]
pub struct UpstreamSettings {
    pub address: String,
    pub port: u16,
    pub protocol: String,
}

} // verus!
