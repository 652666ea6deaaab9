//! What the configuration files of the stack hold.

use crate::federation::{LinkPhase, PeerLink, PeerLinkView, DEFAULT_BACKOFF_SECS};
use std::collections::HashMap;
use vstd::prelude::*;

verus! {

/// The broker's configuration.
pub struct Config {
    /// Where the broker listens.
    pub server: ServerConfig,
    /// The peer brokers, by name.
    pub others: HashMap<String, OtherConfig>,
    /// Whether to log verbosely; absent means no.
    pub debug: Option<bool>,
}

/// Where the broker listens.
pub struct ServerConfig {
    pub port: u16,
}

/// Where one peer broker listens.
#[derive(Clone)]
pub struct OtherConfig {
    pub port: u16,
    pub ip_addr_v4: String,
}

/// How a process of the stack reaches the broker.
#[derive(Debug, Clone)]
pub struct AutobahnConfig {
    pub host: String,
    pub port: u16,
}

/// Where and how much a process of the stack logs.
#[derive(Debug, Clone)]
pub struct LoggingConfig {
    pub global_log_pub_topic: String,
    pub global_logging_publishing_enabled: bool,
    pub global_logging_level: String,
}

impl Config {
    /// Tells whether verbose logging was asked for.
    pub fn debug_enabled(&self) -> (r: bool)
        ensures
            r == (self.debug == Some(true)),
    {
        match self.debug {
            Some(flag) => flag,
            None => false,
        }
    }
}

impl OtherConfig {
    /// The link to this peer, about to be dialled for the first time. The
    /// peer is known by its address alone.
    pub fn link(&self) -> (link: PeerLink)
        ensures
            link@ == (PeerLinkView {
                address: self.ip_addr_v4@,
                backoff_secs: DEFAULT_BACKOFF_SECS,
                phase: LinkPhase::Connecting,
            }),
    {
        PeerLink::new(self.ip_addr_v4.clone(), DEFAULT_BACKOFF_SECS)
    }
}

} // verus!
