//! The service's settings, as read from its configuration file.
use vstd::prelude::*;

verus! {

/// All settings.
#[derive(Debug, Clone)]
pub struct Settings {
    pub matchers: MatchersSettings,
    pub server: ServerSettings,
}

/// Settings of the matcher connections.
#[derive(Debug, Clone)]
pub struct MatchersSettings {
    pub matchers: Vec<String>,
    pub matcher_ws_port: u16,
    pub batch_size: usize,
}

/// Settings of the HTTP server.
#[derive(Debug, Clone, Copy)]
pub struct ServerSettings {
    pub server_port: u16,
}

} // verus!
