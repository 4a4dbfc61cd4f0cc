//! The server list and listen address the panel is configured with.

use vstd::prelude::*;

verus! {

/// Launch descriptor for one supervised server: its id, a display name, and
/// the command line that starts it.
#[derive(Debug, Clone)]
pub struct ServerInfo {
    pub id: String,
    pub display: String,
    pub start_command: String,
}

impl ServerInfo {
    /// The placeholder entry a freshly written configuration file holds.
    pub fn template() -> (r: ServerInfo)
        ensures
            r.id@ == "example"@,
            r.display@ == "Example"@,
            r.start_command@ == "example start command"@,
    {
        ServerInfo {
            id: "example".to_owned(),
            display: "Example".to_owned(),
            start_command: "example start command".to_owned(),
        }
    }
}

/// Panel configuration: listen address and port, the directory the servers
/// run under, and the configured server list.
#[derive(Debug, Clone)]
pub struct ServerConfig {
    pub address: String,
    pub port: String,
    pub server_directory: String,
    pub servers: Vec<ServerInfo>,
}

} // verus!
