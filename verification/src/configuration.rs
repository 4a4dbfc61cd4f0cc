//! An older, smaller configuration shape: a base directory and the server
//! list, without a listen address.

use vstd::prelude::*;

verus! {

/// Launch descriptor for one supervised server.
#[derive(Debug, Clone)]
pub struct ServerInfo {
    pub id: String,
    pub start_command: String,
}

impl ServerInfo {
    /// The placeholder entry a freshly written configuration file holds.
    pub fn template() -> (r: ServerInfo)
        ensures
            r.id@ == "Example"@,
            r.start_command@ == "ExampleStartCommand"@,
    {
        ServerInfo { id: "Example".to_owned(), start_command: "ExampleStartCommand".to_owned() }
    }
}

/// The base directory the servers run under, and the configured server list.
#[derive(Debug, Clone)]
pub struct Configuration {
    pub base_directory: String,
    pub servers: Vec<ServerInfo>,
}

} // verus!
