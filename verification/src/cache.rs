//! Login form values remembered between runs of the client.

use vstd::prelude::*;

verus! {

/// The last address and username a login succeeded with.
#[derive(Debug, Default)]
pub struct Cache {
    pub last_address: String,
    pub last_username: String,
}

impl Cache {
    pub fn new(last_ip: String, last_username: String) -> (r: Cache)
        ensures
            r.last_address@ == last_ip@,
            r.last_username@ == last_username@,
    {
        Cache { last_address: last_ip, last_username }
    }
}

} // verus!
