//! Program settings.
use vstd::prelude::*;

verus! {

/// Where the sensor's local endpoint is and where the server listens.
pub struct Config {
    pub awair_local_uri: String,
    pub bind_addr: String,
}

impl Default for Config {
    /// Settings with both fields empty, written out for the user to fill in.
    fn default() -> (r: Config)
        ensures
            r.awair_local_uri@ == Seq::<char>::empty(),
            r.bind_addr@ == Seq::<char>::empty(),
    {
        Config { awair_local_uri: String::new(), bind_addr: String::new() }
    }
}

} // verus!
