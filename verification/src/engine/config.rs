//! Where the master listens.
use vstd::prelude::*;

verus! {

/// The addresses the master listens on: one for workers, one for clients.
#[derive(Debug)]
pub struct Config {
    pub worker_addr: String,
    pub client_addr: String,
}

impl Clone for Config {
    fn clone(&self) -> (r: Self)
        ensures
            r.worker_addr@ == self.worker_addr@,
            r.client_addr@ == self.client_addr@,
    {
        Config { worker_addr: self.worker_addr.clone(), client_addr: self.client_addr.clone() }
    }
}

impl Default for Config {
    fn default() -> (r: Self)
        ensures
            r.worker_addr@ == "127.0.0.1:9001"@,
            r.client_addr@ == "127.0.0.1:9090"@,
    {
        Config {
            worker_addr: String::from_str("127.0.0.1:9001"),
            client_addr: String::from_str("127.0.0.1:9090"),
        }
    }
}

} // verus!
