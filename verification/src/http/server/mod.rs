//! The HTTP server.
use vstd::prelude::*;

pub mod middleware;

verus! {

/// The HTTP server of the service.
pub struct HttpServer;

impl HttpServer {
    /// Creates the server.
    pub fn new() -> (res: Self)
        ensures
            res == HttpServer,
    {
        HttpServer
    }
}

} // verus!
