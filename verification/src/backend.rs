//! One backend server of the pool.

use vstd::prelude::*;

verus! {

/// A backend server, addressed by host and port, with its health flag.
#[derive(Clone, Debug)]
pub struct Backend {
    pub host: String,
    pub port: u16,
    pub health: bool,
}

} // verus!
