//! Log replication for databases. The frames and their order are in
//! [`crate::wal`]; what a database file has to do with frames is not settled, so
//! a resource of this kind is known to the workspace and exchanges nothing yet.
use crate::sync::strategy::Kind;
use vstd::prelude::*;

verus! {

/// A database that is to be replicated by its log.
pub struct WalDb;

impl WalDb {
    /// A database without frames.
    pub fn new(_name: &str) -> Self {
        WalDb
    }

    /// Which algorithm this is.
    pub fn kind(&self) -> (r: Kind)
        ensures
            r == Kind::WalDb,
    {
        Kind::WalDb
    }
}

} // verus!
