//! A connection behind a lock, and the creation of one from a handshake.
use vstd::prelude::*;

use crate::connection::{ConnError, Connection};
use crate::engine::{engine_accept, lockable, Engine};

verus! {

/// A connection behind a mutual-exclusion lock: every operation on it runs
/// while holding the lock, so operations on one connection never overlap.
pub struct LockedConnection {
    conn: parking_lot::Mutex<Connection>,
    module: Ghost<Seq<u8>>,
}

impl LockedConnection {
    /// The endpoint identifier of the connection inside.
    pub closed spec fn module(&self) -> Seq<u8> {
        self.module@
    }

    pub fn new(module: &[u8], engine: Engine, path: quiche::RecvInfo) -> (r: Self)
        ensures
            r.module() == module@,
    {
        LockedConnection {
            conn: lockable(Connection::new(module, engine, path)),
            module: Ghost(module@),
        }
    }

    /// The lock that guards the connection.
    pub fn connection(&self) -> (r: &parking_lot::Mutex<Connection>) {
        &self.conn
    }
}

/// Creates a server-side connection for endpoint `module` from the handshake's
/// connection ids, with the configuration registered for `module` (`None`:
/// nothing is registered).
pub fn connection_accept(
    module: &[u8],
    scid: &[u8],
    odcid: &[u8],
    config: Option<&mut quiche::Config>,
    path: quiche::RecvInfo,
) -> (r: Result<LockedConnection, ConnError>)
    ensures
        config is None <==> r matches Err(ConnError::NotFound),
        config is Some ==> r is Ok || r matches Err(ConnError::SystemError),
        r matches Ok(lc) ==> lc.module() == module@,
{
    match config {
        Some(c) => match engine_accept(scid, odcid, &path, c) {
            Ok(engine) => Ok(LockedConnection::new(module, engine, path)),
            Err(_) => Err(ConnError::SystemError),
        },
        None => Err(ConnError::NotFound),
    }
}

} // verus!
