//! The QUIC protocol engine (quiche) and the per-slot lock (parking_lot), as
//! seen by the verified code: each call the logic makes goes through one of the
//! trusted items below.
use vstd::prelude::*;

verus! {

/// One quiche connection, with quiche's default buffer factory. Its contents
/// are opaque: what the library knows of it comes from the calls below.
#[verifier::external_body]
pub struct Engine {
    conn: quiche::Connection,
}

#[verifier::external_type_specification]
#[verifier::external_body]
pub struct ExRawLock(parking_lot::RawMutex);

#[verifier::external_type_specification]
#[verifier::external_body]
pub struct ExEngineConfig(quiche::Config);

#[verifier::external_type_specification]
#[verifier::external_body]
pub struct ExPath(quiche::RecvInfo);

#[verifier::external_type_specification]
#[verifier::external_body]
#[verifier::reject_recursive_types(R)]
#[verifier::reject_recursive_types(T)]
pub struct ExLock<R, T: ?Sized>(parking_lot::lock_api::Mutex<R, T>);

/// Why an engine call did not succeed.
#[derive(Clone, Copy, Debug, PartialEq, Eq, Structural)]
pub enum EngineFault {
    /// The engine's "nothing (more) to do" signal (`quiche::Error::Done`).
    Done,
    /// Any other engine error.
    Failed,
}

/// Whether the engine has reached its closed state.
pub uninterp spec fn closed_of(e: Engine) -> bool;

/// Relies on quiche::Connection::is_closed: it reads the connection's closed flag.
#[verifier::external_body]
pub(crate) fn engine_is_closed(e: &Engine) -> (r: bool)
    ensures
        r == closed_of(*e),
{
    e.conn.is_closed()
}

/// Relies on quiche::accept: builds a server-side connection from the server's
/// source connection id, the client's original destination id and a configuration.
#[verifier::external_body]
pub(crate) fn engine_accept(
    scid: &[u8],
    odcid: &[u8],
    path: &quiche::RecvInfo,
    config: &mut quiche::Config,
) -> (r: Result<Engine, EngineFault>) {
    let scid = quiche::ConnectionId::from_ref(scid);
    let odcid = quiche::ConnectionId::from_ref(odcid);
    match quiche::accept(&scid, Some(&odcid), path.to, path.from, config) {
        Ok(conn) => Ok(Engine { conn }),
        Err(quiche::Error::Done) => Err(EngineFault::Done),
        Err(_) => Err(EngineFault::Failed),
    }
}

/// Relies on quiche::Connection::recv: processes one inbound datagram.
#[verifier::external_body]
pub(crate) fn engine_recv(e: &mut Engine, packet: &mut [u8], path: &quiche::RecvInfo) -> (r:
    Result<usize, EngineFault>) {
    match e.conn.recv(packet, *path) {
        Ok(n) => Ok(n),
        Err(quiche::Error::Done) => Err(EngineFault::Done),
        Err(_) => Err(EngineFault::Failed),
    }
}

/// Relies on quiche::Connection::is_established: the handshake is complete.
#[verifier::external_body]
pub(crate) fn engine_is_established(e: &Engine) -> (r: bool) {
    e.conn.is_established()
}

/// Relies on quiche::Connection::is_in_early_data: early data may flow.
#[verifier::external_body]
pub(crate) fn engine_is_in_early_data(e: &Engine) -> (r: bool) {
    e.conn.is_in_early_data()
}

/// Relies on quiche::Connection::readable: the ids of the streams with data to read.
#[verifier::external_body]
pub(crate) fn engine_readable(e: &Engine) -> (r: Vec<u64>) {
    e.conn.readable().collect()
}

/// Relies on quiche::Connection::stream_recv: copies stream data into `buf`,
/// never more bytes than `buf` holds.
#[verifier::external_body]
pub(crate) fn engine_stream_recv(e: &mut Engine, stream_id: u64, buf: &mut [u8]) -> (r: Result<
    (usize, bool),
    EngineFault,
>)
    ensures
        final(buf)@.len() == old(buf)@.len(),
        r is Ok ==> r->Ok_0.0 <= old(buf)@.len(),
{
    match e.conn.stream_recv(stream_id, buf) {
        Ok(v) => Ok(v),
        Err(quiche::Error::Done) => Err(EngineFault::Done),
        Err(_) => Err(EngineFault::Failed),
    }
}

/// Relies on quiche::Connection::stream_send: queues a prefix of `data` on the
/// stream and reports its length (`Done` when no capacity is left).
#[verifier::external_body]
pub(crate) fn engine_stream_send(e: &mut Engine, stream_id: u64, data: &[u8], fin: bool) -> (r:
    Result<usize, EngineFault>)
    ensures
        r is Ok ==> r->Ok_0 <= data@.len(),
{
    match e.conn.stream_send(stream_id, data, fin) {
        Ok(n) => Ok(n),
        Err(quiche::Error::Done) => Err(EngineFault::Done),
        Err(_) => Err(EngineFault::Failed),
    }
}

/// Relies on quiche::Connection::dgram_recv: copies one received datagram into
/// `buf` (an error where it does not fit).
#[verifier::external_body]
pub(crate) fn engine_dgram_recv(e: &mut Engine, buf: &mut [u8]) -> (r: Result<usize, EngineFault>)
    ensures
        final(buf)@.len() == old(buf)@.len(),
        r is Ok ==> r->Ok_0 <= old(buf)@.len(),
{
    match e.conn.dgram_recv(buf) {
        Ok(n) => Ok(n),
        Err(quiche::Error::Done) => Err(EngineFault::Done),
        Err(_) => Err(EngineFault::Failed),
    }
}

/// Relies on quiche::Connection::dgram_send: queues one datagram.
#[verifier::external_body]
pub(crate) fn engine_dgram_send(e: &mut Engine, data: &[u8]) -> (r: Result<(), EngineFault>) {
    match e.conn.dgram_send(data) {
        Ok(()) => Ok(()),
        Err(quiche::Error::Done) => Err(EngineFault::Done),
        Err(_) => Err(EngineFault::Failed),
    }
}

/// Relies on quiche::Connection::send: writes one outbound packet into `out`
/// and reports its length (`Done` when nothing is left to send).
#[verifier::external_body]
pub(crate) fn engine_send(e: &mut Engine, out: &mut [u8]) -> (r: Result<usize, EngineFault>)
    ensures
        final(out)@.len() == old(out)@.len(),
        r is Ok ==> r->Ok_0 <= old(out)@.len(),
{
    match e.conn.send(out) {
        Ok((n, _info)) => Ok(n),
        Err(quiche::Error::Done) => Err(EngineFault::Done),
        Err(_) => Err(EngineFault::Failed),
    }
}

/// Relies on quiche::Connection::on_timeout: processes an expired timer.
#[verifier::external_body]
pub(crate) fn engine_on_timeout(e: &mut Engine) {
    e.conn.on_timeout()
}

/// Relies on quiche::Connection::timeout: the time left until the engine's next
/// timer, in whole milliseconds; `None` where no timer is armed.
#[verifier::external_body]
pub(crate) fn engine_timeout_millis(e: &Engine) -> (r: Option<u128>) {
    e.conn.timeout().map(|d| d.as_millis())
}

/// Relies on quiche::Connection::close: starts closing the connection; `Done`
/// where closing was already under way or done.
#[verifier::external_body]
pub(crate) fn engine_close(e: &mut Engine, app: bool, err: u64, reason: &[u8]) -> (r: Result<
    (),
    EngineFault,
>) {
    match e.conn.close(app, err, reason) {
        Ok(()) => Ok(()),
        Err(quiche::Error::Done) => Err(EngineFault::Done),
        Err(_) => Err(EngineFault::Failed),
    }
}

/// Relies on parking_lot::Mutex::new: a lock around `v`.
#[verifier::external_body]
pub(crate) fn lockable<T>(v: T) -> (r: parking_lot::Mutex<T>) {
    parking_lot::Mutex::new(v)
}

} // verus!
