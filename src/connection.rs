//! One QUIC connection: packet ingestion, stream and datagram extraction,
//! outbound draining and timers, over the engine's trusted calls.
use vstd::prelude::*;

use crate::engine::{
    closed_of, engine_close, engine_dgram_recv, engine_dgram_send, engine_is_closed,
    engine_is_established, engine_is_in_early_data, engine_on_timeout, engine_readable, engine_recv,
    engine_send, engine_stream_recv, engine_stream_send, engine_timeout_millis, Engine, EngineFault,
};
use crate::trace::{
    datagrams_first, dgram_shape, drain_shape, fail_reason, lemma_traced_chain, lemma_traced_loud,
    lemma_traced_nothing, lemma_traced_quiet, new_steps, packets_first, stream_shape, traced,
    EngineStep,
};
use vstd::slice::slice_subrange;

verus! {

/// The size of the private egress buffer: the common safe QUIC/UDP payload.
pub const EGRESS_LEN: usize = 1350;

/// The poll interval handed out where the engine has no timer armed.
pub const DEFAULT_TIMEOUT_MS: u64 = 60000;

/// The error code with which a connection is closed after an engine fault
/// while draining.
pub const DRAIN_FAILURE_CODE: u64 = 1;

/// An upper bound on the rounds of any engine read or send loop. No engine
/// reaches it: it only makes each loop visibly finite.
pub const MAX_ROUNDS: u64 = 0xffff_ffff_ffff_ffff;

/// Why an operation failed.
#[derive(Clone, Copy, Debug, PartialEq, Eq, Structural)]
pub enum ConnError {
    /// The connection's engine has reached its closed state.
    AlreadyClosed,
    /// No configuration is registered under the endpoint identifier.
    NotFound,
    /// Any other engine failure.
    SystemError,
}

/// A notification for the process that owns the connection.
#[derive(Debug)]
pub enum Event {
    /// Bytes read from a stream, with the stream's id.
    StreamRecv(u64, Vec<u8>),
    /// One datagram received.
    DgramRecv(Vec<u8>),
    /// One outbound packet to transmit.
    Drain(Vec<u8>),
}

/// Where an event falls in the fixed order of one call: stream data, then
/// datagrams, then outbound packets.
pub open spec fn rank(e: Event) -> int {
    match e {
        Event::StreamRecv(_, _) => 0,
        Event::DgramRecv(_) => 1,
        Event::Drain(_) => 2,
    }
}

/// The events are in the fixed order, and none carries an empty payload
/// (an outbound packet excepted).
pub open spec fn well_ordered(s: Seq<Event>) -> bool {
    &&& forall|i: int, j: int| 0 <= i <= j < s.len() ==> rank(#[trigger] s[i]) <= rank(#[trigger] s[j])
    &&& forall|i: int| 0 <= i < s.len() ==> match #[trigger] s[i] {
        Event::StreamRecv(_, d) => d@.len() > 0,
        Event::DgramRecv(d) => d@.len() > 0,
        Event::Drain(d) => d@.len() <= EGRESS_LEN,
    }
}

/// `after` is `before` with events appended whose ranks are all in `lo..=hi`,
/// in order.
pub open spec fn appended(before: Seq<Event>, after: Seq<Event>, lo: int, hi: int) -> bool {
    &&& before.len() <= after.len()
    &&& after.subrange(0, before.len() as int) == before
    &&& well_ordered(after.subrange(before.len() as int, after.len() as int))
    &&& forall|i: int| before.len() <= i < after.len() ==> lo <= rank(#[trigger] after[i]) <= hi
}

/// The poll interval for an engine timer of `t` milliseconds (`None`: no
/// timer), saturating where it does not fit in 64 bits.
pub open spec fn timeout_spec(t: Option<u128>) -> u64 {
    match t {
        None => DEFAULT_TIMEOUT_MS,
        Some(ms) => if ms <= u64::MAX as u128 { ms as u64 } else { u64::MAX },
    }
}

/// The poll interval for an engine timer of `t` milliseconds.
pub fn timeout_millis(t: Option<u128>) -> (r: u64)
    ensures
        r == timeout_spec(t),
{
    match t {
        None => DEFAULT_TIMEOUT_MS,
        Some(ms) => if ms <= u64::MAX as u128 {
            ms as u64
        } else {
            u64::MAX
        },
    }
}

/// The first `len` bytes of `buf`, copied.
pub fn prefix_copy(buf: &[u8], len: usize) -> (r: Vec<u8>)
    requires
        len <= buf@.len(),
    ensures
        r@ == buf@.subrange(0, len as int),
{
    let mut out: Vec<u8> = Vec::with_capacity(len);
    let mut i: usize = 0;
    while i < len
        invariant
            len <= buf@.len(),
            i <= len,
            out@ == buf@.subrange(0, i as int),
        decreases len - i,
    {
        out.push(buf[i]);
        i = i + 1;
        assert(out@ =~= buf@.subrange(0, i as int));
    }
    out
}

/// What `stream_send` does after one engine call, `pos` of `size` bytes having
/// been queued before it.
#[derive(Clone, Copy, Debug, PartialEq, Eq, Structural)]
pub enum SendStep {
    /// Part of the payload is still unsent: go on from this offset.
    Continue(usize),
    /// The whole payload has been queued.
    Finished,
    /// The engine can take no more for now (it signalled so, or took nothing):
    /// stop, without an error.
    Halted,
    /// The engine failed.
    Failed,
}

/// The step after the engine answered `outcome` to a send of `data[pos..size]`.
pub open spec fn send_step_spec(pos: nat, size: nat, outcome: Result<usize, EngineFault>) -> SendStep {
    match outcome {
        Ok(len) => if pos + len >= size {
            SendStep::Finished
        } else if len == 0 {
            SendStep::Halted
        } else {
            SendStep::Continue((pos + len) as usize)
        },
        Err(EngineFault::Done) => SendStep::Halted,
        Err(EngineFault::Failed) => SendStep::Failed,
    }
}

/// The step after the engine answered `outcome` to a send of `data[pos..size]`.
pub fn send_step(pos: usize, size: usize, outcome: Result<usize, EngineFault>) -> (r: SendStep)
    requires
        pos <= size,
        outcome matches Ok(len) ==> len <= size - pos,
    ensures
        r == send_step_spec(pos as nat, size as nat, outcome),
        r matches SendStep::Continue(p) ==> pos < p < size,
{
    match outcome {
        Ok(len) => if pos + len >= size {
            SendStep::Finished
        } else if len == 0 {
            SendStep::Halted
        } else {
            SendStep::Continue(pos + len)
        },
        Err(EngineFault::Done) => SendStep::Halted,
        Err(EngineFault::Failed) => SendStep::Failed,
    }
}

/// The default interval is handed out exactly where the engine has no timer
/// (a timer of exactly the default length aside); a timer that fits in 64 bits
/// is handed out as it is.
pub proof fn lemma_default_timeout_iff_no_timer(t: Option<u128>)
    requires
        t != Some(DEFAULT_TIMEOUT_MS as u128),
    ensures
        timeout_spec(t) == DEFAULT_TIMEOUT_MS <==> t is None,
        t is Some && t->Some_0 <= u64::MAX as u128 ==> timeout_spec(t) == t->Some_0,
{
}

/// What `drain` does after one `send`.
#[derive(Clone, Copy, Debug, PartialEq, Eq, Structural)]
pub enum DrainStep {
    /// Hand out the packet of this length and ask again.
    Emit(usize),
    /// Nothing more to send: stop.
    Stop,
    /// The engine failed: close the connection and stop.
    CloseAndStop,
}

/// The step after `send` answered `outcome`.
pub fn drain_step(outcome: Result<usize, EngineFault>) -> (r: DrainStep)
    ensures
        r == match outcome {
            Ok(n) => DrainStep::Emit(n),
            Err(EngineFault::Done) => DrainStep::Stop,
            Err(EngineFault::Failed) => DrainStep::CloseAndStop,
        },
{
    match outcome {
        Ok(n) => DrainStep::Emit(n),
        Err(EngineFault::Done) => DrainStep::Stop,
        Err(EngineFault::Failed) => DrainStep::CloseAndStop,
    }
}

/// One connection: its engine, the endpoint identifier it belongs to, the
/// network path its packets travel, a private egress buffer, and the record of
/// the engine calls it has made.
pub struct Connection {
    module: Vec<u8>,
    engine: Engine,
    path: quiche::RecvInfo,
    buf: [u8; 1350],
    log: Ghost<Seq<EngineStep>>,
}

impl Connection {
    /// Whether the engine has reached its closed state.
    pub closed spec fn closed(&self) -> bool {
        closed_of(self.engine)
    }

    /// The endpoint identifier.
    pub closed spec fn module(&self) -> Seq<u8> {
        self.module@
    }

    /// The engine.
    pub closed spec fn engine(&self) -> Engine {
        self.engine
    }

    /// The engine calls made so far, in order, with what came back.
    pub closed spec fn log(&self) -> Seq<EngineStep> {
        self.log@
    }

    pub fn new(module: &[u8], engine: Engine, path: quiche::RecvInfo) -> (r: Self)
        ensures
            r.module() == module@,
            r.engine() == engine,
            r.closed() == closed_of(engine),
            r.log() == Seq::<EngineStep>::empty(),
    {
        Connection {
            module: vstd::slice::slice_to_vec(module),
            engine,
            path,
            buf: [0u8; 1350],
            log: Ghost(Seq::empty()),
        }
    }

    /// The endpoint identifier.
    pub fn module_bytes(&self) -> (r: &[u8])
        ensures
            r@ == self.module(),
    {
        self.module.as_slice()
    }

    /// Whether the engine has reached its closed state; changes nothing.
    pub fn is_closed(&self) -> (r: bool)
        ensures
            r == self.closed(),
    {
        engine_is_closed(&self.engine)
    }

    /// The poll interval for the engine's current timer.
    pub fn next_timeout(&mut self) -> (r: u64)
        ensures
            final(self).module() == old(self).module(),
            final(self).log() == old(self).log().push(EngineStep::Timer(final(self).log().last()->Timer_0)),
            r == timeout_spec(final(self).log().last()->Timer_0),
    {
        let t = engine_timeout_millis(&self.engine);
        self.log = Ghost(self.log@.push(EngineStep::Timer(t)));
        timeout_millis(t)
    }

    /// Reads every readable stream into `scratch`, each until its first failed
    /// read, if the connection may carry application data, and hands each
    /// nonempty read to `events`.
    fn handle_stream(&mut self, scratch: &mut [u8], events: &mut Vec<Event>)
        ensures
            final(self).module() == old(self).module(),
            appended(old(events)@, final(events)@, 0, 0),
            traced(old(self).log(), final(self).log(), old(events)@, final(events)@),
            stream_shape(new_steps(old(self).log(), final(self).log())),
    {
        let ghost l0 = self.log@;
        let ghost e0 = events@;
        proof {
            lemma_appended_nothing(e0, 0, 0);
            lemma_traced_nothing(l0, e0);
        }
        let open = engine_is_in_early_data(&self.engine) || engine_is_established(&self.engine);
        self.log = Ghost(self.log@.push(EngineStep::Gate(open)));
        proof { lemma_traced_quiet(l0, l0, e0, e0, EngineStep::Gate(open)); }
        if !open {
            assert(new_steps(l0, self.log@) =~= seq![EngineStep::Gate(open)]);
            return;
        }
        let ids = engine_readable(&self.engine);
        let ghost lg = self.log@;
        self.log = Ghost(self.log@.push(EngineStep::Readable(ids@)));
        proof { lemma_traced_quiet(l0, lg, e0, e0, EngineStep::Readable(ids@)); }
        let ghost lr = self.log@;
        let mut k: usize = 0;
        while k < ids.len()
            invariant
                l0 == old(self).log(),
                e0 == old(events)@,
                lr == l0.push(EngineStep::Gate(true)).push(EngineStep::Readable(ids@)),
                self.module() == old(self).module(),
                appended(e0, events@, 0, 0),
                traced(l0, self.log@, e0, events@),
                lr.len() <= self.log@.len(),
                self.log@.subrange(0, lr.len() as int) == lr,
                forall|i: int|
                    lr.len() <= i < self.log@.len() ==> (#[trigger] self.log@[i]) is StreamRecv
                        && ids@.contains(self.log@[i]->StreamRecv_0),
            decreases ids@.len() - k,
        {
            let stream_id = ids[k];
            assert(ids@[k as int] == stream_id);
            let mut rounds: u64 = 0;
            while rounds < MAX_ROUNDS
                invariant
                    l0 == old(self).log(),
                    e0 == old(events)@,
                    ids@.contains(stream_id),
                    self.module() == old(self).module(),
                    appended(e0, events@, 0, 0),
                    traced(l0, self.log@, e0, events@),
                    lr.len() <= self.log@.len(),
                    self.log@.subrange(0, lr.len() as int) == lr,
                    forall|i: int|
                        lr.len() <= i < self.log@.len() ==> (#[trigger] self.log@[i]) is StreamRecv
                            && ids@.contains(self.log@[i]->StreamRecv_0),
                decreases MAX_ROUNDS - rounds,
            {
                let outcome = engine_stream_recv(&mut self.engine, stream_id, scratch);
                let ghost l1 = self.log@;
                let ghost e1 = events@;
                match outcome {
                    Ok((len, _fin)) => {
                        let data = prefix_copy(scratch, len);
                        let ghost step = EngineStep::StreamRecv(stream_id, Ok(data@));
                        self.log = Ghost(self.log@.push(step));
                        if len > 0 {
                            events.push(Event::StreamRecv(stream_id, data));
                            proof {
                                lemma_push_ordered(e0, e1, Event::StreamRecv(stream_id, data), 0, 0);
                                lemma_traced_loud(l0, l1, e0, e1, step, Event::StreamRecv(stream_id, data));
                            }
                        } else {
                            proof { lemma_traced_quiet(l0, l1, e0, e1, step); }
                        }
                        assert(self.log@.subrange(0, lr.len() as int) =~= l1.subrange(0, lr.len() as int));
                    },
                    Err(f) => {
                        let ghost step = EngineStep::StreamRecv(stream_id, Err(f));
                        self.log = Ghost(self.log@.push(step));
                        proof { lemma_traced_quiet(l0, l1, e0, e1, step); }
                        assert(self.log@.subrange(0, lr.len() as int) =~= l1.subrange(0, lr.len() as int));
                        break;
                    },
                }
                rounds = rounds + 1;
            }
            k = k + 1;
        }
        proof {
            let s = new_steps(l0, self.log@);
            assert(s[0] == lr[l0.len() as int]);
            assert(s[1] == lr[l0.len() + 1int]);
            assert forall|i: int| 2 <= i < s.len() implies (#[trigger] s[i]) is StreamRecv
                && s[1]->Readable_0.contains(s[i]->StreamRecv_0) by {
                assert(s[i] == self.log@[l0.len() as int + i]);
            }
        }
    }

    /// Hands each datagram that the engine has received to `events`, until the
    /// first failed read, if the connection may carry application data.
    fn handle_dgram(&mut self, events: &mut Vec<Event>)
        ensures
            final(self).module() == old(self).module(),
            appended(old(events)@, final(events)@, 1, 1),
            traced(old(self).log(), final(self).log(), old(events)@, final(events)@),
            dgram_shape(new_steps(old(self).log(), final(self).log())),
    {
        let ghost l0 = self.log@;
        let ghost e0 = events@;
        proof {
            lemma_appended_nothing(e0, 1, 1);
            lemma_traced_nothing(l0, e0);
        }
        let open = engine_is_in_early_data(&self.engine) || engine_is_established(&self.engine);
        self.log = Ghost(self.log@.push(EngineStep::Gate(open)));
        proof { lemma_traced_quiet(l0, l0, e0, e0, EngineStep::Gate(open)); }
        if !open {
            assert(new_steps(l0, self.log@) =~= seq![EngineStep::Gate(open)]);
            return;
        }
        let ghost lg = self.log@;
        let mut rounds: u64 = 0;
        while rounds < MAX_ROUNDS
            invariant
                l0 == old(self).log(),
                e0 == old(events)@,
                lg == l0.push(EngineStep::Gate(true)),
                self.module() == old(self).module(),
                appended(e0, events@, 1, 1),
                traced(l0, self.log@, e0, events@),
                self.log@.len() == lg.len() + rounds,
                self.log@.subrange(0, lg.len() as int) == lg,
                datagrams_first(new_steps(lg, self.log@), rounds as int),
            decreases MAX_ROUNDS - rounds,
        {
            let outcome = engine_dgram_recv(&mut self.engine, &mut self.buf);
            let ghost l1 = self.log@;
            let ghost e1 = events@;
            match outcome {
                Ok(len) => {
                    let data = prefix_copy(&self.buf, len);
                    let ghost step = EngineStep::DgramRecv(Ok(data@));
                    self.log = Ghost(self.log@.push(step));
                    if len > 0 {
                        events.push(Event::DgramRecv(data));
                        proof {
                            lemma_push_ordered(e0, e1, Event::DgramRecv(data), 1, 1);
                            lemma_traced_loud(l0, l1, e0, e1, step, Event::DgramRecv(data));
                        }
                    } else {
                        proof { lemma_traced_quiet(l0, l1, e0, e1, step); }
                    }
                    assert(new_steps(lg, self.log@) =~= new_steps(lg, l1).push(step));
                    assert(self.log@.subrange(0, lg.len() as int) =~= l1.subrange(0, lg.len() as int));
                },
                Err(f) => {
                    let ghost step = EngineStep::DgramRecv(Err(f));
                    self.log = Ghost(self.log@.push(step));
                    proof { lemma_traced_quiet(l0, l1, e0, e1, step); }
                    assert(new_steps(lg, self.log@) =~= new_steps(lg, l1).push(step));
                    assert(new_steps(l0, self.log@).subrange(1, new_steps(l0, self.log@).len() as int)
                        =~= new_steps(lg, self.log@));
                    assert(new_steps(l0, self.log@)[0] == lg[l0.len() as int]);
                    return;
                },
            }
            rounds = rounds + 1;
        }
        assert(new_steps(l0, self.log@).subrange(1, new_steps(l0, self.log@).len() as int)
            =~= new_steps(lg, self.log@));
        assert(new_steps(l0, self.log@)[0] == lg[l0.len() as int]);
    }

    /// Feeds one inbound packet to the engine. On success, in this order: the
    /// streams' data (read through `scratch`, where there is one), the
    /// received datagrams, and the outbound packets go to `events`; the result
    /// is the next poll interval.
    pub fn on_packet(
        &mut self,
        packet: &mut [u8],
        scratch: Option<&mut [u8]>,
        events: &mut Vec<Event>,
    ) -> (r: Result<u64, ConnError>)
        ensures
            old(self).closed() ==> r == Err::<u64, ConnError>(ConnError::AlreadyClosed) && *final(self) == *old(self)
                && final(events)@ == old(events)@,
            final(self).module() == old(self).module(),
            appended(old(events)@, final(events)@, 0, 2),
            traced(old(self).log(), final(self).log(), old(events)@, final(events)@),
            !old(self).closed() ==> ({
                let n = new_steps(old(self).log(), final(self).log());
                &&& n.len() >= 1
                &&& n[0] is Recv
                &&& r == Err::<u64, ConnError>(ConnError::SystemError) <==> n[0]->Recv_0 is Err
                &&& r is Ok <==> n[0]->Recv_0 is Ok
                &&& n[0]->Recv_0 is Err ==> n.len() == 1
                &&& r is Ok ==> n.last() is Timer && r == Ok::<u64, ConnError>(timeout_spec(n.last()->Timer_0))
                &&& r is Ok ==> exists|a: int, b: int|
                    1 <= a <= b < n.len() && (scratch is None ==> a == 1) && (scratch is Some
                        ==> stream_shape(#[trigger] n.subrange(1, a))) && dgram_shape(
                        #[trigger] n.subrange(a, b),
                    ) && drain_shape(n.subrange(b, n.len() - 1))
            }),
    {
        let ghost l0 = self.log@;
        let ghost e0 = events@;
        proof {
            lemma_appended_nothing(e0, 0, 2);
            lemma_traced_nothing(l0, e0);
        }
        if engine_is_closed(&self.engine) {
            return Err(ConnError::AlreadyClosed);
        }
        let res = engine_recv(&mut self.engine, packet, &self.path);
        self.log = Ghost(self.log@.push(EngineStep::Recv(res)));
        proof { lemma_traced_quiet(l0, l0, e0, e0, EngineStep::Recv(res)); }
        assert(new_steps(l0, self.log@) =~= seq![EngineStep::Recv(res)]);
        match res {
            Ok(_len) => {
                let ghost l1 = self.log@;
                let ghost has_scratch = scratch is Some;
                match scratch {
                    Some(buf) => {
                        self.handle_stream(buf, events);
                    },
                    None => {
                        proof { lemma_appended_nothing(e0, 0, 0); }
                    },
                }
                let ghost l2 = self.log@;
                let ghost e2 = events@;
                proof {
                    if !has_scratch {
                        lemma_traced_nothing(l1, e0);
                    }
                    lemma_traced_chain(l0, l1, l2, e0, e0, e2);
                }
                self.handle_dgram(events);
                let ghost l3 = self.log@;
                let ghost e3 = events@;
                proof { lemma_traced_chain(l0, l2, l3, e0, e2, e3); }
                self.drain(events);
                let ghost l4 = self.log@;
                proof {
                    lemma_traced_chain(l0, l3, l4, e0, e3, events@);
                    lemma_appended_chain(e0, e2, e3, 0, 0, 1);
                    lemma_appended_chain(e0, e3, events@, 0, 1, 2);
                }
                let t = self.next_timeout();
                proof {
                    lemma_traced_quiet(l0, l4, e0, events@, self.log@.last());
                    let n = new_steps(l0, self.log@);
                    let a = l2.len() - l0.len();
                    let b = l3.len() - l0.len();
                    assert(n.subrange(1, a) =~= new_steps(l1, l2));
                    assert(n.subrange(a, b) =~= new_steps(l2, l3));
                    assert(n.subrange(b, n.len() - 1) =~= new_steps(l3, l4));
                    assert(n[0] == new_steps(l0, l1)[0]);
                }
                Ok(t)
            },
            Err(_) => Err(ConnError::SystemError),
        }
    }

    /// Lets the engine handle an expired timer, then drains it.
    pub fn on_timeout(&mut self, events: &mut Vec<Event>) -> (r: Result<u64, ConnError>)
        ensures
            old(self).closed() ==> r == Err::<u64, ConnError>(ConnError::AlreadyClosed) && *final(self) == *old(self)
                && final(events)@ == old(events)@,
            final(self).module() == old(self).module(),
            appended(old(events)@, final(events)@, 2, 2),
            traced(old(self).log(), final(self).log(), old(events)@, final(events)@),
            !old(self).closed() ==> ({
                let n = new_steps(old(self).log(), final(self).log());
                &&& n.len() >= 2
                &&& n[0] == EngineStep::OnTimeout
                &&& drain_shape(n.subrange(1, n.len() - 1))
                &&& n.last() is Timer
                &&& r == Ok::<u64, ConnError>(timeout_spec(n.last()->Timer_0))
            }),
    {
        let ghost l0 = self.log@;
        let ghost e0 = events@;
        proof {
            lemma_appended_nothing(e0, 2, 2);
            lemma_traced_nothing(l0, e0);
        }
        if engine_is_closed(&self.engine) {
            return Err(ConnError::AlreadyClosed);
        }
        engine_on_timeout(&mut self.engine);
        self.log = Ghost(self.log@.push(EngineStep::OnTimeout));
        proof { lemma_traced_quiet(l0, l0, e0, e0, EngineStep::OnTimeout); }
        let ghost l1 = self.log@;
        self.drain(events);
        let ghost l2 = self.log@;
        proof { lemma_traced_chain(l0, l1, l2, e0, e0, events@); }
        let t = self.next_timeout();
        proof {
            lemma_traced_quiet(l0, l2, e0, events@, self.log@.last());
            let n = new_steps(l0, self.log@);
            assert(n.subrange(1, n.len() - 1) =~= new_steps(l1, l2));
            assert(n[0] == l1.last());
        }
        Ok(t)
    }

    /// Queues `data` on stream `stream_id`, always marked finished, draining
    /// after each part that the engine takes. Stops without an error where the
    /// engine can take no more for now.
    pub fn stream_send(&mut self, stream_id: u64, data: &[u8], events: &mut Vec<Event>) -> (r:
        Result<u64, ConnError>)
        ensures
            old(self).closed() ==> r == Err::<u64, ConnError>(ConnError::AlreadyClosed) && *final(self) == *old(self)
                && final(events)@ == old(events)@,
            final(self).module() == old(self).module(),
            appended(old(events)@, final(events)@, 2, 2),
            traced(old(self).log(), final(self).log(), old(events)@, final(events)@),
            !old(self).closed() ==> ({
                let n = new_steps(old(self).log(), final(self).log());
                &&& n.len() >= 1
                &&& n[0] is StreamSend && n[0]->StreamSend_1 == data@
                &&& forall|i: int|
                    0 <= i < n.len() && (#[trigger] n[i]) is StreamSend ==> n[i]->StreamSend_0
                        == stream_id && n[i]->StreamSend_2 && n[i]->StreamSend_1 == data@.subrange(
                        data@.len() - n[i]->StreamSend_1.len(),
                        data@.len() as int,
                    )
                &&& sends_chained(n)
                &&& r is Ok || r == Err::<u64, ConnError>(ConnError::SystemError)
                &&& r == Err::<u64, ConnError>(ConnError::SystemError) <==> n.last() is StreamSend
                    && n.last()->StreamSend_3 == Err::<usize, EngineFault>(EngineFault::Failed)
                &&& r is Ok ==> n.last() is Timer && r == Ok::<u64, ConnError>(timeout_spec(n.last()->Timer_0))
                &&& r is Ok ==> exists|j: int|
                    0 <= j < n.len() && (#[trigger] n[j]) is StreamSend && (forall|i: int|
                        j < i < n.len() ==> !((#[trigger] n[i]) is StreamSend)) && (n[j]->StreamSend_3
                        == Ok::<usize, EngineFault>(n[j]->StreamSend_1.len() as usize)
                        || n[j]->StreamSend_3 == Err::<usize, EngineFault>(EngineFault::Done)
                        || n[j]->StreamSend_3 == Ok::<usize, EngineFault>(0usize))
            }),
    {
        let ghost l0 = self.log@;
        let ghost e0 = events@;
        proof {
            lemma_appended_nothing(e0, 2, 2);
            lemma_traced_nothing(l0, e0);
        }
        if engine_is_closed(&self.engine) {
            return Err(ConnError::AlreadyClosed);
        }
        let size = data.len();
        let mut pos: usize = 0;
        let ghost mut jl: int = 0;
        proof {
            assert(new_steps(l0, self.log@) =~= Seq::<EngineStep>::empty());
            lemma_chain_start(EngineStep::OnTimeout);
        }
        loop
            invariant
                size == data@.len(),
                pos <= size,
                l0 == old(self).log(),
                e0 == old(events)@,
                !old(self).closed(),
                self.module() == old(self).module(),
                appended(e0, events@, 2, 2),
                traced(l0, self.log@, e0, events@),
                pos == 0 ==> self.log@ == l0,
                sends_chained(new_steps(l0, self.log@)),
                pos > 0 ==> {
                    let n = new_steps(l0, self.log@);
                    &&& 0 <= jl < n.len()
                    &&& n[jl] is StreamSend
                    &&& n[jl]->StreamSend_3 is Ok
                    &&& 0 < n[jl]->StreamSend_3->Ok_0 < n[jl]->StreamSend_1.len()
                    &&& data@.subrange(pos as int, size as int) == n[jl]->StreamSend_1.subrange(
                        n[jl]->StreamSend_3->Ok_0 as int,
                        n[jl]->StreamSend_1.len() as int,
                    )
                    &&& forall|m: int| jl < m < n.len() ==> !((#[trigger] n[m]) is StreamSend)
                },
                pos > 0 ==> new_steps(l0, self.log@).len() >= 1 && new_steps(l0, self.log@)[0] is StreamSend
                    && new_steps(l0, self.log@)[0]->StreamSend_1 == data@,
                forall|i: int|
                    0 <= i < new_steps(l0, self.log@).len() && (#[trigger] new_steps(l0, self.log@)[i]) is StreamSend
                        ==> new_steps(l0, self.log@)[i]->StreamSend_0 == stream_id
                        && new_steps(l0, self.log@)[i]->StreamSend_2
                        && new_steps(l0, self.log@)[i]->StreamSend_1 == data@.subrange(
                        data@.len() - new_steps(l0, self.log@)[i]->StreamSend_1.len(),
                        data@.len() as int,
                    ),
            decreases size - pos,
        {
            let rest = slice_subrange(data, pos, size);
            let outcome = engine_stream_send(&mut self.engine, stream_id, rest, true);
            let ghost l1 = self.log@;
            let ghost e1 = events@;
            let ghost step = EngineStep::StreamSend(stream_id, rest@, true, outcome);
            self.log = Ghost(self.log@.push(step));
            proof {
                lemma_traced_quiet(l0, l1, e0, e1, step);
                assert(new_steps(l0, self.log@) =~= new_steps(l0, l1).push(step));
                assert(rest@ =~= data@.subrange(data@.len() - rest@.len(), data@.len() as int));
                if pos > 0 {
                    lemma_chain_push(new_steps(l0, l1), jl, step);
                } else {
                    assert(new_steps(l0, l1) =~= Seq::<EngineStep>::empty());
                    assert(new_steps(l0, self.log@) =~= seq![step]);
                    lemma_chain_start(step);
                }
            }
            let ghost l2 = self.log@;
            let ghost j = new_steps(l0, l2).len() - 1;
            match send_step(pos, size, outcome) {
                SendStep::Continue(p) => {
                    proof {
                        assert(rest@.subrange((p - pos) as int, rest@.len() as int) =~= data@.subrange(
                            p as int,
                            size as int,
                        ));
                    }
                    pos = p;
                    self.drain(events);
                    proof {
                        lemma_traced_chain(l0, l2, self.log@, e0, e1, events@);
                        lemma_appended_chain(e0, e1, events@, 2, 2, 2);
                        lemma_drain_calls(new_steps(l2, self.log@));
                        lemma_chain_extend(new_steps(l0, l2), new_steps(l2, self.log@));
                        jl = j;
                        let n = new_steps(l0, self.log@);
                        assert(n[jl] == step);
                        assert forall|m: int| jl < m < n.len() implies !((#[trigger] n[m]) is StreamSend) by {
                            assert(n[m] == new_steps(l2, self.log@)[m - jl - 1]);
                        }
                    }
                },
                SendStep::Finished => {
                    self.drain(events);
                    let ghost l3 = self.log@;
                    proof {
                        lemma_traced_chain(l0, l2, l3, e0, e1, events@);
                        lemma_appended_chain(e0, e1, events@, 2, 2, 2);
                        lemma_drain_calls(new_steps(l2, l3));
                        lemma_chain_extend(new_steps(l0, l2), new_steps(l2, l3));
                    }
                    let t = self.next_timeout();
                    proof {
                        lemma_traced_quiet(l0, l3, e0, events@, self.log@.last());
                        let n = new_steps(l0, self.log@);
                        assert(n =~= new_steps(l0, l2) + new_steps(l2, l3) + seq![self.log@.last()]);
                        lemma_chain_extend(new_steps(l0, l3), seq![self.log@.last()]);
                        assert(new_steps(l0, l3) =~= new_steps(l0, l2) + new_steps(l2, l3));
                        assert(n =~= new_steps(l0, l3) + seq![self.log@.last()]);
                        assert(n[j] == step);
                        assert forall|i: int| j < i < n.len() implies !((#[trigger] n[i]) is StreamSend) by {
                            if i < n.len() - 1 {
                                assert(n[i] == new_steps(l2, l3)[i - j - 1]);
                            }
                        }
                    }
                    return Ok(t);
                },
                SendStep::Halted => {
                    let t = self.next_timeout();
                    proof {
                        lemma_traced_quiet(l0, l2, e0, events@, self.log@.last());
                        let n = new_steps(l0, self.log@);
                        assert(n =~= new_steps(l0, l2) + seq![self.log@.last()]);
                        lemma_chain_extend(new_steps(l0, l2), seq![self.log@.last()]);
                        assert(n[j] == step);
                    }
                    return Ok(t);
                },
                SendStep::Failed => {
                    return Err(ConnError::SystemError);
                },
            }
        }
    }

    /// Queues one datagram, then drains.
    pub fn dgram_send(&mut self, data: &[u8], events: &mut Vec<Event>) -> (r: Result<u64, ConnError>)
        ensures
            old(self).closed() ==> r == Err::<u64, ConnError>(ConnError::AlreadyClosed) && *final(self) == *old(self)
                && final(events)@ == old(events)@,
            final(self).module() == old(self).module(),
            appended(old(events)@, final(events)@, 2, 2),
            traced(old(self).log(), final(self).log(), old(events)@, final(events)@),
            !old(self).closed() ==> ({
                let n = new_steps(old(self).log(), final(self).log());
                &&& n.len() >= 1
                &&& n[0] is DgramSend && n[0]->DgramSend_0 == data@
                &&& r == Err::<u64, ConnError>(ConnError::SystemError) <==> n[0]->DgramSend_1 is Err
                &&& r is Ok <==> n[0]->DgramSend_1 is Ok
                &&& n[0]->DgramSend_1 is Err ==> n.len() == 1
                &&& r is Ok ==> drain_shape(n.subrange(1, n.len() - 1)) && n.last() is Timer && r
                    == Ok::<u64, ConnError>(timeout_spec(n.last()->Timer_0))
            }),
    {
        let ghost l0 = self.log@;
        let ghost e0 = events@;
        proof {
            lemma_appended_nothing(e0, 2, 2);
            lemma_traced_nothing(l0, e0);
        }
        if engine_is_closed(&self.engine) {
            return Err(ConnError::AlreadyClosed);
        }
        let res = engine_dgram_send(&mut self.engine, data);
        let ghost step = EngineStep::DgramSend(data@, res);
        self.log = Ghost(self.log@.push(step));
        proof { lemma_traced_quiet(l0, l0, e0, e0, step); }
        let ghost l1 = self.log@;
        assert(new_steps(l0, l1) =~= seq![step]);
        match res {
            Ok(()) => {
                self.drain(events);
                let ghost l2 = self.log@;
                proof { lemma_traced_chain(l0, l1, l2, e0, e0, events@); }
                let t = self.next_timeout();
                proof {
                    lemma_traced_quiet(l0, l2, e0, events@, self.log@.last());
                    let n = new_steps(l0, self.log@);
                    assert(n.subrange(1, n.len() - 1) =~= new_steps(l1, l2));
                    assert(n[0] == step);
                }
                Ok(t)
            },
            Err(_) => Err(ConnError::SystemError),
        }
    }

    /// Asks the engine to close the connection (an application close where
    /// `app`), then drains. A close already under way counts as success.
    pub fn close(&mut self, app: bool, err: u64, reason: &[u8], events: &mut Vec<Event>) -> (r:
        Result<(), ConnError>)
        ensures
            old(self).closed() ==> r == Err::<(), ConnError>(ConnError::AlreadyClosed) && *final(self) == *old(self)
                && final(events)@ == old(events)@,
            final(self).module() == old(self).module(),
            appended(old(events)@, final(events)@, 2, 2),
            traced(old(self).log(), final(self).log(), old(events)@, final(events)@),
            !old(self).closed() ==> ({
                let n = new_steps(old(self).log(), final(self).log());
                &&& n.len() >= 1
                &&& n[0] is Close && n[0]->Close_0 == app && n[0]->Close_1 == err && n[0]->Close_2 == reason@
                &&& r == Err::<(), ConnError>(ConnError::SystemError) <==> n[0]->Close_3 == Err::<(), EngineFault>(EngineFault::Failed)
                &&& r is Ok || r == Err::<(), ConnError>(ConnError::SystemError)
                &&& n[0]->Close_3 is Ok ==> drain_shape(n.subrange(1, n.len() as int))
                &&& n[0]->Close_3 is Err ==> n.len() == 1
            }),
    {
        let ghost l0 = self.log@;
        let ghost e0 = events@;
        proof {
            lemma_appended_nothing(e0, 2, 2);
            lemma_traced_nothing(l0, e0);
        }
        if engine_is_closed(&self.engine) {
            return Err(ConnError::AlreadyClosed);
        }
        let res = engine_close(&mut self.engine, app, err, reason);
        let ghost step = EngineStep::Close(app, err, reason@, res);
        self.log = Ghost(self.log@.push(step));
        proof { lemma_traced_quiet(l0, l0, e0, e0, step); }
        let ghost l1 = self.log@;
        assert(new_steps(l0, l1) =~= seq![step]);
        match res {
            Ok(()) => {
                self.drain(events);
                proof {
                    lemma_traced_chain(l0, l1, self.log@, e0, e0, events@);
                    let n = new_steps(l0, self.log@);
                    assert(n.subrange(1, n.len() as int) =~= new_steps(l1, self.log@));
                    assert(n[0] == step);
                }
                Ok(())
            },
            Err(EngineFault::Done) => Ok(()),
            Err(EngineFault::Failed) => Err(ConnError::SystemError),
        }
    }

    /// Hands each outbound packet that the engine produces to `events`, until
    /// the engine has nothing left to send. An engine fault closes the
    /// connection with `DRAIN_FAILURE_CODE` and the reason "fail", and ends the
    /// drain.
    pub fn drain(&mut self, events: &mut Vec<Event>)
        ensures
            final(self).module() == old(self).module(),
            appended(old(events)@, final(events)@, 2, 2),
            traced(old(self).log(), final(self).log(), old(events)@, final(events)@),
            drain_shape(new_steps(old(self).log(), final(self).log())),
    {
        let ghost l0 = self.log@;
        let ghost e0 = events@;
        proof {
            lemma_appended_nothing(e0, 2, 2);
            lemma_traced_nothing(l0, e0);
        }
        let mut rounds: u64 = 0;
        while rounds < MAX_ROUNDS
            invariant
                l0 == old(self).log(),
                e0 == old(events)@,
                self.module() == old(self).module(),
                appended(e0, events@, 2, 2),
                traced(l0, self.log@, e0, events@),
                self.log@.len() == l0.len() + rounds,
                packets_first(new_steps(l0, self.log@), rounds as int),
            decreases MAX_ROUNDS - rounds,
        {
            let outcome = engine_send(&mut self.engine, &mut self.buf);
            let ghost l1 = self.log@;
            let ghost e1 = events@;
            match drain_step(outcome) {
                DrainStep::Emit(len) => {
                    let data = prefix_copy(&self.buf, len);
                    let ghost step = EngineStep::Send(Ok(data@));
                    self.log = Ghost(self.log@.push(step));
                    events.push(Event::Drain(data));
                    proof {
                        lemma_push_ordered(e0, e1, Event::Drain(data), 2, 2);
                        lemma_traced_loud(l0, l1, e0, e1, step, Event::Drain(data));
                    }
                    assert(new_steps(l0, self.log@) =~= new_steps(l0, l1).push(step));
                },
                DrainStep::Stop => {
                    let ghost step = EngineStep::Send(Err(EngineFault::Done));
                    self.log = Ghost(self.log@.push(step));
                    proof { lemma_traced_quiet(l0, l1, e0, e1, step); }
                    assert(new_steps(l0, self.log@) =~= new_steps(l0, l1).push(step));
                    return;
                },
                DrainStep::CloseAndStop => {
                    let ghost step = EngineStep::Send(Err(EngineFault::Failed));
                    self.log = Ghost(self.log@.push(step));
                    proof { lemma_traced_quiet(l0, l1, e0, e1, step); }
                    let ghost l2 = self.log@;
                    let mut reason: Vec<u8> = Vec::new();
                    reason.push(0x66u8);
                    reason.push(0x61u8);
                    reason.push(0x69u8);
                    reason.push(0x6cu8);
                    assert(reason@ =~= fail_reason());
                    let res = engine_close(&mut self.engine, false, DRAIN_FAILURE_CODE, &reason);
                    let ghost closing = EngineStep::Close(false, DRAIN_FAILURE_CODE, reason@, res);
                    self.log = Ghost(self.log@.push(closing));
                    proof { lemma_traced_quiet(l0, l2, e0, e1, closing); }
                    assert(new_steps(l0, self.log@) =~= new_steps(l0, l1).push(step).push(closing));
                    return;
                },
            }
            rounds = rounds + 1;
        }
    }
}

/// Of two successive stream sends, the first took part of its bytes, and the
/// second was handed the rest.
#[verifier::opaque]
pub open spec fn sends_chained(n: Seq<EngineStep>) -> bool {
    forall|i: int, k: int|
        0 <= i < k < n.len() && (#[trigger] n[i]) is StreamSend && (#[trigger] n[k]) is StreamSend
            && (forall|m: int| i < m < k ==> !((#[trigger] n[m]) is StreamSend)) ==> n[i]->StreamSend_3 is Ok
            && 0 < n[i]->StreamSend_3->Ok_0 < n[i]->StreamSend_1.len() && n[k]->StreamSend_1
            == n[i]->StreamSend_1.subrange(
            n[i]->StreamSend_3->Ok_0 as int,
            n[i]->StreamSend_1.len() as int,
        )
}

proof fn lemma_chain_start(s: EngineStep)
    ensures
        sends_chained(Seq::<EngineStep>::empty()),
        sends_chained(seq![s]),
{
    reveal(sends_chained);
}

#[verifier::rlimit(50)]
proof fn lemma_chain_extend(n: Seq<EngineStep>, d: Seq<EngineStep>)
    requires
        sends_chained(n),
        forall|x: int| 0 <= x < d.len() ==> !((#[trigger] d[x]) is StreamSend),
    ensures
        sends_chained(n + d),
{
    reveal(sends_chained);
    let c = n + d;
    assert forall|i: int, k: int|
        0 <= i < k < c.len() && (#[trigger] c[i]) is StreamSend && (#[trigger] c[k]) is StreamSend
            && (forall|m: int| i < m < k ==> !((#[trigger] c[m]) is StreamSend)) implies c[i]->StreamSend_3 is Ok
            && 0 < c[i]->StreamSend_3->Ok_0 < c[i]->StreamSend_1.len() && c[k]->StreamSend_1
            == c[i]->StreamSend_1.subrange(
            c[i]->StreamSend_3->Ok_0 as int,
            c[i]->StreamSend_1.len() as int,
        ) by {
        if k >= n.len() {
            assert(c[k] == d[k - n.len()]);
        } else {
            assert(c[i] == n[i] && c[k] == n[k]);
            assert forall|m: int| i < m < k implies !((#[trigger] n[m]) is StreamSend) by {
                assert(c[m] == n[m]);
            }
        }
    }
}

#[verifier::rlimit(50)]
proof fn lemma_chain_push(n: Seq<EngineStep>, jl: int, s: EngineStep)
    requires
        sends_chained(n),
        0 <= jl < n.len(),
        n[jl] is StreamSend,
        n[jl]->StreamSend_3 is Ok,
        0 < n[jl]->StreamSend_3->Ok_0 < n[jl]->StreamSend_1.len(),
        forall|m: int| jl < m < n.len() ==> !((#[trigger] n[m]) is StreamSend),
        s is StreamSend,
        s->StreamSend_1 == n[jl]->StreamSend_1.subrange(
            n[jl]->StreamSend_3->Ok_0 as int,
            n[jl]->StreamSend_1.len() as int,
        ),
    ensures
        sends_chained(n.push(s)),
{
    reveal(sends_chained);
    let c = n.push(s);
    assert forall|i: int, k: int|
        0 <= i < k < c.len() && (#[trigger] c[i]) is StreamSend && (#[trigger] c[k]) is StreamSend
            && (forall|m: int| i < m < k ==> !((#[trigger] c[m]) is StreamSend)) implies c[i]->StreamSend_3 is Ok
            && 0 < c[i]->StreamSend_3->Ok_0 < c[i]->StreamSend_1.len() && c[k]->StreamSend_1
            == c[i]->StreamSend_1.subrange(
            c[i]->StreamSend_3->Ok_0 as int,
            c[i]->StreamSend_1.len() as int,
        ) by {
        if k == n.len() {
            if i < jl {
                assert(c[jl] == n[jl]);
            } else if i > jl {
                assert(c[i] == n[i]);
            }
        } else {
            assert(c[i] == n[i] && c[k] == n[k]);
            assert forall|m: int| i < m < k implies !((#[trigger] n[m]) is StreamSend) by {
                assert(c[m] == n[m]);
            }
        }
    }
}

/// A drain makes only `send` and `close` calls.
proof fn lemma_drain_calls(s: Seq<EngineStep>)
    requires
        drain_shape(s),
    ensures
        forall|i: int| 0 <= i < s.len() ==> (#[trigger] s[i]) is Send || s[i] is Close,
{
    assert forall|i: int| 0 <= i < s.len() implies (#[trigger] s[i]) is Send || s[i] is Close by {
        if s.len() >= 1 && packets_first(s, s.len() - 1) && s.last() == EngineStep::Send(
            Err(EngineFault::Done),
        ) {
            if i < s.len() - 1 {
                assert(s[i] matches EngineStep::Send(Ok(_)));
            }
        } else if s.len() == MAX_ROUNDS && packets_first(s, s.len() as int) {
            assert(s[i] matches EngineStep::Send(Ok(_)));
        } else {
            if i < s.len() - 2 {
                assert(s[i] matches EngineStep::Send(Ok(_)));
            }
        }
    }
}

proof fn lemma_appended_chain(a: Seq<Event>, b: Seq<Event>, c: Seq<Event>, lo: int, mid: int, hi: int)
    requires
        lo <= mid <= hi,
        appended(a, b, lo, mid),
        appended(b, c, mid, hi),
    ensures
        appended(a, c, lo, hi),
{
    assert(c.subrange(0, a.len() as int) =~= b.subrange(0, a.len() as int));
    let s = b.subrange(a.len() as int, b.len() as int);
    let t = c.subrange(b.len() as int, c.len() as int);
    let u = c.subrange(a.len() as int, c.len() as int);
    assert(u =~= s + t);
    assert forall|i: int, j: int| 0 <= i <= j < u.len() implies rank(#[trigger] u[i]) <= rank(
        #[trigger] u[j],
    ) by {
        if j < s.len() {
            assert(u[i] == s[i] && u[j] == s[j]);
        } else if i >= s.len() {
            assert(u[i] == t[i - s.len()] && u[j] == t[j - s.len()]);
        } else {
            assert(u[i] == s[i] && u[i] == b[a.len() + i]);
            assert(u[j] == c[a.len() + j]);
        }
    }
    assert forall|i: int| 0 <= i < u.len() implies match #[trigger] u[i] {
        Event::StreamRecv(_, d) => d@.len() > 0,
        Event::DgramRecv(d) => d@.len() > 0,
        Event::Drain(d) => d@.len() <= EGRESS_LEN,
    } by {
        if i < s.len() {
            assert(u[i] == s[i]);
        } else {
            assert(u[i] == t[i - s.len()]);
        }
    }
    assert forall|i: int| a.len() <= i < c.len() implies lo <= rank(#[trigger] c[i]) <= hi by {
        if i < b.len() {
            assert(c[i] == b[i]);
        }
    }
}

proof fn lemma_appended_nothing(s: Seq<Event>, lo: int, hi: int)
    ensures
        appended(s, s, lo, hi),
{
    assert(s.subrange(0, s.len() as int) =~= s);
    assert(s.subrange(s.len() as int, s.len() as int) =~= Seq::<Event>::empty());
}

proof fn lemma_push_ordered(start: Seq<Event>, before: Seq<Event>, e: Event, lo: int, hi: int)
    requires
        appended(start, before, lo, hi),
        lo <= rank(e) <= hi,
        forall|i: int| start.len() <= i < before.len() ==> rank(#[trigger] before[i]) <= rank(e),
        match e {
            Event::StreamRecv(_, d) => d@.len() > 0,
            Event::DgramRecv(d) => d@.len() > 0,
            Event::Drain(d) => d@.len() <= EGRESS_LEN,
        },
    ensures
        appended(start, before.push(e), lo, hi),
{
    let after = before.push(e);
    assert(after.subrange(0, start.len() as int) =~= start);
    let s = before.subrange(start.len() as int, before.len() as int);
    let t = after.subrange(start.len() as int, after.len() as int);
    assert(t =~= s.push(e));
}

} // verus!
