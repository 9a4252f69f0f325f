//! The record a connection keeps of its engine calls, and what each recorded
//! call hands to the owning process.
use vstd::prelude::*;

use crate::connection::{Event, DRAIN_FAILURE_CODE, MAX_ROUNDS};
use crate::engine::EngineFault;

verus! {

/// One engine call made by a connection, with what came back.
pub enum EngineStep {
    /// An inbound packet was fed to the engine.
    Recv(Result<usize, EngineFault>),
    /// Whether the connection was established or in early data.
    Gate(bool),
    /// The ids of the readable streams.
    Readable(Seq<u64>),
    /// A read from a stream: the bytes read, or the failure.
    StreamRecv(u64, Result<Seq<u8>, EngineFault>),
    /// A datagram read: its bytes, or the failure.
    DgramRecv(Result<Seq<u8>, EngineFault>),
    /// An outbound packet request: the packet, or the failure.
    Send(Result<Seq<u8>, EngineFault>),
    /// Bytes handed to a stream (stream id, bytes, fin flag) and how many it took.
    StreamSend(u64, Seq<u8>, bool, Result<usize, EngineFault>),
    /// A datagram handed to the engine.
    DgramSend(Seq<u8>, Result<(), EngineFault>),
    /// A close request (application close, error code, reason).
    Close(bool, u64, Seq<u8>, Result<(), EngineFault>),
    /// An expired timer was processed.
    OnTimeout,
    /// The engine's timer, read in whole milliseconds.
    Timer(Option<u128>),
}

/// An event, as a value.
pub enum Note {
    Stream(u64, Seq<u8>),
    Dgram(Seq<u8>),
    Packet(Seq<u8>),
}

pub open spec fn note(e: Event) -> Note {
    match e {
        Event::StreamRecv(id, d) => Note::Stream(id, d@),
        Event::DgramRecv(d) => Note::Dgram(d@),
        Event::Drain(d) => Note::Packet(d@),
    }
}

pub open spec fn notes(s: Seq<Event>) -> Seq<Note> {
    s.map_values(|e: Event| note(e))
}

/// What one engine call hands to the owning process: nonempty stream data,
/// a nonempty datagram, or an outbound packet.
pub open spec fn step_notes(s: EngineStep) -> Seq<Note> {
    match s {
        EngineStep::StreamRecv(id, Ok(d)) => if d.len() > 0 {
            seq![Note::Stream(id, d)]
        } else {
            Seq::empty()
        },
        EngineStep::DgramRecv(Ok(d)) => if d.len() > 0 {
            seq![Note::Dgram(d)]
        } else {
            Seq::empty()
        },
        EngineStep::Send(Ok(p)) => seq![Note::Packet(p)],
        _ => Seq::empty(),
    }
}

/// What a run of engine calls hands to the owning process, in order.
pub open spec fn emitted(s: Seq<EngineStep>) -> Seq<Note>
    decreases s.len(),
{
    if s.len() == 0 {
        Seq::empty()
    } else {
        emitted(s.drop_last()) + step_notes(s.last())
    }
}

/// The calls recorded after `l0` in `l1`.
pub open spec fn new_steps(l0: Seq<EngineStep>, l1: Seq<EngineStep>) -> Seq<EngineStep> {
    l1.subrange(l0.len() as int, l1.len() as int)
}

/// `l1` extends the record `l0`, `e1` extends the events `e0`, and the events
/// added are exactly what the calls added hand out.
pub open spec fn traced(l0: Seq<EngineStep>, l1: Seq<EngineStep>, e0: Seq<Event>, e1: Seq<Event>) -> bool {
    &&& l0.len() <= l1.len()
    &&& l1.subrange(0, l0.len() as int) == l0
    &&& e0.len() <= e1.len()
    &&& e1.subrange(0, e0.len() as int) == e0
    &&& notes(e1.subrange(e0.len() as int, e1.len() as int)) == emitted(new_steps(l0, l1))
}

/// The reason phrase of the close that follows an engine fault while draining.
pub open spec fn fail_reason() -> Seq<u8> {
    seq![0x66u8, 0x61u8, 0x69u8, 0x6cu8]
}

/// The first `k` calls are packets produced.
pub open spec fn packets_first(s: Seq<EngineStep>, k: int) -> bool {
    forall|i: int| 0 <= i < k ==> (#[trigger] s[i]) matches EngineStep::Send(Ok(_))
}

/// The calls of one drain: packets until the first failure of `send`. Where
/// that is the "nothing more" signal, nothing follows; after another fault, a
/// close with `DRAIN_FAILURE_CODE` and the reason "fail". (A drain also ends
/// after `MAX_ROUNDS` packets.)
pub open spec fn drain_shape(s: Seq<EngineStep>) -> bool {
    ||| s.len() >= 1 && packets_first(s, s.len() - 1) && s.last() == EngineStep::Send(
        Err(EngineFault::Done),
    )
    ||| s.len() >= 2 && packets_first(s, s.len() - 2) && s[s.len() - 2] == EngineStep::Send(
        Err(EngineFault::Failed),
    ) && s.last() is Close && !s.last()->Close_0 && s.last()->Close_1 == DRAIN_FAILURE_CODE
        && s.last()->Close_2 == fail_reason()
    ||| s.len() == MAX_ROUNDS && packets_first(s, s.len() as int)
}

/// The first `k` calls are datagrams received.
pub open spec fn datagrams_first(s: Seq<EngineStep>, k: int) -> bool {
    forall|i: int| 0 <= i < k ==> (#[trigger] s[i]) matches EngineStep::DgramRecv(Ok(_))
}

/// Datagram reception: first whether application data may flow; if so,
/// `dgram_recv` calls, all but the last successful, the last one failing
/// (or `MAX_ROUNDS` successful ones).
pub open spec fn dgram_shape(s: Seq<EngineStep>) -> bool {
    &&& s.len() >= 1
    &&& s[0] is Gate
    &&& !s[0]->Gate_0 ==> s.len() == 1
    &&& s[0]->Gate_0 ==> {
        let r = s.subrange(1, s.len() as int);
        ||| r.len() >= 1 && datagrams_first(r, r.len() - 1) && r.last() matches EngineStep::DgramRecv(
            Err(_),
        )
        ||| r.len() == MAX_ROUNDS && datagrams_first(r, r.len() as int)
    }
}

/// Stream reception: first whether application data may flow; if so, the
/// list of readable streams, then `stream_recv` calls on those streams only.
pub open spec fn stream_shape(s: Seq<EngineStep>) -> bool {
    &&& s.len() >= 1
    &&& s[0] is Gate
    &&& !s[0]->Gate_0 ==> s.len() == 1
    &&& s[0]->Gate_0 ==> s.len() >= 2 && s[1] is Readable
    &&& forall|i: int|
        2 <= i < s.len() ==> (#[trigger] s[i]) is StreamRecv && s[1]->Readable_0.contains(
            s[i]->StreamRecv_0,
        )
}

pub proof fn lemma_emitted_concat(a: Seq<EngineStep>, b: Seq<EngineStep>)
    ensures
        emitted(a + b) == emitted(a) + emitted(b),
    decreases b.len(),
{
    if b.len() == 0 {
        assert(a + b =~= a);
        assert(emitted(a) + emitted(b) =~= emitted(a));
    } else {
        lemma_emitted_concat(a, b.drop_last());
        assert((a + b).drop_last() =~= a + b.drop_last());
        assert((a + b).last() == b.last());
        assert(emitted(a) + emitted(b) =~= emitted(a) + emitted(b.drop_last()) + step_notes(b.last()));
    }
}

pub proof fn lemma_traced_nothing(l: Seq<EngineStep>, e: Seq<Event>)
    ensures
        traced(l, l, e, e),
{
    assert(l.subrange(0, l.len() as int) =~= l);
    assert(e.subrange(0, e.len() as int) =~= e);
    assert(new_steps(l, l) =~= Seq::<EngineStep>::empty());
    assert(notes(e.subrange(e.len() as int, e.len() as int)) =~= Seq::<Note>::empty());
}

/// Recording a call that hands out nothing.
pub proof fn lemma_traced_quiet(
    l0: Seq<EngineStep>,
    l1: Seq<EngineStep>,
    e0: Seq<Event>,
    e1: Seq<Event>,
    s: EngineStep,
)
    requires
        traced(l0, l1, e0, e1),
        step_notes(s) == Seq::<Note>::empty(),
    ensures
        traced(l0, l1.push(s), e0, e1),
{
    let n = new_steps(l0, l1);
    assert(new_steps(l0, l1.push(s)) =~= n.push(s));
    assert(n.push(s).drop_last() =~= n);
    assert(emitted(n.push(s)) =~= emitted(n));
    assert(l1.push(s).subrange(0, l0.len() as int) =~= l1.subrange(0, l0.len() as int));
}

/// Recording a call that hands out the event `ev`.
pub proof fn lemma_traced_loud(
    l0: Seq<EngineStep>,
    l1: Seq<EngineStep>,
    e0: Seq<Event>,
    e1: Seq<Event>,
    s: EngineStep,
    ev: Event,
)
    requires
        traced(l0, l1, e0, e1),
        step_notes(s) == seq![note(ev)],
    ensures
        traced(l0, l1.push(s), e0, e1.push(ev)),
{
    let n = new_steps(l0, l1);
    assert(new_steps(l0, l1.push(s)) =~= n.push(s));
    assert(n.push(s).drop_last() =~= n);
    assert(l1.push(s).subrange(0, l0.len() as int) =~= l1.subrange(0, l0.len() as int));
    assert(e1.push(ev).subrange(0, e0.len() as int) =~= e1.subrange(0, e0.len() as int));
    let m = e1.subrange(e0.len() as int, e1.len() as int);
    assert(e1.push(ev).subrange(e0.len() as int, e1.len() + 1 as int) =~= m.push(ev));
    assert(notes(m.push(ev)) =~= notes(m) + seq![note(ev)]);
}

pub proof fn lemma_traced_chain(
    l0: Seq<EngineStep>,
    l1: Seq<EngineStep>,
    l2: Seq<EngineStep>,
    e0: Seq<Event>,
    e1: Seq<Event>,
    e2: Seq<Event>,
)
    requires
        traced(l0, l1, e0, e1),
        traced(l1, l2, e1, e2),
    ensures
        traced(l0, l2, e0, e2),
        new_steps(l0, l2) == new_steps(l0, l1) + new_steps(l1, l2),
{
    assert(l2.subrange(0, l0.len() as int) =~= l1.subrange(0, l0.len() as int));
    assert(e2.subrange(0, e0.len() as int) =~= e1.subrange(0, e0.len() as int));
    assert(new_steps(l0, l2) =~= new_steps(l0, l1) + new_steps(l1, l2));
    lemma_emitted_concat(new_steps(l0, l1), new_steps(l1, l2));
    let a = e1.subrange(e0.len() as int, e1.len() as int);
    let b = e2.subrange(e1.len() as int, e2.len() as int);
    assert(e2.subrange(e0.len() as int, e2.len() as int) =~= a + b);
    assert(notes(a + b) =~= notes(a) + notes(b));
}

proof fn lemma_packets_emit_one_each(s: Seq<EngineStep>)
    requires
        packets_first(s, s.len() as int),
    ensures
        emitted(s).len() == s.len(),
    decreases s.len(),
{
    if s.len() > 0 {
        assert(packets_first(s.drop_last(), s.drop_last().len() as int)) by {
            assert forall|i: int| 0 <= i < s.drop_last().len() implies (#[trigger] s.drop_last()[i])
                matches EngineStep::Send(Ok(_)) by {
                assert(s.drop_last()[i] == s[i]);
            }
        }
        lemma_packets_emit_one_each(s.drop_last());
        assert(s.last() == s[s.len() - 1]);
    }
}

/// A drain hands out one event per packet and stops at the engine's first
/// failed `send`: it makes exactly one `send` call more than the events it
/// hands out, and nothing follows but, after a fault, the close. (Unless it
/// ran for `MAX_ROUNDS` packets.)
pub proof fn lemma_drain_stops_at_first_failure(s: Seq<EngineStep>)
    requires
        drain_shape(s),
        s.len() < MAX_ROUNDS,
    ensures
        (emitted(s).len() + 1 == s.len() && s.last() == EngineStep::Send(Err(EngineFault::Done)))
            || (emitted(s).len() + 2 == s.len() && s[s.len() - 2] == EngineStep::Send(
            Err(EngineFault::Failed),
        ) && s.last() is Close),
{
    if s.last() == EngineStep::Send(Err(EngineFault::Done)) && packets_first(s, s.len() - 1) {
        let p = s.drop_last();
        assert(packets_first(p, p.len() as int)) by {
            assert forall|i: int| 0 <= i < p.len() implies (#[trigger] p[i]) matches EngineStep::Send(Ok(_)) by {
                assert(p[i] == s[i]);
            }
        }
        lemma_packets_emit_one_each(p);
        assert(emitted(s) =~= emitted(p));
    } else {
        let p = s.subrange(0, s.len() - 2);
        assert(packets_first(p, p.len() as int)) by {
            assert forall|i: int| 0 <= i < p.len() implies (#[trigger] p[i]) matches EngineStep::Send(Ok(_)) by {
                assert(p[i] == s[i]);
            }
        }
        lemma_packets_emit_one_each(p);
        assert(s.drop_last().drop_last() =~= p);
        assert(s.drop_last().last() == s[s.len() - 2]);
        assert(emitted(s.drop_last()) =~= emitted(p));
        assert(emitted(s) =~= emitted(p));
    }
}

} // verus!
