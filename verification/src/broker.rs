//! Broadcast brokers: fan one frame out to every current subscriber.
//!
//! The text-message broker owns a changing set of subscriber connections.
//! On each broadcast every connection is polled non-blocking and then
//! written to; a connection that reports a close indication or aborts the
//! write is pruned, the rest receive the frame, and anything else — data
//! where none may arrive, an unrecoverable read or write error — is a fatal
//! protocol violation. The datagram broker addresses a fixed list of
//! destinations, best-effort, with no pruning.
//!
//! The sockets themselves (accept loop, handshake, non-blocking reads and
//! writes, datagram sends) live outside the library. The transport hands
//! in what each connection's poll and write yielded, and this module makes
//! the verified decisions: who is pruned, who received the frame, and when
//! the process must stop. The transport-encrypted variant differs from the
//! plain one only in how connections are established, so both run around
//! the same table.

use vstd::prelude::*;

use crate::errors::ProtocolError;

verus! {

/// What a non-blocking read on one connection yielded just before the
/// write step of a broadcast.
#[derive(Clone, Copy, Debug, PartialEq, Eq, Structural)]
pub enum PollEvent {
    /// The peer sent a close indication: the connection is pruned.
    Closed,
    /// The peer sent application data: a protocol violation, fatal.
    AppData,
    /// Nothing to read — the expected steady state between messages.
    NoData,
    /// The read failed with an error other than "would block": fatal.
    ReadFailed,
}

/// What writing the frame to one connection yielded.
#[derive(Clone, Copy, Debug, PartialEq, Eq, Structural)]
pub enum WriteEvent {
    /// The frame was written; `writable` is whether the connection still
    /// reports itself writable afterwards.
    Sent { writable: bool },
    /// The peer went away mid-write ("connection aborted"): pruned.
    Aborted,
    /// The write failed with any other error: fatal.
    Failed,
}

/// The transport events one connection produced during one broadcast. The
/// write event is meaningful only when the poll yielded `NoData`: a pruned
/// connection is excluded from the write step.
#[derive(Clone, Copy, Debug, PartialEq, Eq, Structural)]
pub struct ConnEvents {
    pub poll: PollEvent,
    pub write: WriteEvent,
}

/// A fatal protocol violation: application data where only a close
/// indication may arrive, or an unrecoverable read or write error.
pub open spec fn fatal_event(e: ConnEvents) -> bool {
    ||| e.poll is AppData
    ||| e.poll is ReadFailed
    ||| (e.poll is NoData && e.write is Failed)
}

/// The error kind a fatal event surfaces.
pub open spec fn event_error(e: ConnEvents) -> ProtocolError {
    if e.poll is AppData {
        ProtocolError::UnexpectedData
    } else if e.poll is ReadFailed {
        ProtocolError::ReadFailed
    } else {
        ProtocolError::WriteFailed
    }
}

/// The connection received the frame: it was polled clear and the write
/// went through.
pub open spec fn delivered_event(e: ConnEvents) -> bool {
    e.poll is NoData && e.write is Sent
}

/// The connection survives the broadcast: it received the frame and still
/// reports itself writable.
pub open spec fn kept_event(e: ConnEvents) -> bool {
    e.poll is NoData && e.write == (WriteEvent::Sent { writable: true })
}

/// Some connection produced a fatal event.
pub open spec fn any_fatal(evs: Seq<ConnEvents>) -> bool {
    exists|i: int| 0 <= i < evs.len() && fatal_event(evs[i])
}

/// The connections that survive a broadcast, in their original order.
pub open spec fn survivors(socks: Seq<u64>, evs: Seq<ConnEvents>) -> Seq<u64>
    decreases socks.len(),
{
    if socks.len() == 0 {
        Seq::empty()
    } else {
        let rest = survivors(socks.drop_last(), evs.drop_last());
        if kept_event(evs[socks.len() - 1]) {
            rest.push(socks.last())
        } else {
            rest
        }
    }
}

/// The connections a broadcast delivered the frame to, in their original
/// order.
pub open spec fn delivered(socks: Seq<u64>, evs: Seq<ConnEvents>) -> Seq<u64>
    decreases socks.len(),
{
    if socks.len() == 0 {
        Seq::empty()
    } else {
        let rest = delivered(socks.drop_last(), evs.drop_last());
        if delivered_event(evs[socks.len() - 1]) {
            rest.push(socks.last())
        } else {
            rest
        }
    }
}

/// The verified connection table and broadcast decisions of the
/// text-message broker; the plain and the transport-encrypted variant both
/// run their transports around this table, keyed by the identifiers held
/// here.
pub struct WebSocketBroker {
    pub addr: String,
    pub sockets: Vec<u64>,
}

impl WebSocketBroker {
    /// A broker listening at `addr`, with no subscribers yet.
    pub fn new(addr: String) -> (b: WebSocketBroker)
        ensures
            b.addr == addr,
            b.sockets@.len() == 0,
    {
        WebSocketBroker { addr, sockets: Vec::new() }
    }

    /// The acceptor task appends each newly accepted connection. It never
    /// removes one: only a broadcast prunes.
    pub fn accept_connection(&mut self, id: u64)
        ensures
            final(self).sockets@ == old(self).sockets@.push(id),
            final(self).addr == old(self).addr,
    {
        self.sockets.push(id);
    }

    /// How many subscribers are currently connected.
    pub fn connection_count(&self) -> (n: usize)
        ensures
            n == self.sockets@.len(),
    {
        self.sockets.len()
    }

    /// The broadcast decision, given what each connection's poll and write
    /// yielded, in table order.
    ///
    /// On success the table keeps exactly the surviving connections and the
    /// result lists the connections the frame was delivered to. The first
    /// fatal event instead surfaces its error kind and leaves the table
    /// unchanged, for the process to stop.
    pub fn broadcast_outcome(&mut self, events: &Vec<ConnEvents>) -> (res: Result<
        Vec<u64>,
        ProtocolError,
    >)
        requires
            events@.len() == old(self).sockets@.len(),
        ensures
            final(self).addr == old(self).addr,
            res is Ok <==> !any_fatal(events@),
            res matches Ok(d) ==> final(self).sockets@ == survivors(
                old(self).sockets@,
                events@,
            ) && d@ == delivered(old(self).sockets@, events@),
            res is Err ==> final(self).sockets == old(self).sockets && exists|k: int|
                0 <= k < events@.len() && fatal_event(events@[k]) && (forall|t: int|
                    0 <= t < k ==> !fatal_event(events@[t])) && res == Err::<
                    Vec<u64>,
                    ProtocolError,
                >(event_error(events@[k])),
    {
        let ghost socks = self.sockets@;
        let n = self.sockets.len();
        let mut k: usize = 0;
        while k < n
            invariant
                n == events@.len(),
                k <= n,
                forall|t: int| 0 <= t < k ==> !fatal_event(events@[t]),
                self.sockets@ == socks,
                n == socks.len(),
            decreases n - k,
        {
            let e = events[k];
            let fatal = match e.poll {
                PollEvent::AppData => true,
                PollEvent::ReadFailed => true,
                PollEvent::NoData => e.write == WriteEvent::Failed,
                PollEvent::Closed => false,
            };
            if fatal {
                let err = match e.poll {
                    PollEvent::AppData => ProtocolError::UnexpectedData,
                    PollEvent::ReadFailed => ProtocolError::ReadFailed,
                    _ => ProtocolError::WriteFailed,
                };
                proof {
                    assert(fatal_event(events@[k as int]));
                    assert(err == event_error(events@[k as int]));
                }
                return Err(err);
            }
            k += 1;
        }
        let mut kept: Vec<u64> = Vec::new();
        let mut sent: Vec<u64> = Vec::new();
        let mut i: usize = 0;
        while i < n
            invariant
                n == events@.len(),
                i <= n,
                self.sockets@ == socks,
                n == socks.len(),
                forall|t: int| 0 <= t < n ==> !fatal_event(events@[t]),
                kept@ == survivors(socks.take(i as int), events@.take(i as int)),
                sent@ == delivered(socks.take(i as int), events@.take(i as int)),
            decreases n - i,
        {
            let id = self.sockets[i];
            let e = events[i];
            proof {
                assert(socks.take(i as int + 1).drop_last() =~= socks.take(i as int));
                assert(events@.take(i as int + 1).drop_last() =~= events@.take(i as int));
                assert(socks.take(i as int + 1).last() == socks[i as int]);
                assert(events@.take(i as int + 1)[i as int] == events@[i as int]);
            }
            if e.poll == PollEvent::NoData {
                match e.write {
                    WriteEvent::Sent { writable } => {
                        sent.push(id);
                        if writable {
                            kept.push(id);
                        }
                    },
                    _ => {},
                }
            }
            i += 1;
        }
        proof {
            assert(socks.take(n as int) =~= socks);
            assert(events@.take(n as int) =~= events@);
        }
        self.sockets = kept;
        Ok(sent)
    }
}

/// Healthy events change nothing: every connection that was polled clear,
/// written to, and still writable survives and received the frame.
proof fn lemma_healthy_all(socks: Seq<u64>, evs: Seq<ConnEvents>)
    requires
        socks.len() == evs.len(),
        forall|j: int| 0 <= j < evs.len() ==> kept_event(#[trigger] evs[j]),
    ensures
        survivors(socks, evs) == socks,
        delivered(socks, evs) == socks,
    decreases socks.len(),
{
    if socks.len() > 0 {
        lemma_healthy_all(socks.drop_last(), evs.drop_last());
        assert(survivors(socks, evs) =~= socks);
        assert(delivered(socks, evs) =~= socks);
    }
}

/// Law: broadcasting to `N` live connections of which exactly one reports
/// a close indication leaves exactly the other `N - 1` connections in the
/// table, and delivers the frame to exactly those `N - 1` survivors — not
/// to the closed one — with nothing fatal about it.
pub proof fn lemma_broadcast_isolates_closed(socks: Seq<u64>, evs: Seq<ConnEvents>, c: int)
    requires
        socks.len() == evs.len(),
        0 <= c < evs.len(),
        evs[c].poll is Closed,
        forall|j: int|
            0 <= j < evs.len() && j != c ==> #[trigger] evs[j] == (ConnEvents {
                poll: PollEvent::NoData,
                write: WriteEvent::Sent { writable: true },
            }),
    ensures
        survivors(socks, evs) == socks.remove(c),
        delivered(socks, evs) == socks.remove(c),
        survivors(socks, evs).len() == socks.len() - 1,
        !any_fatal(evs),
    decreases socks.len(),
{
    assert forall|j: int| 0 <= j < evs.len() implies !fatal_event(#[trigger] evs[j]) by {
        if j != c {
            assert(kept_event(evs[j]));
        }
    }
    if c == socks.len() - 1 {
        assert forall|j: int| 0 <= j < evs.drop_last().len() implies kept_event(
            #[trigger] evs.drop_last()[j],
        ) by {
            assert(evs.drop_last()[j] == evs[j]);
        }
        lemma_healthy_all(socks.drop_last(), evs.drop_last());
        assert(!kept_event(evs[c]));
        assert(!delivered_event(evs[c]));
        assert(socks.remove(c) =~= socks.drop_last());
    } else {
        assert forall|j: int|
            0 <= j < evs.drop_last().len() && j != c implies #[trigger] evs.drop_last()[j]
            == (ConnEvents {
            poll: PollEvent::NoData,
            write: WriteEvent::Sent { writable: true },
        }) by {
            assert(evs.drop_last()[j] == evs[j]);
        }
        lemma_broadcast_isolates_closed(socks.drop_last(), evs.drop_last(), c);
        assert(kept_event(evs[socks.len() - 1]));
        assert(delivered_event(evs[socks.len() - 1]));
        assert(socks.remove(c) =~= socks.drop_last().remove(c).push(socks.last()));
        assert(survivors(socks, evs) == socks.remove(c));
        assert(delivered(socks, evs) == socks.remove(c));
    }
}

/// One datagram of a broadcast plan: a destination address and the payload.
pub struct Datagram {
    pub addr: String,
    pub payload: String,
}

/// The connectionless datagram broker: a fixed list of destination
/// addresses, best-effort delivery, no acknowledgment, no pruning. The
/// socket that performs the sends lives outside the library.
pub struct UdpBroker {
    pub target_addrs: Vec<String>,
}

impl UdpBroker {
    /// A broker that will address every broadcast to `target_addrs`.
    pub fn new(target_addrs: Vec<String>) -> (b: UdpBroker)
        ensures
            b.target_addrs == target_addrs,
    {
        UdpBroker { target_addrs }
    }

    /// Law: one broadcast sends exactly one datagram to each configured
    /// address, in order, every one carrying the identical payload —
    /// independent of any other datagram's fate, since each send stands on
    /// its own.
    pub fn broadcast_plan(&self, message: &String) -> (plan: Vec<Datagram>)
        ensures
            plan@.len() == self.target_addrs@.len(),
            forall|i: int|
                0 <= i < plan@.len() ==> (#[trigger] plan@[i]).addr@ == self.target_addrs@[i]@
                    && plan@[i].payload@ == message@,
    {
        let mut plan: Vec<Datagram> = Vec::new();
        let mut i: usize = 0;
        while i < self.target_addrs.len()
            invariant
                i <= self.target_addrs@.len(),
                plan@.len() == i,
                forall|t: int|
                    0 <= t < i ==> (#[trigger] plan@[t]).addr@ == self.target_addrs@[t]@
                        && plan@[t].payload@ == message@,
            decreases self.target_addrs@.len() - i,
        {
            let addr = self.target_addrs[i].clone();
            let payload = message.clone();
            plan.push(Datagram { addr, payload });
            i += 1;
        }
        plan
    }
}

} // verus!
