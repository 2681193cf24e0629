//! The connections of the server and the session state of each.
//!
//! The manager never touches a socket.  Whoever owns the sockets hands it the
//! bytes that arrived ([`ConnectionManager::receive`]), asks it for the bytes
//! to write ([`ConnectionManager::flush`]) and tells it when a socket failed
//! ([`ConnectionManager::disconnect`]).  Everything else is decided here.

use crate::frame::decode_frame;
use crate::frame::encode_frame;
use crate::frame::lemma_encode_then_decode;
use crate::frame::spec_decode;
use crate::frame::MAX_PAYLOAD_LEN;
use crate::frame::spec_encode;
use crate::frame::FrameParse;
use crate::frame::Opcode;
use crate::packet::lemma_packet_round_trip;
use crate::packet::spec_decode_packet;
use crate::packet::Packet;
use crate::packet::PacketDecodeError;
use crate::packet::PacketModel;
use vstd::prelude::*;

verus! {

/// Names one connection for as long as the manager lives; never given twice.
pub type ConnectionID = u64;

/// Where a connection stands in its life.
#[derive(Clone, Copy, Debug, PartialEq, Eq, Structural)]
pub enum State {
    /// Not yet registered: the opening handshake is not finished.
    Handshaking,
    /// Registered, without a session.
    Connected,
    /// A session was issued or a token submitted; the decision is awaited.
    SessionPending,
    /// The token was accepted.
    Authenticated,
    /// Gone, for good.
    Closed,
}

/// The mathematical content of a [`Connection`].
pub struct ConnectionModel {
    pub id: ConnectionID,
    pub state: State,
    pub token: Option<u32>,
    pub inbound: Seq<u8>,
    pub outbound: Seq<u8>,
}

/// What one frame from a client amounts to.
#[derive(Debug, PartialEq, Eq)]
pub enum Incoming {
    /// No whole frame is buffered.
    Idle,
    /// The connection was closed, by a close frame or by a protocol violation.
    Closed,
    /// A frame was consumed and asks nothing of the caller.
    Handled,
    /// The client asks for a session.
    SessionRequest,
    /// The client submits this token.
    AuthAttempt(u32),
    /// Any other packet that a client may send.
    Packet(Packet),
}

/// The mathematical content of an [`Incoming`].
pub enum IncomingModel {
    Idle,
    Closed,
    Handled,
    SessionRequest,
    AuthAttempt(u32),
    Packet(PacketModel),
}

impl View for Incoming {
    type V = IncomingModel;

    open spec fn view(&self) -> IncomingModel {
        match *self {
            Incoming::Idle => IncomingModel::Idle,
            Incoming::Closed => IncomingModel::Closed,
            Incoming::Handled => IncomingModel::Handled,
            Incoming::SessionRequest => IncomingModel::SessionRequest,
            Incoming::AuthAttempt(token) => IncomingModel::AuthAttempt(token),
            Incoming::Packet(p) => IncomingModel::Packet(p@),
        }
    }
}

/// One step of a connection's life, as the state machine allows it:
/// registration, the issue of a session or the submission of a token, the
/// decision on it, the fall back after a refusal, and the end from anywhere.
pub open spec fn step_allowed(from: State, to: State) -> bool {
    ||| from == to
    ||| to == State::Closed
    ||| from == State::Handshaking && to == State::Connected
    ||| from == State::Connected && to == State::SessionPending
    ||| from == State::SessionPending && to == State::Authenticated
    ||| from == State::SessionPending && to == State::Connected
    ||| from == State::Authenticated && to == State::Connected
}

/// What reading frames can do to a state, in any number of frames.
pub open spec fn read_allowed(from: State, to: State) -> bool {
    ||| from == to
    ||| to == State::Closed
    ||| from == State::Connected && to == State::SessionPending
}

impl ConnectionModel {
    /// A connection just registered under `id`.
    pub open spec fn fresh(id: ConnectionID) -> ConnectionModel {
        ConnectionModel {
            id,
            state: State::Connected,
            token: None,
            inbound: Seq::empty(),
            outbound: Seq::empty(),
        }
    }

    /// A token is held exactly while authenticated.
    pub open spec fn wf(self) -> bool {
        self.token is Some <==> self.state == State::Authenticated
    }

    /// Registered and not closed.
    pub open spec fn live(self) -> bool {
        self.state == State::Connected || self.state == State::SessionPending || self.state
            == State::Authenticated
    }

    pub open spec fn closed(self) -> ConnectionModel {
        ConnectionModel { state: State::Closed, token: None, ..self }
    }

    pub open spec fn with_state(self, state: State, token: Option<u32>) -> ConnectionModel {
        ConnectionModel { state, token, ..self }
    }

    pub open spec fn with_received(self, data: Seq<u8>) -> ConnectionModel {
        ConnectionModel { inbound: self.inbound + data, ..self }
    }

    pub open spec fn with_queued(self, data: Seq<u8>) -> ConnectionModel {
        ConnectionModel { outbound: self.outbound + data, ..self }
    }

    pub open spec fn flushed(self) -> ConnectionModel {
        ConnectionModel { outbound: Seq::empty(), ..self }
    }

    /// The connection after the payload of a data frame, and what the
    /// payload amounts to.  A payload that is no packet, or a packet that no
    /// client may send, is dropped.  A token submitted while merely
    /// connected opens a pending session.
    pub open spec fn after_payload(self, payload: Seq<u8>) -> (ConnectionModel, IncomingModel) {
        match spec_decode_packet(payload) {
            Err(_) => (self, IncomingModel::Handled),
            Ok(p) => match p {
                PacketModel::RequestNewSession => (self, IncomingModel::SessionRequest),
                PacketModel::AttemptAuthSession(token) => (
                    if self.state == State::Connected {
                        self.with_state(State::SessionPending, None)
                    } else {
                        self
                    },
                    IncomingModel::AuthAttempt(token),
                ),
                PacketModel::Debug(_) => (self, IncomingModel::Packet(p)),
                PacketModel::RequestDownloadWorld => (self, IncomingModel::Packet(p)),
                _ => (self, IncomingModel::Handled),
            },
        }
    }

    /// The connection after the frame at the front of its inbound buffer,
    /// and what that frame amounts to.  A protocol violation or a close
    /// frame closes the connection; a ping queues a pong with the same
    /// payload; the payload of any other frame is read as a packet.
    pub open spec fn after_frame(self) -> (ConnectionModel, IncomingModel) {
        match spec_decode(self.inbound) {
            FrameParse::Incomplete => (self, IncomingModel::Idle),
            FrameParse::Invalid(_) => (self.closed(), IncomingModel::Closed),
            FrameParse::Complete(opcode, payload, used) => {
                let rest = ConnectionModel {
                    inbound: self.inbound.subrange(used, self.inbound.len() as int),
                    ..self
                };
                match opcode {
                    Opcode::Close => (rest.closed(), IncomingModel::Closed),
                    Opcode::Ping => (
                        rest.with_queued(spec_encode(Opcode::Pong, payload)),
                        IncomingModel::Handled,
                    ),
                    Opcode::Continuation => (rest, IncomingModel::Handled),
                    _ => rest.after_payload(payload),
                }
            },
        }
    }
}

/// One connection: its identifier, its state, the token it authenticated
/// with, the bytes received and not yet read as frames, and the bytes queued
/// for writing.
#[derive(Debug)]
pub struct Connection {
    id: ConnectionID,
    state: State,
    token: Option<u32>,
    inbound: Vec<u8>,
    outbound: Vec<u8>,
}

impl View for Connection {
    type V = ConnectionModel;

    closed spec fn view(&self) -> ConnectionModel {
        ConnectionModel {
            id: self.id,
            state: self.state,
            token: self.token,
            inbound: self.inbound@,
            outbound: self.outbound@,
        }
    }
}

impl Connection {
    /// A connection whose handshake has just been answered.
    pub fn new(id: ConnectionID) -> (c: Connection)
        ensures
            c@ == ConnectionModel::fresh(id),
    {
        Connection { id, state: State::Connected, token: None, inbound: Vec::new(), outbound: Vec::new() }
    }

    pub fn id(&self) -> (id: ConnectionID)
        ensures
            id == self@.id,
    {
        self.id
    }

    pub fn state(&self) -> (s: State)
        ensures
            s == self@.state,
    {
        self.state
    }

    pub fn token(&self) -> (t: Option<u32>)
        ensures
            t == self@.token,
    {
        self.token
    }

    /// Number of bytes received and not yet read as frames.
    pub fn buffered(&self) -> (n: usize)
        ensures
            n == self@.inbound.len(),
    {
        self.inbound.len()
    }

    /// Number of bytes queued for writing.
    pub fn queued(&self) -> (n: usize)
        ensures
            n == self@.outbound.len(),
    {
        self.outbound.len()
    }

    /// Appends bytes that arrived on the socket.
    pub fn receive(&mut self, data: &[u8])
        ensures
            final(self)@ == old(self)@.with_received(data@),
    {
        self.inbound.extend_from_slice(data);
        assert(self.inbound@ =~= old(self).inbound@ + data@);
    }

    /// Queues bytes for writing.
    pub fn queue(&mut self, data: &[u8])
        ensures
            final(self)@ == old(self)@.with_queued(data@),
    {
        self.outbound.extend_from_slice(data);
        assert(self.outbound@ =~= old(self).outbound@ + data@);
    }

    /// Hands out the bytes queued for writing and empties the queue.
    pub fn take_outbound(&mut self) -> (out: Vec<u8>)
        ensures
            out@ == old(self)@.outbound,
            final(self)@ == old(self)@.flushed(),
    {
        let mut out: Vec<u8> = Vec::new();
        core::mem::swap(&mut self.outbound, &mut out);
        out
    }

    /// Moves to `state`, holding `token`.
    fn set_state(&mut self, state: State, token: Option<u32>)
        ensures
            final(self)@ == old(self)@.with_state(state, token),
    {
        self.state = state;
        self.token = token;
    }

    /// Reads the frame at the front of the inbound buffer, if a whole one is
    /// there, and acts on it.
    pub fn read_frame(&mut self) -> (r: Incoming)
        ensures
            final(self)@ == old(self)@.after_frame().0,
            r@ == old(self)@.after_frame().1,
    {
        let (frame, used) = match decode_frame(self.inbound.as_slice()) {
            Ok(None) => {
                return Incoming::Idle;
            },
            Err(_) => {
                self.set_state(State::Closed, None);
                return Incoming::Closed;
            },
            Ok(Some(found)) => found,
        };
        let rest = self.inbound.split_off(used);
        self.inbound = rest;
        assert(self.inbound@ =~= old(self).inbound@.subrange(
            used as int,
            old(self).inbound@.len() as int,
        ));
        match frame.opcode {
            Opcode::Close => {
                self.set_state(State::Closed, None);
                Incoming::Closed
            },
            Opcode::Ping => {
                let pong = encode_frame(Opcode::Pong, frame.payload.as_slice());
                self.queue(pong.as_slice());
                Incoming::Handled
            },
            Opcode::Continuation => Incoming::Handled,
            _ => self.read_payload(frame.payload.as_slice()),
        }
    }

    /// Acts on the payload of a data frame.
    fn read_payload(&mut self, payload: &[u8]) -> (r: Incoming)
        ensures
            final(self)@ == old(self)@.after_payload(payload@).0,
            r@ == old(self)@.after_payload(payload@).1,
    {
        match Packet::decode(payload) {
            Err(_) => Incoming::Handled,
            Ok(packet) => match packet {
                Packet::RequestNewSession => Incoming::SessionRequest,
                Packet::AttemptAuthSession(token) => {
                    if self.state == State::Connected {
                        self.set_state(State::SessionPending, None);
                    }
                    Incoming::AuthAttempt(token)
                },
                Packet::Debug(text) => Incoming::Packet(Packet::Debug(text)),
                Packet::RequestDownloadWorld => Incoming::Packet(Packet::RequestDownloadWorld),
                _ => Incoming::Handled,
            },
        }
    }
}

/// The mathematical content of a [`ConnectionManager`]: the live
/// connections in the order of their registration, the next identifier to
/// hand out, and the three queues that the owner of the sockets drains.
pub struct ManagerModel {
    pub conns: Seq<ConnectionModel>,
    pub next_id: ConnectionID,
    pub new_sessions: Seq<ConnectionID>,
    pub auth_attempts: Seq<(ConnectionID, u32)>,
    pub closed: Seq<ConnectionID>,
}

impl ManagerModel {
    pub open spec fn empty() -> ManagerModel {
        ManagerModel {
            conns: Seq::empty(),
            next_id: 0,
            new_sessions: Seq::empty(),
            auth_attempts: Seq::empty(),
            closed: Seq::empty(),
        }
    }

    /// A live connection has this identifier.
    pub open spec fn has(self, id: ConnectionID) -> bool {
        exists|i: int| 0 <= i < self.conns.len() && self.conns[i].id == id
    }

    /// Where the connection with this identifier stands in `conns`.
    pub open spec fn slot(self, id: ConnectionID) -> int {
        choose|i: int| 0 <= i < self.conns.len() && self.conns[i].id == id
    }

    pub open spec fn get(self, id: ConnectionID) -> ConnectionModel {
        self.conns[self.slot(id)]
    }

    /// The state of the connection that `id` names, whether it is yet to be
    /// registered, live, or gone.
    pub open spec fn state_of(self, id: ConnectionID) -> State {
        if self.has(id) {
            self.get(id).state
        } else if id >= self.next_id {
            State::Handshaking
        } else {
            State::Closed
        }
    }

    /// Every connection held is live and well formed, and no identifier is
    /// held twice or still to be handed out.
    pub open spec fn wf(self) -> bool {
        &&& forall|i: int|
            0 <= i < self.conns.len() ==> (#[trigger] self.conns[i]).id < self.next_id
                && self.conns[i].live() && self.conns[i].wf()
        &&& forall|i: int, j: int|
            0 <= i < j < self.conns.len() ==> (#[trigger] self.conns[i]).id != (
            #[trigger] self.conns[j]).id
    }

    pub open spec fn with_conn(self, i: int, c: ConnectionModel) -> ManagerModel {
        ManagerModel { conns: self.conns.update(i, c), ..self }
    }

    pub open spec fn without(self, i: int) -> ManagerModel {
        ManagerModel { conns: self.conns.remove(i), ..self }
    }

    /// With the connection `id` replaced by `c`.
    pub open spec fn with_changed(self, id: ConnectionID, c: ConnectionModel) -> ManagerModel {
        self.with_conn(self.slot(id), c)
    }

    /// After a session was issued for `id`.
    pub open spec fn after_new_session(self, id: ConnectionID) -> ManagerModel {
        if self.state_of(id) == State::Connected {
            self.with_changed(id, self.get(id).with_state(State::SessionPending, None))
        } else {
            self
        }
    }

    /// After the token of `id` was accepted.
    pub open spec fn after_auth_success(self, id: ConnectionID, token: u32) -> ManagerModel {
        if self.state_of(id) == State::SessionPending {
            self.with_changed(id, self.get(id).with_state(State::Authenticated, Some(token)))
        } else {
            self
        }
    }

    /// After the token of `id` was refused.
    pub open spec fn after_auth_fail(self, id: ConnectionID) -> ManagerModel {
        if self.state_of(id) == State::SessionPending || self.state_of(id)
            == State::Authenticated {
            self.with_changed(id, self.get(id).with_state(State::Connected, None))
        } else {
            self
        }
    }

    /// After a frame was queued for `id`.
    pub open spec fn after_send(self, id: ConnectionID, frame: Seq<u8>) -> ManagerModel {
        if self.has(id) {
            self.with_changed(id, self.get(id).with_queued(frame))
        } else {
            self
        }
    }

    pub open spec fn registered(self) -> ManagerModel {
        ManagerModel {
            conns: self.conns.push(ConnectionModel::fresh(self.next_id)),
            next_id: (self.next_id + 1) as ConnectionID,
            ..self
        }
    }

    /// With `frame` queued on every authenticated connection and on no other.
    pub open spec fn with_broadcast(self, frame: Seq<u8>) -> ManagerModel {
        ManagerModel {
            conns: Seq::new(
                self.conns.len(),
                |i: int|
                    if self.conns[i].state == State::Authenticated {
                        self.conns[i].with_queued(frame)
                    } else {
                        self.conns[i]
                    },
            ),
            ..self
        }
    }

    /// With every write queue emptied.
    pub open spec fn all_flushed(self) -> ManagerModel {
        ManagerModel {
            conns: Seq::new(self.conns.len(), |i: int| self.conns[i].flushed()),
            ..self
        }
    }

    /// Every connection took at most one step of the state machine.
    pub open spec fn evolves(self, next: ManagerModel) -> bool {
        forall|id: ConnectionID| step_allowed(#[trigger] self.state_of(id), next.state_of(id))
    }

    /// Every connection changed as reading frames can change it, and no
    /// identifier was handed out.
    pub open spec fn reads(self, next: ManagerModel) -> bool {
        &&& self.next_id == next.next_id
        &&& forall|id: ConnectionID|
            read_allowed(#[trigger] self.state_of(id), next.state_of(id))
    }

    /// What reading does from connection `i` on: frames are read
    /// from each connection in turn until one holds a packet for the caller
    /// or none holds a whole frame.  A connection that closes leaves the
    /// manager and its identifier joins `closed`; session requests and
    /// submitted tokens join their queues.
    pub open spec fn scan(self, i: int) -> (ManagerModel, Option<(ConnectionID, PacketModel)>)
        decreases
                self.conns.len() - i,
                if 0 <= i < self.conns.len() {
                    self.conns[i].inbound.len()
                } else {
                    0
                },
    {
        if i < 0 || i >= self.conns.len() {
            (self, None)
        } else {
            let c = self.conns[i];
            let after = c.after_frame().0;
            match c.after_frame().1 {
                IncomingModel::Idle => self.scan(i + 1),
                IncomingModel::Closed => ManagerModel {
                    closed: self.closed.push(c.id),
                    ..self.without(i)
                }.scan(i),
                IncomingModel::Handled => self.with_conn(i, after).scan(i),
                IncomingModel::SessionRequest => ManagerModel {
                    new_sessions: self.new_sessions.push(c.id),
                    ..self.with_conn(i, after)
                }.scan(i),
                IncomingModel::AuthAttempt(token) => ManagerModel {
                    auth_attempts: self.auth_attempts.push((c.id, token)),
                    ..self.with_conn(i, after)
                }.scan(i),
                IncomingModel::Packet(p) => (self.with_conn(i, after), Some((c.id, p))),
            }
        }
    }
}

/// In a well-formed manager the connection at index `k` is the one that its
/// identifier names.
pub proof fn lemma_slot(m: ManagerModel, k: int)
    requires
        m.wf(),
        0 <= k < m.conns.len(),
    ensures
        m.has(m.conns[k].id),
        m.slot(m.conns[k].id) == k,
        m.get(m.conns[k].id) == m.conns[k],
        m.state_of(m.conns[k].id) == m.conns[k].state,
{
    let id = m.conns[k].id;
    assert(0 <= k < m.conns.len() && m.conns[k].id == id);
    let j = m.slot(id);
    assert(0 <= j < m.conns.len() && m.conns[j].id == id);
    if j < k {
        assert(m.conns[j].id != m.conns[k].id);
    } else if k < j {
        assert(m.conns[k].id != m.conns[j].id);
    }
}

/// What one frame does to a live connection.
proof fn lemma_after_frame(c: ConnectionModel)
    requires
        c.wf(),
        c.live(),
    ensures
        c.after_frame().0.id == c.id,
        c.after_frame().0.wf(),
        read_allowed(c.state, c.after_frame().0.state),
        c.after_frame().1 is Closed <==> c.after_frame().0.state == State::Closed,
        !(c.after_frame().1 is Closed) ==> c.after_frame().0.live(),
        c.after_frame().1 is Idle ==> c.after_frame().0 == c,
        !(c.after_frame().1 is Idle) && !(c.after_frame().1 is Closed) ==> c.after_frame().0.inbound.len()
            < c.inbound.len(),
{
}

/// Connections that keep their places and take one step each.
proof fn lemma_changed(a: ManagerModel, b: ManagerModel)
    requires
        a.wf(),
        a.conns.len() == b.conns.len(),
        a.next_id == b.next_id,
        forall|i: int|
            0 <= i < a.conns.len() ==> (#[trigger] a.conns[i]).id == b.conns[i].id
                && b.conns[i].live() && b.conns[i].wf() && step_allowed(
                a.conns[i].state,
                b.conns[i].state,
            ),
    ensures
        b.wf(),
        a.evolves(b),
        (forall|i: int|
            0 <= i < a.conns.len() ==> read_allowed(
                (#[trigger] a.conns[i]).state,
                b.conns[i].state,
            )) ==> a.reads(b),
{
    assert(b.wf()) by {
        assert forall|i: int| 0 <= i < b.conns.len() implies (#[trigger] b.conns[i]).id
            < b.next_id && b.conns[i].live() && b.conns[i].wf() by {
            assert(a.conns[i].id == b.conns[i].id);
        }
        assert forall|i: int, j: int| 0 <= i < j < b.conns.len() implies (#[trigger] b.conns[i]).id
            != (#[trigger] b.conns[j]).id by {
            assert(a.conns[i].id != a.conns[j].id);
        }
    }
    let reading = forall|i: int|
        0 <= i < a.conns.len() ==> read_allowed((#[trigger] a.conns[i]).state, b.conns[i].state);
    assert forall|id: ConnectionID|
        step_allowed(#[trigger] a.state_of(id), b.state_of(id)) && (reading ==> read_allowed(
            a.state_of(id),
            b.state_of(id),
        )) by {
        if a.has(id) {
            let k = a.slot(id);
            assert(a.conns[k].id == b.conns[k].id);
            lemma_slot(a, k);
            lemma_slot(b, k);
        } else if b.has(id) {
            let k = b.slot(id);
            assert(a.conns[k].id == id);
        }
    }
}

/// A connection that leaves is closed for good; the others do not notice.
proof fn lemma_removed(a: ManagerModel, b: ManagerModel, i: int)
    requires
        a.wf(),
        0 <= i < a.conns.len(),
        b.conns == a.conns.remove(i),
        b.next_id == a.next_id,
    ensures
        b.wf(),
        a.reads(b),
        a.evolves(b),
        b.state_of(a.conns[i].id) == State::Closed,
{
    assert(b.wf()) by {
        assert forall|j: int| 0 <= j < b.conns.len() implies (#[trigger] b.conns[j]).id
            < b.next_id && b.conns[j].live() && b.conns[j].wf() by {
            if j < i {
                assert(b.conns[j] == a.conns[j]);
            } else {
                assert(b.conns[j] == a.conns[j + 1]);
            }
        }
        assert forall|j: int, k: int| 0 <= j < k < b.conns.len() implies (#[trigger] b.conns[j]).id
            != (#[trigger] b.conns[k]).id by {
            let j2 = if j < i {
                j
            } else {
                j + 1
            };
            let k2 = if k < i {
                k
            } else {
                k + 1
            };
            assert(b.conns[j] == a.conns[j2]);
            assert(b.conns[k] == a.conns[k2]);
            assert(a.conns[j2].id != a.conns[k2].id);
        }
    }
    assert forall|id: ConnectionID|
        read_allowed(#[trigger] a.state_of(id), b.state_of(id)) && (id == a.conns[i].id
            ==> b.state_of(id) == State::Closed) by {
        if b.has(id) {
            let k = b.slot(id);
            let k2 = if k < i {
                k
            } else {
                k + 1
            };
            assert(b.conns[k] == a.conns[k2]);
            lemma_slot(a, k2);
            lemma_slot(b, k);
            lemma_slot(a, i);
        } else if a.has(id) {
            let k = a.slot(id);
            if k < i {
                assert(b.conns[k] == a.conns[k]);
                lemma_slot(b, k);
            } else if k > i {
                assert(b.conns[k - 1] == a.conns[k]);
                lemma_slot(b, k - 1);
            }
            assert(a.conns[k].id < a.next_id);
        }
    }
}

/// A registration turns the next identifier from handshaking to connected
/// and leaves the others alone.
proof fn lemma_registered(a: ManagerModel, b: ManagerModel)
    requires
        a.wf(),
        a.next_id < u64::MAX,
        b.conns == a.conns.push(ConnectionModel::fresh(a.next_id)),
        b.next_id == a.next_id + 1,
    ensures
        b.wf(),
        a.evolves(b),
        a.state_of(a.next_id) == State::Handshaking,
        b.state_of(a.next_id) == State::Connected,
{
    let n = a.conns.len() as int;
    assert(b.wf()) by {
        assert forall|j: int| 0 <= j < b.conns.len() implies (#[trigger] b.conns[j]).id
            < b.next_id && b.conns[j].live() && b.conns[j].wf() by {
            if j < n {
                assert(b.conns[j] == a.conns[j]);
            }
        }
        assert forall|j: int, k: int| 0 <= j < k < b.conns.len() implies (#[trigger] b.conns[j]).id
            != (#[trigger] b.conns[k]).id by {
            assert(b.conns[j] == a.conns[j]);
            if k < n {
                assert(b.conns[k] == a.conns[k]);
            }
        }
    }
    assert(!a.has(a.next_id)) by {
        if a.has(a.next_id) {
            let k = a.slot(a.next_id);
            assert(a.conns[k].id < a.next_id);
        }
    }
    lemma_slot(b, n);
    assert forall|id: ConnectionID| step_allowed(#[trigger] a.state_of(id), b.state_of(id)) by {
        if a.has(id) {
            let k = a.slot(id);
            assert(b.conns[k] == a.conns[k]);
            lemma_slot(a, k);
            lemma_slot(b, k);
        } else if b.has(id) {
            let k = b.slot(id);
            if k < n {
                assert(b.conns[k] == a.conns[k]);
            }
            lemma_slot(b, k);
        }
    }
}

/// How much is left to read: the buffered bytes of all connections, and
/// one more for each connection.
pub open spec fn backlog(conns: Seq<ConnectionModel>) -> nat
    decreases conns.len(),
{
    if conns.len() == 0 {
        0
    } else {
        backlog(conns.drop_last()) + conns.last().inbound.len() + 1
    }
}

proof fn lemma_backlog_update(conns: Seq<ConnectionModel>, i: int, c: ConnectionModel)
    requires
        0 <= i < conns.len(),
    ensures
        backlog(conns.update(i, c)) + conns[i].inbound.len() == backlog(conns) + c.inbound.len(),
    decreases conns.len(),
{
    if i == conns.len() - 1 {
        assert(conns.update(i, c).drop_last() =~= conns.drop_last());
    } else {
        lemma_backlog_update(conns.drop_last(), i, c);
        assert(conns.update(i, c).drop_last() =~= conns.drop_last().update(i, c));
    }
}

proof fn lemma_backlog_remove(conns: Seq<ConnectionModel>, i: int)
    requires
        0 <= i < conns.len(),
    ensures
        backlog(conns.remove(i)) + conns[i].inbound.len() + 1 == backlog(conns),
    decreases conns.len(),
{
    if i == conns.len() - 1 {
        assert(conns.remove(i) =~= conns.drop_last());
    } else {
        lemma_backlog_remove(conns.drop_last(), i);
        assert(conns.remove(i).drop_last() =~= conns.drop_last().remove(i));
    }
}

/// Reading nothing is reading.
pub proof fn lemma_reads_same(m: ManagerModel)
    ensures
        m.reads(m),
        m.evolves(m),
{
}

/// Reading twice is reading, and reading is a step of the state machine.
pub proof fn lemma_reads_on(a: ManagerModel, b: ManagerModel, c: ManagerModel)
    requires
        a.reads(b),
        b.reads(c),
    ensures
        a.reads(c),
        a.evolves(c),
{
    assert forall|id: ConnectionID|
        read_allowed(#[trigger] a.state_of(id), c.state_of(id)) && step_allowed(
            a.state_of(id),
            c.state_of(id),
        ) by {
        assert(read_allowed(a.state_of(id), b.state_of(id)));
        assert(read_allowed(b.state_of(id), c.state_of(id)));
    }
}

/// The live connections of the server.
#[derive(Debug)]
pub struct ConnectionManager {
    conns: Vec<Connection>,
    next_id: ConnectionID,
    new_sessions: Vec<ConnectionID>,
    auth_attempts: Vec<(ConnectionID, u32)>,
    closed: Vec<ConnectionID>,
}

impl View for ConnectionManager {
    type V = ManagerModel;

    closed spec fn view(&self) -> ManagerModel {
        ManagerModel {
            conns: Seq::new(self.conns@.len(), |i: int| self.conns@[i]@),
            next_id: self.next_id,
            new_sessions: self.new_sessions@,
            auth_attempts: self.auth_attempts@,
            closed: self.closed@,
        }
    }
}

impl ConnectionManager {
    /// The invariant that every method keeps.
    pub open spec fn wf(&self) -> bool {
        self@.wf()
    }

    /// A manager without connections.
    pub fn new() -> (m: ConnectionManager)
        ensures
            m@ == ManagerModel::empty(),
            m.wf(),
    {
        let m = ConnectionManager {
            conns: Vec::new(),
            next_id: 0,
            new_sessions: Vec::new(),
            auth_attempts: Vec::new(),
            closed: Vec::new(),
        };
        assert(m@.conns =~= Seq::empty());
        m
    }

    /// Number of live connections.
    pub fn len(&self) -> (n: usize)
        ensures
            n == self@.conns.len(),
    {
        self.conns.len()
    }

    /// Index of the connection that `id` names.
    fn find(&self, id: ConnectionID) -> (r: Option<usize>)
        requires
            self.wf(),
        ensures
            match r {
                Some(i) => i < self@.conns.len() && self@.conns[i as int].id == id && self@.has(id)
                    && self@.slot(id) == i,
                None => !self@.has(id),
            },
    {
        let mut i: usize = 0;
        while i < self.conns.len()
            invariant
                self.wf(),
                i <= self.conns@.len(),
                forall|j: int| 0 <= j < i ==> (#[trigger] self@.conns[j]).id != id,
            decreases self.conns@.len() - i,
        {
            if self.conns[i].id == id {
                proof {
                    lemma_slot(self@, i as int);
                }
                return Some(i);
            }
            i += 1;
        }
        None
    }

    /// The state of the connection that `id` names: `Handshaking` while the
    /// identifier is yet to be handed out, `Closed` once the connection is gone.
    pub fn state_of(&self, id: ConnectionID) -> (s: State)
        requires
            self.wf(),
        ensures
            s == self@.state_of(id),
    {
        match self.find(id) {
            Some(i) => self.conns[i].state,
            None => if id >= self.next_id {
                State::Handshaking
            } else {
                State::Closed
            },
        }
    }

    /// The token that the connection `id` authenticated with.
    pub fn session_token(&self, id: ConnectionID) -> (t: Option<u32>)
        requires
            self.wf(),
        ensures
            t == if self@.has(id) {
                self@.get(id).token
            } else {
                None
            },
    {
        match self.find(id) {
            Some(i) => self.conns[i].token,
            None => None,
        }
    }

    /// Takes in a connection whose handshake has been answered and names it.
    /// Nothing is registered once the identifiers are used up.
    pub fn register_connection(&mut self) -> (r: Option<ConnectionID>)
        requires
            old(self).wf(),
        ensures
            final(self).wf(),
            old(self)@.evolves(final(self)@),
            match r {
                Some(id) => old(self)@.next_id < u64::MAX && id == old(self)@.next_id && final(self)@ == old(self)@.registered() && old(self)@.state_of(id) == State::Handshaking
                    && final(self)@.state_of(id) == State::Connected,
                None => old(self)@.next_id == u64::MAX && final(self)@ == old(self)@,
            },
    {
        if self.next_id == u64::MAX {
            return None;
        }
        let id: ConnectionID = self.next_id;
        self.conns.push(Connection::new(id));
        self.next_id = id + 1;
        proof {
            assert(self@.conns =~= old(self)@.registered().conns);
            lemma_registered(old(self)@, self@);
        }
        Some(id)
    }

    /// Replaces the state and token of the connection at `i`.
    fn transition(&mut self, i: usize, state: State, token: Option<u32>)
        requires
            old(self).wf(),
            i < old(self)@.conns.len(),
            step_allowed(old(self)@.conns[i as int].state, state),
            state != State::Closed && state != State::Handshaking,
            token is Some <==> state == State::Authenticated,
        ensures
            final(self).wf(),
            old(self)@.evolves(final(self)@),
            final(self)@ == old(self)@.with_conn(
                i as int,
                old(self)@.conns[i as int].with_state(state, token),
            ),
    {
        self.conns[i].set_state(state, token);
        proof {
            assert(self@.conns =~= old(self)@.conns.update(
                i as int,
                old(self)@.conns[i as int].with_state(state, token),
            ));
            lemma_changed(old(self)@, self@);
        }
    }

    /// A session was issued for `id`: a connected client now awaits its
    /// authentication.  Answers whether that was so; otherwise nothing changes.
    pub fn notify_new_session(&mut self, id: ConnectionID) -> (r: bool)
        requires
            old(self).wf(),
        ensures
            final(self).wf(),
            old(self)@.evolves(final(self)@),
            r == (old(self)@.state_of(id) == State::Connected),
            final(self)@ == old(self)@.after_new_session(id),
            !r ==> final(self)@ == old(self)@,
            !old(self)@.has(id) ==> !r,
    {
        match self.find(id) {
            Some(i) => {
                if self.conns[i].state == State::Connected {
                    self.transition(i, State::SessionPending, None);
                    true
                } else {
                    false
                }
            },
            None => false,
        }
    }

    /// The token of `id` was accepted: a pending session becomes
    /// authenticated and holds the token.  Answers whether that was so;
    /// otherwise nothing changes.
    pub fn imbue_session(&mut self, id: ConnectionID, token: u32) -> (r: bool)
        requires
            old(self).wf(),
        ensures
            final(self).wf(),
            old(self)@.evolves(final(self)@),
            r == (old(self)@.state_of(id) == State::SessionPending),
            final(self)@ == old(self)@.after_auth_success(id, token),
            !r ==> final(self)@ == old(self)@,
            !old(self)@.has(id) ==> !r,
    {
        match self.find(id) {
            Some(i) => {
                if self.conns[i].state == State::SessionPending {
                    self.transition(i, State::Authenticated, Some(token));
                    true
                } else {
                    false
                }
            },
            None => false,
        }
    }

    /// The token of `id` was refused: a pending or authenticated connection
    /// falls back to connected and stays open.  Answers whether that was so;
    /// otherwise nothing changes.
    pub fn notify_auth_fail(&mut self, id: ConnectionID) -> (r: bool)
        requires
            old(self).wf(),
        ensures
            final(self).wf(),
            old(self)@.evolves(final(self)@),
            r == (old(self)@.state_of(id) == State::SessionPending || old(self)@.state_of(id)
                == State::Authenticated),
            final(self)@ == old(self)@.after_auth_fail(id),
            !r ==> final(self)@ == old(self)@,
            !old(self)@.has(id) ==> !r,
    {
        match self.find(id) {
            Some(i) => {
                let state = self.conns[i].state;
                if state == State::SessionPending || state == State::Authenticated {
                    self.transition(i, State::Connected, None);
                    true
                } else {
                    false
                }
            },
            None => false,
        }
    }

    /// Takes in bytes that arrived for `id`.  Answers whether the connection is live.
    pub fn receive(&mut self, id: ConnectionID, data: &[u8]) -> (r: bool)
        requires
            old(self).wf(),
        ensures
            final(self).wf(),
            old(self)@.evolves(final(self)@),
            r == old(self)@.has(id),
            r ==> final(self)@ == old(self)@.with_changed(
                id,
                old(self)@.get(id).with_received(data@),
            ),
            !r ==> final(self)@ == old(self)@,
    {
        match self.find(id) {
            Some(i) => {
                self.conns[i].receive(data);
                proof {
                    assert(self@.conns =~= old(self)@.conns.update(
                        i as int,
                        old(self)@.conns[i as int].with_received(data@),
                    ));
                    lemma_changed(old(self)@, self@);
                }
                true
            },
            None => false,
        }
    }

    /// Queues raw bytes for `id`.
    fn queue_for(&mut self, i: usize, frame: &[u8])
        requires
            old(self).wf(),
            i < old(self)@.conns.len(),
        ensures
            final(self).wf(),
            old(self)@.evolves(final(self)@),
            final(self)@ == old(self)@.with_conn(
                i as int,
                old(self)@.conns[i as int].with_queued(frame@),
            ),
    {
        self.conns[i].queue(frame);
        proof {
            assert(self@.conns =~= old(self)@.conns.update(
                i as int,
                old(self)@.conns[i as int].with_queued(frame@),
            ));
            lemma_changed(old(self)@, self@);
        }
    }

    /// Queues a packet for `id`, as one binary frame.  Answers whether the
    /// connection is live.
    pub fn send_to(&mut self, id: ConnectionID, packet: &Packet) -> (r: bool)
        requires
            old(self).wf(),
        ensures
            final(self).wf(),
            old(self)@.evolves(final(self)@),
            r == old(self)@.has(id),
            final(self)@ == old(self)@.after_send(
                id,
                spec_encode(Opcode::Binary, packet@.encoding()),
            ),
    {
        match self.find(id) {
            Some(i) => {
                let payload = packet.encode();
                let frame = encode_frame(Opcode::Binary, payload.as_slice());
                self.queue_for(i, frame.as_slice());
                true
            },
            None => false,
        }
    }

    /// Queues a packet, as one binary frame, for every authenticated
    /// connection and for no other.
    pub fn broadcast_to_authed(&mut self, packet: &Packet)
        requires
            old(self).wf(),
        ensures
            final(self).wf(),
            old(self)@.evolves(final(self)@),
            final(self)@ == old(self)@.with_broadcast(
                spec_encode(Opcode::Binary, packet@.encoding()),
            ),
    {
        let payload = packet.encode();
        let frame = encode_frame(Opcode::Binary, payload.as_slice());
        let ghost goal = old(self)@.with_broadcast(frame@);
        let n: usize = self.conns.len();
        let mut i: usize = 0;
        while i < n
            invariant
                self.wf(),
                goal == old(self)@.with_broadcast(frame@),
                n == self@.conns.len(),
                n == old(self)@.conns.len(),
                i <= n,
                self@.next_id == old(self)@.next_id,
                self@.new_sessions == old(self)@.new_sessions,
                self@.auth_attempts == old(self)@.auth_attempts,
                self@.closed == old(self)@.closed,
                forall|j: int| 0 <= j < i ==> self@.conns[j] == goal.conns[j],
                forall|j: int| i <= j < n ==> self@.conns[j] == old(self)@.conns[j],
            decreases n - i,
        {
            if self.conns[i].state == State::Authenticated {
                self.queue_for(i, frame.as_slice());
            }
            i += 1;
        }
        proof {
            assert(self@.conns =~= goal.conns);
            lemma_changed(old(self)@, self@);
        }
    }

    /// Hands out, for each live connection in order, its identifier and the
    /// bytes queued for it, and empties every queue.
    pub fn flush(&mut self) -> (out: Vec<(ConnectionID, Vec<u8>)>)
        requires
            old(self).wf(),
        ensures
            final(self).wf(),
            old(self)@.evolves(final(self)@),
            final(self)@ == old(self)@.all_flushed(),
            out@.len() == old(self)@.conns.len(),
            forall|i: int|
                0 <= i < out@.len() ==> (#[trigger] out@[i]).0 == old(self)@.conns[i].id
                    && out@[i].1@ == old(self)@.conns[i].outbound,
    {
        let ghost goal = old(self)@.all_flushed();
        let mut out: Vec<(ConnectionID, Vec<u8>)> = Vec::new();
        let n: usize = self.conns.len();
        let mut i: usize = 0;
        while i < n
            invariant
                goal == old(self)@.all_flushed(),
                n == self@.conns.len(),
                n == old(self)@.conns.len(),
                i <= n,
                out@.len() == i,
                self@.next_id == old(self)@.next_id,
                self@.new_sessions == old(self)@.new_sessions,
                self@.auth_attempts == old(self)@.auth_attempts,
                self@.closed == old(self)@.closed,
                forall|j: int| 0 <= j < i ==> self@.conns[j] == goal.conns[j],
                forall|j: int| i <= j < n ==> self@.conns[j] == old(self)@.conns[j],
                forall|j: int|
                    0 <= j < i ==> (#[trigger] out@[j]).0 == old(self)@.conns[j].id && out@[j].1@
                        == old(self)@.conns[j].outbound,
            decreases n - i,
        {
            let id: ConnectionID = self.conns[i].id;
            let bytes = self.conns[i].take_outbound();
            out.push((id, bytes));
            i += 1;
        }
        proof {
            assert(self@.conns =~= goal.conns);
            lemma_changed(old(self)@, self@);
        }
        out
    }

    /// Drops the connection `id`, whose socket failed or was shut.  Answers
    /// whether it was live.
    pub fn disconnect(&mut self, id: ConnectionID) -> (r: bool)
        requires
            old(self).wf(),
        ensures
            final(self).wf(),
            old(self)@.evolves(final(self)@),
            r == old(self)@.has(id),
            r ==> final(self)@ == old(self)@.without(old(self)@.slot(id)) && final(self)@.state_of(id) == State::Closed,
            !r ==> final(self)@ == old(self)@,
    {
        match self.find(id) {
            Some(i) => {
                self.conns.remove(i);
                proof {
                    assert(self@.conns =~= old(self)@.conns.remove(i as int));
                    lemma_removed(old(self)@, self@, i as int);
                }
                true
            },
            None => false,
        }
    }

    /// Reads frames from the inbound buffers until one holds a packet for
    /// the caller, which is handed out with the identifier of its sender, or
    /// no buffer holds a whole frame.  Never waits.
    pub fn try_read(&mut self) -> (r: Option<(ConnectionID, Packet)>)
        requires
            old(self).wf(),
        ensures
            final(self).wf(),
            old(self)@.reads(final(self)@),
            old(self)@.evolves(final(self)@),
            final(self)@ == old(self)@.scan(0).0,
            match r {
                Some((id, p)) => old(self)@.scan(0).1 == Some((id, p@)),
                None => old(self)@.scan(0).1 is None,
            },
            r is None ==> all_idle(final(self)@),
            backlog(final(self)@.conns) <= backlog(old(self)@.conns),
            r is Some ==> backlog(final(self)@.conns) < backlog(old(self)@.conns),
    {
        let mut i: usize = 0;
        proof {
            lemma_scan_exhausts(self@, 0);
            lemma_changed(self@, self@);
        }
        while i < self.conns.len()
            invariant
                self.wf(),
                i <= self@.conns.len(),
                old(self)@.reads(self@),
                old(self)@.evolves(self@),
                old(self)@.scan(0) == self@.scan(i as int),
                backlog(self@.conns) <= backlog(old(self)@.conns),
            decreases
                    self@.conns.len() - i,
                    if i < self@.conns.len() {
                        self@.conns[i as int].inbound.len()
                    } else {
                        0
                    },
        {
            let ghost before = self@;
            let ghost c = before.conns[i as int];
            let ghost after = c.after_frame().0;
            proof {
                lemma_after_frame(c);
            }
            let id: ConnectionID = self.conns[i].id;
            let what = self.conns[i].read_frame();
            assert(self@.conns =~= before.conns.update(i as int, after));
            proof {
                lemma_backlog_update(before.conns, i as int, after);
            }
            match what {
                Incoming::Idle => {
                    assert(self@.conns =~= before.conns);
                    i += 1;
                },
                Incoming::Closed => {
                    self.conns.remove(i);
                    self.closed.push(id);
                    proof {
                        assert(self@.conns =~= before.conns.remove(i as int));
                        lemma_backlog_remove(before.conns, i as int);
                        lemma_removed(before, self@, i as int);
                        lemma_reads_on(old(self)@, before, self@);
                    }
                },
                Incoming::Handled => {
                    proof {
                        lemma_changed(before, self@);
                        lemma_reads_on(old(self)@, before, self@);
                    }
                },
                Incoming::SessionRequest => {
                    self.new_sessions.push(id);
                    proof {
                        lemma_changed(before, self@);
                        lemma_reads_on(old(self)@, before, self@);
                    }
                },
                Incoming::AuthAttempt(token) => {
                    self.auth_attempts.push((id, token));
                    proof {
                        lemma_changed(before, self@);
                        lemma_reads_on(old(self)@, before, self@);
                    }
                },
                Incoming::Packet(p) => {
                    proof {
                        lemma_changed(before, self@);
                        lemma_reads_on(old(self)@, before, self@);
                    }
                    return Some((id, p));
                },
            }
        }
        None
    }

    /// Takes the oldest session request not yet handed out.
    pub fn poll_new_sessions(&mut self) -> (r: Option<ConnectionID>)
        ensures
            final(self)@.conns == old(self)@.conns,
            final(self)@.next_id == old(self)@.next_id,
            final(self)@.auth_attempts == old(self)@.auth_attempts,
            final(self)@.closed == old(self)@.closed,
            match r {
                Some(id) => old(self)@.new_sessions.len() > 0 && id == old(self)@.new_sessions[0]
                    && final(self)@.new_sessions == old(self)@.new_sessions.remove(0),
                None => old(self)@.new_sessions.len() == 0 && final(self)@ == old(self)@,
            },
    {
        if self.new_sessions.len() == 0 {
            None
        } else {
            Some(self.new_sessions.remove(0))
        }
    }

    /// Takes the oldest submitted token not yet handed out, with its sender.
    pub fn poll_auth_attempts(&mut self) -> (r: Option<(ConnectionID, u32)>)
        ensures
            final(self)@.conns == old(self)@.conns,
            final(self)@.next_id == old(self)@.next_id,
            final(self)@.new_sessions == old(self)@.new_sessions,
            final(self)@.closed == old(self)@.closed,
            match r {
                Some(found) => old(self)@.auth_attempts.len() > 0 && found
                    == old(self)@.auth_attempts[0] && final(self)@.auth_attempts == old(self)@.auth_attempts.remove(0),
                None => old(self)@.auth_attempts.len() == 0 && final(self)@ == old(self)@,
            },
    {
        if self.auth_attempts.len() == 0 {
            None
        } else {
            Some(self.auth_attempts.remove(0))
        }
    }

    /// Takes the oldest identifier, not yet handed out, of a connection that
    /// closed while its frames were read.  Its socket is to be dropped.
    pub fn poll_closed(&mut self) -> (r: Option<ConnectionID>)
        ensures
            final(self)@.conns == old(self)@.conns,
            final(self)@.next_id == old(self)@.next_id,
            final(self)@.new_sessions == old(self)@.new_sessions,
            final(self)@.auth_attempts == old(self)@.auth_attempts,
            match r {
                Some(id) => old(self)@.closed.len() > 0 && id == old(self)@.closed[0] && final(self)@.closed == old(self)@.closed.remove(0),
                None => old(self)@.closed.len() == 0 && final(self)@ == old(self)@,
            },
    {
        if self.closed.len() == 0 {
            None
        } else {
            Some(self.closed.remove(0))
        }
    }
}

/// Once closed, closed for good: on a path of allowed steps every state
/// after a closed one is closed.
pub proof fn lemma_closed_stays(path: Seq<State>, k: int, j: int)
    requires
        forall|i: int| 0 <= i < path.len() - 1 ==> step_allowed(#[trigger] path[i], path[i + 1]),
        0 <= k <= j < path.len(),
        path[k] == State::Closed,
    ensures
        path[j] == State::Closed,
    decreases j - k,
{
    if k < j {
        assert(step_allowed(path[k], path[k + 1]));
        lemma_closed_stays(path, k + 1, j);
    }
}

/// No way round the pending session, and none back from the end: on a path
/// of allowed steps that reaches `Authenticated`, either the path began
/// there or an earlier state is `SessionPending`; and no state up to there
/// is `Closed`.
pub proof fn lemma_authenticated_after_pending(path: Seq<State>, j: int)
    requires
        forall|i: int| 0 <= i < path.len() - 1 ==> step_allowed(#[trigger] path[i], path[i + 1]),
        0 <= j < path.len(),
        path[j] == State::Authenticated,
    ensures
        path[0] == State::Authenticated || exists|k: int|
            0 <= k < j && path[k] == State::SessionPending,
        forall|k: int| 0 <= k <= j ==> path[k] != State::Closed,
    decreases j,
{
    assert forall|k: int| 0 <= k <= j implies path[k] != State::Closed by {
        if path[k] == State::Closed {
            lemma_closed_stays(path, k, j);
        }
    }
    if j > 0 {
        assert(step_allowed(path[j - 1], path[j]));
        if path[j - 1] == State::Authenticated {
            lemma_authenticated_after_pending(path, j - 1);
            if path[0] != State::Authenticated {
                let k = choose|k: int| 0 <= k < j - 1 && path[k] == State::SessionPending;
                assert(0 <= k < j && path[k] == State::SessionPending);
            }
        } else {
            assert(0 <= j - 1 < j && path[j - 1] == State::SessionPending);
        }
    }
}

/// The same of a connection in a manager: through any history in which
/// each manager evolved from the one before, a connection found
/// authenticated that was once not authenticated has been pending in
/// between, and was never closed before.
pub proof fn lemma_session_history(history: Seq<ManagerModel>, id: ConnectionID, j: int)
    requires
        forall|i: int|
            0 <= i < history.len() - 1 ==> (#[trigger] history[i]).evolves(history[i + 1]),
        0 <= j < history.len(),
        history[j].state_of(id) == State::Authenticated,
    ensures
        history[0].state_of(id) == State::Authenticated || exists|k: int|
            0 <= k < j && history[k].state_of(id) == State::SessionPending,
        forall|k: int| 0 <= k <= j ==> history[k].state_of(id) != State::Closed,
{
    let path = Seq::new(history.len(), |i: int| history[i].state_of(id));
    assert forall|i: int| 0 <= i < path.len() - 1 implies step_allowed(
        #[trigger] path[i],
        path[i + 1],
    ) by {
        assert(history[i].evolves(history[i + 1]));
        assert(step_allowed(history[i].state_of(id), history[i + 1].state_of(id)));
    }
    lemma_authenticated_after_pending(path, j);
    if history[0].state_of(id) != State::Authenticated {
        let k = choose|k: int| 0 <= k < j && path[k] == State::SessionPending;
        assert(0 <= k < j && history[k].state_of(id) == State::SessionPending);
    }
    assert forall|k: int| 0 <= k <= j implies history[k].state_of(id) != State::Closed by {
        assert(path[k] != State::Closed);
    }
}

/// No connection of `m` holds a whole frame or a protocol violation at the
/// front of its inbound buffer.
pub open spec fn all_idle(m: ManagerModel) -> bool {
    forall|j: int| 0 <= j < m.conns.len() ==> (#[trigger] m.conns[j]).after_frame().1 is Idle
}

/// Reading stops empty-handed only when nothing is left to read: if the
/// scan from connection `i` on hands out no packet, and the connections
/// before `i` were idle, then every connection is idle afterwards.
pub proof fn lemma_scan_exhausts(m: ManagerModel, i: int)
    requires
        m.wf(),
        0 <= i <= m.conns.len(),
        forall|j: int| 0 <= j < i ==> (#[trigger] m.conns[j]).after_frame().1 is Idle,
    ensures
        m.scan(i).1 is None ==> all_idle(m.scan(i).0),
    decreases
            m.conns.len() - i,
            if 0 <= i < m.conns.len() {
                m.conns[i].inbound.len()
            } else {
                0
            },
{
    if i < m.conns.len() {
        let c = m.conns[i];
        let after = c.after_frame().0;
        lemma_after_frame(c);
        match c.after_frame().1 {
            IncomingModel::Idle => {
                lemma_scan_exhausts(m, i + 1);
            },
            IncomingModel::Closed => {
                let next = ManagerModel { closed: m.closed.push(c.id), ..m.without(i) };
                lemma_removed(m, next, i);
                assert forall|j: int| 0 <= j < i implies (#[trigger] next.conns[j]).after_frame().1 is Idle by {
                    assert(next.conns[j] == m.conns[j]);
                }
                lemma_scan_exhausts(next, i);
            },
            IncomingModel::Handled => {
                let next = m.with_conn(i, after);
                lemma_changed(m, next);
                assert forall|j: int| 0 <= j < i implies (#[trigger] next.conns[j]).after_frame().1 is Idle by {
                    assert(next.conns[j] == m.conns[j]);
                }
                lemma_scan_exhausts(next, i);
            },
            IncomingModel::SessionRequest => {
                let next = ManagerModel {
                    new_sessions: m.new_sessions.push(c.id),
                    ..m.with_conn(i, after)
                };
                lemma_changed(m, next);
                assert forall|j: int| 0 <= j < i implies (#[trigger] next.conns[j]).after_frame().1 is Idle by {
                    assert(next.conns[j] == m.conns[j]);
                }
                lemma_scan_exhausts(next, i);
            },
            IncomingModel::AuthAttempt(token) => {
                let next = ManagerModel {
                    auth_attempts: m.auth_attempts.push((c.id, token)),
                    ..m.with_conn(i, after)
                };
                lemma_changed(m, next);
                assert forall|j: int| 0 <= j < i implies (#[trigger] next.conns[j]).after_frame().1 is Idle by {
                    assert(next.conns[j] == m.conns[j]);
                }
                lemma_scan_exhausts(next, i);
            },
            IncomingModel::Packet(_) => {},
        }
    }
}

/// Reading never adds to what is left to read, and a scan that hands out a
/// packet has consumed the frame that held it.
pub proof fn lemma_scan_consumes(m: ManagerModel, i: int)
    requires
        m.wf(),
        0 <= i <= m.conns.len(),
    ensures
        m.scan(i).0.wf(),
        backlog(m.scan(i).0.conns) <= backlog(m.conns),
        m.scan(i).1 is Some ==> backlog(m.scan(i).0.conns) < backlog(m.conns),
    decreases
            m.conns.len() - i,
            if 0 <= i < m.conns.len() {
                m.conns[i].inbound.len()
            } else {
                0
            },
{
    if i < m.conns.len() {
        let c = m.conns[i];
        let after = c.after_frame().0;
        lemma_after_frame(c);
        lemma_backlog_update(m.conns, i, after);
        match c.after_frame().1 {
            IncomingModel::Idle => {
                lemma_scan_consumes(m, i + 1);
            },
            IncomingModel::Closed => {
                let next = ManagerModel { closed: m.closed.push(c.id), ..m.without(i) };
                lemma_removed(m, next, i);
                lemma_backlog_remove(m.conns, i);
                lemma_scan_consumes(next, i);
            },
            IncomingModel::Handled => {
                let next = m.with_conn(i, after);
                lemma_changed(m, next);
                lemma_scan_consumes(next, i);
            },
            IncomingModel::SessionRequest => {
                let next = ManagerModel {
                    new_sessions: m.new_sessions.push(c.id),
                    ..m.with_conn(i, after)
                };
                lemma_changed(m, next);
                lemma_scan_consumes(next, i);
            },
            IncomingModel::AuthAttempt(token) => {
                let next = ManagerModel {
                    auth_attempts: m.auth_attempts.push((c.id, token)),
                    ..m.with_conn(i, after)
                };
                lemma_changed(m, next);
                lemma_scan_consumes(next, i);
            },
            IncomingModel::Packet(_) => {
                lemma_changed(m, m.with_conn(i, after));
            },
        }
    }
}

/// The codec, the packets and the state machine fit together: a
/// connection whose buffer begins with the frame of a packet reads exactly
/// that packet and keeps what follows the frame.  So a token submitted by a
/// connected client turns up as an authentication attempt and leaves the
/// connection pending, one allowed step from `Authenticated`.
pub proof fn lemma_framed_packet_is_read(c: ConnectionModel, p: PacketModel, rest: Seq<u8>)
    requires
        c.inbound == spec_encode(Opcode::Binary, p.encoding()) + rest,
        p.encoding().len() <= MAX_PAYLOAD_LEN,
        p.encoding().len() <= usize::MAX,
    ensures
        spec_decode_packet(p.encoding()) == Ok::<PacketModel, PacketDecodeError>(p),
        c.after_frame() == (ConnectionModel { inbound: rest, ..c }).after_payload(p.encoding()),
        c.after_frame().0.inbound == rest,
        p is AttemptAuthSession ==> c.after_frame().1 == IncomingModel::AuthAttempt(
            p->AttemptAuthSession_0,
        ),
        p is AttemptAuthSession && c.state == State::Connected ==> c.after_frame().0.state
            == State::SessionPending && step_allowed(
            c.after_frame().0.state,
            State::Authenticated,
        ),
{
    let frame = spec_encode(Opcode::Binary, p.encoding());
    lemma_encode_then_decode(Opcode::Binary, p.encoding(), rest);
    lemma_packet_round_trip(p);
    assert(c.inbound.subrange(frame.len() as int, c.inbound.len() as int) =~= rest);
}

} // verus!
