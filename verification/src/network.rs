//! The decisions of the network loop: what a message from the simulation
//! does to the connections, what a packet from a client asks of the
//! simulation, and what goes out to whom.  The loop that owns the sockets
//! and the channels calls these once per tick.

use crate::connections::all_idle;
use crate::connections::backlog;
use crate::connections::lemma_reads_on;
use crate::connections::lemma_reads_same;
use crate::connections::ConnectionID;
use crate::connections::ConnectionManager;
use crate::connections::ManagerModel;
use crate::connections::State;
use crate::frame::spec_encode;
use crate::frame::Opcode;
use crate::packet::Packet;
use crate::packet::PacketModel;
use vstd::prelude::*;

verus! {

/// What reaches the network loop from the acceptor and from the simulation.
#[derive(Clone, Copy, Debug, PartialEq, Eq, Structural)]
pub enum NetworkMessage {
    /// A socket finished its handshake.
    NewConnection,
    /// A session with this token was issued for the connection.
    NewSession(ConnectionID, u32),
    /// The connection's token was accepted.
    AuthSuccess(ConnectionID, u32),
    /// The connection's token was refused.
    AuthFail(ConnectionID),
}

/// What the network loop asks of the simulation.
#[derive(Clone, Copy, Debug, PartialEq, Eq, Structural)]
pub enum SimulationMessage {
    RequestNewSession(ConnectionID),
    AttemptAuthSession(ConnectionID, u32),
    RequestWorldState(ConnectionID),
}

/// What a message to the network loop brought about.
#[derive(Debug, PartialEq, Eq)]
pub enum Effect {
    /// A connection was registered under this identifier.
    Registered(ConnectionID),
    /// This packet is owed to this connection.
    Reply(ConnectionID, Packet),
    /// Nothing is to be done.
    Nothing,
}

/// The mathematical content of an [`Effect`].
pub enum EffectModel {
    Registered(ConnectionID),
    Reply(ConnectionID, PacketModel),
    Nothing,
}

impl View for Effect {
    type V = EffectModel;

    open spec fn view(&self) -> EffectModel {
        match *self {
            Effect::Registered(id) => EffectModel::Registered(id),
            Effect::Reply(id, p) => EffectModel::Reply(id, p@),
            Effect::Nothing => EffectModel::Nothing,
        }
    }
}

/// The connections after a message.
pub open spec fn after_message(m: ManagerModel, msg: NetworkMessage) -> ManagerModel {
    match msg {
        NetworkMessage::NewConnection => if m.next_id < u64::MAX {
            m.registered()
        } else {
            m
        },
        NetworkMessage::NewSession(id, _) => m.after_new_session(id),
        NetworkMessage::AuthSuccess(id, token) => m.after_auth_success(id, token),
        NetworkMessage::AuthFail(id) => m.after_auth_fail(id),
    }
}

/// What a message brings about.  A session or an acceptance is announced to
/// the client only where the connection was in the state for it; a refusal
/// is announced in any case.
pub open spec fn effect_of(m: ManagerModel, msg: NetworkMessage) -> EffectModel {
    match msg {
        NetworkMessage::NewConnection => if m.next_id < u64::MAX {
            EffectModel::Registered(m.next_id)
        } else {
            EffectModel::Nothing
        },
        NetworkMessage::NewSession(id, token) => if m.state_of(id) == State::Connected {
            EffectModel::Reply(id, PacketModel::NewSession(token))
        } else {
            EffectModel::Nothing
        },
        NetworkMessage::AuthSuccess(id, token) => if m.state_of(id) == State::SessionPending {
            EffectModel::Reply(id, PacketModel::AuthSuccessful(token))
        } else {
            EffectModel::Nothing
        },
        NetworkMessage::AuthFail(id) => EffectModel::Reply(id, PacketModel::AuthFail),
    }
}

/// Applies one message to the connections.
pub fn apply_message(conns: &mut ConnectionManager, msg: NetworkMessage) -> (r: Effect)
    requires
        old(conns).wf(),
    ensures
        final(conns).wf(),
        old(conns)@.evolves(final(conns)@),
        final(conns)@ == after_message(old(conns)@, msg),
        r@ == effect_of(old(conns)@, msg),
{
    match msg {
        NetworkMessage::NewConnection => match conns.register_connection() {
            Some(id) => Effect::Registered(id),
            None => Effect::Nothing,
        },
        NetworkMessage::NewSession(id, token) => {
            if conns.notify_new_session(id) {
                Effect::Reply(id, Packet::NewSession(token))
            } else {
                Effect::Nothing
            }
        },
        NetworkMessage::AuthSuccess(id, token) => {
            if conns.imbue_session(id, token) {
                Effect::Reply(id, Packet::AuthSuccessful(token))
            } else {
                Effect::Nothing
            }
        },
        NetworkMessage::AuthFail(id) => {
            conns.notify_auth_fail(id);
            Effect::Reply(id, Packet::AuthFail)
        },
    }
}

/// What a packet from a client asks of the simulation.
pub open spec fn request_of(id: ConnectionID, p: PacketModel) -> Option<SimulationMessage> {
    match p {
        PacketModel::RequestDownloadWorld => Some(SimulationMessage::RequestWorldState(id)),
        _ => None,
    }
}

/// Turns a packet read from connection `id` into the request that it makes
/// of the simulation, if it makes one.
pub fn react_to_packet(id: ConnectionID, packet: &Packet) -> (r: Option<SimulationMessage>)
    ensures
        r == request_of(id, packet@),
{
    match packet {
        Packet::RequestDownloadWorld => Some(SimulationMessage::RequestWorldState(id)),
        _ => None,
    }
}

/// The connections after one entry of the outgoing queue: a packet that a
/// server may not send goes nowhere; one with an addressee goes to it; one
/// without goes to every authenticated connection.
pub open spec fn after_outgoing(m: ManagerModel, to: Option<ConnectionID>, p: PacketModel)
    -> ManagerModel {
    if !p.valid_from_server() {
        m
    } else {
        match to {
            Some(id) => m.after_send(id, spec_encode(Opcode::Binary, p.encoding())),
            None => m.with_broadcast(spec_encode(Opcode::Binary, p.encoding())),
        }
    }
}

/// Queues one outgoing packet on the connections it is meant for.
pub fn send_outgoing(conns: &mut ConnectionManager, to: Option<ConnectionID>, packet: &Packet)
    requires
        old(conns).wf(),
    ensures
        final(conns).wf(),
        old(conns)@.evolves(final(conns)@),
        final(conns)@ == after_outgoing(old(conns)@, to, packet@),
{
    if !packet.is_valid_from_server() {
        proof {
            lemma_reads_same(conns@);
        }
        return ;
    }
    match to {
        Some(id) => {
            conns.send_to(id, packet);
        },
        None => {
            conns.broadcast_to_authed(packet);
        },
    }
}

/// The connections after a run of messages, applied in order.
pub open spec fn after_messages(m: ManagerModel, msgs: Seq<NetworkMessage>) -> ManagerModel
    decreases msgs.len(),
{
    if msgs.len() == 0 {
        m
    } else {
        after_messages(after_message(m, msgs[0]), msgs.subrange(1, msgs.len() as int))
    }
}

/// What a run of messages brings about, one effect for each message.
pub open spec fn effects_of(m: ManagerModel, msgs: Seq<NetworkMessage>) -> Seq<EffectModel>
    decreases msgs.len(),
{
    if msgs.len() == 0 {
        Seq::empty()
    } else {
        seq![effect_of(m, msgs[0])] + effects_of(
            after_message(m, msgs[0]),
            msgs.subrange(1, msgs.len() as int),
        )
    }
}

/// The mathematical content of a list of effects.
pub open spec fn effect_models(effects: Seq<Effect>) -> Seq<EffectModel> {
    Seq::new(effects.len(), |i: int| effects[i]@)
}

/// Applies the messages of one tick, in order.
pub fn apply_messages(conns: &mut ConnectionManager, inbox: &[NetworkMessage]) -> (out: Vec<Effect>)
    requires
        old(conns).wf(),
    ensures
        final(conns).wf(),
        final(conns)@ == after_messages(old(conns)@, inbox@),
        effect_models(out@) == effects_of(old(conns)@, inbox@),
{
    let n: usize = inbox.len();
    let mut out: Vec<Effect> = Vec::new();
    let mut i: usize = 0;
    assert(inbox@.subrange(0, n as int) =~= inbox@);
    assert(effect_models(out@) =~= Seq::empty());
    while i < n
        invariant
            conns.wf(),
            n == inbox@.len(),
            i <= n,
            after_messages(old(conns)@, inbox@) == after_messages(
                conns@,
                inbox@.subrange(i as int, n as int),
            ),
            effects_of(old(conns)@, inbox@) == effect_models(out@) + effects_of(
                conns@,
                inbox@.subrange(i as int, n as int),
            ),
        decreases n - i,
    {
        let ghost rest = inbox@.subrange(i as int, n as int);
        let ghost before = conns@;
        let ghost done = effect_models(out@);
        let effect = apply_message(conns, inbox[i]);
        out.push(effect);
        proof {
            assert(rest[0] == inbox@[i as int]);
            assert(rest.subrange(1, rest.len() as int) =~= inbox@.subrange(i + 1, n as int));
            let later = effects_of(conns@, inbox@.subrange(i + 1, n as int));
            assert(effect_models(out@) =~= done + seq![effect@]);
            assert(done + (seq![effect@] + later) =~= effect_models(out@) + later);
        }
        i += 1;
    }
    assert(effect_models(out@) + Seq::empty() =~= effect_models(out@));
    out
}

/// The mathematical content of a list of packets with their senders.
pub open spec fn packet_models(packets: Seq<(ConnectionID, Packet)>) -> Seq<
    (ConnectionID, PacketModel),
> {
    Seq::new(packets.len(), |i: int| (packets[i].0, packets[i].1@))
}

/// The connections once every buffered frame is read, and the packets that
/// the frames held for the caller, in the order in which they were found.
/// Reading goes on while a packet is found; that each packet found shortens
/// the backlog, as `lemma_scan_consumes` shows of every well-formed
/// manager, makes the definition end.
pub open spec fn drained(m: ManagerModel) -> (ManagerModel, Seq<(ConnectionID, PacketModel)>)
    decreases backlog(m.conns),
{
    let next = m.scan(0).0;
    match m.scan(0).1 {
        Some(found) => if backlog(next.conns) < backlog(m.conns) {
            (drained(next).0, seq![found] + drained(next).1)
        } else {
            (next, seq![found])
        },
        None => (next, Seq::empty()),
    }
}

/// Reads every buffered frame and hands out the packets meant for the caller.
pub fn drain_packets(conns: &mut ConnectionManager) -> (out: Vec<(ConnectionID, Packet)>)
    requires
        old(conns).wf(),
    ensures
        final(conns).wf(),
        old(conns)@.reads(final(conns)@),
        old(conns)@.evolves(final(conns)@),
        final(conns)@ == drained(old(conns)@).0,
        packet_models(out@) == drained(old(conns)@).1,
        all_idle(final(conns)@),
{
    let mut out: Vec<(ConnectionID, Packet)> = Vec::new();
    let mut more: bool = true;
    proof {
        assert(packet_models(out@) =~= Seq::empty());
        assert(Seq::<(ConnectionID, PacketModel)>::empty() + drained(conns@).1 =~= drained(
            conns@,
        ).1);
        lemma_reads_same(conns@);
    }
    while more
        invariant
            conns.wf(),
            old(conns)@.reads(conns@),
            old(conns)@.evolves(conns@),
            more ==> drained(old(conns)@).0 == drained(conns@).0,
            more ==> drained(old(conns)@).1 == packet_models(out@) + drained(conns@).1,
            !more ==> drained(old(conns)@).0 == conns@,
            !more ==> drained(old(conns)@).1 == packet_models(out@),
            !more ==> all_idle(conns@),
        decreases
                if more {
                    backlog(conns@.conns) + 1
                } else {
                    0
                },
    {
        let ghost before = conns@;
        let ghost done = packet_models(out@);
        match conns.try_read() {
            Some(found) => {
                let ghost entry = (found.0, found.1@);
                out.push(found);
                proof {
                    let later = drained(conns@).1;
                    assert(packet_models(out@) =~= done + seq![entry]);
                    assert(done + (seq![entry] + later) =~= packet_models(out@) + later);
                    lemma_reads_on(old(conns)@, before, conns@);
                }
            },
            None => {
                more = false;
                proof {
                    assert(done + Seq::empty() =~= done);
                    lemma_reads_on(old(conns)@, before, conns@);
                }
            },
        }
    }
    out
}

/// The requests that packets from clients make of the simulation, in order.
pub open spec fn reactions_of(packets: Seq<(ConnectionID, PacketModel)>) -> Seq<SimulationMessage>
    decreases packets.len(),
{
    if packets.len() == 0 {
        Seq::empty()
    } else {
        let first = match request_of(packets[0].0, packets[0].1) {
            Some(msg) => seq![msg],
            None => Seq::empty(),
        };
        first + reactions_of(packets.subrange(1, packets.len() as int))
    }
}

/// Turns the packets read in one tick into requests to the simulation.
pub fn react_to_packets(packets: &[(ConnectionID, Packet)]) -> (out: Vec<SimulationMessage>)
    ensures
        out@ == reactions_of(packet_models(packets@)),
{
    let ghost all = packet_models(packets@);
    let n: usize = packets.len();
    let mut out: Vec<SimulationMessage> = Vec::new();
    let mut i: usize = 0;
    assert(all.subrange(0, n as int) =~= all);
    assert(Seq::<SimulationMessage>::empty() + reactions_of(all) =~= reactions_of(all));
    while i < n
        invariant
            all == packet_models(packets@),
            n == packets@.len(),
            i <= n,
            reactions_of(all) == out@ + reactions_of(all.subrange(i as int, n as int)),
        decreases n - i,
    {
        let ghost rest = all.subrange(i as int, n as int);
        let ghost done = out@;
        let ghost later = reactions_of(all.subrange(i + 1, n as int));
        proof {
            assert(rest[0] == (packets@[i as int].0, packets@[i as int].1@));
            assert(rest.subrange(1, rest.len() as int) =~= all.subrange(i + 1, n as int));
        }
        match react_to_packet(packets[i].0, &packets[i].1) {
            Some(msg) => {
                out.push(msg);
                assert(done + (seq![msg] + later) =~= out@ + later);
            },
            None => {
                assert(done + (Seq::<SimulationMessage>::empty() + later) =~= out@ + later);
            },
        }
        i += 1;
    }
    assert(out@ + Seq::<SimulationMessage>::empty() =~= out@);
    out
}

/// A request for a session on behalf of each connection, in order.
pub open spec fn session_requests(ids: Seq<ConnectionID>) -> Seq<SimulationMessage> {
    Seq::new(ids.len(), |i: int| SimulationMessage::RequestNewSession(ids[i]))
}

/// An authentication request for each submitted token, in order.
pub open spec fn auth_requests(attempts: Seq<(ConnectionID, u32)>) -> Seq<SimulationMessage> {
    Seq::new(
        attempts.len(),
        |i: int| SimulationMessage::AttemptAuthSession(attempts[i].0, attempts[i].1),
    )
}

/// The connections once their session requests and submitted tokens were collected.
pub open spec fn collected(m: ManagerModel) -> ManagerModel {
    ManagerModel { new_sessions: Seq::empty(), auth_attempts: Seq::empty(), ..m }
}

/// Empties the queues of session requests and of submitted tokens and turns
/// them into requests to the simulation: the session requests first, each
/// kind oldest first.
pub fn collect_requests(conns: &mut ConnectionManager) -> (out: Vec<SimulationMessage>)
    ensures
        final(conns)@ == collected(old(conns)@),
        out@ == session_requests(old(conns)@.new_sessions) + auth_requests(
            old(conns)@.auth_attempts,
        ),
{
    let ghost sessions = conns@.new_sessions;
    let ghost attempts = conns@.auth_attempts;
    let mut out: Vec<SimulationMessage> = Vec::new();
    let mut more: bool = true;
    let ghost mut k: int = 0;
    assert(sessions.subrange(0, sessions.len() as int) =~= sessions);
    assert(out@ =~= session_requests(sessions.subrange(0, 0)));
    while more
        invariant
            0 <= k <= sessions.len(),
            !more ==> k == sessions.len(),
            conns@.conns == old(conns)@.conns,
            conns@.next_id == old(conns)@.next_id,
            conns@.closed == old(conns)@.closed,
            conns@.auth_attempts == attempts,
            conns@.new_sessions == sessions.subrange(k, sessions.len() as int),
            out@ == session_requests(sessions.subrange(0, k)),
        decreases
                if more {
                    sessions.len() - k + 1
                } else {
                    0
                },
    {
        match conns.poll_new_sessions() {
            Some(id) => {
                out.push(SimulationMessage::RequestNewSession(id));
                proof {
                    assert(sessions.subrange(k, sessions.len() as int).remove(0) =~= sessions.subrange(
                        k + 1,
                        sessions.len() as int,
                    ));
                    assert(out@ =~= session_requests(sessions.subrange(0, k + 1)));
                    k = k + 1;
                }
            },
            None => {
                more = false;
            },
        }
    }
    assert(sessions.subrange(0, k) =~= sessions);
    more = true;
    let ghost first = out@;
    proof {
        k = 0;
        assert(attempts.subrange(0, attempts.len() as int) =~= attempts);
        assert(out@ =~= first + auth_requests(attempts.subrange(0, 0)));
    }
    while more
        invariant
            0 <= k <= attempts.len(),
            !more ==> k == attempts.len(),
            conns@.conns == old(conns)@.conns,
            conns@.next_id == old(conns)@.next_id,
            conns@.closed == old(conns)@.closed,
            conns@.new_sessions == Seq::<ConnectionID>::empty(),
            conns@.auth_attempts == attempts.subrange(k, attempts.len() as int),
            out@ == first + auth_requests(attempts.subrange(0, k)),
        decreases
                if more {
                    attempts.len() - k + 1
                } else {
                    0
                },
    {
        match conns.poll_auth_attempts() {
            Some(found) => {
                out.push(SimulationMessage::AttemptAuthSession(found.0, found.1));
                proof {
                    assert(attempts.subrange(k, attempts.len() as int).remove(0)
                        =~= attempts.subrange(k + 1, attempts.len() as int));
                    assert(out@ =~= first + auth_requests(attempts.subrange(0, k + 1)));
                    k = k + 1;
                }
            },
            None => {
                more = false;
            },
        }
    }
    assert(attempts.subrange(0, k) =~= attempts);
    assert(conns@.auth_attempts =~= Seq::empty());
    out
}

/// The connections after one effect was followed up: a reply is sent.
pub open spec fn after_reply(m: ManagerModel, effect: EffectModel) -> ManagerModel {
    match effect {
        EffectModel::Reply(id, p) => after_outgoing(m, Some(id), p),
        _ => m,
    }
}

/// The connections after a run of effects was followed up, in order.
pub open spec fn after_replies(m: ManagerModel, effects: Seq<EffectModel>) -> ManagerModel
    decreases effects.len(),
{
    if effects.len() == 0 {
        m
    } else {
        after_replies(after_reply(m, effects[0]), effects.subrange(1, effects.len() as int))
    }
}

/// Queues the replies that the effects of one tick call for.
pub fn send_replies(conns: &mut ConnectionManager, effects: &[Effect])
    requires
        old(conns).wf(),
    ensures
        final(conns).wf(),
        final(conns)@ == after_replies(old(conns)@, effect_models(effects@)),
{
    let ghost all = effect_models(effects@);
    let n: usize = effects.len();
    let mut i: usize = 0;
    assert(all.subrange(0, n as int) =~= all);
    while i < n
        invariant
            conns.wf(),
            all == effect_models(effects@),
            n == effects@.len(),
            i <= n,
            after_replies(old(conns)@, all) == after_replies(
                conns@,
                all.subrange(i as int, n as int),
            ),
        decreases n - i,
    {
        let ghost rest = all.subrange(i as int, n as int);
        proof {
            assert(rest[0] == effects@[i as int]@);
            assert(rest.subrange(1, rest.len() as int) =~= all.subrange(i + 1, n as int));
        }
        match &effects[i] {
            Effect::Reply(id, packet) => {
                send_outgoing(conns, Some(*id), packet);
            },
            _ => {},
        }
        i += 1;
    }
}

/// What one tick of the network loop hands back to the owner of the sockets
/// and channels.
#[derive(Debug)]
pub struct TickOutput {
    /// One effect for each message of the inbox.
    pub effects: Vec<Effect>,
    /// The packets read from clients that are meant for the loop itself.
    pub received: Vec<(ConnectionID, Packet)>,
    /// The requests to forward to the simulation.
    pub requests: Vec<SimulationMessage>,
    /// For each live connection, the bytes to write to its socket.
    pub writes: Vec<(ConnectionID, Vec<u8>)>,
}

/// The connections as one tick finds them once the inbox is applied and
/// every buffered frame is read.
pub open spec fn tick_read(m: ManagerModel, inbox: Seq<NetworkMessage>) -> ManagerModel {
    drained(after_messages(m, inbox)).0
}

/// The connections as one tick leaves them: the inbox applied, the frames
/// read, the write queues handed out, the requests collected, and the
/// replies to the inbox queued for the next tick.
pub open spec fn after_tick(m: ManagerModel, inbox: Seq<NetworkMessage>) -> ManagerModel {
    after_replies(collected(tick_read(m, inbox).all_flushed()), effects_of(m, inbox))
}

/// The requests that one tick forwards: those made by packets, then the
/// session requests, then the submitted tokens.
pub open spec fn tick_requests(m: ManagerModel, inbox: Seq<NetworkMessage>) -> Seq<
    SimulationMessage,
> {
    reactions_of(drained(after_messages(m, inbox)).1) + session_requests(
        tick_read(m, inbox).new_sessions,
    ) + auth_requests(tick_read(m, inbox).auth_attempts)
}

/// One tick of the network loop, between two sleeps: applies the messages
/// that arrived, reads every buffered frame, hands out what is to be written,
/// collects what the clients ask of the simulation, and queues the replies to
/// the messages for the next tick.
pub fn tick(conns: &mut ConnectionManager, inbox: &[NetworkMessage]) -> (out: TickOutput)
    requires
        old(conns).wf(),
    ensures
        final(conns).wf(),
        final(conns)@ == after_tick(old(conns)@, inbox@),
        effect_models(out.effects@) == effects_of(old(conns)@, inbox@),
        packet_models(out.received@) == drained(after_messages(old(conns)@, inbox@)).1,
        out.requests@ == tick_requests(old(conns)@, inbox@),
        out.writes@.len() == tick_read(old(conns)@, inbox@).conns.len(),
        forall|i: int|
            0 <= i < out.writes@.len() ==> (#[trigger] out.writes@[i]).0 == tick_read(
                old(conns)@,
                inbox@,
            ).conns[i].id && out.writes@[i].1@ == tick_read(old(conns)@, inbox@).conns[i].outbound,
{
    let effects = apply_messages(conns, inbox);
    let received = drain_packets(conns);
    let mut requests = react_to_packets(received.as_slice());
    let writes = conns.flush();
    let mut asked = collect_requests(conns);
    requests.append(&mut asked);
    send_replies(conns, effects.as_slice());
    TickOutput { effects, received, requests, writes }
}

} // verus!
