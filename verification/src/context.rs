//! The client's side of the session: what it sends when the connection
//! opens and how it answers the server's packets.

use crate::packet::Packet;
use crate::packet::PacketModel;
use vstd::prelude::*;

verus! {

/// The token that a client submits when its connection opens.
pub const FIRST_AUTH_TOKEN: u32 = 123;

/// What happened to the client's connection since the last frame.
#[derive(Clone, Copy, Debug, PartialEq, Eq, Structural)]
pub enum ConnectionEvent {
    Connect,
    Disconnect,
}

/// The client's session state: the token that the server accepted, if any.
pub struct MainContext {
    auth_token: Option<u32>,
}

/// What the client sends on a connection event.
pub open spec fn sent_on(event: ConnectionEvent) -> Seq<PacketModel> {
    match event {
        ConnectionEvent::Connect => seq![PacketModel::AttemptAuthSession(FIRST_AUTH_TOKEN)],
        ConnectionEvent::Disconnect => Seq::empty(),
    }
}

/// What the client sends in answer to a packet: once authenticated it asks
/// for the world.
pub open spec fn answer_to(p: PacketModel) -> Seq<PacketModel> {
    match p {
        PacketModel::AuthSuccessful(_) => seq![PacketModel::RequestDownloadWorld],
        _ => Seq::empty(),
    }
}

/// What the client sends on a run of events, in order.
pub open spec fn sent_on_all(events: Seq<ConnectionEvent>) -> Seq<PacketModel>
    decreases events.len(),
{
    if events.len() == 0 {
        Seq::empty()
    } else {
        sent_on_all(events.drop_last()) + sent_on(events.last())
    }
}

/// What the client sends in answer to a run of packets, in order.
pub open spec fn answers_to(packets: Seq<PacketModel>) -> Seq<PacketModel>
    decreases packets.len(),
{
    if packets.len() == 0 {
        Seq::empty()
    } else {
        answers_to(packets.drop_last()) + answer_to(packets.last())
    }
}

/// The token held after a run of packets: that of the last acceptance
/// among them, else the one held before.
pub open spec fn token_after(held: Option<u32>, packets: Seq<PacketModel>) -> Option<u32>
    decreases packets.len(),
{
    if packets.len() == 0 {
        held
    } else {
        match packets.last() {
            PacketModel::AuthSuccessful(token) => Some(token),
            _ => token_after(held, packets.drop_last()),
        }
    }
}

/// The mathematical content of a list of packets.
pub open spec fn models_of(packets: Seq<Packet>) -> Seq<PacketModel> {
    Seq::new(packets.len(), |i: int| packets[i]@)
}

impl MainContext {
    pub closed spec fn token(&self) -> Option<u32> {
        self.auth_token
    }

    /// A client that has not authenticated yet.
    pub fn new() -> (c: MainContext)
        ensures
            c.token() is None,
    {
        MainContext { auth_token: None }
    }

    /// The token that the server accepted, if any.
    pub fn auth_token(&self) -> (t: Option<u32>)
        ensures
            t == self.token(),
    {
        self.auth_token
    }

    /// The connection opened: the client submits its token.  Hands out the
    /// packet to send.
    pub fn on_connect(&mut self) -> (p: Packet)
        ensures
            seq![p@] == sent_on(ConnectionEvent::Connect),
            final(self).token() == old(self).token(),
    {
        Packet::AttemptAuthSession(FIRST_AUTH_TOKEN)
    }

    /// The connection was lost: nothing is sent and the token is kept.
    pub fn on_disconnect(&mut self)
        ensures
            final(self).token() == old(self).token(),
    {
    }

    /// Works through the events and packets that arrived since the last
    /// frame and hands out the packets to send, in order: the answers to
    /// the events first, then the answers to the packets.
    pub fn process_packets(&mut self, events: &[ConnectionEvent], packets: &[Packet]) -> (out: Vec<
        Packet,
    >)
        ensures
            models_of(out@) == sent_on_all(events@) + answers_to(models_of(packets@)),
            final(self).token() == token_after(old(self).token(), models_of(packets@)),
    {
        let mut out: Vec<Packet> = Vec::new();
        let mut i: usize = 0;
        assert(models_of(out@) =~= sent_on_all(events@.subrange(0, 0)));
        while i < events.len()
            invariant
                i <= events@.len(),
                self.token() == old(self).token(),
                models_of(out@) == sent_on_all(events@.subrange(0, i as int)),
            decreases events@.len() - i,
        {
            let ghost before = models_of(out@);
            proof {
                let upto = events@.subrange(0, i + 1);
                assert(upto.drop_last() =~= events@.subrange(0, i as int));
                assert(upto.last() == events@[i as int]);
            }
            match events[i] {
                ConnectionEvent::Connect => {
                    let p = self.on_connect();
                    out.push(p);
                    assert(models_of(out@) =~= before + seq![p@]);
                },
                ConnectionEvent::Disconnect => {
                    self.on_disconnect();
                    assert(models_of(out@) =~= before + Seq::<PacketModel>::empty());
                },
            }
            i += 1;
        }
        assert(events@.subrange(0, i as int) =~= events@);
        let ghost first = models_of(out@);
        let ghost all = models_of(packets@);
        let mut k: usize = 0;
        assert(all.subrange(0, 0) =~= Seq::<PacketModel>::empty());
        assert(models_of(out@) =~= first + answers_to(all.subrange(0, 0)));
        while k < packets.len()
            invariant
                k <= packets@.len(),
                all == models_of(packets@),
                self.token() == token_after(old(self).token(), all.subrange(0, k as int)),
                models_of(out@) == first + answers_to(all.subrange(0, k as int)),
            decreases packets@.len() - k,
        {
            let ghost before = models_of(out@);
            let ghost done = answers_to(all.subrange(0, k as int));
            proof {
                let upto = all.subrange(0, k + 1);
                assert(upto.drop_last() =~= all.subrange(0, k as int));
                assert(upto.last() == packets@[k as int]@);
            }
            match &packets[k] {
                Packet::AuthSuccessful(token) => {
                    self.auth_token = Some(*token);
                    out.push(Packet::RequestDownloadWorld);
                    assert(models_of(out@) =~= before + seq![PacketModel::RequestDownloadWorld]);
                    assert(first + (done + seq![PacketModel::RequestDownloadWorld]) =~= before
                        + seq![PacketModel::RequestDownloadWorld]);
                },
                _ => {
                    assert(first + (done + Seq::<PacketModel>::empty()) =~= before);
                },
            }
            k += 1;
        }
        assert(all.subrange(0, k as int) =~= all);
        out
    }
}

} // verus!
