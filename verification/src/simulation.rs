//! The simulation's side of the session contract: it issues a token for
//! every session request and, for now, accepts every token submitted.

use crate::network::NetworkMessage;
use crate::network::SimulationMessage;
use vstd::prelude::*;

verus! {

/// Session tokens are drawn below this bound, three to the ninth.
pub const MAX_SESSION_KEY: u32 = 19683;

/// The answer to a request, given the token drawn for it: a new session
/// carries the drawn token, an authentication attempt is accepted with the
/// token it submitted, and a request for the world has no answer yet.
pub open spec fn response_to(msg: SimulationMessage, key: u32) -> Option<NetworkMessage> {
    match msg {
        SimulationMessage::RequestNewSession(id) => Some(NetworkMessage::NewSession(id, key)),
        SimulationMessage::AttemptAuthSession(id, token) => Some(
            NetworkMessage::AuthSuccess(id, token),
        ),
        SimulationMessage::RequestWorldState(_) => None,
    }
}

/// The answers to a run of requests, given the token drawn for each.
pub open spec fn responses_to(msgs: Seq<SimulationMessage>, keys: Seq<u32>) -> Seq<NetworkMessage>
    decreases msgs.len(),
{
    if msgs.len() == 0 || keys.len() != msgs.len() {
        Seq::empty()
    } else {
        let last = match response_to(msgs.last(), keys.last()) {
            Some(answer) => seq![answer],
            None => Seq::empty(),
        };
        responses_to(msgs.drop_last(), keys.drop_last()) + last
    }
}

/// `rand::random_range` on the range from zero to `bound`: a number below
/// `bound`, drawn from the generator of the calling thread.  An empty range
/// makes the call panic and is left out.  Nothing else is known of the draw.
#[verifier::external_body]
fn random_below(bound: u32) -> (r: u32)
    requires
        bound > 0,
    ensures
        r < bound,
{
    rand::random_range(0..bound)
}

/// Answers a request with the given token as the draw.
pub fn respond(msg: SimulationMessage, key: u32) -> (r: Option<NetworkMessage>)
    ensures
        r == response_to(msg, key),
{
    match msg {
        SimulationMessage::RequestNewSession(id) => Some(NetworkMessage::NewSession(id, key)),
        SimulationMessage::AttemptAuthSession(id, token) => Some(
            NetworkMessage::AuthSuccess(id, token),
        ),
        SimulationMessage::RequestWorldState(_) => None,
    }
}

/// Answers a request, drawing a token where a session is asked for.
pub fn simulate(msg: SimulationMessage) -> (r: Option<NetworkMessage>)
    ensures
        exists|key: u32| key < MAX_SESSION_KEY && r == response_to(msg, key),
        !(msg is RequestNewSession) ==> r == response_to(msg, 0),
{
    let key: u32 = match msg {
        SimulationMessage::RequestNewSession(_) => random_below(MAX_SESSION_KEY),
        _ => 0,
    };
    respond(msg, key)
}

/// One tick of the simulation loop: answers the requests that arrived, in order.
pub fn simulation_tick(inbox: &[SimulationMessage]) -> (out: Vec<NetworkMessage>)
    ensures
        exists|keys: Seq<u32>|
            keys.len() == inbox@.len() && (forall|i: int|
                0 <= i < keys.len() ==> keys[i] < MAX_SESSION_KEY) && out@ == responses_to(
                inbox@,
                keys,
            ),
{
    let n: usize = inbox.len();
    let mut out: Vec<NetworkMessage> = Vec::new();
    let ghost mut keys: Seq<u32> = Seq::empty();
    let mut i: usize = 0;
    while i < n
        invariant
            n == inbox@.len(),
            i <= n,
            keys.len() == i,
            forall|j: int| 0 <= j < keys.len() ==> keys[j] < MAX_SESSION_KEY,
            out@ == responses_to(inbox@.subrange(0, i as int), keys),
        decreases n - i,
    {
        let ghost before = out@;
        let ghost drawn = keys;
        let answer = simulate(inbox[i]);
        proof {
            let key = choose|key: u32|
                key < MAX_SESSION_KEY && answer == response_to(inbox@[i as int], key);
            keys = drawn.push(key);
            let upto = inbox@.subrange(0, i + 1);
            assert(upto.drop_last() =~= inbox@.subrange(0, i as int));
            assert(keys.drop_last() =~= drawn);
            assert(upto.last() == inbox@[i as int]);
        }
        match answer {
            Some(msg) => {
                out.push(msg);
                assert(out@ =~= before + seq![msg]);
            },
            None => {
                assert(out@ =~= before + Seq::<NetworkMessage>::empty());
            },
        }
        i += 1;
    }
    assert(inbox@.subrange(0, n as int) =~= inbox@);
    out
}

} // verus!
