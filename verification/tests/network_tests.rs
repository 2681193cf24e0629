use wsrelay::connections::{ConnectionManager, State};
use wsrelay::frame::{decode_frame, encode_frame, Opcode};
use wsrelay::handshake::{init_websocket_connection, is_upgrade_request};
use wsrelay::http::Request;
use wsrelay::network::{
    apply_message, apply_messages, collect_requests, drain_packets, react_to_packet,
    react_to_packets, send_outgoing, send_replies, tick, Effect, NetworkMessage,
    SimulationMessage,
};
use wsrelay::packet::Packet;
use wsrelay::simulation::{respond, simulate, simulation_tick, MAX_SESSION_KEY};

fn client_packet(p: &Packet) -> Vec<u8> {
    let key = [0xa5u8, 0x5a, 0x0f, 0xf0];
    let payload = p.encode();
    let mut out = vec![0x82, 0x80 | payload.len() as u8];
    out.extend_from_slice(&key);
    for (i, b) in payload.iter().enumerate() {
        out.push(b ^ key[i % 4]);
    }
    out
}

fn server_packet(p: &Packet) -> Vec<u8> {
    encode_frame(Opcode::Binary, &p.encode())
}

#[test]
fn apply_message_registers() {
    let mut m = ConnectionManager::new();
    assert_eq!(apply_message(&mut m, NetworkMessage::NewConnection), Effect::Registered(0));
    assert_eq!(apply_message(&mut m, NetworkMessage::NewConnection), Effect::Registered(1));
    assert_eq!(m.len(), 2);
    assert_eq!(m.state_of(1), State::Connected);
}

#[test]
fn apply_message_session_flow() {
    let mut m = ConnectionManager::new();
    let id = m.register_connection().unwrap();
    assert_eq!(
        apply_message(&mut m, NetworkMessage::AuthSuccess(id, 4)),
        Effect::Nothing
    );
    assert_eq!(
        apply_message(&mut m, NetworkMessage::NewSession(id, 4)),
        Effect::Reply(id, Packet::NewSession(4))
    );
    assert_eq!(m.state_of(id), State::SessionPending);
    assert_eq!(apply_message(&mut m, NetworkMessage::NewSession(id, 5)), Effect::Nothing);
    assert_eq!(
        apply_message(&mut m, NetworkMessage::AuthSuccess(id, 4)),
        Effect::Reply(id, Packet::AuthSuccessful(4))
    );
    assert_eq!(m.state_of(id), State::Authenticated);
    assert_eq!(
        apply_message(&mut m, NetworkMessage::AuthFail(id)),
        Effect::Reply(id, Packet::AuthFail)
    );
    assert_eq!(m.state_of(id), State::Connected);
}

#[test]
fn auth_fail_is_announced_even_to_unknown_ids() {
    let mut m = ConnectionManager::new();
    assert_eq!(
        apply_message(&mut m, NetworkMessage::AuthFail(12)),
        Effect::Reply(12, Packet::AuthFail)
    );
    assert_eq!(apply_message(&mut m, NetworkMessage::NewSession(12, 1)), Effect::Nothing);
    assert_eq!(apply_message(&mut m, NetworkMessage::AuthSuccess(12, 1)), Effect::Nothing);
    assert_eq!(m.len(), 0);
    // The reply to nobody goes nowhere.
    send_replies(&mut m, &[Effect::Reply(12, Packet::AuthFail)]);
    assert!(m.flush().is_empty());
}

#[test]
fn apply_messages_in_order() {
    let mut m = ConnectionManager::new();
    let effects = apply_messages(
        &mut m,
        &[
            NetworkMessage::NewConnection,
            NetworkMessage::NewSession(0, 11),
            NetworkMessage::AuthSuccess(0, 11),
            NetworkMessage::NewConnection,
            NetworkMessage::AuthSuccess(1, 3),
        ],
    );
    assert_eq!(
        effects,
        vec![
            Effect::Registered(0),
            Effect::Reply(0, Packet::NewSession(11)),
            Effect::Reply(0, Packet::AuthSuccessful(11)),
            Effect::Registered(1),
            Effect::Nothing,
        ]
    );
    assert_eq!(m.state_of(0), State::Authenticated);
    assert_eq!(m.state_of(1), State::Connected);
}

#[test]
fn react_to_packet_forwards_world_requests() {
    assert_eq!(
        react_to_packet(3, &Packet::RequestDownloadWorld),
        Some(SimulationMessage::RequestWorldState(3))
    );
    assert_eq!(react_to_packet(3, &Packet::Debug(String::from("x"))), None);
    assert_eq!(react_to_packet(3, &Packet::AuthFail), None);
    assert_eq!(
        react_to_packets(&[
            (1, Packet::Debug(String::from("a"))),
            (2, Packet::RequestDownloadWorld),
            (1, Packet::RequestDownloadWorld),
        ]),
        vec![SimulationMessage::RequestWorldState(2), SimulationMessage::RequestWorldState(1)]
    );
}

#[test]
fn send_outgoing_checks_direction() {
    let mut m = ConnectionManager::new();
    let a = m.register_connection().unwrap();
    let b = m.register_connection().unwrap();
    assert!(m.notify_new_session(b));
    assert!(m.imbue_session(b, 1));
    // Client-only packets are never echoed.
    send_outgoing(&mut m, Some(a), &Packet::AttemptAuthSession(1));
    send_outgoing(&mut m, None, &Packet::RequestDownloadWorld);
    assert_eq!(m.flush(), vec![(a, vec![]), (b, vec![])]);
    send_outgoing(&mut m, Some(a), &Packet::NewSession(2));
    send_outgoing(&mut m, None, &Packet::DownloadWorld);
    assert_eq!(
        m.flush(),
        vec![(a, server_packet(&Packet::NewSession(2))), (b, server_packet(&Packet::DownloadWorld))]
    );
}

#[test]
fn drain_and_collect() {
    let mut m = ConnectionManager::new();
    let a = m.register_connection().unwrap();
    let b = m.register_connection().unwrap();
    let mut bytes = client_packet(&Packet::RequestNewSession);
    bytes.extend_from_slice(&client_packet(&Packet::Debug(String::from("a1"))));
    bytes.extend_from_slice(&client_packet(&Packet::RequestDownloadWorld));
    assert!(m.receive(a, &bytes));
    let mut bytes = client_packet(&Packet::AttemptAuthSession(42));
    bytes.extend_from_slice(&client_packet(&Packet::Debug(String::from("b1"))));
    bytes.extend_from_slice(&client_packet(&Packet::RequestNewSession));
    assert!(m.receive(b, &bytes));
    let packets = drain_packets(&mut m);
    assert_eq!(
        packets,
        vec![
            (a, Packet::Debug(String::from("a1"))),
            (a, Packet::RequestDownloadWorld),
            (b, Packet::Debug(String::from("b1"))),
        ]
    );
    assert_eq!(m.try_read(), None);
    let requests = collect_requests(&mut m);
    assert_eq!(
        requests,
        vec![
            SimulationMessage::RequestNewSession(a),
            SimulationMessage::RequestNewSession(b),
            SimulationMessage::AttemptAuthSession(b, 42),
        ]
    );
    assert_eq!(m.poll_new_sessions(), None);
    assert_eq!(m.poll_auth_attempts(), None);
    assert!(collect_requests(&mut m).is_empty());
}

#[test]
fn tick_runs_the_phases_in_order() {
    let mut m = ConnectionManager::new();
    let out = tick(&mut m, &[NetworkMessage::NewConnection]);
    assert_eq!(out.effects, vec![Effect::Registered(0)]);
    assert!(out.received.is_empty());
    assert!(out.requests.is_empty());
    assert_eq!(out.writes, vec![(0, vec![])]);

    let mut bytes = client_packet(&Packet::RequestDownloadWorld);
    bytes.extend_from_slice(&client_packet(&Packet::RequestNewSession));
    bytes.extend_from_slice(&[0x89, 0x80, 1, 2, 3, 4]);
    assert!(m.receive(0, &bytes));
    let out = tick(&mut m, &[NetworkMessage::NewSession(0, 99)]);
    assert_eq!(out.effects, vec![Effect::Reply(0, Packet::NewSession(99))]);
    assert_eq!(out.received, vec![(0, Packet::RequestDownloadWorld)]);
    assert_eq!(
        out.requests,
        vec![SimulationMessage::RequestWorldState(0), SimulationMessage::RequestNewSession(0)]
    );
    // The pong is written in this tick, the reply in the next.
    assert_eq!(out.writes, vec![(0, vec![0x8a, 0])]);
    let out = tick(&mut m, &[]);
    assert_eq!(out.writes, vec![(0, server_packet(&Packet::NewSession(99)))]);
    assert!(out.effects.is_empty());
    assert!(out.requests.is_empty());
}

#[test]
fn respond_follows_the_session_contract() {
    assert_eq!(
        respond(SimulationMessage::RequestNewSession(4), 17),
        Some(NetworkMessage::NewSession(4, 17))
    );
    assert_eq!(
        respond(SimulationMessage::AttemptAuthSession(4, 123), 17),
        Some(NetworkMessage::AuthSuccess(4, 123))
    );
    assert_eq!(respond(SimulationMessage::RequestWorldState(4), 17), None);
}

#[test]
fn simulate_draws_tokens_below_the_bound() {
    assert_eq!(MAX_SESSION_KEY, 3u32.pow(9));
    let mut seen = Vec::new();
    for _ in 0..200 {
        match simulate(SimulationMessage::RequestNewSession(6)) {
            Some(NetworkMessage::NewSession(6, token)) => {
                assert!(token < MAX_SESSION_KEY);
                seen.push(token);
            }
            other => panic!("unexpected answer {:?}", other),
        }
    }
    seen.sort();
    seen.dedup();
    assert!(seen.len() > 1);
    assert_eq!(
        simulate(SimulationMessage::AttemptAuthSession(6, 5)),
        Some(NetworkMessage::AuthSuccess(6, 5))
    );
    assert_eq!(simulate(SimulationMessage::RequestWorldState(6)), None);
}

#[test]
fn simulation_tick_answers_in_order() {
    let out = simulation_tick(&[
        SimulationMessage::AttemptAuthSession(1, 10),
        SimulationMessage::RequestWorldState(1),
        SimulationMessage::RequestNewSession(2),
        SimulationMessage::AttemptAuthSession(3, 30),
    ]);
    assert_eq!(out.len(), 3);
    assert_eq!(out[0], NetworkMessage::AuthSuccess(1, 10));
    assert!(matches!(out[1], NetworkMessage::NewSession(2, t) if t < MAX_SESSION_KEY));
    assert_eq!(out[2], NetworkMessage::AuthSuccess(3, 30));
    assert!(simulation_tick(&[]).is_empty());
}

#[test]
fn end_to_end_handshake_then_authentication() {
    // The client opens with an upgrade request and gets the 101.
    let request = b"GET / HTTP/1.1\r\nHost: localhost:1337\r\nUpgrade: websocket\r\nConnection: Upgrade\r\nSec-WebSocket-Key: dGhlIHNhbXBsZSBub25jZQ==\r\nSec-WebSocket-Version: 13\r\n\r\n";
    let header = Request::parse(request).unwrap();
    assert!(is_upgrade_request(&header));
    let response = init_websocket_connection(&header).unwrap();
    let text = String::from_utf8(response).unwrap();
    assert!(text.starts_with("HTTP/1.1 101 "));
    assert!(text.contains("\r\nSec-WebSocket-Accept: s3pPLMBiTxaQ9kYGzzhZRbK+xOo=\r\n"));

    // The socket is handed to the network loop.
    let mut m = ConnectionManager::new();
    let out = tick(&mut m, &[NetworkMessage::NewConnection]);
    assert_eq!(out.effects, vec![Effect::Registered(0)]);
    let id = 0;

    // The client submits token T.
    let token = 123;
    assert!(m.receive(id, &client_packet(&Packet::AttemptAuthSession(token))));
    let out = tick(&mut m, &[]);
    assert_eq!(out.requests, vec![SimulationMessage::AttemptAuthSession(id, token)]);
    assert_eq!(m.state_of(id), State::SessionPending);

    // The simulation accepts; the network loop passes the decision on.
    let answers = simulation_tick(&out.requests);
    assert_eq!(answers, vec![NetworkMessage::AuthSuccess(id, token)]);
    let out = tick(&mut m, &answers);
    assert_eq!(out.effects, vec![Effect::Reply(id, Packet::AuthSuccessful(token))]);
    assert_eq!(m.state_of(id), State::Authenticated);
    assert_eq!(m.session_token(id), Some(token));

    // The next tick writes the packet; the client reads it.
    let out = tick(&mut m, &[]);
    assert_eq!(out.writes.len(), 1);
    assert_eq!(out.writes[0].0, id);
    let (frame, used) = decode_frame(&out.writes[0].1).unwrap().unwrap();
    assert_eq!(used, out.writes[0].1.len());
    assert_eq!(frame.opcode, Opcode::Binary);
    assert_eq!(Packet::decode(&frame.payload), Ok(Packet::AuthSuccessful(token)));
}

#[test]
fn rejected_handshake_leaves_the_loop_untouched() {
    let mut m = ConnectionManager::new();
    let bad = Request::parse(b"GET / HTTP/1.1\r\nUpgrade: websocket\r\n\r\n").unwrap();
    assert!(init_websocket_connection(&bad).is_err());
    assert_eq!(m.len(), 0);
    let good = Request::parse(
        b"GET / HTTP/1.1\r\nUpgrade: websocket\r\nSec-WebSocket-Key: x3JJHMbDL1EzLkh9GBhXDw==\r\n\r\n",
    )
    .unwrap();
    let response = init_websocket_connection(&good).unwrap();
    assert!(String::from_utf8(response)
        .unwrap()
        .contains("Sec-WebSocket-Accept: HSmrc0sMlYUkAGmm5OPpG2HaGWk=\r\n"));
    assert_eq!(apply_message(&mut m, NetworkMessage::NewConnection), Effect::Registered(0));
}
