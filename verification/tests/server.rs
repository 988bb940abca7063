use message_router::error::{Error, SocketError};
use message_router::frame::Frame;
use message_router::message::{Msg, Protocol, RouteInfo};
use message_router::routesrv::Registration;
use message_router::server::{
    Action, Config, Event, Heartbeat, HeartbeatAction, OnFailure, RecvResult, Server, SocketState,
};

const SESSION_SRV: Protocol = Protocol::SessionSrv;

fn router() -> Server {
    Server::new(Config { addr: String::from("tcp://0.0.0.0:5562") })
}

fn shown(frames: &[Frame]) -> Vec<(Vec<u8>, bool)> {
    frames.iter().map(|f| (f.bytes.clone(), f.more)).collect()
}

fn parts(list: &[&[u8]]) -> Vec<(Vec<u8>, bool)> {
    let last = list.len() - 1;
    list.iter().enumerate().map(|(i, p)| (p.to_vec(), i < last)).collect()
}

fn request(protocol: Protocol, hash: Option<u64>) -> Vec<u8> {
    Msg::new("SessionGet", vec![1, 2, 3], Some(RouteInfo::new(Some(protocol), hash)))
        .write_to_bytes()
}

fn to_router(message_id: &str, body: &[u8]) -> Vec<u8> {
    let info = RouteInfo::new(Some(Protocol::RouteSrv), None);
    Msg::new(message_id, body.to_vec(), Some(info)).write_to_bytes()
}

fn registered(server: &mut Server, protocol: Protocol, endpoint: &str, shards: Vec<u32>) -> String {
    let registration = Registration { protocol, endpoint: String::from(endpoint), shards };
    let answer = server.register(registration, 7);
    assert_eq!(answer.len(), 1);
    assert!(!answer[0].more);
    String::from_utf8(answer[0].bytes.clone()).unwrap()
}

/// Hands the parts to the router for as long as it asks for them.
fn feed(server: &mut Server, list: &[&[u8]], draw: u64) -> (Action, usize) {
    let mut action = server.step(Event::Resume, draw);
    let mut taken = 0;
    while matches!(action, Action::Receive) && taken < list.len() {
        assert!(server.expects_frame());
        action = server.step(Event::Frame(list[taken].to_vec()), draw);
        taken += 1;
    }
    (action, taken)
}

fn sent(action: Action) -> (Vec<(Vec<u8>, bool)>, OnFailure) {
    match action {
        Action::Send { frames, on_failure } => (shown(&frames), on_failure),
        _ => panic!("nothing was sent"),
    }
}

#[test]
fn a_socket_starts_ready() {
    assert_eq!(SocketState::default(), SocketState::Ready);
}

#[test]
fn the_router_listens_where_it_is_told() {
    assert_eq!(router().addr(), "tcp://0.0.0.0:5562");
}

#[test]
fn a_request_goes_to_the_server_of_its_shard() {
    let mut server = router();
    assert_eq!(registered(&mut server, SESSION_SRV, "srv-a", vec![0, 44]), "REGOK");
    assert_eq!(registered(&mut server, SESSION_SRV, "srv-b", vec![1, 45]), "REGOK");
    // 300 % 128 == 44
    let body = request(SESSION_SRV, Some(300));
    let (action, taken) = feed(&mut server, &[b"client", b"gateway", b"", b"RQ", &body], 9);
    assert_eq!(taken, 5);
    let (frames, on_failure) = sent(action);
    assert_eq!(frames, parts(&[b"srv-a", b"client", b"gateway", b"", &body]));
    assert_eq!(on_failure, OnFailure::Fail);
    assert!(matches!(server.step(Event::Sent, 0), Action::Done));
    let body = request(SESSION_SRV, Some(301));
    let (action, _) = feed(&mut server, &[b"client", b"", b"RQ", &body], 9);
    assert_eq!(sent(action).0, parts(&[b"srv-b", b"client", b"", &body]));
}

#[test]
fn a_request_arrives_as_it_was_written() {
    let mut server = router();
    registered(&mut server, SESSION_SRV, "srv", vec![5]);
    // An unknown field of the message comes first here, and goes last.
    let info: [u8; 4] = [0x08, 2, 0x10, 5];
    let mut body = vec![0x48, 77, 0x0a, 1, 65, 0x12, 1, 9, 0x1a, 4];
    body.extend_from_slice(&info);
    let (action, _) = feed(&mut server, &[b"c", b"", b"RQ", &body], 0);
    let mut expected = vec![0x0a, 1, 65, 0x12, 1, 9, 0x1a, 4];
    expected.extend_from_slice(&info);
    expected.extend_from_slice(&[0x48, 77]);
    assert_eq!(sent(action).0, parts(&[b"srv", b"c", b"", &expected]));
}

#[test]
fn a_request_without_a_hash_goes_by_the_number_drawn() {
    let mut server = router();
    registered(&mut server, SESSION_SRV, "two", vec![2]);
    registered(&mut server, SESSION_SRV, "three", vec![3]);
    let body = request(SESSION_SRV, None);
    for (draw, endpoint) in [(2, "two"), (130, "two"), (3, "three"), (131, "three")] {
        let (action, _) = feed(&mut server, &[b"c", b"", b"RQ", &body], draw);
        assert_eq!(sent(action).0[0], (endpoint.as_bytes().to_vec(), true));
        server.step(Event::Sent, 0);
    }
}

#[test]
fn chance_finds_one_of_the_servers() {
    let mut server = router();
    registered(&mut server, SESSION_SRV, "low", (0..64).collect());
    registered(&mut server, SESSION_SRV, "high", (64..128).collect());
    let body = request(SESSION_SRV, None);
    let mut low = 0;
    for _ in 0..200 {
        let mut action = server.process_frontend(Event::Resume);
        for part in [&b"c"[..], b"", b"RQ", &body] {
            assert!(matches!(action, Action::Receive));
            action = server.process_frontend(Event::Frame(part.to_vec()));
        }
        let (frames, _) = sent(action);
        assert!(frames[0].0 == b"low" || frames[0].0 == b"high");
        if frames[0].0 == b"low" {
            low += 1;
        }
        assert!(matches!(server.process_frontend(Event::Sent), Action::Done));
    }
    assert!(0 < low && low < 200);
}

#[test]
fn a_request_for_an_unserved_shard_is_answered() {
    let mut server = router();
    registered(&mut server, SESSION_SRV, "srv", vec![1]);
    let body = request(SESSION_SRV, Some(2));
    let (action, _) = feed(&mut server, &[b"client", b"gateway", b"", b"RQ", &body], 0);
    let (frames, on_failure) = sent(action);
    let mut error = vec![0x0a, 8];
    error.extend_from_slice(b"NetError");
    error.extend_from_slice(&[0x12, 14, 0x08, 6, 0x12, 10]);
    error.extend_from_slice(b"rt:route:1");
    assert_eq!(frames, parts(&[b"client", b"gateway", b"", &error]));
    assert_eq!(on_failure, OnFailure::Fail);
}

#[test]
fn a_request_of_another_protocol_is_not_served() {
    let mut server = router();
    registered(&mut server, SESSION_SRV, "srv", vec![1]);
    let body = request(Protocol::OriginSrv, Some(1));
    let (action, _) = feed(&mut server, &[b"client", b"", b"RQ", &body], 0);
    assert_eq!(sent(action).0[0].0, b"client");
}

#[test]
fn a_reply_goes_back_by_its_hops() {
    let mut server = router();
    let (action, taken) =
        feed(&mut server, &[b"srv", b"client", b"gateway", b"", b"RP", b"payload"], 0);
    assert_eq!(taken, 6);
    let (frames, on_failure) = sent(action);
    assert_eq!(frames, parts(&[b"client", b"gateway", b"", b"payload"]));
    assert_eq!(on_failure, OnFailure::Abort);
    assert!(matches!(server.step(Event::Sent, 0), Action::Done));
}

#[test]
fn an_empty_reply_is_forwarded_too() {
    let mut server = router();
    let (action, _) = feed(&mut server, &[b"srv", b"", b"RP", b""], 0);
    assert_eq!(sent(action).0, parts(&[b"", b""]));
}

#[test]
fn seven_hops_are_routed() {
    let mut server = router();
    registered(&mut server, SESSION_SRV, "srv", vec![0]);
    let body = request(SESSION_SRV, Some(0));
    let (action, taken) =
        feed(&mut server, &[b"1", b"2", b"3", b"4", b"5", b"6", b"7", b"", b"RQ", &body], 0);
    assert_eq!(taken, 10);
    assert_eq!(
        sent(action).0,
        parts(&[b"srv", b"1", b"2", b"3", b"4", b"5", b"6", b"7", b"", &body])
    );
}

#[test]
fn eight_hops_are_too_many() {
    let mut server = router();
    let (action, taken) =
        feed(&mut server, &[b"1", b"2", b"3", b"4", b"5", b"6", b"7", b"8", b"", b"RP", b"x"], 0);
    assert_eq!(taken, 8);
    assert!(matches!(action, Action::Done));
    let (action, _) = feed(&mut server, &[b"srv", b"c", b"", b"RP", b"x"], 0);
    assert_eq!(sent(action).0, parts(&[b"c", b"", b"x"]));
}

#[test]
fn messages_that_make_no_sense_are_dropped() {
    let no_route = Msg::new("SessionGet", vec![1], None).write_to_bytes();
    let cases: [(&[&[u8]], usize); 7] = [
        (&[b""], 1),
        (&[b"c", b"", b"XX"], 3),
        (&[b"c", b"", b""], 3),
        (&[b"c", b"", b"rq"], 3),
        (&[b"c", b"", b"RQ", b""], 4),
        (&[b"c", b"", b"RQ", b"\xff\xff"], 4),
        (&[b"c", b"", b"RQ", &no_route], 4),
    ];
    for (list, length) in cases {
        let mut server = router();
        registered(&mut server, SESSION_SRV, "srv", vec![0]);
        let (action, taken) = feed(&mut server, list, 0);
        assert!(matches!(action, Action::Done));
        assert_eq!(taken, length);
        let body = request(SESSION_SRV, Some(0));
        let (action, _) = feed(&mut server, &[b"c", b"", b"RQ", &body], 0);
        assert_eq!(sent(action).0, parts(&[b"srv", b"c", b"", &body]));
    }
}

#[test]
fn a_request_that_was_not_read_is_dropped() {
    let mut server = router();
    feed(&mut server, &[b"c", b"", b"RQ"], 0);
    assert!(matches!(server.process_request(Err(Error::Protobuf), 0), Action::Done));
}

#[test]
fn the_shard_of_a_request_is_below_the_number_of_shards() {
    let mut server = router();
    feed(&mut server, &[b"c", b"", b"RQ"], 0);
    let msg = Msg::new("X", vec![], Some(RouteInfo::new(Some(SESSION_SRV), Some(u64::MAX))));
    server.process_request(Ok(msg), 0);
    assert_eq!(server.select_shard(1), 127);
    assert_eq!(shown(&server.route_message(1))[0], (b"c".to_vec(), true));
}

#[test]
fn a_connection_is_confirmed() {
    let mut server = router();
    let (action, _) = feed(&mut server, &[b"c", b"", b"RQ", &to_router("Connect", b"")], 0);
    let (frames, on_failure) = sent(action);
    let mut confirmed = vec![0x0a, 9];
    confirmed.extend_from_slice(b"ConnectOk");
    confirmed.extend_from_slice(&[0x12, 0]);
    assert_eq!(frames, parts(&[&confirmed]));
    assert_eq!(on_failure, OnFailure::Abort);
}

#[test]
fn an_unreadable_connection_aborts() {
    let mut server = router();
    let (action, _) = feed(&mut server, &[b"c", b"", b"RQ", &to_router("Connect", b"\xff")], 0);
    assert!(matches!(action, Action::Abort));
}

#[test]
fn disconnecting_drops_the_registrations_of_the_routers_protocol() {
    let own = Protocol::RouteSrv;
    let mut server = router();
    assert_eq!(registered(&mut server, own, "srv", vec![0, 1]), "REGOK");
    assert_eq!(registered(&mut server, own, "other", vec![2]), "REGOK");
    assert_eq!(registered(&mut server, SESSION_SRV, "srv", vec![0]), "REGOK");
    let message = to_router("Disconnect", b"\x0a\x03srv");
    let (action, _) = feed(&mut server, &[b"c", b"", b"RQ", &message], 0);
    assert!(matches!(action, Action::Done));
    assert_eq!(registered(&mut server, own, "new", vec![0, 1]), "REGOK");
    assert_eq!(registered(&mut server, own, "new", vec![2]), "REGCONFLICT");
    assert_eq!(registered(&mut server, SESSION_SRV, "new", vec![0]), "REGCONFLICT");
}

#[test]
fn an_unreadable_disconnection_aborts() {
    let mut server = router();
    let message = to_router("Disconnect", b"\x08\x01");
    let (action, _) = feed(&mut server, &[b"c", b"", b"RQ", &message], 0);
    assert!(matches!(action, Action::Abort));
}

#[test]
fn unknown_messages_to_the_router_are_passed_over() {
    let mut server = router();
    let (action, _) = feed(&mut server, &[b"c", b"", b"RQ", &to_router("Reconnect", b"")], 0);
    assert!(matches!(action, Action::Done));
}

#[test]
fn a_shard_is_registered_to_one_server() {
    let mut server = router();
    assert_eq!(registered(&mut server, SESSION_SRV, "a", vec![1, 2]), "REGOK");
    assert_eq!(registered(&mut server, SESSION_SRV, "b", vec![3, 2]), "REGCONFLICT");
    assert_eq!(registered(&mut server, SESSION_SRV, "c", vec![3]), "REGOK");
    assert_eq!(registered(&mut server, SESSION_SRV, "a", vec![1, 2]), "REGOK");
}

#[test]
fn a_new_connection_is_asked_to_register() {
    let mut server = router();
    match server.process_heartbeat(Heartbeat::Command, b"123@host".to_vec(), 1) {
        HeartbeatAction::Send(frames) => {
            assert_eq!(shown(&frames), parts(&[b"123@host", b"", b"REG"]))
        }
        _ => panic!("not asked"),
    }
}

#[test]
fn a_sign_of_life_without_text_is_passed_over() {
    let mut server = router();
    for bytes in [&b""[..], b"\xff"] {
        let action = server.process_heartbeat(Heartbeat::Command, bytes.to_vec(), 1);
        assert!(matches!(action, HeartbeatAction::Done));
    }
}

#[test]
fn a_registration_by_message_is_answered() {
    let mut server = router();
    let action = server.process_heartbeat(Heartbeat::Command, b"R".to_vec(), 1);
    assert!(matches!(action, HeartbeatAction::Receive(Heartbeat::Registration)));
    let first = b"\x08\x02\x12\x01a\x18\x00\x18\x07".to_vec();
    match server.process_heartbeat(Heartbeat::Registration, first, 1) {
        HeartbeatAction::Send(frames) => assert_eq!(shown(&frames), parts(&[b"REGOK"])),
        _ => panic!("not answered"),
    }
    let second = b"\x08\x02\x12\x01b\x1a\x02\x07\x08".to_vec();
    match server.process_heartbeat(Heartbeat::Registration, second, 1) {
        HeartbeatAction::Send(frames) => assert_eq!(shown(&frames), parts(&[b"REGCONFLICT"])),
        _ => panic!("not answered"),
    }
    let body = request(SESSION_SRV, Some(7));
    let (action, _) = feed(&mut server, &[b"c", b"", b"RQ", &body], 0);
    assert_eq!(sent(action).0, parts(&[b"a", b"c", b"", &body]));
}

#[test]
fn a_registration_that_cannot_be_read_is_an_error() {
    let mut server = router();
    let action = server.process_heartbeat(Heartbeat::Registration, b"\x08".to_vec(), 1);
    assert!(matches!(action, HeartbeatAction::Fail(Error::Protobuf)));
}

#[test]
fn a_registration_of_an_unlisted_protocol_is_an_error() {
    let mut server = router();
    let bytes = b"\x08\xe7\x07\x12\x01a\x18\x01".to_vec();
    let action = server.process_heartbeat(Heartbeat::Registration, bytes, 1);
    assert!(matches!(action, HeartbeatAction::Fail(Error::Protobuf)));
}

#[test]
fn resuming_loses_no_part() {
    let mut server = router();
    assert!(matches!(server.step(Event::Resume, 0), Action::Receive));
    for part in [&b"srv"[..], b"c", b"", b"RP"] {
        assert!(matches!(server.step(Event::Frame(part.to_vec()), 0), Action::Receive));
        assert!(matches!(server.step(Event::Resume, 0), Action::Receive));
    }
    let action = server.step(Event::Frame(b"x".to_vec()), 0);
    assert_eq!(sent(action).0, parts(&[b"c", b"", b"x"]));
}

#[test]
fn a_pulse_keeps_the_routes() {
    let mut server = router();
    registered(&mut server, SESSION_SRV, "srv", vec![0]);
    let action = server.process_heartbeat(Heartbeat::Command, b"P".to_vec(), 8);
    assert!(matches!(action, HeartbeatAction::Receive(Heartbeat::Pulse)));
    let action = server.process_heartbeat(Heartbeat::Pulse, b"srv".to_vec(), 8);
    assert!(matches!(action, HeartbeatAction::Done));
    let body = request(SESSION_SRV, Some(0));
    let (action, _) = feed(&mut server, &[b"c", b"", b"RQ", &body], 0);
    assert_eq!(sent(action).0[0].0, b"srv");
}

#[test]
fn a_pulse_that_is_no_text_aborts() {
    let mut server = router();
    let action = server.process_heartbeat(Heartbeat::Pulse, b"\xc3".to_vec(), 1);
    assert!(matches!(action, HeartbeatAction::Abort));
}

#[test]
fn waiting_ends_with_messages_or_a_shutdown() {
    assert_eq!(Server::wait_recv(Ok(0)), RecvResult::Continue(0));
    assert_eq!(Server::wait_recv(Ok(3)), RecvResult::Continue(3));
    assert_eq!(Server::wait_recv(Err(SocketError::Interrupted)), RecvResult::Shutdown);
    assert_eq!(Server::wait_recv(Err(SocketError::Terminated)), RecvResult::Shutdown);
}
