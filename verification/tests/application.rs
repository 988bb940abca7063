use message_router::application::dispatcher::{Request, Worker, WorkerAction, WorkerEvent};
use message_router::application::pool::{DispatcherPool, PoolEvent, Signal, Task};
use message_router::application::{
    net_ident, Application, ApplicationState, ForwardAction, ForwardEvent, RecvResult, Side, Turn,
};
use message_router::error::{Error, SocketError};
use message_router::frame::Frame;
use message_router::message::{Msg, Protocol, RouteInfo};
use message_router::routesrv::Registration;
use message_router::server::{Action, Config, Event, Server};

#[derive(Clone)]
struct Counter {
    ready: bool,
}

impl ApplicationState for Counter {
    fn is_initialized(&self) -> bool {
        self.ready
    }
}

fn service() -> Application {
    Application::new(4071, "builder")
}

fn listed(frames: &[Frame]) -> Vec<(Vec<u8>, bool)> {
    frames.iter().map(|f| (f.bytes.clone(), f.more)).collect()
}

fn work(worker: &mut Worker, list: &[&[u8]]) -> WorkerAction {
    let mut action = WorkerAction::Receive;
    for part in list {
        assert_eq!(action, WorkerAction::Receive);
        action = worker.worker_run(WorkerEvent::Frame(part.to_vec()));
    }
    action
}

fn reply_bytes(message_id: &str, body: &[u8]) -> Vec<u8> {
    Msg::new(message_id, body.to_vec(), None).write_to_bytes()
}

#[test]
fn state_says_whether_it_is_initialized() {
    assert!(Counter { ready: true }.is_initialized());
    assert!(!Counter { ready: false }.clone().is_initialized());
}

#[test]
fn a_service_is_named_by_process_and_host() {
    assert_eq!(net_ident(0, "h"), "0@h");
    assert_eq!(net_ident(4294967295, "host.example"), "4294967295@host.example");
    assert_eq!(service().ident(), "4071@builder");
    assert_eq!(service().dispatcher_queue(), "inproc://4071@builder.net.dispatch");
}

#[test]
fn names_of_different_services_differ() {
    assert_ne!(net_ident(1, "23"), net_ident(12, "3"));
    assert_ne!(net_ident(1, "1@a"), net_ident(11, "a"));
}

#[test]
fn parts_go_to_the_other_side_as_they_came() {
    let mut app = service();
    let action = app.forward_messages(ForwardEvent::Begin);
    assert!(matches!(action, ForwardAction::Receive(Side::Router)));
    for (bytes, more) in [(&b"hop"[..], true), (b"", true), (b"body", false)] {
        let frame = Frame { bytes: bytes.to_vec(), more };
        match app.forward_messages(ForwardEvent::Received(frame)) {
            ForwardAction::Send { to, frame } => {
                assert_eq!(to, Side::Dispatcher);
                assert_eq!((frame.bytes.as_slice(), frame.more), (bytes, more));
            }
            _ => panic!("not forwarded"),
        }
        let action = app.forward_messages(ForwardEvent::Sent);
        assert!(matches!(action, ForwardAction::Receive(Side::Router)));
    }
    let action = app.forward_messages(ForwardEvent::NotReceived(SocketError::Again));
    assert!(matches!(action, ForwardAction::Receive(Side::Dispatcher)));
    let frame = Frame { bytes: vec![1], more: false };
    match app.forward_messages(ForwardEvent::Received(frame)) {
        ForwardAction::Send { to, frame } => {
            assert_eq!(to, Side::Router);
            assert_eq!((frame.bytes, frame.more), (vec![1], false));
        }
        _ => panic!("not forwarded"),
    }
    let action = app.forward_messages(ForwardEvent::Sent);
    assert!(matches!(action, ForwardAction::Receive(Side::Dispatcher)));
    let action = app.forward_messages(ForwardEvent::NotReceived(SocketError::Again));
    assert!(matches!(action, ForwardAction::Done));
}

#[test]
fn failures_of_a_socket_are_handed_up() {
    let mut app = service();
    app.forward_messages(ForwardEvent::Begin);
    let action = app.forward_messages(ForwardEvent::NotReceived(SocketError::Other(88)));
    assert!(matches!(action, ForwardAction::Fail(Error::Zmq(SocketError::Other(88)))));
    let action = app.forward_messages(ForwardEvent::NotSent(SocketError::Again));
    assert!(matches!(action, ForwardAction::Fail(Error::Zmq(SocketError::Again))));
}

#[test]
fn a_turn_follows_from_what_waiting_came_to() {
    assert!(matches!(Application::run(RecvResult::OnMessage(2)), Turn::Forward));
    assert!(matches!(Application::run(RecvResult::Shutdown), Turn::Stop));
    match Application::run(RecvResult::Timeout) {
        Turn::Send(frames) => assert_eq!(listed(&frames), vec![(b"HB".to_vec(), false)]),
        _ => panic!("no sign of life"),
    }
}

#[test]
fn waiting_ends_with_messages_or_without() {
    assert_eq!(Application::wait_recv(Ok(2)), RecvResult::OnMessage(2));
    assert_eq!(Application::wait_recv(Ok(0)), RecvResult::Timeout);
    assert_eq!(Application::wait_recv(Err(SocketError::Again)), RecvResult::Timeout);
    assert_eq!(Application::wait_recv(Err(SocketError::Interrupted)), RecvResult::Shutdown);
    assert_eq!(Application::wait_recv(Err(SocketError::Terminated)), RecvResult::Shutdown);
}

#[test]
fn a_worker_hands_on_a_request() {
    let mut worker = Worker::new();
    assert!(!worker.request.is_read());
    let body = reply_bytes("SessionGet", b"\x08\x05");
    assert_eq!(work(&mut worker, &[b"c", b"g", b"", &body]), WorkerAction::Dispatch);
    assert!(worker.request.is_read());
    assert_eq!(worker.request.message_id(), "SessionGet");
    assert_eq!(worker.request.body(), b"\x08\x05".to_vec());
    let fields = worker.request.parse_msg().unwrap();
    assert_eq!((fields[0].number, fields[0].varint.clone()), (1, vec![5]));
    assert_eq!(worker.worker_run(WorkerEvent::Resume), WorkerAction::Receive);
    let body = reply_bytes("SessionGet", b"\xff");
    assert_eq!(work(&mut worker, &[b"", &body]), WorkerAction::Dispatch);
    assert!(matches!(worker.request.parse_msg(), Err(Error::Protobuf)));
}

#[test]
fn a_worker_passes_over_what_it_cannot_read() {
    let mut worker = Worker::new();
    assert_eq!(work(&mut worker, &[b"c", b"", b"\xff"]), WorkerAction::Receive);
    let body = reply_bytes("Next", b"");
    assert_eq!(work(&mut worker, &[b"d", b"", &body]), WorkerAction::Dispatch);
    let frames = worker.request.reply_complete("Ok", vec![]);
    assert_eq!(frames[0].bytes, b"d".to_vec());
    assert_eq!(frames.len(), 4);
    let mut other = Worker::new();
    assert_eq!(other.on_message(Err(Error::Protobuf)), WorkerAction::Receive);
}

#[test]
fn a_worker_takes_eight_hops_and_stops_at_nine() {
    let hops: [&[u8]; 8] = [b"1", b"2", b"3", b"4", b"5", b"6", b"7", b"8"];
    let body = reply_bytes("A", b"");
    let mut worker = Worker::new();
    assert_eq!(work(&mut worker, &hops), WorkerAction::Receive);
    assert_eq!(work(&mut worker, &[b"", &body]), WorkerAction::Dispatch);
    let mut worker = Worker::new();
    assert_eq!(work(&mut worker, &hops), WorkerAction::Receive);
    assert_eq!(work(&mut worker, &[b"9"]), WorkerAction::Stop);
}

#[test]
fn a_request_holds_so_many_hops() {
    let mut request = Request::new();
    for i in 0..8 {
        assert_eq!(request.add_hop(vec![i]), Ok(()));
    }
    assert_eq!(request.add_hop(vec![8]), Err(Error::MaxHops));
}

#[test]
fn the_header_goes_before_the_first_reply_only() {
    let mut request = Request::new();
    request.add_hop(b"c".to_vec()).unwrap();
    let first = request.reply("Part", vec![1]);
    let one = reply_bytes("Part", &[1]);
    let two = reply_bytes("End", &[2]);
    assert_eq!(
        listed(&first),
        vec![
            (b"c".to_vec(), true),
            (b"".to_vec(), true),
            (b"RP".to_vec(), true),
            (one, true),
        ]
    );
    request.confirm(2);
    assert_eq!(request.reply("Part", vec![1]).len(), 4);
    request.confirm(3);
    assert_eq!(listed(&request.reply_complete("End", vec![2])), vec![(two, false)]);
}

#[test]
fn a_reply_comes_back_to_the_sender() {
    let mut server = Server::new(Config { addr: String::from("tcp://*:1") });
    let registration = Registration {
        protocol: Protocol::SessionSrv,
        endpoint: String::from("srv"),
        shards: vec![3],
    };
    server.register(registration, 0);
    let info = RouteInfo::new(Some(Protocol::SessionSrv), Some(3));
    let body = Msg::new("Get", vec![7], Some(info)).write_to_bytes();
    let mut action = server.step(Event::Resume, 0);
    for part in [&b"client"[..], b"gateway", b"", b"RQ", &body] {
        assert!(matches!(action, Action::Receive));
        action = server.step(Event::Frame(part.to_vec()), 0);
    }
    let routed = match action {
        Action::Send { frames, .. } => frames,
        _ => panic!("not routed"),
    };
    server.step(Event::Sent, 0);
    assert_eq!(routed[0].bytes, b"srv".to_vec());
    let mut worker = Worker::new();
    let arrived: Vec<&[u8]> = routed[1..].iter().map(|f| f.bytes.as_slice()).collect();
    assert_eq!(work(&mut worker, &arrived), WorkerAction::Dispatch);
    assert_eq!(worker.request.message_id(), "Get");
    let replied = worker.request.reply_complete("Got", vec![8]);
    let mut action = server.step(Event::Resume, 0);
    let mut back = vec![b"srv".to_vec()];
    back.extend(replied.into_iter().map(|f| f.bytes));
    for part in back {
        assert!(matches!(action, Action::Receive));
        action = server.step(Event::Frame(part), 0);
    }
    match action {
        Action::Send { frames, .. } => assert_eq!(
            listed(&frames),
            vec![
                (b"client".to_vec(), true),
                (b"gateway".to_vec(), true),
                (b"".to_vec(), true),
                (reply_bytes("Got", &[8]), false),
            ]
        ),
        _ => panic!("no reply"),
    }
}

#[test]
fn a_pool_starts_its_workers_and_watches_them() {
    let mut pool: DispatcherPool<char> = DispatcherPool::new(2);
    assert_eq!(pool.task(), Task::Spawn(0));
    pool.run(PoolEvent::Spawned(Some('a')));
    assert_eq!(pool.task(), Task::Spawn(1));
    pool.run(PoolEvent::Spawned(Some('b')));
    assert_eq!(pool.workers, vec!['a', 'b']);
    assert_eq!(pool.task(), Task::Check(0));
    pool.run(PoolEvent::Heard(Signal::Empty));
    assert_eq!(pool.task(), Task::Check(1));
    pool.run(PoolEvent::Heard(Signal::Message));
    assert_eq!(pool.task(), Task::Sleep);
    pool.run(PoolEvent::Rested);
    assert_eq!(pool.task(), Task::Check(0));
}

#[test]
fn a_pool_starts_a_stopped_worker_again() {
    let mut pool: DispatcherPool<char> = DispatcherPool::new(1);
    pool.run(PoolEvent::Spawned(Some('a')));
    pool.run(PoolEvent::Heard(Signal::Disconnected));
    assert_eq!(pool.task(), Task::Spawn(0));
    pool.run(PoolEvent::Spawned(Some('b')));
    assert_eq!(pool.workers, vec!['b', 'a']);
    assert_eq!(pool.task(), Task::Sleep);
    pool.run(PoolEvent::Rested);
    pool.run(PoolEvent::Heard(Signal::Disconnected));
    assert!(pool.answered_by(&PoolEvent::Spawned(None)));
    pool.run(PoolEvent::Spawned(None));
    assert_eq!(pool.workers, vec!['a']);
}

#[test]
fn a_worker_that_never_started_has_no_place_to_leave() {
    let pool: DispatcherPool<char> = DispatcherPool::new(1);
    assert!(!pool.answered_by(&PoolEvent::Spawned(None)));
    assert!(pool.answered_by(&PoolEvent::Spawned(Some('a'))));
    assert!(!pool.answered_by(&PoolEvent::Rested));
    let empty: DispatcherPool<char> = DispatcherPool::new(0);
    assert_eq!(empty.task(), Task::Sleep);
    assert!(empty.answered_by(&PoolEvent::Rested));
}
