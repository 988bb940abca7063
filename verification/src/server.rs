//! The router: it sends each request on to the server of its shard, and each reply back by the hops
//! of its request.

use rand::Rng;
use vstd::prelude::*;
use vstd::slice::slice_to_vec;
use vstd::utf8::*;

use crate::bytes::{into_text, same_bytes, same_text, text_bytes, text_of};
use crate::envelope::{hop_parts, Envelope, MAX_HOPS};
use crate::error::{Error, SocketError};
use crate::frame::{
    beginning, finish, frame_views, last_part, lead, multipart, part, reply_mark, request_mark,
    Frame, FrameView,
};
use crate::message::{msg_of, Msg, MsgView, Protocol, RouteInfoView, NO_SHARD};
use crate::registry::{
    added, conflicts, dropped, renewed, Registry, ServerMap, ServerRegView, ShardId,
};
use crate::routesrv::{
    connect_ok, connect_ok_view, disconnect_of, net_error, net_error_view, parse_connect,
    parse_disconnect, registration_of, Registration, RegistrationView,
};
use crate::wire::{fields_of, wire_bytes};

verus! {

/// The number of shards over which the requests of a protocol are spread.
pub const SHARD_COUNT: u32 = 128;

/// Where the router listens.
pub struct Config {
    pub addr: String,
}

/// What the router expects next on its socket.
#[derive(Clone, Copy, PartialEq, Eq, Structural, Debug)]
pub enum SocketState {
    Ready,
    Hops,
    Control,
    Routing,
    Forwarding,
    Cleaning,
}

impl Default for SocketState {
    fn default() -> (r: SocketState)
        ensures
            r == SocketState::Ready,
    {
        SocketState::Ready
    }
}

/// What waiting for a message came to.
#[derive(Clone, Copy, PartialEq, Eq, Structural, Debug)]
pub enum RecvResult {
    Continue(u32),
    Shutdown,
}

/// What has happened since the router asked for an action.
pub enum Event {
    /// A message is waiting, or the last action needs no answer.
    Resume,
    /// A part of a message was received.
    Frame(Vec<u8>),
    /// The parts were sent.
    Sent,
}

/// The mathematical reading of an [`Event`].
pub enum EventView {
    Resume,
    Frame(Seq<u8>),
    Sent,
}

impl View for Event {
    type V = EventView;

    open spec fn view(&self) -> EventView {
        match *self {
            Event::Resume => EventView::Resume,
            Event::Frame(bytes) => EventView::Frame(bytes@),
            Event::Sent => EventView::Sent,
        }
    }
}

/// What a failure to send calls for.
#[derive(Clone, Copy, PartialEq, Eq, Structural, Debug)]
pub enum OnFailure {
    /// The failure is handed up: the router stops with it.
    Fail,
    /// The router aborts.
    Abort,
}

/// What the router is to do next.
pub enum Action {
    /// Receive a part of a message.
    Receive,
    /// Send parts of a message.
    Send { frames: Vec<Frame>, on_failure: OnFailure },
    /// Abort: a message to the router itself cannot be read.
    Abort,
    /// Wait for another message: this one is done with.
    Done,
}

/// The mathematical reading of an [`Action`].
pub enum ActionView {
    Receive,
    Send { frames: Seq<FrameView>, on_failure: OnFailure },
    Abort,
    Done,
}

impl View for Action {
    type V = ActionView;

    open spec fn view(&self) -> ActionView {
        match *self {
            Action::Receive => ActionView::Receive,
            Action::Send { frames, on_failure } => ActionView::Send {
                frames: frame_views(frames@),
                on_failure,
            },
            Action::Abort => ActionView::Abort,
            Action::Done => ActionView::Done,
        }
    }
}

/// Identities of sockets, which are never empty.
pub open spec fn identities(hops: Seq<Seq<u8>>) -> bool {
    forall|i: int| 0 <= i < hops.len() ==> (#[trigger] hops[i]).len() > 0
}

/// What the router knows: the registered servers, what it expects on its socket, and what it has of
/// the message that it is receiving.
#[verifier::ext_equal]
pub struct ServerView {
    pub servers: Registry,
    pub state: SocketState,
    pub hops: Seq<Seq<u8>>,
    pub msg: MsgView,
}

impl ServerView {
    /// The router when it has received nothing of a message.
    pub open spec fn fresh(servers: Registry) -> ServerView {
        ServerView {
            servers,
            state: SocketState::Ready,
            hops: Seq::empty(),
            msg: MsgView::blank(),
        }
    }

    /// What holds from one part of a message to the next, but that the last hop which was received
    /// may be one too many.
    pub open spec fn sound(self) -> bool {
        &&& self.state != SocketState::Cleaning
        &&& self.state == SocketState::Ready <==> self.hops.len() == 0
        &&& self.hops.len() <= MAX_HOPS
        &&& self.hops.len() == MAX_HOPS ==> self.state == SocketState::Hops
        &&& identities(self.hops)
        &&& self.state == SocketState::Ready ==> self.msg == MsgView::blank()
        &&& self.msg.wf()
        &&& self.msg.fits()
    }

    /// The router is ready exactly when it has no hop, and nothing is kept then. It never has as
    /// many hops as a message may have, and none of them is empty. A message that it has can be
    /// written as it was read.
    pub open spec fn wf(self) -> bool {
        self.sound() && self.hops.len() < MAX_HOPS
    }

    /// Whether a part of a message can be taken in.
    pub open spec fn expects_frame(self) -> bool {
        match self.state {
            SocketState::Ready | SocketState::Hops => self.hops.len() < MAX_HOPS,
            SocketState::Control | SocketState::Routing | SocketState::Forwarding => true,
            SocketState::Cleaning => false,
        }
    }

    /// The message is done with, and the next one can come.
    pub open spec fn cleaned(self) -> ServerView {
        ServerView::fresh(self.servers)
    }
}

/// The end of a message.
pub open spec fn over(s: ServerView) -> (ServerView, ActionView) {
    (s.cleaned(), ActionView::Done)
}

/// Asks for the next part, unless the message has come by too many hops or is done with.
pub open spec fn proceed(s: ServerView) -> (ServerView, ActionView) {
    if s.expects_frame() {
        (s, ActionView::Receive)
    } else {
        over(s)
    }
}

/// The shard of a message: by its hash where it has one, and else by chance.
pub open spec fn shard_of(info: RouteInfoView, draw: u64) -> ShardId {
    let hash = match info.hash {
        Some(hash) => hash,
        None => draw,
    };
    (hash % (SHARD_COUNT as u64)) as u32
}

/// The protocol and the shard of a message.
pub open spec fn route_key(msg: MsgView, draw: u64) -> (Protocol, ShardId) {
    (msg.get_route_info().get_protocol(), shard_of(msg.get_route_info(), draw))
}

/// The parts by which a request goes to the server of its shard; where there is none, those by
/// which the error goes back to the sender.
pub open spec fn route_frames(s: ServerView, draw: u64) -> Seq<FrameView> {
    let key = route_key(s.msg, draw);
    let empty = Seq::<u8>::empty();
    if s.servers.contains_key(key) {
        multipart(
            seq![encode_utf8(s.servers[key].endpoint)] + s.hops + seq![
                empty,
                wire_bytes(s.msg.fields()),
            ],
        )
    } else {
        multipart(
            s.hops + seq![
                empty,
                wire_bytes(net_error_view(NO_SHARD, "rt:route:1"@).fields()),
            ],
        )
    }
}

/// What a message to the router itself does, and what it calls for: a connection is confirmed, a
/// disconnected server loses its registrations, and anything else is passed over.
pub open spec fn handled(s: ServerView) -> (ServerView, Option<ActionView>) {
    let body = s.msg.get_body();
    if s.msg.get_message_id() == "Connect"@ {
        if fields_of(body, 0) is Some {
            (
                s,
                Some(
                    ActionView::Send {
                        frames: multipart(seq![wire_bytes(connect_ok_view().fields())]),
                        on_failure: OnFailure::Abort,
                    },
                ),
            )
        } else {
            (s, Some(ActionView::Abort))
        }
    } else if s.msg.get_message_id() == "Disconnect"@ {
        match disconnect_of(body) {
            Some(endpoint) => (
                ServerView {
                    servers: dropped(
                        s.servers,
                        s.msg.get_route_info().get_protocol(),
                        endpoint,
                    ),
                    ..s
                },
                None,
            ),
            None => (s, Some(ActionView::Abort)),
        }
    } else {
        (s, None)
    }
}

/// What becomes of a request, read or unreadable.
pub open spec fn requested(s: ServerView, read: Option<MsgView>, draw: u64) -> (
    ServerView,
    ActionView,
) {
    match read {
        Some(msg) => {
            let t = ServerView { msg, ..s };
            if msg.route_info is None {
                over(t)
            } else if msg.get_route_info().get_protocol() == Protocol::RouteSrv {
                match handled(t) {
                    (u, Some(action)) => (u, action),
                    (u, None) => over(u),
                }
            } else {
                (
                    t,
                    ActionView::Send {
                        frames: route_frames(t, draw),
                        on_failure: OnFailure::Fail,
                    },
                )
            }
        },
        None => over(s),
    }
}

/// What becomes of a part of a message.
pub open spec fn received(s: ServerView, bytes: Seq<u8>, draw: u64) -> (ServerView, ActionView) {
    match s.state {
        SocketState::Ready => if s.hops.len() == 0 && bytes.len() == 0 {
            over(s)
        } else {
            proceed(ServerView { state: SocketState::Hops, hops: s.hops.push(bytes), ..s })
        },
        SocketState::Hops => if bytes.len() == 0 {
            proceed(ServerView { state: SocketState::Control, ..s })
        } else {
            proceed(ServerView { hops: s.hops.push(bytes), ..s })
        },
        SocketState::Control => if bytes == reply_mark() {
            proceed(ServerView { state: SocketState::Forwarding, ..s })
        } else if bytes == request_mark() {
            proceed(ServerView { state: SocketState::Routing, ..s })
        } else {
            over(s)
        },
        SocketState::Forwarding => (
            s,
            ActionView::Send {
                frames: multipart(s.hops.skip(1) + seq![Seq::<u8>::empty(), bytes]),
                on_failure: OnFailure::Abort,
            },
        ),
        SocketState::Routing => if bytes.len() == 0 {
            over(s)
        } else {
            requested(s, msg_of(bytes), draw)
        },
        SocketState::Cleaning => over(s),
    }
}

/// One step of the router.
pub open spec fn frontend_step(s: ServerView, event: EventView, draw: u64) -> (
    ServerView,
    ActionView,
) {
    match event {
        EventView::Resume => proceed(s),
        EventView::Frame(bytes) => received(s, bytes, draw),
        EventView::Sent => over(s),
    }
}

/// A number by chance: calls `rand::Rng::gen` on `rand::thread_rng()`. Nothing is said of the
/// number.
#[verifier::external_body]
fn random_u64() -> u64 {
    rand::thread_rng().gen::<u64>()
}

/// The router.
pub struct Server {
    config: Config,
    servers: ServerMap,
    state: SocketState,
    envelope: Envelope,
}

impl View for Server {
    type V = ServerView;

    closed spec fn view(&self) -> ServerView {
        ServerView {
            servers: self.servers@,
            state: self.state,
            hops: self.envelope@.hops,
            msg: self.envelope@.msg,
        }
    }
}

impl Server {
    /// Where the router listens.
    pub closed spec fn listens_on(self) -> Seq<char> {
        self.config.addr@
    }

    pub fn new(config: Config) -> (r: Server)
        ensures
            r@ == ServerView::fresh(Map::empty()),
            r@.wf(),
            r.listens_on() == config.addr@,
    {
        Server {
            config,
            servers: ServerMap::new(),
            state: SocketState::default(),
            envelope: Envelope::new(),
        }
    }

    /// Where the router listens.
    pub fn addr(&self) -> (r: &str)
        ensures
            r@ == self.listens_on(),
    {
        self.config.addr.as_str()
    }

    fn reset(&mut self)
        ensures
            final(self)@ == (ServerView {
                hops: Seq::empty(),
                msg: MsgView::blank(),
                ..old(self)@
            }),
            final(self).listens_on() == old(self).listens_on(),
            final(self)@.msg.wf(),
            final(self)@.msg.fits(),
    {
        self.envelope.reset();
    }

    fn clean(&mut self) -> (r: Action)
        ensures
            (final(self)@, r@) == over(old(self)@),
            final(self).listens_on() == old(self).listens_on(),
            final(self)@.wf(),
    {
        self.state = SocketState::Cleaning;
        self.reset();
        self.state = SocketState::Ready;
        Action::Done
    }

    /// Whether the router can take in a part of a message.
    pub fn expects_frame(&self) -> (r: bool)
        ensures
            r == self@.expects_frame(),
    {
        match self.state {
            SocketState::Ready | SocketState::Hops => !self.envelope.max_hops(),
            SocketState::Control | SocketState::Routing | SocketState::Forwarding => true,
            SocketState::Cleaning => false,
        }
    }

    fn advance(&mut self) -> (r: Action)
        requires
            old(self)@.sound(),
        ensures
            (final(self)@, r@) == proceed(old(self)@),
            final(self).listens_on() == old(self).listens_on(),
            final(self)@.wf(),
    {
        if self.expects_frame() {
            Action::Receive
        } else {
            self.clean()
        }
    }

    /// The shard of the message: by its hash where it has one, and else by a number drawn by
    /// chance.
    pub fn select_shard(&self, draw: u64) -> (r: ShardId)
        ensures
            r == shard_of(self@.msg.get_route_info(), draw),
            r < SHARD_COUNT,
    {
        let hash = match &self.envelope.msg.route_info {
            Some(info) => match info.hash {
                Some(hash) => hash,
                None => draw,
            },
            None => draw,
        };
        (hash % (SHARD_COUNT as u64)) as u32
    }

    /// The parts by which the request goes to the server of its shard; where there is none, those
    /// by which the error goes back to the sender.
    pub fn route_message(&self, draw: u64) -> (r: Vec<Frame>)
        requires
            self@.wf(),
        ensures
            frame_views(r@) == route_frames(self@, draw),
            self@.servers.contains_key(route_key(self@.msg, draw)) ==> msg_of(r@.last().bytes@)
                == Some(self@.msg),
    {
        let shard = self.select_shard(draw);
        let protocol = self.envelope.protocol();
        let ghost hops = self@.hops;
        assert(hops.skip(0) =~= hops);
        match self.servers.get(&protocol, &shard) {
            Some(server) => {
                let endpoint = text_bytes(server.endpoint.as_str());
                let ghost start = seq![endpoint@] + hops;
                let begun = lead(endpoint, hop_parts(&self.envelope.hops, 0), Ghost(hops));
                finish(begun, self.envelope.msg.write_to_bytes(), Ghost(start))
            },
            None => {
                let err = net_error(NO_SHARD, "rt:route:1");
                let bytes = err.write_to_bytes();
                finish(hop_parts(&self.envelope.hops, 0), bytes, Ghost(hops))
            },
        }
    }

    /// A message to the router itself: what it calls for, if anything.
    fn handle_message(&mut self) -> (r: Option<Action>)
        requires
            old(self)@.wf(),
        ensures
            (
                final(self)@,
                match r {
                    Some(action) => Some(action@),
                    None => None,
                },
            ) == handled(old(self)@),
            final(self).listens_on() == old(self).listens_on(),
            final(self)@.wf(),
    {
        let body = self.envelope.msg.get_body();
        if same_text(self.envelope.message_id(), "Connect") {
            match parse_connect(body.as_slice()) {
                Ok(_) => {
                    let rep = connect_ok();
                    let mut frames: Vec<Frame> = Vec::new();
                    frames.push(last_part(rep.write_to_bytes()));
                    assert(frame_views(frames@) =~= multipart(
                        seq![wire_bytes(connect_ok_view().fields())],
                    ));
                    Some(Action::Send { frames, on_failure: OnFailure::Abort })
                },
                Err(_) => Some(Action::Abort),
            }
        } else if same_text(self.envelope.message_id(), "Disconnect") {
            match parse_disconnect(body.as_slice()) {
                Ok(endpoint) => {
                    let protocol = self.envelope.protocol();
                    self.servers.drop(&protocol, endpoint.as_str());
                    None
                },
                Err(_) => Some(Action::Abort),
            }
        } else {
            None
        }
    }

    /// A request, as it was read, or that it could not be read; and a number by chance.
    pub fn process_request(&mut self, read: Result<Msg, Error>, draw: u64) -> (r: Action)
        requires
            old(self)@.wf(),
            old(self)@.state == SocketState::Routing,
            read is Ok ==> read->Ok_0@.wf() && read->Ok_0@.fits(),
        ensures
            (final(self)@, r@) == requested(
                old(self)@,
                match read {
                    Ok(msg) => Some(msg@),
                    Err(_) => None,
                },
                draw,
            ),
            final(self).listens_on() == old(self).listens_on(),
            final(self)@.wf(),
    {
        match read {
            Ok(msg) => {
                self.envelope.msg = msg;
            },
            Err(_) => {
                return self.clean();
            },
        }
        if self.envelope.msg.route_info.is_none() {
            return self.clean();
        }
        if self.envelope.protocol() == Protocol::RouteSrv {
            match self.handle_message() {
                Some(action) => action,
                None => self.clean(),
            }
        } else {
            let frames = self.route_message(draw);
            Action::Send { frames, on_failure: OnFailure::Fail }
        }
    }

    /// A part of a message, and a number by chance.
    fn take_frame(&mut self, bytes: Vec<u8>, draw: u64) -> (r: Action)
        requires
            old(self)@.wf(),
        ensures
            (final(self)@, r@) == received(old(self)@, bytes@, draw),
            final(self).listens_on() == old(self).listens_on(),
            final(self)@.wf(),
    {
        match self.state {
            SocketState::Ready => {
                if self.envelope.hops.len() == 0 && bytes.len() == 0 {
                    return self.clean();
                }
                let _ = self.envelope.add_hop(bytes);
                self.state = SocketState::Hops;
                self.advance()
            },
            SocketState::Hops => {
                if bytes.len() == 0 {
                    self.state = SocketState::Control;
                    return self.advance();
                }
                let _ = self.envelope.add_hop(bytes);
                self.advance()
            },
            SocketState::Control => {
                let reply: [u8; 2] = [82, 80];
                let request: [u8; 2] = [82, 81];
                assert(reply@ =~= reply_mark());
                assert(request@ =~= request_mark());
                if same_bytes(bytes.as_slice(), &reply) {
                    self.state = SocketState::Forwarding;
                    self.advance()
                } else if same_bytes(bytes.as_slice(), &request) {
                    self.state = SocketState::Routing;
                    self.advance()
                } else {
                    self.clean()
                }
            },
            SocketState::Forwarding => {
                let ghost rest = self@.hops.skip(1);
                let frames = finish(hop_parts(&self.envelope.hops, 1), bytes, Ghost(rest));
                Action::Send { frames, on_failure: OnFailure::Abort }
            },
            SocketState::Routing => {
                if bytes.len() == 0 {
                    return self.clean();
                }
                let read = Msg::parse_from_bytes(bytes.as_slice());
                self.process_request(read, draw)
            },
            SocketState::Cleaning => self.clean(),
        }
    }

    /// One step of the router, given a number by chance for a request that has no hash.
    pub fn step(&mut self, event: Event, draw: u64) -> (r: Action)
        requires
            old(self)@.wf(),
        ensures
            (final(self)@, r@) == frontend_step(old(self)@, event@, draw),
            final(self).listens_on() == old(self).listens_on(),
            final(self)@.wf(),
    {
        match event {
            Event::Resume => self.advance(),
            Event::Frame(bytes) => self.take_frame(bytes, draw),
            Event::Sent => self.clean(),
        }
    }

    /// One step of the router. A request that has no hash goes to a shard by chance.
    pub fn process_frontend(&mut self, event: Event) -> (r: Action)
        requires
            old(self)@.wf(),
        ensures
            exists|draw: u64|
                (final(self)@, r@) == #[trigger] frontend_step(old(self)@, event@, draw),
            final(self).listens_on() == old(self).listens_on(),
            final(self)@.wf(),
    {
        let draw: u64 = if self.state == SocketState::Routing {
            random_u64()
        } else {
            0
        };
        self.step(event, draw)
    }
}

/// Which part of a sign of life is to come.
#[derive(Clone, Copy, PartialEq, Eq, Structural, Debug)]
pub enum Heartbeat {
    /// The command.
    Command,
    /// The registration of a server.
    Registration,
    /// The identity of a server that is still alive.
    Pulse,
}

/// What a sign of life calls for.
pub enum HeartbeatAction {
    /// Receive another part.
    Receive(Heartbeat),
    /// Send these parts; a failure to do so is handed up.
    Send(Vec<Frame>),
    /// Hand up an error.
    Fail(Error),
    /// Abort: the identity of a server is no text.
    Abort,
    /// Nothing more.
    Done,
}

/// The mathematical reading of a [`HeartbeatAction`].
pub enum HeartbeatView {
    Receive(Heartbeat),
    Send(Seq<FrameView>),
    Fail(Error),
    Abort,
    Done,
}

impl View for HeartbeatAction {
    type V = HeartbeatView;

    open spec fn view(&self) -> HeartbeatView {
        match *self {
            HeartbeatAction::Receive(next) => HeartbeatView::Receive(next),
            HeartbeatAction::Send(frames) => HeartbeatView::Send(frame_views(frames@)),
            HeartbeatAction::Fail(error) => HeartbeatView::Fail(error),
            HeartbeatAction::Abort => HeartbeatView::Abort,
            HeartbeatAction::Done => HeartbeatView::Done,
        }
    }
}

/// The answer to a registration, and the registry after it.
pub open spec fn registered(servers: Registry, registration: RegistrationView, now: u64) -> (
    Registry,
    Seq<FrameView>,
) {
    if conflicts(servers, registration.protocol, registration.endpoint, registration.shards) {
        (servers, multipart(seq![encode_utf8("REGCONFLICT"@)]))
    } else {
        (
            added(
                servers,
                registration.protocol,
                registration.shards,
                ServerRegView { endpoint: registration.endpoint, renewed_at: now },
            ),
            multipart(seq![encode_utf8("REGOK"@)]),
        )
    }
}

/// What becomes of a part of a sign of life. The command "R" announces a registration and "P" a
/// pulse; any other text is the identity of a new connection, which is asked to register.
pub open spec fn heartbeat_step(
    servers: Registry,
    expected: Heartbeat,
    bytes: Seq<u8>,
    now: u64,
) -> (Registry, HeartbeatView) {
    match expected {
        Heartbeat::Command => if bytes == seq![82u8] {
            (servers, HeartbeatView::Receive(Heartbeat::Registration))
        } else if bytes == seq![80u8] {
            (servers, HeartbeatView::Receive(Heartbeat::Pulse))
        } else if bytes.len() == 0 || text_of(bytes) is None {
            (servers, HeartbeatView::Done)
        } else {
            (
                servers,
                HeartbeatView::Send(
                    multipart(seq![bytes, Seq::<u8>::empty(), encode_utf8("REG"@)]),
                ),
            )
        },
        Heartbeat::Registration => match registration_of(bytes) {
            Some(registration) => {
                let (after, frames) = registered(servers, registration, now);
                (after, HeartbeatView::Send(frames))
            },
            None => (servers, HeartbeatView::Fail(Error::Protobuf)),
        },
        Heartbeat::Pulse => match text_of(bytes) {
            Some(endpoint) => (renewed(servers, endpoint, now), HeartbeatView::Done),
            None => (servers, HeartbeatView::Abort),
        },
    }
}

/// A message of one part, which is a text.
fn text_message(text: &str) -> (r: Vec<Frame>)
    ensures
        frame_views(r@) == multipart(seq![encode_utf8(text@)]),
{
    let mut frames: Vec<Frame> = Vec::new();
    frames.push(last_part(text_bytes(text)));
    assert(frame_views(frames@) =~= multipart(seq![encode_utf8(text@)]));
    frames
}

impl Server {
    /// Registers a server, unless one of its shards is registered to another; the answer to it.
    pub fn register(&mut self, registration: Registration, now: u64) -> (r: Vec<Frame>)
        requires
            old(self)@.wf(),
        ensures
            (final(self)@.servers, frame_views(r@)) == registered(
                old(self)@.servers,
                registration@,
                now,
            ),
            final(self)@ == (ServerView { servers: final(self)@.servers, ..old(self)@ }),
            final(self).listens_on() == old(self).listens_on(),
            final(self)@.wf(),
    {
        let Registration { protocol, endpoint, shards } = registration;
        if self.servers.add(protocol, endpoint, shards, now) {
            text_message("REGOK")
        } else {
            text_message("REGCONFLICT")
        }
    }

    /// A part of a sign of life, received at the time `now`.
    pub fn process_heartbeat(&mut self, expected: Heartbeat, bytes: Vec<u8>, now: u64) -> (r:
        HeartbeatAction)
        requires
            old(self)@.wf(),
        ensures
            (final(self)@.servers, r@) == heartbeat_step(
                old(self)@.servers,
                expected,
                bytes@,
                now,
            ),
            final(self)@ == (ServerView { servers: final(self)@.servers, ..old(self)@ }),
            final(self).listens_on() == old(self).listens_on(),
            final(self)@.wf(),
    {
        match expected {
            Heartbeat::Command => {
                let registration: [u8; 1] = [82];
                let pulse: [u8; 1] = [80];
                assert(registration@ =~= seq![82u8]);
                assert(pulse@ =~= seq![80u8]);
                if same_bytes(bytes.as_slice(), &registration) {
                    return HeartbeatAction::Receive(Heartbeat::Registration);
                }
                if same_bytes(bytes.as_slice(), &pulse) {
                    return HeartbeatAction::Receive(Heartbeat::Pulse);
                }
                if bytes.len() == 0 || into_text(slice_to_vec(bytes.as_slice())).is_none() {
                    return HeartbeatAction::Done;
                }
                let ghost ident = bytes@;
                let ghost start = seq![ident];
                let mut begun: Vec<Frame> = Vec::new();
                begun.push(part(bytes));
                proof {
                    assert(frame_views(begun@) =~= beginning(start));
                    assert(start + seq![Seq::<u8>::empty(), encode_utf8("REG"@)] =~= seq![
                        ident,
                        Seq::<u8>::empty(),
                        encode_utf8("REG"@),
                    ]);
                }
                HeartbeatAction::Send(finish(begun, text_bytes("REG"), Ghost(start)))
            },
            Heartbeat::Registration => {
                match Registration::parse_from_bytes(bytes.as_slice()) {
                    Ok(registration) => HeartbeatAction::Send(self.register(registration, now)),
                    Err(e) => HeartbeatAction::Fail(e),
                }
            },
            Heartbeat::Pulse => {
                match into_text(bytes) {
                    Some(netid) => {
                        self.servers.renew(netid.as_str(), now);
                        HeartbeatAction::Done
                    },
                    None => HeartbeatAction::Abort,
                }
            },
        }
    }

    /// What a poll of the socket came to. A poll without a time limit gives a count, unless it is
    /// interrupted or its context is terminated.
    pub fn wait_recv(polled: Result<i32, SocketError>) -> (r: RecvResult)
        requires
            match polled {
                Ok(count) => count >= 0,
                Err(e) => e == SocketError::Interrupted || e == SocketError::Terminated,
            },
        ensures
            match polled {
                Ok(count) => r == RecvResult::Continue(count as u32),
                Err(_) => r == RecvResult::Shutdown,
            },
    {
        match polled {
            Ok(count) => RecvResult::Continue(count as u32),
            Err(_) => RecvResult::Shutdown,
        }
    }
}

/// What happens to the router, and what it is to do, are read as what they are.
pub proof fn law_views_of_the_router(event: Event, action: Action, heartbeat: HeartbeatAction)
    ensures
        event is Resume <==> event@ is Resume,
        event is Sent <==> event@ is Sent,
        event matches Event::Frame(bytes) ==> event@ == EventView::Frame(bytes@),
        action is Receive <==> action@ is Receive,
        action is Abort <==> action@ is Abort,
        action is Done <==> action@ is Done,
        action matches Action::Send { frames, on_failure } ==> action@ == (ActionView::Send {
            frames: frame_views(frames@),
            on_failure,
        }),
        heartbeat matches HeartbeatAction::Receive(next) ==> heartbeat@ == HeartbeatView::Receive(
            next,
        ),
        heartbeat matches HeartbeatAction::Send(frames) ==> heartbeat@ == HeartbeatView::Send(
            frame_views(frames@),
        ),
        heartbeat matches HeartbeatAction::Fail(error) ==> heartbeat@ == HeartbeatView::Fail(error),
        heartbeat is Abort <==> heartbeat@ is Abort,
        heartbeat is Done <==> heartbeat@ is Done,
{
}

} // verus!
