//! A service behind the router.

pub mod dispatcher;
pub mod pool;

use vstd::prelude::*;
use vstd::string::*;
use vstd::utf8::*;

use crate::bytes::text_bytes;
use crate::error::{Error, SocketError};
use crate::frame::{frame_views, last_part, multipart, Frame, FrameView};

verus! {

/// Apply to a struct containing worker state that will be passed as a mutable reference on each
/// call of `dispatch()` to an implementer of `Dispatcher`.
pub trait ApplicationState: Clone + Send {
    fn is_initialized(&self) -> bool;
}

/// How long a service waits for messages before it gives a sign of life, in milliseconds.
pub const WAIT_MS: i64 = 30_000;

/// What waiting for messages came to.
#[derive(Clone, Copy, PartialEq, Eq, Structural, Debug)]
pub enum RecvResult {
    OnMessage(u32),
    Shutdown,
    Timeout,
}

/// What a service is to do after waiting for messages.
pub enum Turn {
    /// Forward what has come in.
    Forward,
    /// Send these parts to the router: a sign of life.
    Send(Vec<Frame>),
    /// Stop.
    Stop,
}

/// The mathematical reading of a [`Turn`].
pub enum TurnView {
    Forward,
    Send(Seq<FrameView>),
    Stop,
}

impl View for Turn {
    type V = TurnView;

    open spec fn view(&self) -> TurnView {
        match *self {
            Turn::Forward => TurnView::Forward,
            Turn::Send(frames) => TurnView::Send(frame_views(frames@)),
            Turn::Stop => TurnView::Stop,
        }
    }
}

/// A socket of a service: the one to the router, or the one to its own workers.
#[derive(Clone, Copy, PartialEq, Eq, Structural, Debug)]
pub enum Side {
    Router,
    Dispatcher,
}

/// The socket on the other side.
pub open spec fn opposite(side: Side) -> Side {
    match side {
        Side::Router => Side::Dispatcher,
        Side::Dispatcher => Side::Router,
    }
}

/// What has happened since the service asked for an action.
pub enum ForwardEvent {
    /// Messages are waiting.
    Begin,
    /// A part of a message was received.
    Received(Frame),
    /// Nothing was received.
    NotReceived(SocketError),
    /// The part was sent.
    Sent,
    /// The part was not sent.
    NotSent(SocketError),
}

/// The mathematical reading of a [`ForwardEvent`].
pub enum ForwardEventView {
    Begin,
    Received(FrameView),
    NotReceived(SocketError),
    Sent,
    NotSent(SocketError),
}

impl View for ForwardEvent {
    type V = ForwardEventView;

    open spec fn view(&self) -> ForwardEventView {
        match *self {
            ForwardEvent::Begin => ForwardEventView::Begin,
            ForwardEvent::Received(frame) => ForwardEventView::Received(frame@),
            ForwardEvent::NotReceived(error) => ForwardEventView::NotReceived(error),
            ForwardEvent::Sent => ForwardEventView::Sent,
            ForwardEvent::NotSent(error) => ForwardEventView::NotSent(error),
        }
    }
}

/// What a service that forwards messages is to do next.
pub enum ForwardAction {
    /// Receive a part of a message, without waiting for one.
    Receive(Side),
    /// Send a part of a message.
    Send { to: Side, frame: Frame },
    /// Hand up an error.
    Fail(Error),
    /// Nothing more: both sides are empty.
    Done,
}

/// The mathematical reading of a [`ForwardAction`].
pub enum ForwardView {
    Receive(Side),
    Send { to: Side, frame: FrameView },
    Fail(Error),
    Done,
}

impl View for ForwardAction {
    type V = ForwardView;

    open spec fn view(&self) -> ForwardView {
        match *self {
            ForwardAction::Receive(side) => ForwardView::Receive(side),
            ForwardAction::Send { to, frame } => ForwardView::Send { to, frame: frame@ },
            ForwardAction::Fail(error) => ForwardView::Fail(error),
            ForwardAction::Done => ForwardView::Done,
        }
    }
}

/// One step of forwarding, in which `side` is being emptied: each part goes to the other side as
/// it came. The router's side is emptied first, then that of the workers.
pub open spec fn forward_step(side: Side, event: ForwardEventView) -> (Side, ForwardView) {
    match event {
        ForwardEventView::Begin => (Side::Router, ForwardView::Receive(Side::Router)),
        ForwardEventView::Received(frame) => (
            side,
            ForwardView::Send { to: opposite(side), frame },
        ),
        ForwardEventView::Sent => (side, ForwardView::Receive(side)),
        ForwardEventView::NotReceived(SocketError::Again) => match side {
            Side::Router => (Side::Dispatcher, ForwardView::Receive(Side::Dispatcher)),
            Side::Dispatcher => (side, ForwardView::Done),
        },
        ForwardEventView::NotReceived(error) => (side, ForwardView::Fail(Error::Zmq(error))),
        ForwardEventView::NotSent(error) => (side, ForwardView::Fail(Error::Zmq(error))),
    }
}

/// The digit of a number below ten.
pub open spec fn digit(n: nat) -> char {
    (48 + n) as char
}

/// A number in decimal notation.
pub open spec fn decimal(n: nat) -> Seq<char>
    decreases n,
{
    if n < 10 {
        seq![digit(n)]
    } else {
        decimal(n / 10).push(digit(n % 10))
    }
}

/// The name of a service on the network: the number of its process and the name of its host.
pub open spec fn ident_of(pid: u32, hostname: Seq<char>) -> Seq<char> {
    decimal(pid as nat) + "@"@ + hostname
}

/// The queue by which the workers of a service get their requests.
pub open spec fn queue_of(net_ident: Seq<char>) -> Seq<char> {
    "inproc://"@ + net_ident + ".net.dispatch"@
}

fn digit_text(n: u32) -> (r: &'static str)
    requires
        n < 10,
    ensures
        r@ == seq![digit(n as nat)],
{
    proof {
        reveal_strlit("0");
        reveal_strlit("1");
        reveal_strlit("2");
        reveal_strlit("3");
        reveal_strlit("4");
        reveal_strlit("5");
        reveal_strlit("6");
        reveal_strlit("7");
        reveal_strlit("8");
        reveal_strlit("9");
    }
    let r = match n {
        0 => "0",
        1 => "1",
        2 => "2",
        3 => "3",
        4 => "4",
        5 => "5",
        6 => "6",
        7 => "7",
        8 => "8",
        _ => "9",
    };
    assert(r@ =~= seq![digit(n as nat)]);
    r
}

fn decimal_text(n: u32) -> (r: String)
    ensures
        r@ == decimal(n as nat),
    decreases n,
{
    if n < 10 {
        String::from_str(digit_text(n))
    } else {
        let mut text = decimal_text(n / 10);
        text.append(digit_text(n % 10));
        assert(text@ =~= decimal(n as nat));
        text
    }
}

/// The name of a service on the network.
pub fn net_ident(pid: u32, hostname: &str) -> (r: String)
    ensures
        r@ == ident_of(pid, hostname@),
{
    let mut ident = decimal_text(pid);
    ident.append("@");
    ident.append(hostname);
    ident
}

/// A service behind the router.
pub struct Application {
    net_ident: String,
    dispatcher_queue: String,
    side: Side,
}

/// What a service knows: its name, its queue, and the side that it is emptying.
pub struct ApplicationView {
    pub net_ident: Seq<char>,
    pub dispatcher_queue: Seq<char>,
    pub side: Side,
}

impl View for Application {
    type V = ApplicationView;

    closed spec fn view(&self) -> ApplicationView {
        ApplicationView {
            net_ident: self.net_ident@,
            dispatcher_queue: self.dispatcher_queue@,
            side: self.side,
        }
    }
}

impl Application {
    pub fn new(pid: u32, hostname: &str) -> (r: Application)
        ensures
            r@ == (ApplicationView {
                net_ident: ident_of(pid, hostname@),
                dispatcher_queue: queue_of(ident_of(pid, hostname@)),
                side: Side::Router,
            }),
    {
        let net_ident = net_ident(pid, hostname);
        let mut dispatcher_queue = String::from_str("inproc://");
        dispatcher_queue.append(net_ident.as_str());
        dispatcher_queue.append(".net.dispatch");
        Application { net_ident, dispatcher_queue, side: Side::Router }
    }

    /// The name of the service on the network.
    pub fn ident(&self) -> (r: &str)
        ensures
            r@ == self@.net_ident,
    {
        self.net_ident.as_str()
    }

    /// The queue by which the workers get their requests.
    pub fn dispatcher_queue(&self) -> (r: &str)
        ensures
            r@ == self@.dispatcher_queue,
    {
        self.dispatcher_queue.as_str()
    }

    /// One step of forwarding.
    pub fn forward_messages(&mut self, event: ForwardEvent) -> (r: ForwardAction)
        ensures
            (final(self)@.side, r@) == forward_step(old(self)@.side, event@),
            final(self)@ == (ApplicationView { side: final(self)@.side, ..old(self)@ }),
    {
        match event {
            ForwardEvent::Begin => {
                self.side = Side::Router;
                ForwardAction::Receive(Side::Router)
            },
            ForwardEvent::Received(frame) => {
                let to = match self.side {
                    Side::Router => Side::Dispatcher,
                    Side::Dispatcher => Side::Router,
                };
                ForwardAction::Send { to, frame }
            },
            ForwardEvent::Sent => ForwardAction::Receive(self.side),
            ForwardEvent::NotReceived(SocketError::Again) => match self.side {
                Side::Router => {
                    self.side = Side::Dispatcher;
                    ForwardAction::Receive(Side::Dispatcher)
                },
                Side::Dispatcher => ForwardAction::Done,
            },
            ForwardEvent::NotReceived(error) => ForwardAction::Fail(Error::Zmq(error)),
            ForwardEvent::NotSent(error) => ForwardAction::Fail(Error::Zmq(error)),
        }
    }

    /// What a turn of the service is to do, after what waiting for messages came to.
    pub fn run(waited: RecvResult) -> (r: Turn)
        ensures
            r@ == match waited {
                RecvResult::OnMessage(_) => TurnView::Forward,
                RecvResult::Timeout => TurnView::Send(multipart(seq![encode_utf8("HB"@)])),
                RecvResult::Shutdown => TurnView::Stop,
            },
    {
        match waited {
            RecvResult::OnMessage(_) => Turn::Forward,
            RecvResult::Timeout => {
                let mut frames: Vec<Frame> = Vec::new();
                frames.push(last_part(text_bytes("HB")));
                assert(frame_views(frames@) =~= multipart(seq![encode_utf8("HB"@)]));
                Turn::Send(frames)
            },
            RecvResult::Shutdown => Turn::Stop,
        }
    }

    /// What a poll of the sockets came to. A poll gives a count, unless its time has run out, it is
    /// interrupted, or its context is terminated.
    pub fn wait_recv(polled: Result<i32, SocketError>) -> (r: RecvResult)
        requires
            match polled {
                Ok(count) => count >= 0,
                Err(e) => e == SocketError::Again || e == SocketError::Interrupted || e
                    == SocketError::Terminated,
            },
        ensures
            r == match polled {
                Ok(count) => if count == 0 {
                    RecvResult::Timeout
                } else {
                    RecvResult::OnMessage(count as u32)
                },
                Err(e) => if e == SocketError::Again {
                    RecvResult::Timeout
                } else {
                    RecvResult::Shutdown
                },
            },
    {
        match polled {
            Ok(count) => if count == 0 {
                RecvResult::Timeout
            } else {
                RecvResult::OnMessage(count as u32)
            },
            Err(SocketError::Again) => RecvResult::Timeout,
            Err(_) => RecvResult::Shutdown,
        }
    }
}

/// What is sent while a side that has these parts to give is emptied.
pub open spec fn sent_on(side: Side, frames: Seq<FrameView>) -> Seq<(Side, FrameView)>
    decreases frames.len(),
{
    if frames.len() == 0 {
        Seq::empty()
    } else {
        let (after, action) = forward_step(side, ForwardEventView::Received(frames[0]));
        let (next, _) = forward_step(after, ForwardEventView::Sent);
        match action {
            ForwardView::Send { to, frame } => seq![(to, frame)] + sent_on(next, frames.skip(1)),
            _ => Seq::empty(),
        }
    }
}

/// Forwarding changes nothing: while a side is emptied, the other side gets every part of every
/// message once, in the order in which they came, each with its bytes and with the same word on
/// whether more parts follow.
pub proof fn law_forwarding_changes_nothing(side: Side, frames: Seq<FrameView>)
    ensures
        sent_on(side, frames) == frames.map_values(|f: FrameView| (opposite(side), f)),
    decreases frames.len(),
{
    if frames.len() > 0 {
        law_forwarding_changes_nothing(side, frames.skip(1));
    }
    assert(sent_on(side, frames) =~= frames.map_values(|f: FrameView| (opposite(side), f)));
}

/// A number can be read back from its decimal notation.
proof fn lemma_decimal(a: nat, b: nat)
    requires
        decimal(a) == decimal(b),
    ensures
        a == b,
    decreases a,
{
    assert(decimal(a).last() == digit(a % 10));
    assert(decimal(b).last() == digit(b % 10));
    if a >= 10 && b >= 10 {
        assert(decimal(a).drop_last() =~= decimal(a / 10));
        assert(decimal(b).drop_last() =~= decimal(b / 10));
        lemma_decimal(a / 10, b / 10);
    } else {
        lemma_decimal_len(a);
        lemma_decimal_len(b);
    }
}

proof fn lemma_decimal_len(a: nat)
    ensures
        decimal(a).len() >= 1,
        a >= 10 ==> decimal(a).len() >= 2,
        forall|i: int| 0 <= i < decimal(a).len() ==> '0' <= #[trigger] decimal(a)[i] <= '9',
    decreases a,
{
    if a >= 10 {
        lemma_decimal_len(a / 10);
    }
}

/// Two services have the same name only if they run in the same process on the same host.
pub proof fn law_idents_differ(pid: u32, hostname: Seq<char>, other_pid: u32, other: Seq<char>)
    requires
        ident_of(pid, hostname) == ident_of(other_pid, other),
    ensures
        pid == other_pid,
        hostname == other,
{
    reveal_strlit("@");
    let a = decimal(pid as nat);
    let b = decimal(other_pid as nat);
    let s = ident_of(pid, hostname);
    lemma_decimal_len(pid as nat);
    lemma_decimal_len(other_pid as nat);
    assert(s[a.len() as int] == '@');
    assert(s[b.len() as int] == '@');
    if a.len() < b.len() {
        assert(s[a.len() as int] == b[a.len() as int]);
    }
    if b.len() < a.len() {
        assert(s[b.len() as int] == a[b.len() as int]);
    }
    assert(a =~= s.take(a.len() as int));
    assert(b =~= s.take(a.len() as int));
    assert(hostname =~= s.skip(a.len() as int + 1));
    assert(other =~= s.skip(a.len() as int + 1));
    lemma_decimal(pid as nat, other_pid as nat);
}

/// What a service is to do after each of the events, and the side that it is emptying at the end.
pub open spec fn forwarded(side: Side, events: Seq<ForwardEventView>) -> (Side, Seq<ForwardView>)
    decreases events.len(),
{
    if events.len() == 0 {
        (side, Seq::empty())
    } else {
        let (before, actions) = forwarded(side, events.drop_last());
        let (after, action) = forward_step(before, events.last());
        (after, actions.push(action))
    }
}

/// Parts are received and sent on, one after the other.
pub open spec fn passing(frames: Seq<FrameView>) -> Seq<ForwardEventView> {
    Seq::new(
        2 * frames.len(),
        |i: int|
            if i % 2 == 0 {
                ForwardEventView::Received(frames[i / 2])
            } else {
                ForwardEventView::Sent
            },
    )
}

/// The events of a turn in which the router and the workers have these parts to give.
pub open spec fn turn_events(
    from_router: Seq<FrameView>,
    from_workers: Seq<FrameView>,
) -> Seq<ForwardEventView> {
    let again = ForwardEventView::NotReceived(SocketError::Again);
    seq![ForwardEventView::Begin] + passing(from_router) + seq![again] + passing(from_workers)
        + seq![again]
}

proof fn lemma_passing(
    side: Side,
    events: Seq<ForwardEventView>,
    frames: Seq<FrameView>,
    from: Side,
    to: Side,
)
    requires
        forwarded(side, events).0 == from,
        to != from,
    ensures
        ({
            let (after, actions) = forwarded(side, events + passing(frames));
            let before = forwarded(side, events).1;
            &&& after == from
            &&& actions.len() == before.len() + 2 * frames.len()
            &&& forall|i: int| 0 <= i < before.len() ==> #[trigger] actions[i] == before[i]
            &&& forall|i: int| #![trigger frames[i]]
                0 <= i < frames.len() ==> {
                    &&& actions[before.len() + 2 * i] == ForwardView::Send { to, frame: frames[i] }
                    &&& actions[before.len() + 2 * i + 1] == ForwardView::Receive(from)
                }
        }),
    decreases frames.len(),
{
    if frames.len() == 0 {
        assert(events + passing(frames) =~= events);
    } else {
        let first = frames.drop_last();
        let frame = frames.last();
        lemma_passing(side, events, first, from, to);
        let some = events + passing(first);
        let one = some.push(ForwardEventView::Received(frame));
        let two = one.push(ForwardEventView::Sent);
        assert(one.drop_last() =~= some);
        assert(two.drop_last() =~= one);
        assert(events + passing(frames) =~= two);
        let (_, held) = forwarded(side, some);
        let there = held.push(ForwardView::Send { to, frame });
        assert(opposite(from) == to);
        assert(one.last() == ForwardEventView::Received(frame));
        assert(forwarded(side, one) == (from, there));
        assert(two.last() == ForwardEventView::Sent);
        assert(forwarded(side, two) == (from, there.push(ForwardView::Receive(from))));
        let before = forwarded(side, events).1;
        assert(frames[frames.len() - 1] == frame);
        let actions = forwarded(side, two).1;
        assert forall|i: int| #![trigger frames[i]] 0 <= i < frames.len() implies {
            &&& actions[before.len() + 2 * i] == ForwardView::Send { to, frame: frames[i] }
            &&& actions[before.len() + 2 * i + 1] == ForwardView::Receive(from)
        } by {
            if i < first.len() {
                assert(first[i] == frames[i]);
            }
        }
    }
}

proof fn lemma_actions(side: Side, events: Seq<ForwardEventView>)
    ensures
        forwarded(side, events).1.len() == events.len(),
    decreases events.len(),
{
    if events.len() > 0 {
        lemma_actions(side, events.drop_last());
    }
}

/// Every turn empties both sides, whatever side was left at the end of the turn before: every part
/// that the router has to give goes to the workers, once, in order and as it came; then every part
/// that the workers have to give goes to the router; and then the turn is over.
pub proof fn law_every_turn_empties_both_sides(
    side: Side,
    from_router: Seq<FrameView>,
    from_workers: Seq<FrameView>,
)
    ensures
        ({
            let actions = forwarded(side, turn_events(from_router, from_workers)).1;
            let n = 2 * from_router.len() as int;
            let m = 2 * from_workers.len() as int;
            &&& actions.len() == n + m + 3
            &&& actions[0] == ForwardView::Receive(Side::Router)
            &&& forall|i: int| #![trigger from_router[i]]
                0 <= i < from_router.len() ==> {
                    &&& actions[2 * i + 1] == ForwardView::Send {
                        to: Side::Dispatcher,
                        frame: from_router[i],
                    }
                    &&& actions[2 * i + 2] == ForwardView::Receive(Side::Router)
                }
            &&& actions[n + 1] == ForwardView::Receive(Side::Dispatcher)
            &&& forall|i: int| #![trigger from_workers[i]]
                0 <= i < from_workers.len() ==> {
                    &&& actions[n + 2 * i + 2] == ForwardView::Send {
                        to: Side::Router,
                        frame: from_workers[i],
                    }
                    &&& actions[n + 2 * i + 3] == ForwardView::Receive(Side::Dispatcher)
                }
            &&& actions[n + m + 2] == ForwardView::Done
        }),
{
    let again = ForwardEventView::NotReceived(SocketError::Again);
    let none = Seq::<ForwardEventView>::empty();
    let begun = seq![ForwardEventView::Begin];
    assert(begun.drop_last() =~= none);
    assert(forwarded(side, none) == (side, Seq::<ForwardView>::empty()));
    assert(forwarded(side, begun).0 == Side::Router);
    assert(forwarded(side, begun).1 =~= seq![ForwardView::Receive(Side::Router)]);
    lemma_passing(side, begun, from_router, Side::Router, Side::Dispatcher);
    let first = begun + passing(from_router);
    let turned = first + seq![again];
    assert(turned.drop_last() =~= first);
    assert(turned.last() == again);
    assert(forwarded(side, turned).0 == Side::Dispatcher);
    lemma_actions(side, first);
    lemma_passing(side, turned, from_workers, Side::Dispatcher, Side::Router);
    let second = turned + passing(from_workers);
    let whole = second + seq![again];
    assert(whole.drop_last() =~= second);
    assert(whole.last() == again);
    assert(whole =~= turn_events(from_router, from_workers));
    let n = 2 * from_router.len() as int;
    let actions = forwarded(side, whole).1;
    let firsts = forwarded(side, first).1;
    let turns = forwarded(side, turned).1;
    assert forall|i: int| #![trigger from_router[i]] 0 <= i < from_router.len() implies {
        &&& actions[2 * i + 1] == ForwardView::Send {
            to: Side::Dispatcher,
            frame: from_router[i],
        }
        &&& actions[2 * i + 2] == ForwardView::Receive(Side::Router)
    } by {
        assert(turns[2 * i + 1] == firsts[2 * i + 1]);
        assert(turns[2 * i + 2] == firsts[2 * i + 2]);
    }
    assert(turns[0] == firsts[0]);
    assert(firsts[0] == forwarded(side, begun).1[0]);
    assert(turns[n + 1] == ForwardView::Receive(Side::Dispatcher));
}

/// Whatever side is being emptied, a failure of a socket ends the turn and is handed up as it is;
/// but that there is nothing to receive is no failure.
pub proof fn law_failures_are_handed_up(side: Side, error: SocketError)
    ensures
        forward_step(side, ForwardEventView::NotSent(error)).1 == ForwardView::Fail(
            Error::Zmq(error),
        ),
        error != SocketError::Again ==> forward_step(
            side,
            ForwardEventView::NotReceived(error),
        ).1 == ForwardView::Fail(Error::Zmq(error)),
        !(forward_step(side, ForwardEventView::NotReceived(SocketError::Again)).1 is Fail),
{
}

/// Decimal notation has one digit for a number below ten, and one more digit at the end for a
/// number ten times as large and up to nine larger.
pub proof fn law_decimal_notation(n: nat, last: nat)
    requires
        last < 10,
    ensures
        decimal(last) == seq!["0123456789"@[last as int]],
        n > 0 ==> decimal(10 * n + last) == decimal(n).push("0123456789"@[last as int]),
{
    reveal_strlit("0123456789");
    assert("0123456789"@[last as int] == digit(last));
    if n > 0 {
        let m = 10 * n + last;
        assert(m / 10 == n && m % 10 == last);
    }
}

/// A service is named by the number of its process in decimal notation, an at sign and its host,
/// and the queue of its workers by that name between a prefix and a suffix.
pub proof fn law_names_of_a_service(pid: u32, hostname: Seq<char>)
    ensures
        ident_of(pid, hostname) == decimal(pid as nat) + seq!['@'] + hostname,
        queue_of(ident_of(pid, hostname)) == "inproc://"@ + (decimal(pid as nat) + seq!['@']
            + hostname) + ".net.dispatch"@,
{
    reveal_strlit("@");
    assert("@"@ =~= seq!['@']);
}

/// What happens to a service, and what it is to do, are read as what they are.
pub proof fn law_views_of_a_service(turn: Turn, event: ForwardEvent, action: ForwardAction)
    ensures
        turn is Forward <==> turn@ is Forward,
        turn is Stop <==> turn@ is Stop,
        turn matches Turn::Send(frames) ==> turn@ == TurnView::Send(frame_views(frames@)),
        event is Begin <==> event@ is Begin,
        event is Sent <==> event@ is Sent,
        event matches ForwardEvent::Received(frame) ==> event@ == ForwardEventView::Received(
            frame@,
        ),
        event matches ForwardEvent::NotReceived(e) ==> event@ == ForwardEventView::NotReceived(e),
        event matches ForwardEvent::NotSent(e) ==> event@ == ForwardEventView::NotSent(e),
        action matches ForwardAction::Receive(side) ==> action@ == ForwardView::Receive(side),
        action matches ForwardAction::Send { to, frame } ==> action@ == (ForwardView::Send {
            to,
            frame: frame@,
        }),
        action matches ForwardAction::Fail(e) ==> action@ == ForwardView::Fail(e),
        action is Done <==> action@ is Done,
{
}

} // verus!
