//! What holds of the router and the services together.

use vstd::prelude::*;
use vstd::utf8::*;

use crate::application::dispatcher::{
    worker_step, RequestView, WorkerAction, WorkerEventView, WorkerState, WorkerView,
};
use crate::envelope::MAX_HOPS;
use crate::error::Error;
use crate::frame::{
    law_marks_are_told_apart, law_parts_come_in_order, multipart, reply_mark, request_mark,
    FrameView,
};
use crate::message::{
    law_bare_message_is_written, law_read_message_fits, law_read_message_reads_back,
    law_what_is_not_given, msg_of, MsgView, Protocol, RouteInfoView, NO_SHARD,
};
use crate::record::{records_of, wire_value, ValueView};
use crate::registry::{
    conflicts, dropped, law_conflicts_are_over_shards, law_drop_takes_away_no_more,
    law_no_shard_is_taken_over, law_registered_is_found, law_renewal_sets_the_time, Registry,
    ServerRegView, ShardId,
};
use crate::routesrv::{
    announced, connect_ok_view, disconnect_of, law_answers_are_written,
    law_registration_reads_back, net_error_view, one_by_one, registration_of, RegistrationView,
};
use crate::server::{
    frontend_step, handled, heartbeat_step, identities, received, registered, route_frames,
    route_key, shard_of, ActionView, EventView, Heartbeat, HeartbeatView, OnFailure, ServerView,
    SocketState, SHARD_COUNT,
};
use crate::wire::{law_any_message_has_fields, wire_bytes};

verus! {

/// The router once a message of these parts has come, and what it is to do then. It takes in the
/// parts in their order, for as long as it asks for them.
pub open spec fn after(s: ServerView, parts: Seq<Seq<u8>>, draw: u64) -> (ServerView, ActionView)
    decreases parts.len(),
{
    if parts.len() == 0 {
        frontend_step(s, EventView::Resume, draw)
    } else {
        let (t, action) = after(s, parts.drop_last(), draw);
        if action is Receive {
            frontend_step(t, EventView::Frame(parts.last()), draw)
        } else {
            (t, action)
        }
    }
}

/// The worker once these parts have come, and what it is to do then. It takes in the parts in
/// their order, for as long as it asks for them.
pub open spec fn worker_after(w: WorkerView, parts: Seq<Seq<u8>>) -> (WorkerView, WorkerAction)
    decreases parts.len(),
{
    if parts.len() == 0 {
        worker_step(w, WorkerEventView::Resume)
    } else {
        let (t, action) = worker_after(w, parts.drop_last());
        if action == WorkerAction::Receive {
            worker_step(t, WorkerEventView::Frame(parts.last()))
        } else {
            (t, action)
        }
    }
}

/// The router waits for a message.
pub open spec fn idle(s: ServerView) -> bool {
    s.wf() && s.state == SocketState::Ready
}

/// The parts of a message that came by these hops, with this mark and this payload.
pub open spec fn marked(hops: Seq<Seq<u8>>, mark: Seq<u8>, payload: Seq<u8>) -> Seq<Seq<u8>> {
    hops + seq![Seq::<u8>::empty(), mark, payload]
}

/// The bytes of the parts.
pub open spec fn bytes_of(frames: Seq<FrameView>) -> Seq<Seq<u8>> {
    frames.map_values(|f: FrameView| f.bytes)
}

proof fn lemma_more(s: ServerView, parts: Seq<Seq<u8>>, part: Seq<u8>, draw: u64)
    ensures
        after(s, parts.push(part), draw) == ({
            let (t, action) = after(s, parts, draw);
            if action is Receive {
                frontend_step(t, EventView::Frame(part), draw)
            } else {
                (t, action)
            }
        }),
{
    assert(parts.push(part).drop_last() =~= parts);
}

/// Once the router does not ask for another part, further ones make no difference.
proof fn lemma_rest(s: ServerView, parts: Seq<Seq<u8>>, rest: Seq<Seq<u8>>, draw: u64)
    requires
        !(after(s, parts, draw).1 is Receive),
    ensures
        after(s, parts + rest, draw) == after(s, parts, draw),
    decreases rest.len(),
{
    if rest.len() == 0 {
        assert(parts + rest =~= parts);
    } else {
        lemma_rest(s, parts, rest.drop_last(), draw);
        assert((parts + rest).drop_last() =~= parts + rest.drop_last());
    }
}

proof fn lemma_idle(s: ServerView)
    requires
        idle(s),
    ensures
        s.cleaned() == s,
{
    assert(s.cleaned() =~= s);
}

proof fn lemma_hops(s: ServerView, hops: Seq<Seq<u8>>, draw: u64)
    requires
        idle(s),
        identities(hops),
        0 < hops.len() <= MAX_HOPS,
    ensures
        hops.len() < MAX_HOPS ==> after(s, hops, draw) == (
            ServerView { state: SocketState::Hops, hops, ..s },
            ActionView::Receive,
        ),
        hops.len() == MAX_HOPS ==> after(s, hops, draw) == (s, ActionView::Done),
    decreases hops.len(),
{
    lemma_idle(s);
    let first = hops.drop_last();
    assert(hops =~= first.push(hops.last()));
    assert(identities(first)) by {
        assert forall|i: int| 0 <= i < first.len() implies (#[trigger] first[i]).len() > 0 by {
            assert(first[i] == hops[i]);
        }
    }
    assert(hops.last().len() > 0);
    if first.len() == 0 {
        assert(after(s, first, draw) == (s, ActionView::Receive));
        assert(s.hops.push(hops.last()) =~= hops);
    } else {
        lemma_hops(s, first, draw);
    }
    let got = ServerView { state: SocketState::Hops, hops, ..s };
    assert(got.cleaned() =~= s);
}

proof fn lemma_marked(
    s: ServerView,
    hops: Seq<Seq<u8>>,
    mark: Seq<u8>,
    payload: Seq<u8>,
    draw: u64,
)
    requires
        idle(s),
        identities(hops),
        0 < hops.len() < MAX_HOPS,
    ensures
        mark != request_mark() && mark != reply_mark() ==> after(
            s,
            marked(hops, mark, payload),
            draw,
        ) == (s, ActionView::Done),
        mark == reply_mark() ==> after(s, marked(hops, mark, payload), draw) == received(
            ServerView { state: SocketState::Forwarding, hops, ..s },
            payload,
            draw,
        ),
        mark == request_mark() ==> after(s, marked(hops, mark, payload), draw) == received(
            ServerView { state: SocketState::Routing, hops, ..s },
            payload,
            draw,
        ),
{
    lemma_hops(s, hops, draw);
    lemma_idle(s);
    let empty = Seq::<u8>::empty();
    let one = hops.push(empty);
    let two = one.push(mark);
    lemma_more(s, hops, empty, draw);
    lemma_more(s, one, mark, draw);
    lemma_more(s, two, payload, draw);
    assert(marked(hops, mark, payload) =~= two.push(payload));
    assert(reply_mark()[1] != request_mark()[1]);
    assert(after(s, one, draw) == (
        ServerView { state: SocketState::Control, hops, ..s },
        ActionView::Receive,
    ));
    assert(ServerView { state: SocketState::Control, hops, ..s }.cleaned() =~= s);
}

/// A request goes to the server that services its shard, with the hops by which it came and the
/// message it held, and the router is then as it was before.
pub proof fn law_request_is_routed(
    s: ServerView,
    hops: Seq<Seq<u8>>,
    body: Seq<u8>,
    msg: MsgView,
    draw: u64,
)
    requires
        idle(s),
        identities(hops),
        0 < hops.len() < MAX_HOPS,
        body.len() > 0,
        msg_of(body) == Some(msg),
        msg.route_info is Some,
        msg.get_route_info().get_protocol() != Protocol::RouteSrv,
        s.servers.contains_key(route_key(msg, draw)),
    ensures
        ({
            let (t, action) = after(s, marked(hops, request_mark(), body), draw);
            &&& action == ActionView::Send {
                frames: multipart(
                    seq![encode_utf8(s.servers[route_key(msg, draw)].endpoint)] + hops + seq![
                        Seq::<u8>::empty(),
                        wire_bytes(msg.fields()),
                    ],
                ),
                on_failure: OnFailure::Fail,
            }
            &&& frontend_step(t, EventView::Sent, draw) == (s, ActionView::Done)
        }),
{
    lemma_marked(s, hops, request_mark(), body, draw);
    lemma_idle(s);
    let (t, action) = after(s, marked(hops, request_mark(), body), draw);
    assert(t.cleaned() =~= s);
}

/// A request for a shard that no server services is answered: the error goes back by the hops by
/// which the request came, and the router is then as it was before.
pub proof fn law_unserved_request_is_answered(
    s: ServerView,
    hops: Seq<Seq<u8>>,
    body: Seq<u8>,
    msg: MsgView,
    draw: u64,
)
    requires
        idle(s),
        identities(hops),
        0 < hops.len() < MAX_HOPS,
        body.len() > 0,
        msg_of(body) == Some(msg),
        msg.route_info is Some,
        msg.get_route_info().get_protocol() != Protocol::RouteSrv,
        !s.servers.contains_key(route_key(msg, draw)),
    ensures
        ({
            let (t, action) = after(s, marked(hops, request_mark(), body), draw);
            &&& action == ActionView::Send {
                frames: multipart(
                    hops + seq![
                        Seq::<u8>::empty(),
                        wire_bytes(net_error_view(NO_SHARD, "rt:route:1"@).fields()),
                    ],
                ),
                on_failure: OnFailure::Fail,
            }
            &&& frontend_step(t, EventView::Sent, draw) == (s, ActionView::Done)
        }),
{
    lemma_marked(s, hops, request_mark(), body, draw);
    lemma_idle(s);
    let (t, action) = after(s, marked(hops, request_mark(), body), draw);
    assert(t.cleaned() =~= s);
}

/// A reply goes on by the hops that it gives after that of its sender, with its payload as it came,
/// and the router is then as it was before.
pub proof fn law_reply_is_forwarded(
    s: ServerView,
    sender: Seq<u8>,
    hops: Seq<Seq<u8>>,
    payload: Seq<u8>,
    draw: u64,
)
    requires
        idle(s),
        sender.len() > 0,
        identities(hops),
        hops.len() + 1 < MAX_HOPS,
    ensures
        ({
            let (t, action) = after(s, marked(seq![sender] + hops, reply_mark(), payload), draw);
            &&& action == ActionView::Send {
                frames: multipart(hops + seq![Seq::<u8>::empty(), payload]),
                on_failure: OnFailure::Abort,
            }
            &&& frontend_step(t, EventView::Sent, draw) == (s, ActionView::Done)
        }),
{
    let all = seq![sender] + hops;
    assert(identities(all)) by {
        assert forall|i: int| 0 <= i < all.len() implies (#[trigger] all[i]).len() > 0 by {
            if i > 0 {
                assert(all[i] == hops[i - 1]);
            }
        }
    }
    lemma_marked(s, all, reply_mark(), payload, draw);
    lemma_idle(s);
    assert(all.skip(1) =~= hops);
    let (t, action) = after(s, marked(all, reply_mark(), payload), draw);
    assert(t.cleaned() =~= s);
}

/// A message that begins with as many hops as a message may have is dropped, whatever follows:
/// nothing is sent, and the router is as it was before.
pub proof fn law_too_many_hops_are_dropped(
    s: ServerView,
    hops: Seq<Seq<u8>>,
    rest: Seq<Seq<u8>>,
    draw: u64,
)
    requires
        idle(s),
        identities(hops),
        hops.len() == MAX_HOPS,
    ensures
        after(s, hops + rest, draw) == (s, ActionView::Done),
{
    lemma_hops(s, hops, draw);
    lemma_rest(s, hops, rest, draw);
}

/// A message that does not begin with the identity of its sender is dropped, whatever follows:
/// nothing is sent, and the router is as it was before.
pub proof fn law_no_identity_is_dropped(s: ServerView, rest: Seq<Seq<u8>>, draw: u64)
    requires
        idle(s),
    ensures
        after(s, seq![Seq::<u8>::empty()] + rest, draw) == (s, ActionView::Done),
{
    lemma_idle(s);
    let none = Seq::<Seq<u8>>::empty();
    let empty = Seq::<u8>::empty();
    lemma_more(s, none, empty, draw);
    assert(none.push(empty) =~= seq![empty]);
    assert(after(s, none, draw) == (s, ActionView::Receive));
    lemma_rest(s, seq![empty], rest, draw);
}

/// A message that is marked neither as a request nor as a reply is dropped: nothing is sent, and
/// the router is as it was before.
pub proof fn law_unknown_mark_is_dropped(
    s: ServerView,
    hops: Seq<Seq<u8>>,
    mark: Seq<u8>,
    payload: Seq<u8>,
    draw: u64,
)
    requires
        idle(s),
        identities(hops),
        0 < hops.len() < MAX_HOPS,
        mark != request_mark(),
        mark != reply_mark(),
    ensures
        after(s, marked(hops, mark, payload), draw) == (s, ActionView::Done),
{
    lemma_marked(s, hops, mark, payload, draw);
}

/// A request without a body, one whose body cannot be read, and one that does not say where it is
/// to go are dropped: nothing is sent, and the router is as it was before.
pub proof fn law_unusable_request_is_dropped(
    s: ServerView,
    hops: Seq<Seq<u8>>,
    body: Seq<u8>,
    draw: u64,
)
    requires
        idle(s),
        identities(hops),
        0 < hops.len() < MAX_HOPS,
        body.len() == 0 || msg_of(body) is None || msg_of(body)->0.route_info is None,
    ensures
        after(s, marked(hops, request_mark(), body), draw) == (s, ActionView::Done),
{
    lemma_marked(s, hops, request_mark(), body, draw);
    let t = ServerView { state: SocketState::Routing, hops, ..s };
    assert(t.cleaned() =~= s);
    if msg_of(body) is Some {
        assert(ServerView { msg: msg_of(body)->0, ..t }.cleaned() =~= s);
    }
}

/// Whenever a message is done with, nothing is kept of it but what it did to the registry: the
/// router answers whatever comes next as one does that has just started with this registry.
pub proof fn law_done_is_clean(
    s: ServerView,
    event: EventView,
    draw: u64,
    parts: Seq<Seq<u8>>,
    other: u64,
)
    requires
        frontend_step(s, event, draw).1 is Done,
    ensures
        ({
            let (t, _) = frontend_step(s, event, draw);
            &&& t == ServerView::fresh(t.servers)
            &&& after(t, parts, other) == after(ServerView::fresh(t.servers), parts, other)
        }),
{
}

/// A part that was received is not lost when the next cannot be received: whether the rest of a
/// message follows at once or after the router has resumed, the outcome is the same.
pub proof fn law_resuming_loses_nothing(
    s: ServerView,
    parts: Seq<Seq<u8>>,
    rest: Seq<Seq<u8>>,
    draw: u64,
)
    requires
        after(s, parts, draw).1 is Receive,
    ensures
        after(after(s, parts, draw).0, rest, draw) == after(s, parts + rest, draw),
    decreases rest.len(),
{
    let (t, _) = after(s, parts, draw);
    if rest.len() == 0 {
        assert(parts + rest =~= parts);
        assert(t.expects_frame());
    } else {
        law_resuming_loses_nothing(s, parts, rest.drop_last(), draw);
        assert((parts + rest).drop_last() =~= parts + rest.drop_last());
    }
}

/// From one part of a message to the next the router is never cleaning up; it is ready exactly when
/// it has no hop; it has fewer hops than a message may have, none of them empty; and a message that
/// it has can be written as it was read.
pub proof fn law_every_step_is_sound(s: ServerView, event: EventView, draw: u64)
    requires
        s.wf(),
    ensures
        ({
            let t = frontend_step(s, event, draw).0;
            &&& t.wf()
            &&& t.state != SocketState::Cleaning
            &&& t.state == SocketState::Ready <==> t.hops.len() == 0
            &&& t.hops.len() < MAX_HOPS
            &&& identities(t.hops)
        }),
{
    law_fresh_is_sound(s.servers);
    law_fresh_is_sound(frontend_step(s, event, draw).0.servers);
    if let EventView::Frame(bytes) = event {
        let longer = s.hops.push(bytes);
        if bytes.len() > 0 {
            assert forall|i: int| 0 <= i < longer.len() implies (#[trigger] longer[i]).len() > 0 by {
                if i < s.hops.len() {
                    assert(longer[i] == s.hops[i]);
                }
            }
        }
        if msg_of(bytes) is Some {
            law_read_message_fits(bytes);
        }
    }
}

/// A router that has received nothing is sound, whatever is registered.
pub proof fn law_fresh_is_sound(servers: Registry)
    ensures
        ServerView::fresh(servers).wf(),
{
}

/// No message but a sign of life registers a server: whatever comes, each registration is as it was
/// or gone.
pub proof fn law_messages_register_nothing(s: ServerView, event: EventView, draw: u64)
    ensures
        frontend_step(s, event, draw).0.servers.submap_of(s.servers),
{
}

/// A registration goes only where a server has disconnected: where the registry is not as it was,
/// the message was a request to the router itself to drop the registrations of an endpoint, and
/// all others are as they were.
pub proof fn law_only_disconnecting_unregisters(s: ServerView, event: EventView, draw: u64)
    requires
        frontend_step(s, event, draw).0.servers != s.servers,
    ensures
        s.state == SocketState::Routing,
        event is Frame,
        ({
            let read = msg_of(event->Frame_0);
            &&& read is Some
            &&& read->0.get_message_id() == "Disconnect"@
            &&& read->0.get_route_info().get_protocol() == Protocol::RouteSrv
            &&& disconnect_of(read->0.get_body()) is Some
            &&& frontend_step(s, event, draw).0.servers == dropped(
                s.servers,
                Protocol::RouteSrv,
                disconnect_of(read->0.get_body())->0,
            )
        }),
{
}

/// Every shard is below the number of shards, and a hash decides it alone.
pub proof fn law_hash_decides_the_shard(info: RouteInfoView, draw: u64, other: u64)
    ensures
        shard_of(info, draw) < SHARD_COUNT,
        info.hash is Some ==> shard_of(info, draw) == shard_of(info, other),
        info.hash is Some ==> shard_of(info, draw) == info.hash->0 % (SHARD_COUNT as u64),
{
}

/// Requests of the same protocol and hash go to the same server, or are both answered with the
/// error that there is none.
pub proof fn law_same_hash_goes_to_the_same_server(
    s: ServerView,
    t: ServerView,
    draw: u64,
    other: u64,
)
    requires
        s.servers == t.servers,
        s.msg.get_route_info().get_protocol() == t.msg.get_route_info().get_protocol(),
        s.msg.get_route_info().hash is Some,
        s.msg.get_route_info().hash == t.msg.get_route_info().hash,
    ensures
        route_key(s.msg, draw) == route_key(t.msg, other),
        s.servers.contains_key(route_key(s.msg, draw)) ==> route_frames(s, draw)[0] == route_frames(
            t,
            other,
        )[0],
{
}

/// A server that has registered without conflict gets the requests of its shards.
pub proof fn law_registered_server_gets_requests(
    s: ServerView,
    registration: RegistrationView,
    now: u64,
    draw: u64,
)
    requires
        !conflicts(
            s.servers,
            registration.protocol,
            registration.endpoint,
            registration.shards,
        ),
        route_key(s.msg, draw).0 == registration.protocol,
        registration.shards.contains(route_key(s.msg, draw).1),
    ensures
        ({
            let (servers, answer) = registered(s.servers, registration, now);
            &&& answer == multipart(seq![encode_utf8("REGOK"@)])
            &&& route_frames(ServerView { servers, ..s }, draw) == multipart(
                seq![encode_utf8(registration.endpoint)] + s.hops + seq![
                    Seq::<u8>::empty(),
                    wire_bytes(s.msg.fields()),
                ],
            )
        }),
{
}

/// A registration that conflicts with another is refused and changes nothing: the requests of every
/// shard go where they went.
pub proof fn law_refused_registration_changes_nothing(
    s: ServerView,
    registration: RegistrationView,
    now: u64,
    draw: u64,
)
    requires
        conflicts(s.servers, registration.protocol, registration.endpoint, registration.shards),
    ensures
        registered(s.servers, registration, now).1 == multipart(
            seq![encode_utf8("REGCONFLICT"@)],
        ),
        route_frames(
            ServerView { servers: registered(s.servers, registration, now).0, ..s },
            draw,
        ) == route_frames(s, draw),
{
    assert(ServerView { servers: registered(s.servers, registration, now).0, ..s } == s);
}

/// No sign of life takes a shard away from the server that services it.
pub proof fn law_signs_of_life_keep_routes(
    servers: Registry,
    expected: Heartbeat,
    bytes: Seq<u8>,
    now: u64,
    key: (Protocol, ShardId),
)
    requires
        servers.contains_key(key),
    ensures
        heartbeat_step(servers, expected, bytes, now).0.contains_key(key),
        heartbeat_step(servers, expected, bytes, now).0[key].endpoint == servers[key].endpoint,
{
    if let Some(registration) = registration_of(bytes) {
        let reg = ServerRegView { endpoint: registration.endpoint, renewed_at: now };
        law_no_shard_is_taken_over(
            servers,
            registration.protocol,
            registration.shards,
            reg,
            key,
        );
    }
}

proof fn lemma_worker_more(w: WorkerView, parts: Seq<Seq<u8>>, part: Seq<u8>)
    ensures
        worker_after(w, parts.push(part)) == ({
            let (t, action) = worker_after(w, parts);
            if action == WorkerAction::Receive {
                worker_step(t, WorkerEventView::Frame(part))
            } else {
                (t, action)
            }
        }),
{
    assert(parts.push(part).drop_last() =~= parts);
}

proof fn lemma_worker_rest(w: WorkerView, parts: Seq<Seq<u8>>, rest: Seq<Seq<u8>>)
    requires
        worker_after(w, parts).1 != WorkerAction::Receive,
    ensures
        worker_after(w, parts + rest) == worker_after(w, parts),
    decreases rest.len(),
{
    if rest.len() == 0 {
        assert(parts + rest =~= parts);
    } else {
        lemma_worker_rest(w, parts, rest.drop_last());
        assert((parts + rest).drop_last() =~= parts + rest.drop_last());
    }
}

proof fn lemma_worker_hops(w: WorkerView, hops: Seq<Seq<u8>>)
    requires
        identities(hops),
        hops.len() <= MAX_HOPS,
    ensures
        worker_after(w, hops) == (
            WorkerView {
                request: RequestView { hops, ..RequestView::blank() },
                state: WorkerState::Hops,
            },
            WorkerAction::Receive,
        ),
    decreases hops.len(),
{
    if hops.len() > 0 {
        let first = hops.drop_last();
        assert(hops =~= first.push(hops.last()));
        assert forall|i: int| 0 <= i < first.len() implies (#[trigger] first[i]).len() > 0 by {
            assert(first[i] == hops[i]);
        }
        assert(hops.last().len() > 0);
        lemma_worker_hops(w, first);
        assert(first.push(hops.last()) == hops);
    } else {
        assert(hops =~= Seq::empty());
    }
}

/// A worker reads a request whole and hands it on: the hops up to the empty part, and the message
/// after it. Where the message cannot be read, the worker starts over with the next one.
pub proof fn law_worker_reads_requests(w: WorkerView, hops: Seq<Seq<u8>>, body: Seq<u8>)
    requires
        identities(hops),
        hops.len() <= MAX_HOPS,
    ensures
        worker_after(w, hops + seq![Seq::<u8>::empty(), body]) == match msg_of(body) {
            Some(msg) => (
                WorkerView {
                    request: RequestView { header_written: false, hops, msg: Some(msg) },
                    state: WorkerState::Body,
                },
                WorkerAction::Dispatch,
            ),
            None => (WorkerView::blank(), WorkerAction::Receive),
        },
{
    let empty = Seq::<u8>::empty();
    lemma_worker_hops(w, hops);
    lemma_worker_more(w, hops, empty);
    lemma_worker_more(w, hops.push(empty), body);
    assert(hops + seq![empty, body] =~= hops.push(empty).push(body));
}

/// A worker stops at a request that comes by more hops than a request may, whatever follows.
pub proof fn law_worker_stops_at_too_many_hops(
    w: WorkerView,
    hops: Seq<Seq<u8>>,
    rest: Seq<Seq<u8>>,
)
    requires
        identities(hops),
        hops.len() == MAX_HOPS + 1,
    ensures
        worker_after(w, hops + rest).1 == WorkerAction::Stop,
{
    let first = hops.drop_last();
    assert(hops =~= first.push(hops.last()));
    assert forall|i: int| 0 <= i < first.len() implies (#[trigger] first[i]).len() > 0 by {
        assert(first[i] == hops[i]);
    }
    assert(hops.last().len() > 0);
    lemma_worker_hops(w, first);
    lemma_worker_more(w, first, hops.last());
    lemma_worker_rest(w, hops, rest);
}

/// The header goes before the first reply only: once a reply was sent, the next is its message
/// alone.
pub proof fn law_header_is_sent_once(
    request: RequestView,
    message_id: Seq<char>,
    body: Seq<u8>,
    more: bool,
    next_id: Seq<char>,
    next_body: Seq<u8>,
    next_more: bool,
)
    ensures
        ({
            let sent = request.reply_frames(message_id, body, more).len() as int;
            let after = request.after_sending(sent);
            &&& after.header_written
            &&& after.reply_frames(next_id, next_body, next_more) == seq![
                FrameView {
                    bytes: wire_bytes(MsgView::of(next_id, next_body).fields()),
                    more: next_more,
                },
            ]
        }),
{
    let sent = request.reply_frames(message_id, body, more).len() as int;
    let after = request.after_sending(sent);
    assert(after.reply_frames(next_id, next_body, next_more) =~= seq![
        FrameView { bytes: wire_bytes(MsgView::of(next_id, next_body).fields()), more: next_more },
    ]);
}

/// The reply of a service comes to the sender of the request. A request that came by some hops is
/// routed to a service, whose worker, having got all parts but the identity of its own socket,
/// hands it to the service as it was sent; and the reply, before which the socket of the router
/// puts the identity of the service, is sent on by the hops of the request.
pub proof fn law_reply_comes_back(
    s: ServerView,
    hops: Seq<Seq<u8>>,
    body: Seq<u8>,
    msg: MsgView,
    draw: u64,
    w: WorkerView,
    service: Seq<u8>,
    reply_id: Seq<char>,
    reply: Seq<u8>,
    other: u64,
)
    requires
        idle(s),
        identities(hops),
        0 < hops.len(),
        hops.len() + 1 < MAX_HOPS,
        body.len() > 0,
        msg_of(body) == Some(msg),
        msg.route_info is Some,
        msg.get_route_info().get_protocol() != Protocol::RouteSrv,
        s.servers.contains_key(route_key(msg, draw)),
        service.len() > 0,
    ensures
        ({
            let (_, routed) = after(s, marked(hops, request_mark(), body), draw);
            let arrived = bytes_of(routed->frames).skip(1);
            let (got, dispatch) = worker_after(w, arrived);
            let replied = bytes_of(got.request.reply_frames(reply_id, reply, false));
            let (_, answer) = after(s, seq![service] + replied, other);
            &&& routed is Send
            &&& dispatch == WorkerAction::Dispatch
            &&& got.request.msg == Some(msg)
            &&& got.request.hops == hops
            &&& answer == ActionView::Send {
                frames: multipart(
                    hops + seq![
                        Seq::<u8>::empty(),
                        wire_bytes(MsgView::of(reply_id, reply).fields()),
                    ],
                ),
                on_failure: OnFailure::Abort,
            }
        }),
{
    let empty = Seq::<u8>::empty();
    law_request_is_routed(s, hops, body, msg, draw);
    law_read_message_reads_back(body);
    let (t, routed) = after(s, marked(hops, request_mark(), body), draw);
    let sent = wire_bytes(msg.fields());
    let arrived = bytes_of(routed->frames).skip(1);
    assert(arrived =~= hops + seq![empty, sent]);
    law_worker_reads_requests(w, hops, sent);
    let (got, dispatch) = worker_after(w, arrived);
    let payload = wire_bytes(MsgView::of(reply_id, reply).fields());
    let replied = bytes_of(got.request.reply_frames(reply_id, reply, false));
    assert(replied =~= hops + seq![empty, reply_mark()] + seq![payload]);
    assert(seq![service] + replied =~= marked(seq![service] + hops, reply_mark(), payload));
    law_reply_is_forwarded(s, service, hops, payload, other);
}

/// The router when it waits for a message, with these servers registered.
pub open spec fn waiting(servers: Registry) -> ServerView {
    ServerView {
        servers,
        state: SocketState::Ready,
        hops: Seq::empty(),
        msg: MsgView { message_id: None, body: None, route_info: None, extra: Seq::empty() },
    }
}

/// The router asks for every part of the message before it does anything about it.
pub open spec fn asks_for_all(s: ServerView, parts: Seq<Seq<u8>>, draw: u64) -> bool {
    forall|k: int| 0 <= k < parts.len() ==> (#[trigger] after(s, parts.take(k), draw)).1 is Receive
}

proof fn lemma_waiting(servers: Registry)
    ensures
        idle(waiting(servers)),
        waiting(servers) == ServerView::fresh(servers),
{
    law_fresh_is_sound(servers);
    assert(waiting(servers) =~= ServerView::fresh(servers));
}

proof fn lemma_asks_for_all(
    s: ServerView,
    hops: Seq<Seq<u8>>,
    mark: Seq<u8>,
    payload: Seq<u8>,
    draw: u64,
)
    requires
        idle(s),
        forall|i: int| 0 <= i < hops.len() ==> (#[trigger] hops[i]).len() > 0,
        0 < hops.len() < MAX_HOPS,
        mark == request_mark() || mark == reply_mark(),
    ensures
        asks_for_all(s, marked(hops, mark, payload), draw),
{
    let parts = marked(hops, mark, payload);
    let empty = Seq::<u8>::empty();
    let n = hops.len() as int;
    lemma_idle(s);
    lemma_hops(s, hops, draw);
    let one = hops.push(empty);
    let two = one.push(mark);
    lemma_more(s, hops, empty, draw);
    lemma_more(s, one, mark, draw);
    assert forall|k: int| 0 <= k < parts.len() implies (#[trigger] after(
        s,
        parts.take(k),
        draw,
    )).1 is Receive by {
        if k == 0 {
            assert(parts.take(0) =~= Seq::empty());
        } else if k <= n {
            let some = hops.take(k);
            assert(parts.take(k) =~= some);
            assert forall|i: int| 0 <= i < some.len() implies (#[trigger] some[i]).len() > 0 by {
                assert(some[i] == hops[i]);
            }
            lemma_hops(s, some, draw);
        } else if k == n + 1 {
            assert(parts.take(k) =~= one);
        } else {
            assert(parts.take(k) =~= two);
        }
    }
}

/// A request goes to the server that is registered for its protocol and its shard; and its shard is
/// the remainder of its hash by 128, or of the number drawn where it has no hash. The server gets
/// all hops in their order, an empty part and the message, which is read there as it was read here.
/// Where no server is registered for this protocol and this shard, the hops get the error that
/// there is none. Either way the router has asked for every part of the message, and is as it was
/// before once it has sent its own.
pub proof fn law_request_goes_to_its_server(
    servers: Registry,
    hops: Seq<Seq<u8>>,
    body: Seq<u8>,
    msg: MsgView,
    info: RouteInfoView,
    protocol: Protocol,
    number: u64,
    draw: u64,
)
    requires
        forall|i: int| 0 <= i < hops.len() ==> (#[trigger] hops[i]).len() > 0,
        0 < hops.len() < 8,
        body.len() > 0,
        msg_of(body) == Some(msg),
        msg.route_info == Some(info),
        info.protocol is Some ==> protocol == info.protocol->0,
        info.protocol is None ==> protocol == Protocol::Net,
        info.hash is Some ==> number == info.hash->0,
        info.hash is None ==> number == draw,
        protocol != Protocol::RouteSrv,
    ensures
        ({
            let parts = hops + seq![Seq::<u8>::empty(), seq![82u8, 81u8], body];
            let (t, action) = after(waiting(servers), parts, draw);
            let frames = action->frames;
            let key = (protocol, (number % 128) as u32);
            let n = hops.len() as int;
            &&& asks_for_all(waiting(servers), parts, draw)
            &&& action is Send
            &&& action->on_failure == OnFailure::Fail
            &&& forall|i: int| #![trigger frames[i]]
                0 <= i < frames.len() ==> frames[i].more == (i != frames.len() - 1)
            &&& servers.contains_key(key) ==> {
                &&& frames.len() == n + 3
                &&& frames[0].bytes == encode_utf8(servers[key].endpoint)
                &&& forall|i: int| #![trigger hops[i]]
                    0 <= i < n ==> frames[i + 1].bytes == hops[i]
                &&& frames[n + 1].bytes.len() == 0
                &&& msg_of(frames[n + 2].bytes) == Some(msg)
            }
            &&& !servers.contains_key(key) ==> {
                &&& frames.len() == n + 2
                &&& forall|i: int| #![trigger hops[i]] 0 <= i < n ==> frames[i].bytes == hops[i]
                &&& frames[n].bytes.len() == 0
                &&& frames[n + 1].bytes == wire_value(
                    1,
                    ValueView::Bytes(encode_utf8("NetError"@)),
                ) + wire_value(
                    2,
                    ValueView::Bytes(
                        wire_value(1, ValueView::Varint(6)) + wire_value(
                            2,
                            ValueView::Bytes(encode_utf8("rt:route:1"@)),
                        ),
                    ),
                )
            }
            &&& frontend_step(t, EventView::Sent, draw) == (waiting(servers), ActionView::Done)
        }),
{
    let s = waiting(servers);
    let empty = Seq::<u8>::empty();
    lemma_waiting(servers);
    law_marks_are_told_apart();
    assert(request_mark() =~= seq![82u8, 81u8]);
    let parts = hops + seq![empty, seq![82u8, 81u8], body];
    assert(parts == marked(hops, request_mark(), body));
    lemma_asks_for_all(s, hops, request_mark(), body, draw);
    let key = (protocol, (number % 128) as u32);
    assert(route_key(msg, draw) == key);
    let action = after(s, parts, draw).1;
    if servers.contains_key(key) {
        law_request_is_routed(s, hops, body, msg, draw);
        law_read_message_reads_back(body);
        let sent = seq![encode_utf8(servers[key].endpoint)] + hops + seq![
            empty,
            wire_bytes(msg.fields()),
        ];
        law_parts_come_in_order(sent);
        assert(action->frames == multipart(sent));
        assert(sent[0] == encode_utf8(servers[key].endpoint));
        assert forall|i: int| #![trigger hops[i]] 0 <= i < hops.len() implies action->frames[i
            + 1].bytes == hops[i] by {
            assert(sent[i + 1] == hops[i]);
        }
        assert(sent[hops.len() as int + 1] == empty);
        assert(sent[hops.len() as int + 2] == wire_bytes(msg.fields()));
        assert forall|i: int| #![trigger action->frames[i]]
            0 <= i < action->frames.len() implies action->frames[i].more == (i
            != action->frames.len() - 1) by {
            assert(sent[i] == sent[i]);
        }
    } else {
        law_unserved_request_is_answered(s, hops, body, msg, draw);
        law_answers_are_written(6, "rt:route:1"@);
        let error = net_error_view(NO_SHARD, "rt:route:1"@);
        law_bare_message_is_written("NetError"@, error.body->0);
        assert(error =~= MsgView::of("NetError"@, error.body->0));
        let sent = hops + seq![empty, wire_bytes(error.fields())];
        law_parts_come_in_order(sent);
        assert(action->frames == multipart(sent));
        assert forall|i: int| #![trigger hops[i]] 0 <= i < hops.len() implies action->frames[i].bytes
            == hops[i] by {
            assert(sent[i] == hops[i]);
        }
        assert(sent[hops.len() as int] == empty);
        assert(sent[hops.len() as int + 1] == wire_bytes(error.fields()));
        assert forall|i: int| #![trigger action->frames[i]]
            0 <= i < action->frames.len() implies action->frames[i].more == (i
            != action->frames.len() - 1) by {
            assert(sent[i] == sent[i]);
        }
    }
}

/// A reply is sent on to all of its hops but the first, which is its sender: the others in their
/// order, an empty part and the payload as it came. The router has asked for every part of it, and
/// is as it was before once it has sent its own.
pub proof fn law_reply_goes_on_by_its_hops(
    servers: Registry,
    hops: Seq<Seq<u8>>,
    payload: Seq<u8>,
    draw: u64,
)
    requires
        forall|i: int| 0 <= i < hops.len() ==> (#[trigger] hops[i]).len() > 0,
        0 < hops.len() < 8,
    ensures
        ({
            let parts = hops + seq![Seq::<u8>::empty(), seq![82u8, 80u8], payload];
            let (t, action) = after(waiting(servers), parts, draw);
            let frames = action->frames;
            let n = hops.len() as int;
            &&& asks_for_all(waiting(servers), parts, draw)
            &&& action is Send
            &&& action->on_failure == OnFailure::Abort
            &&& frames.len() == n + 1
            &&& forall|i: int| #![trigger hops[i]]
                1 <= i < n ==> frames[i - 1].bytes == hops[i] && frames[i - 1].more
            &&& frames[n - 1].bytes.len() == 0 && frames[n - 1].more
            &&& frames[n].bytes == payload && !frames[n].more
            &&& frontend_step(t, EventView::Sent, draw) == (waiting(servers), ActionView::Done)
        }),
{
    let s = waiting(servers);
    let empty = Seq::<u8>::empty();
    lemma_waiting(servers);
    law_marks_are_told_apart();
    assert(reply_mark() =~= seq![82u8, 80u8]);
    let parts = hops + seq![empty, seq![82u8, 80u8], payload];
    assert(parts == marked(hops, reply_mark(), payload));
    lemma_asks_for_all(s, hops, reply_mark(), payload, draw);
    let rest = hops.skip(1);
    assert(seq![hops[0]] + rest =~= hops);
    assert forall|i: int| 0 <= i < rest.len() implies (#[trigger] rest[i]).len() > 0 by {
        assert(rest[i] == hops[i + 1]);
    }
    law_reply_is_forwarded(s, hops[0], rest, payload, draw);
    let action = after(s, parts, draw).1;
    let sent = rest + seq![empty, payload];
    law_parts_come_in_order(sent);
    assert(action->frames == multipart(sent));
    let n = hops.len() as int;
    assert forall|i: int| #![trigger hops[i]] 1 <= i < n implies action->frames[i - 1].bytes
        == hops[i] && action->frames[i - 1].more by {
        assert(sent[i - 1] == hops[i]);
    }
    assert(sent[n - 1] == empty);
    assert(sent[n] == payload);
}

proof fn lemma_to_router(
    servers: Registry,
    hops: Seq<Seq<u8>>,
    body: Seq<u8>,
    msg: MsgView,
    draw: u64,
)
    requires
        forall|i: int| 0 <= i < hops.len() ==> (#[trigger] hops[i]).len() > 0,
        0 < hops.len() < 8,
        body.len() > 0,
        msg_of(body) == Some(msg),
        msg.route_info matches Some(info) && info.protocol == Some(Protocol::RouteSrv),
    ensures
        ({
            let parts = hops + seq![Seq::<u8>::empty(), seq![82u8, 81u8], body];
            let t = ServerView { servers, state: SocketState::Routing, hops, msg };
            &&& asks_for_all(waiting(servers), parts, draw)
            &&& after(waiting(servers), parts, draw) == match handled(t) {
                (u, Some(action)) => (u, action),
                (u, None) => (waiting(u.servers), ActionView::Done),
            }
        }),
{
    let s = waiting(servers);
    lemma_waiting(servers);
    law_marks_are_told_apart();
    assert(request_mark() =~= seq![82u8, 81u8]);
    let parts = hops + seq![Seq::<u8>::empty(), seq![82u8, 81u8], body];
    assert(parts == marked(hops, request_mark(), body));
    lemma_asks_for_all(s, hops, request_mark(), body, draw);
    lemma_marked(s, hops, request_mark(), body, draw);
    let t = ServerView { servers, state: SocketState::Routing, hops, msg };
    assert(ServerView { msg, ..ServerView { state: SocketState::Routing, hops, ..s } } =~= t);
    lemma_waiting(handled(t).0.servers);
}

/// A request of a server to connect is confirmed, with a message of one part, if it can be read; if
/// it cannot, the router aborts. The registry is as it was.
pub proof fn law_connection_is_confirmed(
    servers: Registry,
    hops: Seq<Seq<u8>>,
    body: Seq<u8>,
    msg: MsgView,
    content: Seq<u8>,
    draw: u64,
)
    requires
        forall|i: int| 0 <= i < hops.len() ==> (#[trigger] hops[i]).len() > 0,
        0 < hops.len() < 8,
        body.len() > 0,
        msg_of(body) == Some(msg),
        msg.route_info matches Some(info) && info.protocol == Some(Protocol::RouteSrv),
        msg.message_id == Some("Connect"@),
        msg.body is Some ==> content == msg.body->0,
        msg.body is None ==> content.len() == 0,
    ensures
        ({
            let parts = hops + seq![Seq::<u8>::empty(), seq![82u8, 81u8], body];
            let (t, action) = after(waiting(servers), parts, draw);
            let frames = action->frames;
            &&& asks_for_all(waiting(servers), parts, draw)
            &&& t.servers == servers
            &&& records_of(content) is None ==> action is Abort
            &&& records_of(content) is Some ==> {
                &&& action is Send
                &&& action->on_failure == OnFailure::Abort
                &&& frames.len() == 1
                &&& frames[0].bytes == wire_value(1, ValueView::Bytes(encode_utf8("ConnectOk"@)))
                    + wire_value(2, ValueView::Bytes(Seq::empty()))
                &&& !frames[0].more
                &&& frontend_step(t, EventView::Sent, draw) == (
                    waiting(servers),
                    ActionView::Done,
                )
            }
        }),
{
    lemma_to_router(servers, hops, body, msg, draw);
    lemma_waiting(servers);
    law_any_message_has_fields(content);
    assert(content =~= msg.get_body());
    law_answers_are_written(0, Seq::empty());
    law_bare_message_is_written("ConnectOk"@, Seq::empty());
    assert(connect_ok_view() =~= MsgView::of("ConnectOk"@, Seq::empty()));
    let sent = seq![wire_bytes(connect_ok_view().fields())];
    law_parts_come_in_order(sent);
    assert(sent[0] == wire_bytes(connect_ok_view().fields()));
}

/// A request of a server to disconnect takes away exactly what its endpoint has under the protocol
/// of the router, and leaves all other registrations; nothing is sent. If it cannot be read, the
/// router aborts and the registry is as it was.
pub proof fn law_disconnection_unregisters(
    servers: Registry,
    hops: Seq<Seq<u8>>,
    body: Seq<u8>,
    msg: MsgView,
    content: Seq<u8>,
    draw: u64,
    key: (Protocol, ShardId),
)
    requires
        forall|i: int| 0 <= i < hops.len() ==> (#[trigger] hops[i]).len() > 0,
        0 < hops.len() < 8,
        body.len() > 0,
        msg_of(body) == Some(msg),
        msg.route_info matches Some(info) && info.protocol == Some(Protocol::RouteSrv),
        msg.message_id == Some("Disconnect"@),
        msg.body is Some ==> content == msg.body->0,
        msg.body is None ==> content.len() == 0,
    ensures
        ({
            let parts = hops + seq![Seq::<u8>::empty(), seq![82u8, 81u8], body];
            let (t, action) = after(waiting(servers), parts, draw);
            &&& asks_for_all(waiting(servers), parts, draw)
            &&& disconnect_of(content) is None ==> action is Abort && t.servers == servers
            &&& disconnect_of(content) matches Some(endpoint) ==> {
                let gone = key.0 == Protocol::RouteSrv && servers[key].endpoint == endpoint;
                &&& action is Done
                &&& t == waiting(t.servers)
                &&& t.servers.contains_key(key) <==> servers.contains_key(key) && !gone
                &&& t.servers.contains_key(key) ==> t.servers[key] == servers[key]
            }
        }),
{
    lemma_to_router(servers, hops, body, msg, draw);
    assert(content =~= msg.get_body());
    reveal_strlit("Connect");
    reveal_strlit("Disconnect");
    assert("Connect"@.len() != "Disconnect"@.len());
    if disconnect_of(content) is Some {
        law_drop_takes_away_no_more(servers, Protocol::RouteSrv, disconnect_of(content)->0, key);
    }
}

/// Any other message to the router itself is passed over: nothing is sent, and the router is as it
/// was before.
pub proof fn law_other_messages_are_passed_over(
    servers: Registry,
    hops: Seq<Seq<u8>>,
    body: Seq<u8>,
    msg: MsgView,
    draw: u64,
)
    requires
        forall|i: int| 0 <= i < hops.len() ==> (#[trigger] hops[i]).len() > 0,
        0 < hops.len() < 8,
        body.len() > 0,
        msg_of(body) == Some(msg),
        msg.route_info matches Some(info) && info.protocol == Some(Protocol::RouteSrv),
        msg.message_id != Some("Connect"@),
        msg.message_id != Some("Disconnect"@),
    ensures
        after(
            waiting(servers),
            hops + seq![Seq::<u8>::empty(), seq![82u8, 81u8], body],
            draw,
        ) == (waiting(servers), ActionView::Done),
{
    lemma_to_router(servers, hops, body, msg, draw);
    reveal_strlit("Connect");
    reveal_strlit("Disconnect");
    assert("Connect"@.len() > 0 && "Disconnect"@.len() > 0);
    law_what_is_not_given(msg, msg.route_info->0);
}

/// Nothing comes of a message that the router cannot use, whatever follows it: one that begins with
/// an empty part, one of eight hops, one whose mark is neither that of a request nor that of a
/// reply, and a request whose body is empty, cannot be read or does not say where it is to go.
pub proof fn law_useless_messages_are_dropped(
    servers: Registry,
    hops: Seq<Seq<u8>>,
    mark: Seq<u8>,
    body: Seq<u8>,
    rest: Seq<Seq<u8>>,
    draw: u64,
)
    requires
        forall|i: int| 0 <= i < hops.len() ==> (#[trigger] hops[i]).len() > 0,
    ensures
        ({
            let s = waiting(servers);
            let empty = Seq::<u8>::empty();
            &&& after(s, seq![empty] + rest, draw) == (s, ActionView::Done)
            &&& hops.len() == 8 ==> after(s, hops + rest, draw) == (s, ActionView::Done)
            &&& 0 < hops.len() < 8 && mark != seq![82u8, 81u8] && mark != seq![82u8, 80u8]
                ==> after(s, hops + seq![empty, mark] + rest, draw) == (s, ActionView::Done)
            &&& 0 < hops.len() < 8 && (body.len() == 0 || msg_of(body) is None || msg_of(
                body,
            )->0.route_info is None) ==> after(
                s,
                hops + seq![empty, seq![82u8, 81u8], body] + rest,
                draw,
            ) == (s, ActionView::Done)
        }),
{
    let s = waiting(servers);
    let empty = Seq::<u8>::empty();
    lemma_waiting(servers);
    law_marks_are_told_apart();
    assert(request_mark() =~= seq![82u8, 81u8]);
    assert(reply_mark() =~= seq![82u8, 80u8]);
    law_no_identity_is_dropped(s, rest, draw);
    if hops.len() == 8 {
        law_too_many_hops_are_dropped(s, hops, rest, draw);
    }
    if 0 < hops.len() < 8 {
        if mark != request_mark() && mark != reply_mark() {
            let parts = hops + seq![empty, mark];
            lemma_hops(s, hops, draw);
            lemma_more(s, hops, empty, draw);
            lemma_more(s, hops.push(empty), mark, draw);
            assert(parts =~= hops.push(empty).push(mark));
            assert(ServerView { state: SocketState::Control, hops, ..s }.cleaned() =~= s);
            assert(after(s, parts, draw) == (s, ActionView::Done));
            lemma_rest(s, parts, rest, draw);
        }
        if body.len() == 0 || msg_of(body) is None || msg_of(body)->0.route_info is None {
            law_unusable_request_is_dropped(s, hops, body, draw);
            lemma_rest(s, marked(hops, request_mark(), body), rest, draw);
        }
    }
}

/// Wherever the router is in a message, it asks for the next part when it resumes, and has kept
/// what it had; and once it has sent what it had to, it waits for the next message with the same
/// registry.
pub proof fn law_resuming_and_sending(s: ServerView, draw: u64)
    requires
        s.wf(),
    ensures
        frontend_step(s, EventView::Resume, draw) == (s, ActionView::Receive),
        frontend_step(s, EventView::Sent, draw) == (waiting(s.servers), ActionView::Done),
        ServerView::fresh(s.servers) == waiting(s.servers),
{
    lemma_waiting(s.servers);
}

/// The first part of a sign of life: "R" announces a registration, "P" a pulse, any other text is
/// the identity of a new connection, which is asked to register; and what is empty or no text is
/// passed over. The registry is as it was.
pub proof fn law_commands_of_signs_of_life(servers: Registry, bytes: Seq<u8>, now: u64)
    ensures
        ({
            let (after, action) = heartbeat_step(servers, Heartbeat::Command, bytes, now);
            let letter = bytes.len() == 1 && (bytes[0] == 82 || bytes[0] == 80);
            &&& after == servers
            &&& bytes.len() == 1 && bytes[0] == 82 ==> action == HeartbeatView::Receive(
                Heartbeat::Registration,
            )
            &&& bytes.len() == 1 && bytes[0] == 80 ==> action == HeartbeatView::Receive(
                Heartbeat::Pulse,
            )
            &&& !letter && (bytes.len() == 0 || !valid_utf8(bytes)) ==> action
                == HeartbeatView::Done
            &&& !letter && bytes.len() > 0 && valid_utf8(bytes) ==> {
                &&& action is Send
                &&& action->Send_0.len() == 3
                &&& action->Send_0[0].bytes == bytes && action->Send_0[0].more
                &&& action->Send_0[1].bytes.len() == 0 && action->Send_0[1].more
                &&& action->Send_0[2].bytes == encode_utf8("REG"@) && !action->Send_0[2].more
            }
        }),
{
    if bytes.len() == 1 {
        assert(bytes =~= seq![bytes[0]]);
    }
    assert(seq![82u8][0] == 82u8 && seq![80u8][0] == 80u8);
    law_parts_come_in_order(seq![bytes, Seq::<u8>::empty(), encode_utf8("REG"@)]);
}

/// A registration is refused, and changes nothing, exactly where one of its shards is registered
/// under its protocol to another endpoint. Else it is confirmed: then each of its shards is
/// registered under its protocol to its endpoint, as of now, and everything else is as it was. One
/// that cannot be read is an error and changes nothing.
pub proof fn law_registration_is_answered(
    servers: Registry,
    bytes: Seq<u8>,
    now: u64,
    key: (Protocol, ShardId),
)
    ensures
        ({
            let (after, action) = heartbeat_step(servers, Heartbeat::Registration, bytes, now);
            match registration_of(bytes) {
                None => after == servers && action == HeartbeatView::Fail(Error::Protobuf),
                Some(r) => {
                    let clash = exists|i: int|
                        0 <= i < r.shards.len() && servers.contains_key(
                            (r.protocol, #[trigger] r.shards[i]),
                        ) && servers[(r.protocol, r.shards[i])].endpoint != r.endpoint;
                    let mine = key.0 == r.protocol && r.shards.contains(key.1);
                    &&& action is Send
                    &&& action->Send_0.len() == 1
                    &&& !action->Send_0[0].more
                    &&& clash ==> after == servers && action->Send_0[0].bytes == encode_utf8(
                        "REGCONFLICT"@,
                    )
                    &&& !clash ==> {
                        &&& action->Send_0[0].bytes == encode_utf8("REGOK"@)
                        &&& after.contains_key(key) <==> servers.contains_key(key) || mine
                        &&& mine ==> after[key].endpoint == r.endpoint && after[key].renewed_at
                            == now
                        &&& !mine && servers.contains_key(key) ==> after[key] == servers[key]
                    }
                },
            }
        }),
{
    if let Some(r) = registration_of(bytes) {
        law_conflicts_are_over_shards(servers, r.protocol, r.endpoint, r.shards);
        law_registered_is_found(
            servers,
            r.protocol,
            r.shards,
            ServerRegView { endpoint: r.endpoint, renewed_at: now },
            key,
        );
        law_parts_come_in_order(seq![encode_utf8("REGOK"@)]);
        law_parts_come_in_order(seq![encode_utf8("REGCONFLICT"@)]);
        assert(seq![encode_utf8("REGOK"@)][0] == encode_utf8("REGOK"@));
        assert(seq![encode_utf8("REGCONFLICT"@)][0] == encode_utf8("REGCONFLICT"@));
    }
}

/// A pulse sets the time of every registration of its endpoint, under whatever protocol, and
/// changes nothing else; one that is no text aborts the router.
pub proof fn law_pulse_renews(
    servers: Registry,
    bytes: Seq<u8>,
    now: u64,
    key: (Protocol, ShardId),
)
    ensures
        ({
            let (after, action) = heartbeat_step(servers, Heartbeat::Pulse, bytes, now);
            &&& !valid_utf8(bytes) ==> after == servers && action == HeartbeatView::Abort
            &&& valid_utf8(bytes) ==> {
                let endpoint = decode_utf8(bytes);
                &&& action == HeartbeatView::Done
                &&& after.contains_key(key) <==> servers.contains_key(key)
                &&& servers.contains_key(key) ==> {
                    &&& after[key].endpoint == servers[key].endpoint
                    &&& after[key].renewed_at == if servers[key].endpoint == endpoint {
                        now
                    } else {
                        servers[key].renewed_at
                    }
                }
            }
        }),
{
    law_renewal_sets_the_time(servers, decode_utf8(bytes), now, key);
}

/// A server that announces itself for some shards of a protocol, none of which is registered to
/// another, gets every request of that protocol whose hash leaves one of these shards as its
/// remainder by 128.
pub proof fn law_announced_server_gets_its_requests(
    servers: Registry,
    protocol: Protocol,
    endpoint: Seq<char>,
    shards: Seq<u32>,
    now: u64,
    hops: Seq<Seq<u8>>,
    body: Seq<u8>,
    msg: MsgView,
    info: RouteInfoView,
    hash: u64,
    draw: u64,
)
    requires
        encode_utf8(endpoint).len() <= u32::MAX,
        forall|i: int|
            0 <= i < shards.len() && servers.contains_key((protocol, #[trigger] shards[i]))
                ==> servers[(protocol, shards[i])].endpoint == endpoint,
        forall|i: int| 0 <= i < hops.len() ==> (#[trigger] hops[i]).len() > 0,
        0 < hops.len() < 8,
        body.len() > 0,
        msg_of(body) == Some(msg),
        msg.route_info == Some(info),
        info.protocol == Some(protocol),
        info.hash == Some(hash),
        protocol != Protocol::RouteSrv,
        shards.contains((hash % 128) as u32),
    ensures
        ({
            let bytes = announced(protocol, endpoint) + one_by_one(shards);
            let (known, _) = heartbeat_step(servers, Heartbeat::Registration, bytes, now);
            let parts = hops + seq![Seq::<u8>::empty(), seq![82u8, 81u8], body];
            let action = after(waiting(known), parts, draw).1;
            &&& action is Send
            &&& action->frames.len() == hops.len() + 3
            &&& action->frames[0].bytes == encode_utf8(endpoint)
        }),
{
    let bytes = announced(protocol, endpoint) + one_by_one(shards);
    let key = (protocol, (hash % 128) as u32);
    law_registration_reads_back(protocol, endpoint, shards);
    law_registration_is_answered(servers, bytes, now, key);
    let (known, _) = heartbeat_step(servers, Heartbeat::Registration, bytes, now);
    law_request_goes_to_its_server(known, hops, body, msg, info, protocol, hash, draw);
}

/// A worker, whatever it had before, asks for every part of a request: up to eight hops, an empty
/// part and the message. It then hands on the request with these hops in their order and this
/// message, and with no reply begun. A message that cannot be read is passed over: the worker asks
/// for the next request, and nothing is kept.
pub proof fn law_worker_hands_on_requests(w: WorkerView, hops: Seq<Seq<u8>>, body: Seq<u8>)
    requires
        forall|i: int| 0 <= i < hops.len() ==> (#[trigger] hops[i]).len() > 0,
        hops.len() <= 8,
    ensures
        ({
            let parts = hops + seq![Seq::<u8>::empty(), body];
            let (t, action) = worker_after(w, parts);
            &&& forall|k: int|
                0 <= k < parts.len() ==> (#[trigger] worker_after(w, parts.take(k))).1
                    == WorkerAction::Receive
            &&& !t.request.header_written
            &&& msg_of(body) is Some ==> action == WorkerAction::Dispatch && t.request.hops == hops
                && t.request.msg == msg_of(body)
            &&& msg_of(body) is None ==> action == WorkerAction::Receive && t.request.hops.len()
                == 0 && t.request.msg is None && t.state == WorkerState::Hops
        }),
{
    let empty = Seq::<u8>::empty();
    let parts = hops + seq![empty, body];
    law_worker_reads_requests(w, hops, body);
    assert forall|k: int| 0 <= k < parts.len() implies (#[trigger] worker_after(w, parts.take(k))).1
        == WorkerAction::Receive by {
        if k <= hops.len() {
            let some = hops.take(k);
            assert(parts.take(k) =~= some);
            assert forall|i: int| 0 <= i < some.len() implies (#[trigger] some[i]).len() > 0 by {
                assert(some[i] == hops[i]);
            }
            lemma_worker_hops(w, some);
        } else {
            assert(parts.take(k) =~= hops.push(empty));
            lemma_worker_hops(w, hops);
            lemma_worker_more(w, hops, empty);
        }
    }
}

/// A worker stops at the ninth hop of a request, and not before.
pub proof fn law_worker_stops_at_the_ninth_hop(w: WorkerView, hops: Seq<Seq<u8>>)
    requires
        forall|i: int| 0 <= i < hops.len() ==> (#[trigger] hops[i]).len() > 0,
        0 < hops.len() <= 9,
    ensures
        worker_after(w, hops).1 == if hops.len() == 9 {
            WorkerAction::Stop
        } else {
            WorkerAction::Receive
        },
{
    if hops.len() == 9 {
        law_worker_stops_at_too_many_hops(w, hops, Seq::empty());
        assert(hops + Seq::<Seq<u8>>::empty() =~= hops);
    } else {
        lemma_worker_hops(w, hops);
    }
}

/// The shard of a message is the remainder by 128 of its hash, or of the number drawn where it has
/// none; and its protocol is its own.
pub proof fn law_shard_is_a_remainder(msg: MsgView, info: RouteInfoView, draw: u64)
    requires
        msg.route_info == Some(info),
    ensures
        info.hash matches Some(hash) ==> shard_of(info, draw) == hash % 128,
        info.hash is None ==> shard_of(info, draw) == draw % 128,
        route_key(msg, draw).1 == shard_of(info, draw),
        info.protocol matches Some(protocol) ==> route_key(msg, draw).0 == protocol,
        info.protocol is None ==> route_key(msg, draw).0 == Protocol::Net,
{
}

} // verus!
