//! The workers of a service: each takes requests apart, hands them to the service and frames its
//! replies.

use vstd::prelude::*;
use vstd::utf8::*;

use crate::bytes::byte_strings;
use crate::envelope::{hop_parts, push_hop, MAX_HOPS};
use crate::error::Error;
use crate::frame::{
    beginning, frame_views, last_part, part, reply_mark, Frame, FrameView,
};
use crate::message::{law_bare_message_is_written, msg_of, Msg, MsgView};
use crate::record::{wire_value, ValueView};
use crate::wire::{field_possible, field_views, fields_of, lists, read_fields, wire_bytes, Field};

verus! {

/// A request that a worker has received, and whether the header of its reply was sent.
pub struct Request {
    header_written: bool,
    hops: Vec<Vec<u8>>,
    msg: Option<Msg>,
}

/// The mathematical reading of a [`Request`].
#[verifier::ext_equal]
pub struct RequestView {
    pub header_written: bool,
    pub hops: Seq<Seq<u8>>,
    pub msg: Option<MsgView>,
}

pub open spec fn msg_view(msg: Option<Msg>) -> Option<MsgView> {
    match msg {
        Some(msg) => Some(msg@),
        None => None,
    }
}

impl View for Request {
    type V = RequestView;

    closed spec fn view(&self) -> RequestView {
        RequestView {
            header_written: self.header_written,
            hops: byte_strings(self.hops@),
            msg: msg_view(self.msg),
        }
    }
}

impl RequestView {
    /// Nothing received yet.
    pub open spec fn blank() -> RequestView {
        RequestView { header_written: false, hops: Seq::empty(), msg: None }
    }

    pub open spec fn wf(self) -> bool {
        self.hops.len() <= MAX_HOPS
    }

    /// What precedes the first reply, unless it was sent: the hops of the request, an empty part,
    /// and the mark of a reply.
    pub open spec fn header(self) -> Seq<FrameView> {
        if self.header_written {
            Seq::empty()
        } else {
            beginning(self.hops + seq![Seq::<u8>::empty(), reply_mark()])
        }
    }

    /// The parts of a reply: the header unless it was sent, and the message.
    pub open spec fn reply_frames(
        self,
        message_id: Seq<char>,
        body: Seq<u8>,
        more: bool,
    ) -> Seq<FrameView> {
        self.header().push(
            FrameView { bytes: wire_bytes(MsgView::of(message_id, body).fields()), more },
        )
    }

    /// The request once `sent` parts of a reply were sent.
    pub open spec fn after_sending(self, sent: int) -> RequestView {
        RequestView {
            header_written: self.header_written || sent >= self.hops.len() + 2,
            ..self
        }
    }
}

impl Request {
    pub fn new() -> (r: Request)
        ensures
            r@ == RequestView::blank(),
            r@.wf(),
    {
        let r = Request { header_written: false, hops: Vec::new(), msg: None };
        assert(r@.hops =~= Seq::empty());
        r
    }

    /// Adds a hop, unless the request has come by as many as it may.
    pub fn add_hop(&mut self, hop: Vec<u8>) -> (r: Result<(), Error>)
        ensures
            r == if old(self)@.hops.len() >= MAX_HOPS {
                Err::<(), Error>(Error::MaxHops)
            } else {
                Ok(())
            },
            final(self)@ == if r is Ok {
                RequestView { hops: old(self)@.hops.push(hop@), ..old(self)@ }
            } else {
                old(self)@
            },
    {
        if self.max_hops() {
            return Err(Error::MaxHops);
        }
        push_hop(&mut self.hops, hop)
    }

    /// Whether the message of the request was read.
    pub fn is_read(&self) -> (r: bool)
        ensures
            r == (self@.msg is Some),
    {
        self.msg.is_some()
    }

    /// The name of the message.
    pub fn message_id(&self) -> (r: &str)
        requires
            self@.msg is Some,
        ensures
            r@ == self@.msg->0.get_message_id(),
    {
        match &self.msg {
            Some(msg) => msg.get_message_id(),
            None => "",
        }
    }

    /// The bytes of the message in the request.
    pub fn body(&self) -> (r: Vec<u8>)
        requires
            self@.msg is Some,
        ensures
            r@ == self@.msg->0.get_body(),
    {
        match &self.msg {
            Some(msg) => msg.get_body(),
            None => Vec::new(),
        }
    }

    /// The fields of the message in the request.
    pub fn parse_msg(&self) -> (r: Result<Vec<Field>, Error>)
        requires
            self@.msg is Some,
        ensures
            match r {
                Ok(fields) => {
                    &&& fields_of(self@.msg->0.get_body(), 0) is Some
                    &&& lists(field_views(fields@), fields_of(self@.msg->0.get_body(), 0)->0)
                    &&& forall|i: int|
                        0 <= i < fields@.len() ==> field_possible(#[trigger] fields@[i]@)
                },
                Err(e) => fields_of(self@.msg->0.get_body(), 0) is None && e == Error::Protobuf,
            },
    {
        let body = self.body();
        read_fields(body.as_slice(), 0)
    }

    /// The parts of a reply, given by the name and the bytes of its message, with more replies to
    /// follow.
    pub fn reply(&self, message_id: &str, body: Vec<u8>) -> (r: Vec<Frame>)
        ensures
            frame_views(r@) == self@.reply_frames(message_id@, body@, true),
            MsgView::of(message_id@, body@).fits() ==> msg_of(r@.last().bytes@) == Some(
                MsgView::of(message_id@, body@),
            ),
    {
        let mut frames = self.send_header();
        let ghost before = frames@;
        let rep = Msg::new(message_id, body, None);
        frames.push(part(rep.write_to_bytes()));
        assert(frame_views(frames@) =~= frame_views(before).push(frames@.last()@));
        frames
    }

    /// The parts of the last reply, given by the name and the bytes of its message.
    pub fn reply_complete(&self, message_id: &str, body: Vec<u8>) -> (r: Vec<Frame>)
        ensures
            frame_views(r@) == self@.reply_frames(message_id@, body@, false),
            MsgView::of(message_id@, body@).fits() ==> msg_of(r@.last().bytes@) == Some(
                MsgView::of(message_id@, body@),
            ),
    {
        let mut frames = self.send_header();
        let ghost before = frames@;
        let rep = Msg::new(message_id, body, None);
        frames.push(last_part(rep.write_to_bytes()));
        assert(frame_views(frames@) =~= frame_views(before).push(frames@.last()@));
        frames
    }

    /// Notes that `sent` parts of a reply were sent: with the header among them, none is sent
    /// again.
    pub fn confirm(&mut self, sent: usize)
        requires
            old(self)@.wf(),
        ensures
            final(self)@ == old(self)@.after_sending(sent as int),
    {
        if sent >= self.hops.len() + 2 {
            self.header_written = true;
        }
    }

    fn max_hops(&self) -> (r: bool)
        ensures
            r == (self@.hops.len() >= MAX_HOPS),
    {
        self.hops.len() >= MAX_HOPS
    }

    fn reset(&mut self)
        ensures
            final(self)@ == RequestView::blank(),
    {
        self.header_written = false;
        self.hops.clear();
        self.msg = None;
        assert(self@.hops =~= Seq::empty());
    }

    /// What precedes the first reply, unless it was sent.
    pub fn send_header(&self) -> (r: Vec<Frame>)
        ensures
            frame_views(r@) == self@.header(),
    {
        if self.header_written {
            let r: Vec<Frame> = Vec::new();
            assert(frame_views(r@) =~= Seq::empty());
            return r;
        }
        let mut frames = hop_parts(&self.hops, 0);
        let ghost hops = frames@;
        frames.push(part(Vec::new()));
        let mark: Vec<u8> = vec![82, 80];
        assert(mark@ =~= reply_mark());
        frames.push(part(mark));
        proof {
            let all = self@.hops + seq![Seq::<u8>::empty(), reply_mark()];
            assert(self@.hops.skip(0) =~= self@.hops);
            assert(frame_views(hops).len() == self@.hops.len());
            assert forall|i: int| 0 <= i < frames@.len() implies frame_views(frames@)[i]
                == beginning(all)[i] by {
                if i < hops.len() {
                    assert(frame_views(hops)[i] == beginning(self@.hops)[i]);
                }
            }
            assert(frame_views(frames@) =~= beginning(all));
        }
        frames
    }
}

/// Which part of a request a worker expects next.
#[derive(Clone, Copy, PartialEq, Eq, Structural, Debug)]
pub enum WorkerState {
    Hops,
    Body,
}

/// What has happened since a worker asked for an action.
pub enum WorkerEvent {
    /// The worker is ready, or has dispatched its request.
    Resume,
    /// A part of a request was received.
    Frame(Vec<u8>),
}

/// The mathematical reading of a [`WorkerEvent`].
pub enum WorkerEventView {
    Resume,
    Frame(Seq<u8>),
}

impl View for WorkerEvent {
    type V = WorkerEventView;

    open spec fn view(&self) -> WorkerEventView {
        match *self {
            WorkerEvent::Resume => WorkerEventView::Resume,
            WorkerEvent::Frame(bytes) => WorkerEventView::Frame(bytes@),
        }
    }
}

/// What a worker is to do next.
#[derive(Clone, Copy, PartialEq, Eq, Structural, Debug)]
pub enum WorkerAction {
    /// Receive a part of a request.
    Receive,
    /// Dispatch the request.
    Dispatch,
    /// Stop: a request has come by too many hops.
    Stop,
}

/// A worker: the request that it is receiving or dispatching.
pub struct Worker {
    pub request: Request,
    pub state: WorkerState,
}

/// The mathematical reading of a [`Worker`].
#[verifier::ext_equal]
pub struct WorkerView {
    pub request: RequestView,
    pub state: WorkerState,
}

impl View for Worker {
    type V = WorkerView;

    open spec fn view(&self) -> WorkerView {
        WorkerView { request: self.request@, state: self.state }
    }
}

impl WorkerView {
    /// Nothing of a request received yet.
    pub open spec fn blank() -> WorkerView {
        WorkerView { request: RequestView::blank(), state: WorkerState::Hops }
    }
}

/// What becomes of the last part of a request, read or unreadable.
pub open spec fn body_read(w: WorkerView, read: Option<MsgView>) -> (WorkerView, WorkerAction) {
    match read {
        Some(msg) => (
            WorkerView { request: RequestView { msg: Some(msg), ..w.request }, ..w },
            WorkerAction::Dispatch,
        ),
        None => (WorkerView::blank(), WorkerAction::Receive),
    }
}

/// One step of a worker. The hops of a request end with an empty part; the part after it is the
/// message.
pub open spec fn worker_step(w: WorkerView, event: WorkerEventView) -> (WorkerView, WorkerAction) {
    match event {
        WorkerEventView::Resume => (WorkerView::blank(), WorkerAction::Receive),
        WorkerEventView::Frame(bytes) => match w.state {
            WorkerState::Hops => if bytes.len() == 0 {
                (WorkerView { state: WorkerState::Body, ..w }, WorkerAction::Receive)
            } else if w.request.hops.len() >= MAX_HOPS {
                (w, WorkerAction::Stop)
            } else {
                (
                    WorkerView {
                        request: RequestView { hops: w.request.hops.push(bytes), ..w.request },
                        ..w
                    },
                    WorkerAction::Receive,
                )
            },
            WorkerState::Body => body_read(w, msg_of(bytes)),
        },
    }
}

impl Worker {
    pub fn new() -> (r: Worker)
        ensures
            r@ == WorkerView::blank(),
            r@.request.wf(),
    {
        Worker { request: Request::new(), state: WorkerState::Hops }
    }

    fn start_over(&mut self) -> (r: WorkerAction)
        ensures
            final(self)@ == WorkerView::blank(),
            r == WorkerAction::Receive,
    {
        self.request.reset();
        self.state = WorkerState::Hops;
        WorkerAction::Receive
    }

    /// The last part of a request, as it was read, or that it could not be read.
    pub fn on_message(&mut self, read: Result<Msg, Error>) -> (r: WorkerAction)
        ensures
            (final(self)@, r) == body_read(
                old(self)@,
                match read {
                    Ok(msg) => Some(msg@),
                    Err(_) => None,
                },
            ),
    {
        match read {
            Ok(msg) => {
                self.request.msg = Some(msg);
                WorkerAction::Dispatch
            },
            Err(_) => self.start_over(),
        }
    }

    /// One step of a worker.
    pub fn worker_run(&mut self, event: WorkerEvent) -> (r: WorkerAction)
        ensures
            (final(self)@, r) == worker_step(old(self)@, event@),
            old(self)@.request.wf() ==> final(self)@.request.wf(),
    {
        match event {
            WorkerEvent::Resume => self.start_over(),
            WorkerEvent::Frame(bytes) => match self.state {
                WorkerState::Hops => {
                    if bytes.len() == 0 {
                        self.state = WorkerState::Body;
                        return WorkerAction::Receive;
                    }
                    if self.request.add_hop(bytes).is_err() {
                        return WorkerAction::Stop;
                    }
                    WorkerAction::Receive
                },
                WorkerState::Body => {
                    let read = Msg::parse_from_bytes(bytes.as_slice());
                    self.on_message(read)
                },
            },
        }
    }
}

/// The first reply, whether more follow or not, is all hops of the request in their order, an empty
/// part, the mark of a reply and the message; the header alone is all of these but the message.
pub proof fn law_first_reply(
    hops: Seq<Seq<u8>>,
    msg: Option<MsgView>,
    message_id: Seq<char>,
    body: Seq<u8>,
    more: bool,
)
    ensures
        ({
            let request = RequestView { header_written: false, hops, msg };
            let frames = request.reply_frames(message_id, body, more);
            let n = hops.len() as int;
            &&& frames.len() == n + 3
            &&& request.header() == frames.take(n + 2)
            &&& forall|i: int| #![trigger hops[i]]
                0 <= i < n ==> frames[i].bytes == hops[i] && frames[i].more
            &&& frames[n].bytes.len() == 0 && frames[n].more
            &&& frames[n + 1].bytes == seq![82u8, 80u8] && frames[n + 1].more
            &&& frames[n + 2].bytes == wire_value(1, ValueView::Bytes(encode_utf8(message_id)))
                + wire_value(2, ValueView::Bytes(body))
            &&& frames[n + 2].more == more
        }),
{
    let request = RequestView { header_written: false, hops, msg };
    let frames = request.reply_frames(message_id, body, more);
    law_bare_message_is_written(message_id, body);
    assert(request.header() =~= frames.take(hops.len() as int + 2));
}

/// A reply after the header was sent is its message alone, whether more follow or not.
pub proof fn law_further_reply(
    hops: Seq<Seq<u8>>,
    msg: Option<MsgView>,
    message_id: Seq<char>,
    body: Seq<u8>,
    more: bool,
)
    ensures
        ({
            let request = RequestView { header_written: true, hops, msg };
            let frames = request.reply_frames(message_id, body, more);
            &&& request.header().len() == 0
            &&& frames.len() == 1
            &&& frames[0].bytes == wire_value(1, ValueView::Bytes(encode_utf8(message_id)))
                + wire_value(2, ValueView::Bytes(body))
            &&& frames[0].more == more
        }),
{
    law_bare_message_is_written(message_id, body);
}

/// The header counts as sent exactly when it was before, or when as many parts were sent as there
/// are hops, and two more; nothing else changes.
pub proof fn law_header_counts_when_it_is_sent(request: RequestView, sent: int)
    ensures
        request.after_sending(sent).header_written <==> request.header_written || sent
            >= request.hops.len() + 2,
        request.after_sending(sent).hops == request.hops,
        request.after_sending(sent).msg == request.msg,
{
}

/// A request of which nothing was received has no hop, no message and no reply.
pub proof fn law_blank_request_is_blank()
    ensures
        RequestView::blank().hops.len() == 0,
        RequestView::blank().msg is None,
        !RequestView::blank().header_written,
{
}

/// What happens to a worker, and what it has of a request, are read as what they are.
pub proof fn law_views_of_a_worker(event: WorkerEvent, worker: Worker)
    ensures
        event is Resume <==> event@ is Resume,
        event matches WorkerEvent::Frame(bytes) ==> event@ == WorkerEventView::Frame(bytes@),
        worker@.request == worker.request@,
        worker@.state == worker.state,
        WorkerView::blank().request == RequestView::blank(),
        WorkerView::blank().state == WorkerState::Hops,
{
}

} // verus!
