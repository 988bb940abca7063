//! A message under way, and the hops by which it came.

use vstd::prelude::*;
use vstd::slice::slice_to_vec;

use crate::bytes::byte_strings;
use crate::error::Error;
use crate::frame::{beginning, frame_views, part, Frame};
use crate::message::{Msg, MsgView, Protocol};

verus! {

/// The most hops by which a message can come.
pub const MAX_HOPS: usize = 8;

/// A message under way. The hops are the identities of the sockets it passed, the sender's first.
pub struct Envelope {
    pub msg: Msg,
    pub hops: Vec<Vec<u8>>,
}

/// The mathematical reading of an [`Envelope`].
pub struct EnvelopeView {
    pub msg: MsgView,
    pub hops: Seq<Seq<u8>>,
}

impl View for Envelope {
    type V = EnvelopeView;

    open spec fn view(&self) -> EnvelopeView {
        EnvelopeView { msg: self.msg@, hops: byte_strings(self.hops@) }
    }
}

impl EnvelopeView {
    /// Nothing received yet.
    pub open spec fn blank() -> EnvelopeView {
        EnvelopeView { msg: MsgView::blank(), hops: Seq::empty() }
    }
}

/// Adds a hop unless there are as many as there can be.
pub(crate) fn push_hop(hops: &mut Vec<Vec<u8>>, hop: Vec<u8>) -> (r: Result<(), Error>)
    ensures
        old(hops)@.len() >= MAX_HOPS ==> r == Err::<(), Error>(Error::MaxHops) && final(hops)@
            == old(hops)@,
        old(hops)@.len() < MAX_HOPS ==> r == Ok::<(), Error>(()) && byte_strings(final(hops)@)
            == byte_strings(old(hops)@).push(hop@) && final(hops)@.len() == old(hops)@.len() + 1,
{
    if hops.len() >= MAX_HOPS {
        return Err(Error::MaxHops);
    }
    hops.push(hop);
    assert(byte_strings(hops@) =~= byte_strings(old(hops)@).push(hop@));
    Ok(())
}

/// Parts for the hops from the one numbered `from` on, with more to follow.
pub(crate) fn hop_parts(hops: &Vec<Vec<u8>>, from: usize) -> (r: Vec<Frame>)
    requires
        from <= hops@.len(),
    ensures
        frame_views(r@) == beginning(byte_strings(hops@).skip(from as int)),
{
    let mut r: Vec<Frame> = Vec::new();
    let ghost all = beginning(byte_strings(hops@).skip(from as int));
    let mut i: usize = from;
    while i < hops.len()
        invariant
            from <= i <= hops@.len(),
            all == beginning(byte_strings(hops@).skip(from as int)),
            r@.len() == i - from,
            forall|j: int| 0 <= j < r@.len() ==> (#[trigger] r@[j])@ == all[j],
        decreases hops@.len() - i,
    {
        r.push(part(slice_to_vec(hops[i].as_slice())));
        i += 1;
    }
    assert(frame_views(r@) =~= all);
    r
}

impl Envelope {
    pub fn new() -> (r: Envelope)
        ensures
            r@ == EnvelopeView::blank(),
            r.msg@.wf(),
    {
        let r = Envelope { msg: Msg::blank(), hops: Vec::new() };
        assert(r@.hops =~= Seq::empty());
        r
    }

    /// Adds a hop, unless the message has come by as many as it may.
    pub fn add_hop(&mut self, hop: Vec<u8>) -> (r: Result<(), Error>)
        ensures
            r == if old(self)@.hops.len() >= MAX_HOPS {
                Err::<(), Error>(Error::MaxHops)
            } else {
                Ok(())
            },
            final(self)@ == if r is Ok {
                EnvelopeView { hops: old(self)@.hops.push(hop@), ..old(self)@ }
            } else {
                old(self)@
            },
    {
        push_hop(&mut self.hops, hop)
    }

    pub fn max_hops(&self) -> (r: bool)
        ensures
            r == (self@.hops.len() >= MAX_HOPS),
    {
        self.hops.len() >= MAX_HOPS
    }

    pub fn message_id(&self) -> (r: &str)
        ensures
            r@ == self@.msg.get_message_id(),
    {
        self.msg.get_message_id()
    }

    pub fn protocol(&self) -> (r: Protocol)
        ensures
            r == self@.msg.get_route_info().get_protocol(),
    {
        match &self.msg.route_info {
            Some(info) => info.get_protocol(),
            None => Protocol::Net,
        }
    }

    pub fn reset(&mut self)
        ensures
            final(self)@ == EnvelopeView::blank(),
            final(self).msg@.wf(),
    {
        self.hops.clear();
        self.msg = Msg::blank();
        assert(self@.hops =~= Seq::empty());
    }
}

/// An envelope is read as what it is, and a blank one has no hop and a blank message.
pub proof fn law_views_of_envelopes(envelope: Envelope)
    ensures
        envelope@.msg == envelope.msg@,
        envelope@.hops.len() == envelope.hops@.len(),
        forall|i: int|
            0 <= i < envelope.hops@.len() ==> envelope@.hops[i] == (#[trigger] envelope.hops@[i])@,
        EnvelopeView::blank().hops.len() == 0,
        EnvelopeView::blank().msg == MsgView::blank(),
{
}

} // verus!
