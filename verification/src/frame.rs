//! The parts in which messages go over a socket.

use vstd::prelude::*;

verus! {

/// A part of a message, and whether more parts follow it.
pub struct Frame {
    pub bytes: Vec<u8>,
    pub more: bool,
}

/// The mathematical reading of a [`Frame`].
pub struct FrameView {
    pub bytes: Seq<u8>,
    pub more: bool,
}

impl View for Frame {
    type V = FrameView;

    open spec fn view(&self) -> FrameView {
        FrameView { bytes: self.bytes@, more: self.more }
    }
}

pub open spec fn frame_views(frames: Seq<Frame>) -> Seq<FrameView> {
    frames.map_values(|f: Frame| f@)
}

/// A whole message of the given parts: more follow each but the last.
pub open spec fn multipart(parts: Seq<Seq<u8>>) -> Seq<FrameView> {
    Seq::new(parts.len(), |i: int| FrameView { bytes: parts[i], more: i + 1 < parts.len() })
}

/// The beginning of a message: more parts follow each of the given ones.
pub open spec fn beginning(parts: Seq<Seq<u8>>) -> Seq<FrameView> {
    Seq::new(parts.len(), |i: int| FrameView { bytes: parts[i], more: true })
}

/// Marks a message as a request to be routed: "RQ".
pub open spec fn request_mark() -> Seq<u8> {
    seq![82u8, 81u8]
}

/// Marks a message as a reply to be forwarded: "RP".
pub open spec fn reply_mark() -> Seq<u8> {
    seq![82u8, 80u8]
}

/// A part with others to follow.
pub(crate) fn part(bytes: Vec<u8>) -> (r: Frame)
    ensures
        r@ == (FrameView { bytes: bytes@, more: true }),
{
    Frame { bytes, more: true }
}

/// The last part of a message.
pub(crate) fn last_part(bytes: Vec<u8>) -> (r: Frame)
    ensures
        r@ == (FrameView { bytes: bytes@, more: false }),
{
    Frame { bytes, more: false }
}

/// Puts a part before the beginning of a message.
pub(crate) fn lead(first: Vec<u8>, rest: Vec<Frame>, Ghost(parts): Ghost<Seq<Seq<u8>>>) -> (r: Vec<
    Frame,
>)
    requires
        frame_views(rest@) == beginning(parts),
    ensures
        frame_views(r@) == beginning(seq![first@] + parts),
{
    let mut r: Vec<Frame> = Vec::new();
    r.push(part(first));
    let mut rest = rest;
    let ghost before = rest@;
    r.append(&mut rest);
    proof {
        let want = beginning(seq![first@] + parts);
        assert(frame_views(before).len() == parts.len());
        assert forall|i: int| 0 <= i < r@.len() implies frame_views(r@)[i] == want[i] by {
            if i > 0 {
                assert(frame_views(before)[i - 1] == beginning(parts)[i - 1]);
            }
        }
        assert(frame_views(r@) =~= want);
    }
    r
}

/// Ends a message with an empty part and a last one.
pub(crate) fn finish(
    begun: Vec<Frame>,
    last: Vec<u8>,
    Ghost(parts): Ghost<Seq<Seq<u8>>>,
) -> (r: Vec<Frame>)
    requires
        frame_views(begun@) == beginning(parts),
    ensures
        frame_views(r@) == multipart(parts + seq![Seq::<u8>::empty(), last@]),
        r@.last().bytes@ == last@,
{
    let mut r = begun;
    let ghost before = r@;
    r.push(part(Vec::new()));
    r.push(last_part(last));
    proof {
        let want = multipart(parts + seq![Seq::<u8>::empty(), last@]);
        assert(frame_views(before).len() == parts.len());
        assert forall|i: int| 0 <= i < r@.len() implies frame_views(r@)[i] == want[i] by {
            if i < before.len() {
                assert(frame_views(before)[i] == beginning(parts)[i]);
            }
        }
        assert(frame_views(r@) =~= want);
    }
    r
}

/// A whole message has its parts in their order, and more parts follow each of them but the last;
/// of the beginning of one, more parts follow each.
pub proof fn law_parts_come_in_order(parts: Seq<Seq<u8>>)
    ensures
        multipart(parts).len() == parts.len(),
        beginning(parts).len() == parts.len(),
        forall|i: int| #![trigger parts[i]]
            0 <= i < parts.len() ==> {
                &&& multipart(parts)[i].bytes == parts[i]
                &&& multipart(parts)[i].more == (i != parts.len() - 1)
                &&& beginning(parts)[i].bytes == parts[i]
                &&& beginning(parts)[i].more
            },
{
}

/// The marks are two letters each, and not the same.
pub proof fn law_marks_are_told_apart()
    ensures
        request_mark().len() == 2 && request_mark()[0] == 82 && request_mark()[1] == 81,
        reply_mark().len() == 2 && reply_mark()[0] == 82 && reply_mark()[1] == 80,
        request_mark() != reply_mark(),
{
    assert(request_mark()[1] != reply_mark()[1]);
}

/// A part is read as what it is, and so is a list of parts.
pub proof fn law_views_of_parts(frame: Frame, frames: Seq<Frame>)
    ensures
        frame@.bytes == frame.bytes@,
        frame@.more == frame.more,
        frame_views(frames).len() == frames.len(),
        forall|i: int| 0 <= i < frames.len() ==> frame_views(frames)[i] == (#[trigger] frames[i])@,
{
}

} // verus!
