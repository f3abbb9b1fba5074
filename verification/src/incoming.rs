//! Replies: the frames that arrive.
//!
//! A reply opens with a result word, and that word alone decides what
//! follows. A nonzero result ends the frame on the spot. A zero result is
//! followed by three word lists, four buffer-descriptor channels and, last of
//! all, the reply's kind.

use crate::channel::{
    channel_bytes, channel_fits, entries_bytes, lemma_held_channel_fits,
    lemma_scan_channel_carries_over, lemma_scan_channel_complete, lemma_scan_channel_sound,
    scan_channel, take_channel, EntryView,
};
use crate::wire::{
    carries_over, le64, lemma_four_cuts, lemma_four_parts, lemma_le64_of_value, lemma_le64_round_trip,
    lemma_scan_u64_carries_over, lemma_scan_word_list_carries_over, lemma_scan_word_list_complete,
    lemma_scan_word_list_sound, lemma_split, lemma_three_cuts, lemma_three_parts, scan_u64, scan_word_list, scanned,
    take_u64, take_word_list, within, word_list_bytes, words_bytes, Scan, Truncated,
};
use vstd::bytes::lemma_auto_spec_u64_to_from_le_bytes;
use vstd::prelude::*;
use vstd::slice::slice_subrange;

verus! {

/// What a reply carries when the request went through.
#[allow(non_snake_case)]
#[derive(Debug, PartialEq, Eq)]
pub struct Reply {
    /// The reply's kind. On the wire it comes last, behind the channels.
    pub ty: u64,
    /// The reply's words. By convention the first is a status of the
    /// application's own; the codec does not look at it.
    pub data: Vec<u64>,
    /// Handles that the sender has duplicated for the receiver.
    pub copiedHandles: Vec<u64>,
    /// Handles that the sender has given up to the receiver.
    pub movedHandles: Vec<u64>,
    /// Channel A: buffers, each with its flags.
    pub aBufs: Vec<(Vec<u8>, u64)>,
    /// Channel B.
    pub bBufs: Vec<(Vec<u8>, u64)>,
    /// Channel C.
    pub cBufs: Vec<(Vec<u8>, u64)>,
    /// Channel X.
    pub xBufs: Vec<(Vec<u8>, u64)>,
}

/// A decoded reply.
///
/// That a frame could be decoded says nothing about whether the request
/// succeeded: `Error` is a frame like any other, and it is the caller who
/// acts on it.
#[derive(Debug, PartialEq, Eq)]
pub enum IncomingBridgeMessage {
    /// The gateway refused the request. `res` is its result code, never zero.
    /// The frame holds nothing else.
    Error { res: u64 },
    /// The gateway carried the request out.
    Success(Reply),
}

/// A [`Reply`] as the contracts see it.
#[allow(non_snake_case)]
pub struct ReplyView {
    pub ty: u64,
    pub data: Seq<u64>,
    pub copiedHandles: Seq<u64>,
    pub movedHandles: Seq<u64>,
    pub aBufs: Seq<EntryView>,
    pub bBufs: Seq<EntryView>,
    pub cBufs: Seq<EntryView>,
    pub xBufs: Seq<EntryView>,
}

/// An [`IncomingBridgeMessage`] as the contracts see it.
pub enum IncomingView {
    Error { res: u64 },
    Success(ReplyView),
}

impl DeepView for Reply {
    type V = ReplyView;

    open spec fn deep_view(&self) -> ReplyView {
        ReplyView {
            ty: self.ty,
            data: self.data@,
            copiedHandles: self.copiedHandles@,
            movedHandles: self.movedHandles@,
            aBufs: self.aBufs.deep_view(),
            bBufs: self.bBufs.deep_view(),
            cBufs: self.cBufs.deep_view(),
            xBufs: self.xBufs.deep_view(),
        }
    }
}

impl View for Reply {
    type V = ReplyView;

    open spec fn view(&self) -> ReplyView {
        self.deep_view()
    }
}

impl DeepView for IncomingBridgeMessage {
    type V = IncomingView;

    open spec fn deep_view(&self) -> IncomingView {
        match self {
            IncomingBridgeMessage::Error { res } => IncomingView::Error { res: *res },
            IncomingBridgeMessage::Success(reply) => IncomingView::Success(reply.deep_view()),
        }
    }
}

impl View for IncomingBridgeMessage {
    type V = IncomingView;

    open spec fn view(&self) -> IncomingView {
        self.deep_view()
    }
}

impl ReplyView {
    /// Whether every count and length in the reply fits the one word that
    /// announces it on the wire. Every reply held in memory does.
    pub open spec fn fits(self) -> bool {
        &&& self.data.len() <= u64::MAX
        &&& self.copiedHandles.len() <= u64::MAX
        &&& self.movedHandles.len() <= u64::MAX
        &&& channel_fits(self.aBufs)
        &&& channel_fits(self.bBufs)
        &&& channel_fits(self.cBufs)
        &&& channel_fits(self.xBufs)
    }

    /// The three word lists, in the order of the wire.
    pub open spec fn lists(self) -> (Seq<u64>, Seq<u64>, Seq<u64>) {
        (self.data, self.copiedHandles, self.movedHandles)
    }

    /// The four channels, in the order of the wire.
    pub open spec fn channels(self) -> (
        Seq<EntryView>,
        Seq<EntryView>,
        Seq<EntryView>,
        Seq<EntryView>,
    ) {
        (self.aBufs, self.bBufs, self.cBufs, self.xBufs)
    }

    /// The reply on the wire, behind the result word: words, copied handles,
    /// moved handles, channels A, B, C and X, and then the kind.
    pub open spec fn bytes(self) -> Seq<u8> {
        lists_bytes(self.lists()) + channels_bytes(self.channels()) + le64(self.ty)
    }
}

impl IncomingView {
    /// Whether this is a message that a frame can stand for: an error has a
    /// nonzero result, and a reply fits the wire.
    pub open spec fn wf(self) -> bool {
        match self {
            IncomingView::Error { res } => res != 0,
            IncomingView::Success(reply) => reply.fits(),
        }
    }

    /// The result word that opens the message's frame.
    pub open spec fn res(self) -> u64 {
        match self {
            IncomingView::Error { res } => res,
            IncomingView::Success(_) => 0,
        }
    }

    /// The message's frame.
    pub open spec fn frame(self) -> Seq<u8> {
        match self {
            IncomingView::Error { res } => le64(res),
            IncomingView::Success(reply) => le64(0) + reply.bytes(),
        }
    }
}

/// Three word lists on the wire, one after the other.
#[verifier::opaque]
pub open spec fn lists_bytes(l: (Seq<u64>, Seq<u64>, Seq<u64>)) -> Seq<u8> {
    word_list_bytes(l.0) + word_list_bytes(l.1) + word_list_bytes(l.2)
}

/// Four channels on the wire, one after the other.
#[verifier::opaque]
pub open spec fn channels_bytes(
    c: (Seq<EntryView>, Seq<EntryView>, Seq<EntryView>, Seq<EntryView>),
) -> Seq<u8> {
    channel_bytes(c.0) + channel_bytes(c.1) + channel_bytes(c.2) + channel_bytes(c.3)
}

/// Three word lists in a row off the front of `b`.
#[verifier::opaque]
pub open spec fn scan_lists(b: Seq<u8>) -> Scan<(Seq<u64>, Seq<u64>, Seq<u64>)> {
    match scan_word_list(b) {
        Scan::Short(k) => Scan::Short(k),
        Scan::Done(first, n1) => match scan_word_list(b.skip(n1 as int)) {
            Scan::Short(k) => Scan::Short(k),
            Scan::Done(second, n2) => match scan_word_list(b.skip(n1 as int).skip(n2 as int)) {
                Scan::Short(k) => Scan::Short(k),
                Scan::Done(third, n3) => Scan::Done((first, second, third), n1 + n2 + n3),
            },
        },
    }
}

/// Four channels in a row off the front of `b`.
#[verifier::opaque]
pub open spec fn scan_channels(b: Seq<u8>) -> Scan<
    (Seq<EntryView>, Seq<EntryView>, Seq<EntryView>, Seq<EntryView>),
> {
    match scan_channel(b) {
        Scan::Short(k) => Scan::Short(k),
        Scan::Done(first, n1) => {
            let b1 = b.skip(n1 as int);
            match scan_channel(b1) {
                Scan::Short(k) => Scan::Short(k),
                Scan::Done(second, n2) => {
                    let b2 = b1.skip(n2 as int);
                    match scan_channel(b2) {
                        Scan::Short(k) => Scan::Short(k),
                        Scan::Done(third, n3) => match scan_channel(b2.skip(n3 as int)) {
                            Scan::Short(k) => Scan::Short(k),
                            Scan::Done(fourth, n4) => Scan::Done(
                                (first, second, third, fourth),
                                n1 + n2 + n3 + n4,
                            ),
                        },
                    }
                },
            }
        },
    }
}

/// What follows a zero result, off the front of `b`: the word lists, the
/// channels, and only then the kind.
#[verifier::opaque]
pub open spec fn scan_reply(b: Seq<u8>) -> Scan<ReplyView> {
    match scan_lists(b) {
        Scan::Short(k) => Scan::Short(k),
        Scan::Done(l, n1) => match scan_channels(b.skip(n1 as int)) {
            Scan::Short(k) => Scan::Short(k),
            Scan::Done(c, n2) => match scan_u64(b.skip(n1 as int).skip(n2 as int)) {
                Scan::Short(k) => Scan::Short(k),
                Scan::Done(ty, _) => Scan::Done(
                    ReplyView {
                        ty,
                        data: l.0,
                        copiedHandles: l.1,
                        movedHandles: l.2,
                        aBufs: c.0,
                        bBufs: c.1,
                        cBufs: c.2,
                        xBufs: c.3,
                    },
                    n1 + n2 + 8,
                ),
            },
        },
    }
}

/// One frame off the front of `b`. The result word is read first and decides
/// the rest: behind a nonzero result nothing more is read.
pub open spec fn scan_message(b: Seq<u8>) -> Scan<IncomingView> {
    match scan_u64(b) {
        Scan::Short(k) => Scan::Short(k),
        Scan::Done(res, _) => if res != 0 {
            Scan::Done(IncomingView::Error { res }, 8)
        } else {
            match scan_reply(b.skip(8)) {
                Scan::Short(k) => Scan::Short(k),
                Scan::Done(reply, used) => Scan::Done(IncomingView::Success(reply), 8 + used),
            }
        },
    }
}

/// Reads three word lists in a row off the front of `io`.
pub fn take_lists(io: &[u8]) -> (r: Result<((Vec<u64>, Vec<u64>, Vec<u64>), usize), Truncated>)
    ensures
        scanned(r) == scan_lists(io@),
        within(scanned(r), io@.len()),
{
    proof {
        reveal(scan_lists);
        lemma_scan_lists_sound(io@);
    }
    let (first, n1): (Vec<u64>, usize) = match take_word_list(io) {
        Ok(got) => got,
        Err(e) => return Err(e),
    };
    let rest: &[u8] = slice_subrange(io, n1, io.len());
    let (second, n2): (Vec<u64>, usize) = match take_word_list(rest) {
        Ok(got) => got,
        Err(e) => return Err(e),
    };
    let rest: &[u8] = slice_subrange(rest, n2, rest.len());
    let (third, n3): (Vec<u64>, usize) = match take_word_list(rest) {
        Ok(got) => got,
        Err(e) => return Err(e),
    };
    Ok(((first, second, third), n1 + n2 + n3))
}

/// Reads four channels in a row off the front of `io`.
pub fn take_channels(io: &[u8]) -> (r: Result<
    ((Vec<(Vec<u8>, u64)>, Vec<(Vec<u8>, u64)>, Vec<(Vec<u8>, u64)>, Vec<(Vec<u8>, u64)>), usize),
    Truncated,
>)
    ensures
        scanned(r) == scan_channels(io@),
        within(scanned(r), io@.len()),
{
    proof {
        reveal(scan_channels);
        lemma_scan_channels_sound(io@);
    }
    let (first, n1): (Vec<(Vec<u8>, u64)>, usize) = match take_channel(io) {
        Ok(got) => got,
        Err(e) => return Err(e),
    };
    let rest: &[u8] = slice_subrange(io, n1, io.len());
    let (second, n2): (Vec<(Vec<u8>, u64)>, usize) = match take_channel(rest) {
        Ok(got) => got,
        Err(e) => return Err(e),
    };
    let rest: &[u8] = slice_subrange(rest, n2, rest.len());
    let (third, n3): (Vec<(Vec<u8>, u64)>, usize) = match take_channel(rest) {
        Ok(got) => got,
        Err(e) => return Err(e),
    };
    let rest: &[u8] = slice_subrange(rest, n3, rest.len());
    let (fourth, n4): (Vec<(Vec<u8>, u64)>, usize) = match take_channel(rest) {
        Ok(got) => got,
        Err(e) => return Err(e),
    };
    Ok(((first, second, third, fourth), n1 + n2 + n3 + n4))
}

/// Reads what follows a zero result off the front of `io`: the word lists,
/// the channels, and only then the kind.
pub fn take_reply(io: &[u8]) -> (r: Result<(Reply, usize), Truncated>)
    ensures
        scanned(r) == scan_reply(io@),
        within(scanned(r), io@.len()),
{
    proof {
        reveal(scan_reply);
        lemma_scan_reply_sound(io@);
    }
    let (lists, n1): ((Vec<u64>, Vec<u64>, Vec<u64>), usize) = match take_lists(io) {
        Ok(got) => got,
        Err(e) => return Err(e),
    };
    let rest: &[u8] = slice_subrange(io, n1, io.len());
    let (channels, n2): (
        (Vec<(Vec<u8>, u64)>, Vec<(Vec<u8>, u64)>, Vec<(Vec<u8>, u64)>, Vec<(Vec<u8>, u64)>),
        usize,
    ) = match take_channels(rest) {
        Ok(got) => got,
        Err(e) => return Err(e),
    };
    let rest: &[u8] = slice_subrange(rest, n2, rest.len());
    let ty: u64 = match take_u64(rest) {
        Ok((ty, _)) => ty,
        Err(e) => return Err(e),
    };
    let (data, copied, moved) = lists;
    let (a_bufs, b_bufs, c_bufs, x_bufs) = channels;
    assert(data.deep_view() == data@);
    assert(copied.deep_view() == copied@);
    assert(moved.deep_view() == moved@);
    let reply = Reply {
        ty,
        data,
        copiedHandles: copied,
        movedHandles: moved,
        aBufs: a_bufs,
        bBufs: b_bufs,
        cBufs: c_bufs,
        xBufs: x_bufs,
    };
    Ok((reply, n1 + n2 + 8))
}

impl IncomingBridgeMessage {
    /// Decodes one reply from the front of `io`, the bytes received so far,
    /// and says how many of them the reply occupies. Bytes behind the frame
    /// are not looked at.
    ///
    /// The result word is read first. If it is not zero the frame is over:
    /// eight bytes are used and the `Error` variant comes back. Otherwise the
    /// three word lists, the four channels and the kind are read in that
    /// order. No count or length is bounded; one that the bytes at hand
    /// cannot satisfy comes back as [`Truncated`], like any other short
    /// read, and never as a partial message.
    pub fn read(io: &[u8]) -> (r: Result<(IncomingBridgeMessage, usize), Truncated>)
        ensures
            scanned(r) == scan_message(io@),
            within(scanned(r), io@.len()),
            r matches Ok((m, used)) ==> m@.wf() && m@.frame() == io@.subrange(0, used as int),
            r is Ok <==> begins_with_frame(io@),
    {
        proof {
            lemma_scan_message_sound(io@);
            lemma_done_iff_begins_with_frame(io@);
        }
        let res: u64 = match take_u64(io) {
            Ok((res, _)) => res,
            Err(e) => return Err(e),
        };
        if res != 0 {
            return Ok((IncomingBridgeMessage::Error { res }, 8));
        }
        match take_reply(slice_subrange(io, 8, io.len())) {
            Ok((reply, used)) => Ok((IncomingBridgeMessage::Success(reply), 8 + used)),
            Err(e) => Err(e),
        }
    }

    /// The result code that opened the message's frame: zero for a reply,
    /// the gateway's code for an error.
    pub fn res(&self) -> (res: u64)
        ensures
            res == self@.res(),
            self@.wf() ==> (res == 0 <==> self is Success),
    {
        match self {
            IncomingBridgeMessage::Error { res } => *res,
            IncomingBridgeMessage::Success(_) => 0,
        }
    }
}

/// What `scan_lists` reads is what `lists_bytes` lays out.
pub proof fn lemma_scan_lists_sound(b: Seq<u8>)
    ensures
        within(scan_lists(b), b.len()),
        scan_lists(b) matches Scan::Done(l, used) ==> {
            &&& used >= 24
            &&& l.0.len() <= u64::MAX
            &&& l.1.len() <= u64::MAX
            &&& l.2.len() <= u64::MAX
            &&& lists_bytes(l) == b.subrange(0, used as int)
        },
{
    reveal(scan_lists);
    reveal(lists_bytes);
    lemma_scan_word_list_sound(b);
    if let Scan::Done(_, n1) = scan_word_list(b) {
        let b1 = b.skip(n1 as int);
        lemma_scan_word_list_sound(b1);
        if let Scan::Done(_, n2) = scan_word_list(b1) {
            let b2 = b1.skip(n2 as int);
            lemma_scan_word_list_sound(b2);
            if let Scan::Done(_, n3) = scan_word_list(b2) {
                lemma_three_cuts(b, n1, n2, n3);
            }
        }
    }
}

/// What `lists_bytes` lays out, `scan_lists` reads back, whatever follows.
pub proof fn lemma_scan_lists_complete(l: (Seq<u64>, Seq<u64>, Seq<u64>), rest: Seq<u8>)
    requires
        l.0.len() <= u64::MAX,
        l.1.len() <= u64::MAX,
        l.2.len() <= u64::MAX,
    ensures
        scan_lists(lists_bytes(l) + rest) == Scan::Done(l, lists_bytes(l).len()),
{
    reveal(scan_lists);
    reveal(lists_bytes);
    let (w0, w1, w2) = (word_list_bytes(l.0), word_list_bytes(l.1), word_list_bytes(l.2));
    lemma_three_parts(w0, w1, w2, rest);
    lemma_scan_word_list_complete(l.0, w1 + w2 + rest);
    lemma_scan_word_list_complete(l.1, w2 + rest);
    lemma_scan_word_list_complete(l.2, rest);
}

/// More bytes behind `b` change nothing that `scan_lists` has read, and
/// shrink a shortfall by their number.
pub proof fn lemma_scan_lists_carries_over(b: Seq<u8>, more: Seq<u8>)
    ensures
        carries_over(scan_lists(b), scan_lists(b + more), more.len()),
{
    reveal(scan_lists);
    lemma_scan_word_list_carries_over(b, more);
    lemma_scan_word_list_sound(b);
    if let Scan::Done(_, n1) = scan_word_list(b) {
        let b1 = b.skip(n1 as int);
        assert((b + more).skip(n1 as int) == b1 + more);
        lemma_scan_word_list_carries_over(b1, more);
        lemma_scan_word_list_sound(b1);
        if let Scan::Done(_, n2) = scan_word_list(b1) {
            let b2 = b1.skip(n2 as int);
            assert((b1 + more).skip(n2 as int) == b2 + more);
            lemma_scan_word_list_carries_over(b2, more);
        }
    }
}

/// What `scan_channels` reads is what `channels_bytes` lays out.
pub proof fn lemma_scan_channels_sound(b: Seq<u8>)
    ensures
        within(scan_channels(b), b.len()),
        scan_channels(b) matches Scan::Done(c, used) ==> {
            &&& used >= 32
            &&& channel_fits(c.0)
            &&& channel_fits(c.1)
            &&& channel_fits(c.2)
            &&& channel_fits(c.3)
            &&& channels_bytes(c) == b.subrange(0, used as int)
        },
{
    reveal(scan_channels);
    reveal(channels_bytes);
    lemma_scan_channel_sound(b);
    if let Scan::Done(_, n1) = scan_channel(b) {
        let b1 = b.skip(n1 as int);
        lemma_scan_channel_sound(b1);
        if let Scan::Done(_, n2) = scan_channel(b1) {
            let b2 = b1.skip(n2 as int);
            lemma_scan_channel_sound(b2);
            if let Scan::Done(_, n3) = scan_channel(b2) {
                let b3 = b2.skip(n3 as int);
                lemma_scan_channel_sound(b3);
                if let Scan::Done(_, n4) = scan_channel(b3) {
                    lemma_four_cuts(b, n1, n2, n3, n4);
                }
            }
        }
    }
}

/// What `channels_bytes` lays out, `scan_channels` reads back, whatever
/// follows.
pub proof fn lemma_scan_channels_complete(
    c: (Seq<EntryView>, Seq<EntryView>, Seq<EntryView>, Seq<EntryView>),
    rest: Seq<u8>,
)
    requires
        channel_fits(c.0),
        channel_fits(c.1),
        channel_fits(c.2),
        channel_fits(c.3),
    ensures
        scan_channels(channels_bytes(c) + rest) == Scan::Done(c, channels_bytes(c).len()),
{
    reveal(scan_channels);
    reveal(channels_bytes);
    let (w0, w1) = (channel_bytes(c.0), channel_bytes(c.1));
    let (w2, w3) = (channel_bytes(c.2), channel_bytes(c.3));
    lemma_four_parts(w0, w1, w2, w3, rest);
    lemma_scan_channel_complete(c.0, w1 + w2 + w3 + rest);
    lemma_scan_channel_complete(c.1, w2 + w3 + rest);
    lemma_scan_channel_complete(c.2, w3 + rest);
    lemma_scan_channel_complete(c.3, rest);
}

/// More bytes behind `b` change nothing that `scan_channels` has read, and
/// shrink a shortfall by their number.
pub proof fn lemma_scan_channels_carries_over(b: Seq<u8>, more: Seq<u8>)
    ensures
        carries_over(scan_channels(b), scan_channels(b + more), more.len()),
{
    reveal(scan_channels);
    lemma_scan_channel_carries_over(b, more);
    lemma_scan_channel_sound(b);
    if let Scan::Done(_, n1) = scan_channel(b) {
        let b1 = b.skip(n1 as int);
        assert((b + more).skip(n1 as int) == b1 + more);
        lemma_scan_channel_carries_over(b1, more);
        lemma_scan_channel_sound(b1);
        if let Scan::Done(_, n2) = scan_channel(b1) {
            let b2 = b1.skip(n2 as int);
            assert((b1 + more).skip(n2 as int) == b2 + more);
            lemma_scan_channel_carries_over(b2, more);
            lemma_scan_channel_sound(b2);
            if let Scan::Done(_, n3) = scan_channel(b2) {
                let b3 = b2.skip(n3 as int);
                assert((b2 + more).skip(n3 as int) == b3 + more);
                lemma_scan_channel_carries_over(b3, more);
            }
        }
    }
}

/// What `scan_reply` reads is what [`ReplyView::bytes`] lays out, and its
/// last eight bytes are the kind.
pub proof fn lemma_scan_reply_sound(b: Seq<u8>)
    ensures
        within(scan_reply(b), b.len()),
        scan_reply(b) matches Scan::Done(reply, used) ==> {
            &&& used >= 64
            &&& reply.fits()
            &&& reply.bytes() == b.subrange(0, used as int)
            &&& le64(reply.ty) == b.subrange(used - 8, used as int)
        },
{
    reveal(scan_reply);
    lemma_scan_lists_sound(b);
    if let Scan::Done(_, n1) = scan_lists(b) {
        let b1 = b.skip(n1 as int);
        lemma_scan_channels_sound(b1);
        if let Scan::Done(_, n2) = scan_channels(b1) {
            let b2 = b1.skip(n2 as int);
            if let Scan::Done(_, _) = scan_u64(b2) {
                let end = (n1 + n2) as int;
                lemma_le64_of_value(b2);
                lemma_three_cuts(b, n1, n2, 8);
                assert(b2.subrange(0, 8) == b.subrange(end, end + 8));
            }
        }
    }
}

/// What [`ReplyView::bytes`] lays out, `scan_reply` reads back, whatever
/// follows.
pub proof fn lemma_scan_reply_complete(reply: ReplyView, rest: Seq<u8>)
    requires
        reply.fits(),
    ensures
        scan_reply(reply.bytes() + rest) == Scan::Done(reply, reply.bytes().len()),
{
    reveal(scan_reply);
    let (w0, w1) = (lists_bytes(reply.lists()), channels_bytes(reply.channels()));
    lemma_three_parts(w0, w1, le64(reply.ty), rest);
    lemma_scan_lists_complete(reply.lists(), w1 + le64(reply.ty) + rest);
    lemma_scan_channels_complete(reply.channels(), le64(reply.ty) + rest);
    lemma_le64_round_trip(reply.ty, rest);
}

/// More bytes behind `b` change nothing that `scan_reply` has read, and
/// shrink a shortfall by their number.
pub proof fn lemma_scan_reply_carries_over(b: Seq<u8>, more: Seq<u8>)
    ensures
        carries_over(scan_reply(b), scan_reply(b + more), more.len()),
{
    reveal(scan_reply);
    lemma_scan_lists_carries_over(b, more);
    lemma_scan_lists_sound(b);
    if let Scan::Done(_, n1) = scan_lists(b) {
        let b1 = b.skip(n1 as int);
        assert((b + more).skip(n1 as int) == b1 + more);
        lemma_scan_channels_carries_over(b1, more);
        lemma_scan_channels_sound(b1);
        if let Scan::Done(_, n2) = scan_channels(b1) {
            let b2 = b1.skip(n2 as int);
            assert((b1 + more).skip(n2 as int) == b2 + more);
            lemma_scan_u64_carries_over(b2, more);
        }
    }
}

/// Decoding inverts the layout. Whatever `scan_message` reads from `b` is a
/// well-formed message that occupies the first bytes of `b`, and those bytes
/// are the message's own frame. Where it reads nothing, at least one byte is
/// missing.
pub proof fn lemma_scan_message_sound(b: Seq<u8>)
    ensures
        within(scan_message(b), b.len()),
        scan_message(b) matches Scan::Done(m, used) ==> {
            &&& m.wf()
            &&& m.frame() == b.subrange(0, used as int)
        },
{
    if let Scan::Done(res, _) = scan_u64(b) {
        lemma_le64_of_value(b);
        if res == 0 {
            let body = b.skip(8);
            lemma_scan_reply_sound(body);
            if let Scan::Done(_, used) = scan_reply(body) {
                let end = 8 + used as int;
                assert(body.subrange(0, used as int) == b.subrange(8, end));
                assert(b.subrange(0, 8) + b.subrange(8, end) == b.subrange(0, end));
            }
        }
    }
}

/// The layout is decodable. The frame of any well-formed message, whatever
/// follows it, is read back as that message, and exactly the frame's bytes
/// are used.
pub proof fn lemma_scan_message_complete(m: IncomingView, rest: Seq<u8>)
    requires
        m.wf(),
    ensures
        scan_message(m.frame() + rest) == Scan::Done(m, m.frame().len()),
{
    let b = m.frame() + rest;
    match m {
        IncomingView::Error { res } => {
            lemma_le64_round_trip(res, rest);
        },
        IncomingView::Success(reply) => {
            lemma_le64_round_trip(0, reply.bytes() + rest);
            lemma_scan_reply_complete(reply, rest);
            assert(b == le64(0) + (reply.bytes() + rest));
            assert(b.skip(8) == reply.bytes() + rest);
        },
    }
}

/// Decoding can be resumed. Once a frame has been read, bytes arriving
/// behind it change nothing. While a frame is short by `k` bytes, it stays
/// short until `k` more have arrived: with fewer, exactly the difference is
/// still missing, so a reader that fetches `k` bytes never fetches past the
/// end of the frame.
pub proof fn lemma_scan_message_carries_over(b: Seq<u8>, more: Seq<u8>)
    ensures
        carries_over(scan_message(b), scan_message(b + more), more.len()),
{
    lemma_scan_u64_carries_over(b, more);
    if let Scan::Done(res, _) = scan_u64(b) {
        if res == 0 {
            lemma_scan_reply_carries_over(b.skip(8), more);
            assert((b + more).skip(8) == b.skip(8) + more);
        }
    }
}

/// Whether `b` begins with the whole frame of some well-formed message.
pub open spec fn begins_with_frame(b: Seq<u8>) -> bool {
    exists|m: IncomingView, rest: Seq<u8>| m.wf() && b == m.frame() + rest
}

/// A message is read exactly where a whole frame is at hand: `scan_message`
/// comes to `Done` on the bytes that begin with a well-formed message's
/// frame, and to `Short` on all others.
pub proof fn lemma_done_iff_begins_with_frame(b: Seq<u8>)
    ensures
        scan_message(b) is Done <==> begins_with_frame(b),
{
    lemma_scan_message_sound(b);
    if let Scan::Done(m, used) = scan_message(b) {
        lemma_split(b, used as int);
        assert(m.wf() && b == m.frame() + b.skip(used as int));
    }
    if begins_with_frame(b) {
        let (m, rest) = choose|m: IncomingView, rest: Seq<u8>| m.wf() && b == m.frame() + rest;
        lemma_scan_message_complete(m, rest);
    }
}

/// Every reply held in memory fits the wire: no vector is longer than a
/// word can say.
pub proof fn lemma_reply_fits(reply: Reply)
    ensures
        reply@.fits(),
{
    assert(reply.data@.len() == reply.data.len());
    assert(reply.copiedHandles@.len() == reply.copiedHandles.len());
    assert(reply.movedHandles@.len() == reply.movedHandles.len());
    lemma_held_channel_fits(reply.aBufs);
    lemma_held_channel_fits(reply.bBufs);
    lemma_held_channel_fits(reply.cBufs);
    lemma_held_channel_fits(reply.xBufs);
}

/// No frame is the beginning of another: bytes that begin with the frame of
/// one well-formed message begin with the frame of no other.
pub proof fn lemma_frame_determines_message(
    m1: IncomingView,
    rest1: Seq<u8>,
    m2: IncomingView,
    rest2: Seq<u8>,
)
    requires
        m1.wf(),
        m2.wf(),
        m1.frame() + rest1 == m2.frame() + rest2,
    ensures
        m1 == m2,
{
    lemma_scan_message_complete(m1, rest1);
    lemma_scan_message_complete(m2, rest2);
}

/// Fetching what is missing never takes a byte of the next frame. Where `b`
/// is the beginning of a stream that opens with the frame of `m`, and `b` is
/// short by `k` bytes, the frame is at least `k` bytes longer than `b`.
pub proof fn lemma_missing_stays_within_frame(b: Seq<u8>, m: IncomingView, rest: Seq<u8>)
    requires
        m.wf(),
        b.len() <= (m.frame() + rest).len(),
        b == (m.frame() + rest).subrange(0, b.len() as int),
        scan_message(b) is Short,
    ensures
        scan_message(b) matches Scan::Short(k) ==> b.len() + k <= m.frame().len(),
{
    let stream = m.frame() + rest;
    let len = m.frame().len();
    lemma_scan_message_complete(m, rest);
    if b.len() >= len {
        let more = stream.subrange(len as int, b.len() as int);
        assert(b == m.frame() + more);
        lemma_scan_message_complete(m, more);
    } else {
        let more = stream.subrange(b.len() as int, len as int);
        assert(b + more == m.frame());
        assert(m.frame() + Seq::<u8>::empty() == m.frame());
        lemma_scan_message_complete(m, Seq::empty());
        lemma_scan_message_carries_over(b, more);
    }
}

/// A nonzero result is the whole frame. Whatever stands behind the result
/// word, the message read is the error with that result and nothing else,
/// and eight bytes are used.
pub proof fn lemma_error_ends_frame(res: u64, rest: Seq<u8>)
    requires
        res != 0,
    ensures
        le64(res).len() == 8,
        scan_message(le64(res) + rest) == Scan::Done(IncomingView::Error { res }, 8),
{
    lemma_le64_round_trip(res, rest);
}

/// The reply of kind `ty` that holds nothing.
pub open spec fn empty_reply(ty: u64) -> ReplyView {
    ReplyView {
        ty,
        data: Seq::empty(),
        copiedHandles: Seq::empty(),
        movedHandles: Seq::empty(),
        aBufs: Seq::empty(),
        bBufs: Seq::empty(),
        cBufs: Seq::empty(),
        xBufs: Seq::empty(),
    }
}

/// Nine words make the smallest reply: a zero result, a zero for each of the
/// three lists and the four channels, and the kind. They read back as a
/// reply of that kind with every sequence empty, and all 72 bytes are used.
pub proof fn lemma_empty_reply(ty: u64, rest: Seq<u8>)
    ensures
        IncomingView::Success(empty_reply(ty)).frame() == le64(0) + (le64(0) + le64(0) + le64(0))
            + (le64(0) + le64(0) + le64(0) + le64(0)) + le64(ty),
        IncomingView::Success(empty_reply(ty)).frame().len() == 8 + 8 * 3 + 8 * 4 + 8,
        scan_message(IncomingView::Success(empty_reply(ty)).frame() + rest) == Scan::Done(
            IncomingView::Success(empty_reply(ty)),
            72,
        ),
{
    reveal(lists_bytes);
    reveal(channels_bytes);
    let m = IncomingView::Success(empty_reply(ty));
    let z = le64(0);
    lemma_auto_spec_u64_to_from_le_bytes();
    assert(words_bytes(Seq::<u64>::empty()) == Seq::<u8>::empty());
    assert(entries_bytes(Seq::<EntryView>::empty()) == Seq::<u8>::empty());
    assert(word_list_bytes(Seq::<u64>::empty()) == z);
    assert(channel_bytes(Seq::<EntryView>::empty()) == z);
    assert(m.frame() == z + (z + z + z) + (z + z + z + z) + le64(ty));
    lemma_scan_message_complete(m, rest);
}

/// The kind is read last. In every reply that is read, the final eight of
/// the bytes used are the kind's, so a frame that carries its kind anywhere
/// else is not read as the reply it was meant to be.
pub proof fn lemma_kind_comes_last(b: Seq<u8>)
    ensures
        scan_message(b) matches Scan::Done(IncomingView::Success(reply), used) ==> {
            &&& 72 <= used <= b.len()
            &&& le64(reply.ty) == b.subrange(used - 8, used as int)
        },
{
    lemma_scan_message_sound(b);
    if let Scan::Done(IncomingView::Success(reply), used) = scan_message(b) {
        let body = b.skip(8);
        lemma_scan_reply_sound(body);
        assert(body.subrange(used - 16, used - 8) == b.subrange(used - 8, used as int));
    }
}

} // verus!
