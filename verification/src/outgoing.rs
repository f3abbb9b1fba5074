//! Commands: the frames that are sent.

use crate::wire::{
    le64, le64_signed, le64_signed_value, lemma_behind, lemma_le64_round_trip,
    lemma_le64_signed_round_trip, lemma_scan_word_list_complete, lemma_word_list_bytes_len, put_i64,
    put_u64, put_word_list, scan_i64, scan_u64, scan_word_list, word_list_bytes, Scan,
};
use vstd::bytes::lemma_auto_spec_u64_to_from_le_bytes;
use vstd::prelude::*;

verus! {

/// A command for the gateway.
///
/// A message is made by [`OutgoingIPCMessage::new`], completed through its
/// fields, and laid out by [`OutgoingIPCMessage::write`].
///
/// The four buffer channels are part of the message but not yet of the
/// wire format. Whatever they hold, `write` puts four zero words in their
/// place and raises no error: buffers set on a command are not transmitted.
#[allow(non_snake_case)]
#[derive(Debug, PartialEq, Eq)]
pub struct OutgoingIPCMessage {
    /// The message's kind. It fits a byte and travels as a word.
    pub ty: u64,
    /// The command's words: first the sub-command, then its arguments.
    pub data: Vec<u64>,
    /// The process to act on, or `-1` for none in particular.
    pub pid: i64,
    /// Handles that the receiver is to duplicate.
    pub copiedHandles: Vec<u64>,
    /// Handles that the receiver is to take over.
    pub movedHandles: Vec<u64>,
    /// Channel A. Not transmitted.
    pub aBufs: Vec<Vec<u8>>,
    /// Channel B. Not transmitted.
    pub bBufs: Vec<Vec<u8>>,
    /// Channel C. Not transmitted.
    pub cBufs: Vec<Vec<u8>>,
    /// Channel X. Not transmitted.
    pub xBufs: Vec<Vec<u8>>,
}

/// An [`OutgoingIPCMessage`] as the contracts see it.
#[allow(non_snake_case)]
pub struct OutgoingView {
    pub ty: u64,
    pub data: Seq<u64>,
    pub pid: i64,
    pub copiedHandles: Seq<u64>,
    pub movedHandles: Seq<u64>,
    pub aBufs: Seq<Seq<u8>>,
    pub bBufs: Seq<Seq<u8>>,
    pub cBufs: Seq<Seq<u8>>,
    pub xBufs: Seq<Seq<u8>>,
}

/// What of a message reaches the wire: everything but its buffer channels.
#[allow(non_snake_case)]
pub struct CommandView {
    pub ty: u64,
    pub data: Seq<u64>,
    pub pid: i64,
    pub copiedHandles: Seq<u64>,
    pub movedHandles: Seq<u64>,
}

/// The four zero words that stand where the buffer channels will one day
/// be.
pub open spec fn reserved_bytes() -> Seq<u8> {
    le64(0) + le64(0) + le64(0) + le64(0)
}

impl OutgoingView {
    /// The part of the message that is transmitted.
    pub open spec fn command(self) -> CommandView {
        CommandView {
            ty: self.ty,
            data: self.data,
            pid: self.pid,
            copiedHandles: self.copiedHandles,
            movedHandles: self.movedHandles,
        }
    }

    /// The message's frame. It is the frame of the part that is transmitted:
    /// the buffer channels have no say in it.
    pub open spec fn frame(self) -> Seq<u8> {
        self.command().frame()
    }
}

impl CommandView {
    /// Whether the length of every list fits the one word that announces it.
    /// Every command held in memory does.
    pub open spec fn fits(self) -> bool {
        &&& self.data.len() <= u64::MAX
        &&& self.copiedHandles.len() <= u64::MAX
        &&& self.movedHandles.len() <= u64::MAX
    }

    /// The command's frame: kind, words, target process, copied handles,
    /// moved handles, and the four reserved words. The target process
    /// travels in two's complement.
    pub open spec fn frame(self) -> Seq<u8> {
        le64(self.ty) + word_list_bytes(self.data) + le64_signed(self.pid) + word_list_bytes(
            self.copiedHandles,
        ) + word_list_bytes(self.movedHandles) + reserved_bytes()
    }

    /// Where in the frame the target process stands.
    pub open spec fn pid_offset(self) -> nat {
        16 + 8 * self.data.len()
    }
}

/// The reading of a command's frame, field by field in the order of
/// [`CommandView::frame`]. Nothing in the library decodes commands; this is
/// the yardstick against which the layout is shown to lose nothing. The
/// reserved words are stepped over, whatever they hold.
pub open spec fn scan_command(b: Seq<u8>) -> Scan<CommandView> {
    match scan_u64(b) {
        Scan::Short(k) => Scan::Short(k),
        Scan::Done(ty, _) => {
            let b1 = b.skip(8);
            match scan_word_list(b1) {
                Scan::Short(k) => Scan::Short(k),
                Scan::Done(data, n1) => {
                    let b2 = b1.skip(n1 as int);
                    match scan_i64(b2) {
                        Scan::Short(k) => Scan::Short(k),
                        Scan::Done(pid, _) => {
                            let b3 = b2.skip(8);
                            match scan_word_list(b3) {
                                Scan::Short(k) => Scan::Short(k),
                                Scan::Done(copied, n2) => {
                                    let b4 = b3.skip(n2 as int);
                                    match scan_word_list(b4) {
                                        Scan::Short(k) => Scan::Short(k),
                                        Scan::Done(moved, n3) => if b4.len() - n3 < 32 {
                                            Scan::Short((32 - (b4.len() - n3)) as nat)
                                        } else {
                                            Scan::Done(
                                                CommandView {
                                                    ty,
                                                    data,
                                                    pid,
                                                    copiedHandles: copied,
                                                    movedHandles: moved,
                                                },
                                                48 + n1 + n2 + n3,
                                            )
                                        },
                                    }
                                },
                            }
                        },
                    }
                },
            }
        },
    }
}

impl View for OutgoingIPCMessage {
    type V = OutgoingView;

    open spec fn view(&self) -> OutgoingView {
        OutgoingView {
            ty: self.ty,
            data: self.data@,
            pid: self.pid,
            copiedHandles: self.copiedHandles@,
            movedHandles: self.movedHandles@,
            aBufs: self.aBufs.deep_view(),
            bBufs: self.bBufs.deep_view(),
            cBufs: self.cBufs.deep_view(),
            xBufs: self.xBufs.deep_view(),
        }
    }
}

impl OutgoingIPCMessage {
    /// A message of kind `ty` whose only word is the sub-command `cmd`. It
    /// names no target process and holds no handles and no buffers.
    pub fn new(ty: u8, cmd: u64) -> (m: OutgoingIPCMessage)
        ensures
            m@ == (OutgoingView {
                ty: ty as u64,
                data: seq![cmd],
                pid: -1i64,
                copiedHandles: Seq::empty(),
                movedHandles: Seq::empty(),
                aBufs: Seq::empty(),
                bBufs: Seq::empty(),
                cBufs: Seq::empty(),
                xBufs: Seq::empty(),
            }),
    {
        let mut data: Vec<u64> = Vec::new();
        data.push(cmd);
        let m = OutgoingIPCMessage {
            ty: ty as u64,
            data,
            pid: -1,
            copiedHandles: Vec::new(),
            movedHandles: Vec::new(),
            aBufs: Vec::new(),
            bBufs: Vec::new(),
            cBufs: Vec::new(),
            xBufs: Vec::new(),
        };
        assert(m.data@ == seq![cmd]);
        assert(m.copiedHandles@ == Seq::<u64>::empty());
        assert(m.movedHandles@ == Seq::<u64>::empty());
        assert(m.aBufs.deep_view() == Seq::<Seq<u8>>::empty());
        assert(m.bBufs.deep_view() == Seq::<Seq<u8>>::empty());
        assert(m.cBufs.deep_view() == Seq::<Seq<u8>>::empty());
        assert(m.xBufs.deep_view() == Seq::<Seq<u8>>::empty());
        m
    }

    /// Appends the message's frame to `io` and leaves the message as it was.
    ///
    /// The frame is the kind, the words, the target process, the copied and
    /// the moved handles, and four zero words. The buffer channels are not
    /// transmitted: the zero words are written whatever the channels hold.
    pub fn write(&self, io: &mut Vec<u8>)
        ensures
            final(io)@ == old(io)@ + self@.frame(),
            final(io)@.len() == old(io)@.len() + 8 * (5 + self.data@.len()
                + self.copiedHandles@.len() + self.movedHandles@.len()) + 32,
    {
        put_u64(io, self.ty);
        put_word_list(io, self.data.as_slice());
        put_i64(io, self.pid);
        put_word_list(io, self.copiedHandles.as_slice());
        put_word_list(io, self.movedHandles.as_slice());
        put_u64(io, 0);
        put_u64(io, 0);
        put_u64(io, 0);
        put_u64(io, 0);
        proof {
            lemma_frame_len(self@.command());
            assert(io@ == old(io)@ + self@.frame());
        }
    }
}

/// The size of a frame: five words for the kind, the target process and
/// the three counts, one word for each word and each handle, and the four
/// reserved words.
pub proof fn lemma_frame_len(c: CommandView)
    ensures
        c.frame().len() == 8 * (5 + c.data.len() + c.copiedHandles.len() + c.movedHandles.len())
            + 32,
{
    lemma_auto_spec_u64_to_from_le_bytes();
    lemma_word_list_bytes_len(c.data);
    lemma_word_list_bytes_len(c.copiedHandles);
    lemma_word_list_bytes_len(c.movedHandles);
}

/// Nothing that is transmitted is lost. The frame of a command that fits
/// the wire, whatever follows it, reads back field by field as the command
/// that went in, and exactly the frame's bytes are used.
pub proof fn lemma_command_round_trip(c: CommandView, rest: Seq<u8>)
    requires
        c.fits(),
    ensures
        scan_command(c.frame() + rest) == Scan::Done(c, c.frame().len()),
{
    let (kind, words, pid) = (le64(c.ty), word_list_bytes(c.data), le64_signed(c.pid));
    let (copied, moved) = (word_list_bytes(c.copiedHandles), word_list_bytes(c.movedHandles));
    let t5 = reserved_bytes() + rest;
    let t4 = moved + t5;
    let t3 = copied + t4;
    let t2 = pid + t3;
    let t1 = words + t2;
    let b = kind + t1;
    assert(c.frame() + rest == b);
    lemma_frame_len(c);
    assert(scan_u64(b) == Scan::Done(c.ty, 8) && b.skip(8) == t1) by {
        lemma_le64_round_trip(c.ty, t1);
        lemma_behind(kind, t1);
    }
    assert(scan_word_list(t1) == Scan::Done(c.data, words.len()) && t1.skip(words.len() as int)
        == t2) by {
        lemma_scan_word_list_complete(c.data, t2);
        lemma_behind(words, t2);
    }
    assert(scan_i64(t2) == Scan::Done(c.pid, 8) && t2.skip(8) == t3) by {
        lemma_le64_signed_round_trip(c.pid, t3);
        lemma_behind(pid, t3);
    }
    assert(scan_word_list(t3) == Scan::Done(c.copiedHandles, copied.len()) && t3.skip(
        copied.len() as int,
    ) == t4) by {
        lemma_scan_word_list_complete(c.copiedHandles, t4);
        lemma_behind(copied, t4);
    }
    assert(scan_word_list(t4) == Scan::Done(c.movedHandles, moved.len()) && t4.len() - moved.len()
        == 32 + rest.len()) by {
        lemma_scan_word_list_complete(c.movedHandles, t5);
        lemma_auto_spec_u64_to_from_le_bytes();
    }
    assert(c.frame().len() == 48 + words.len() + copied.len() + moved.len()) by {
        lemma_auto_spec_u64_to_from_le_bytes();
    }
}

/// Every message held in memory fits the wire: no vector is longer than a
/// word can say.
pub proof fn lemma_message_fits(m: OutgoingIPCMessage)
    ensures
        m@.command().fits(),
{
    assert(m.data@.len() == m.data.len());
    assert(m.copiedHandles@.len() == m.copiedHandles.len());
    assert(m.movedHandles@.len() == m.movedHandles.len());
}

/// Encoding a message and reading the frame back field by field gives the
/// kind, the words, the target process and the two handle lists of the
/// message, exactly, and uses exactly the frame's bytes. The buffer channels
/// are not part of this: they never reach the wire.
pub proof fn lemma_message_round_trip(m: OutgoingIPCMessage, rest: Seq<u8>)
    ensures
        scan_command(m@.frame() + rest) == Scan::Done(m@.command(), m@.frame().len()),
{
    lemma_message_fits(m);
    lemma_command_round_trip(m@.command(), rest);
}

/// Two commands with the same frame are the same command, buffer channels
/// apart.
pub proof fn lemma_frame_determines_command(c1: CommandView, c2: CommandView)
    requires
        c1.fits(),
        c2.fits(),
        c1.frame() == c2.frame(),
    ensures
        c1 == c2,
{
    lemma_command_round_trip(c1, Seq::empty());
    lemma_command_round_trip(c2, Seq::empty());
}

/// The target process travels signed. The eight bytes at its place in the
/// frame, read as a two's complement word, are the value that went in: `-1`
/// comes out as `-1`.
pub proof fn lemma_pid_round_trip(c: CommandView, rest: Seq<u8>)
    ensures
        le64_signed_value((c.frame() + rest).skip(c.pid_offset() as int)) == c.pid,
{
    let head = le64(c.ty) + word_list_bytes(c.data);
    let tail = word_list_bytes(c.copiedHandles) + word_list_bytes(c.movedHandles)
        + reserved_bytes() + rest;
    let pid = le64_signed(c.pid);
    lemma_auto_spec_u64_to_from_le_bytes();
    lemma_word_list_bytes_len(c.data);
    lemma_le64_signed_round_trip(c.pid, tail);
    assert(c.frame() + rest == head + (pid + tail));
    lemma_behind(head, pid + tail);
}

/// Buffers set on a message change nothing on the wire: messages that
/// agree on kind, words, target process and handles have the same frame,
/// whatever their buffer channels hold.
pub proof fn lemma_buffers_not_transmitted(m1: OutgoingView, m2: OutgoingView)
    requires
        m1.ty == m2.ty,
        m1.data == m2.data,
        m1.pid == m2.pid,
        m1.copiedHandles == m2.copiedHandles,
        m1.movedHandles == m2.movedHandles,
    ensures
        m1.frame() == m2.frame(),
{
}

} // verus!
