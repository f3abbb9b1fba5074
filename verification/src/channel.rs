//! Buffer-descriptor channels: length-prefixed runs of entries, each a byte
//! buffer of stated length followed by one word of flags.

use crate::wire::{
    carries_over, le64, lemma_le64_of_value, lemma_le64_round_trip, lemma_scan_u64_carries_over,
    scan_u64, scanned, take_u64, within, Scan, Truncated,
};
use vstd::prelude::*;
use vstd::slice::{slice_subrange, slice_to_vec};

verus! {

/// One entry of a channel as the contracts see it: the buffer's bytes and
/// its flags. The flags mean nothing to the codec.
pub type EntryView = (Seq<u8>, u64);

/// One entry off the front of `b`: a word that gives the buffer's length,
/// that many raw bytes, and a word of flags. A length of zero is an entry
/// like any other, with an empty buffer.
pub open spec fn scan_entry(b: Seq<u8>) -> Scan<EntryView> {
    match scan_u64(b) {
        Scan::Short(k) => Scan::Short(k),
        Scan::Done(len, _) => if b.len() - 8 < len {
            Scan::Short((len - (b.len() - 8)) as nat)
        } else {
            match scan_u64(b.skip(8 + len)) {
                Scan::Short(k) => Scan::Short(k),
                Scan::Done(flags, _) => Scan::Done(
                    (b.subrange(8, 8 + len), flags),
                    (16 + len) as nat,
                ),
            }
        },
    }
}

/// `n` entries in a row off the front of `b`.
pub open spec fn scan_entries(b: Seq<u8>, n: nat) -> Scan<Seq<EntryView>>
    decreases n,
{
    if n == 0 {
        Scan::Done(Seq::empty(), 0)
    } else {
        match scan_entries(b, (n - 1) as nat) {
            Scan::Short(k) => Scan::Short(k),
            Scan::Done(es, used) => match scan_entry(b.skip(used as int)) {
                Scan::Short(k) => Scan::Short(k),
                Scan::Done(e, len) => Scan::Done(es.push(e), used + len),
            },
        }
    }
}

/// A channel off the front of `b`: one word that says how many entries
/// follow, then that many entries.
pub open spec fn scan_channel(b: Seq<u8>) -> Scan<Seq<EntryView>> {
    match scan_u64(b) {
        Scan::Short(k) => Scan::Short(k),
        Scan::Done(n, _) => match scan_entries(b.skip(8), n as nat) {
            Scan::Short(k) => Scan::Short(k),
            Scan::Done(es, used) => Scan::Done(es, 8 + used),
        },
    }
}

/// One entry on the wire.
pub open spec fn entry_bytes(e: EntryView) -> Seq<u8> {
    le64(e.0.len() as u64) + e.0 + le64(e.1)
}

/// The entries of `es` on the wire, one after the other.
pub open spec fn entries_bytes(es: Seq<EntryView>) -> Seq<u8>
    decreases es.len(),
{
    if es.len() == 0 {
        Seq::empty()
    } else {
        entries_bytes(es.drop_last()) + entry_bytes(es.last())
    }
}

/// A channel on the wire: the number of its entries as one word, then the
/// entries.
pub open spec fn channel_bytes(es: Seq<EntryView>) -> Seq<u8> {
    le64(es.len() as u64) + entries_bytes(es)
}

/// Whether a channel can be put on the wire at all: its entry count and
/// every buffer length must fit the one word that announces them. Every
/// channel held in memory does.
pub open spec fn channel_fits(es: Seq<EntryView>) -> bool {
    &&& es.len() <= u64::MAX
    &&& forall|i: int| 0 <= i < es.len() ==> (#[trigger] es[i]).0.len() <= u64::MAX
}

/// Reads one entry off the front of `io`.
pub fn take_entry(io: &[u8]) -> (r: Result<((Vec<u8>, u64), usize), Truncated>)
    ensures
        scanned(r) == scan_entry(io@),
        within(scanned(r), io@.len()),
{
    let len: u64 = match take_u64(io) {
        Ok((len, _)) => len,
        Err(e) => return Err(e),
    };
    let have: usize = io.len() - 8;
    if (have as u64) < len {
        return Err(Truncated { missing: len - have as u64 });
    }
    let n: usize = len as usize;
    let data: Vec<u8> = slice_to_vec(slice_subrange(io, 8, 8 + n));
    let flags: u64 = match take_u64(slice_subrange(io, 8 + n, io.len())) {
        Ok((flags, _)) => flags,
        Err(e) => return Err(e),
    };
    assert(data.deep_view() == data@);
    Ok(((data, flags), 16 + n))
}

/// Reads a channel off the front of `io`: one word that says how many
/// entries follow, then that many entries. No bound is put on the count or
/// on any buffer's length; what the bytes at hand cannot satisfy comes back
/// as [`Truncated`].
pub fn take_channel(io: &[u8]) -> (r: Result<(Vec<(Vec<u8>, u64)>, usize), Truncated>)
    ensures
        scanned(r) == scan_channel(io@),
        within(scanned(r), io@.len()),
{
    proof {
        lemma_scan_channel_sound(io@);
    }
    let n: u64 = match take_u64(io) {
        Ok((n, _)) => n,
        Err(e) => return Err(e),
    };
    let ghost body = io@.skip(8);
    let mut es: Vec<(Vec<u8>, u64)> = Vec::new();
    let mut at: usize = 8;
    let mut i: u64 = 0;
    assert(es.deep_view() == Seq::<EntryView>::empty());
    while i < n
        invariant
            8 <= at <= io@.len(),
            i <= n,
            body == io@.skip(8),
            scan_u64(io@) == Scan::Done(n, 8),
            scan_entries(body, i as nat) == Scan::Done(es.deep_view(), (at - 8) as nat),
        decreases n - i,
    {
        let rest: &[u8] = slice_subrange(io, at, io.len());
        assert(rest@ == body.skip(at - 8));
        match take_entry(rest) {
            Err(e) => {
                proof {
                    lemma_scan_entries_short_stays(body, (i + 1) as nat, n as nat);
                }
                return Err(e);
            },
            Ok((entry, len)) => {
                let ghost before = es.deep_view();
                es.push(entry);
                assert(es.deep_view() == before.push(entry.deep_view()));
                at = at + len;
                i = i + 1;
            },
        }
    }
    Ok((es, at))
}

/// Every channel held in memory fits the wire.
pub proof fn lemma_held_channel_fits(es: Vec<(Vec<u8>, u64)>)
    ensures
        channel_fits(es.deep_view()),
{
    let view = es.deep_view();
    assert(view.len() == es.len());
    assert forall|i: int| 0 <= i < view.len() implies (#[trigger] view[i]).0.len() <= u64::MAX by {
        assert(view[i].0.len() == es@[i].0.len());
    }
}

/// Once `m` entries do not fit, no larger number of entries fits, and the
/// shortfall is the one met first.
pub proof fn lemma_scan_entries_short_stays(b: Seq<u8>, m: nat, n: nat)
    requires
        m <= n,
        scan_entries(b, m) is Short,
    ensures
        scan_entries(b, n) == scan_entries(b, m),
    decreases n,
{
    if m < n {
        lemma_scan_entries_short_stays(b, m, (n - 1) as nat);
    }
}

/// What `scan_entry` reads is what `entry_bytes` lays out: an entry read
/// from `b` occupies the first bytes of `b`, and those bytes are the entry's
/// own layout. A shortfall is of at least one byte.
pub proof fn lemma_scan_entry_sound(b: Seq<u8>)
    ensures
        within(scan_entry(b), b.len()),
        scan_entry(b) matches Scan::Done(e, used) ==> {
            &&& used == 16 + e.0.len()
            &&& e.0.len() <= u64::MAX
            &&& entry_bytes(e) == b.subrange(0, used as int)
        },
{
    if let Scan::Done(e, used) = scan_entry(b) {
        let len = e.0.len() as int;
        lemma_le64_of_value(b);
        lemma_le64_of_value(b.skip(8 + len));
        assert(b.skip(8 + len).subrange(0, 8) == b.subrange(8 + len, 16 + len));
        assert(b.subrange(0, 8) + b.subrange(8, 8 + len) + b.subrange(8 + len, 16 + len)
            == b.subrange(0, 16 + len));
    }
}

/// What `entry_bytes` lays out, `scan_entry` reads back, whatever follows.
pub proof fn lemma_scan_entry_complete(e: EntryView, rest: Seq<u8>)
    requires
        e.0.len() <= u64::MAX,
    ensures
        entry_bytes(e).len() == 16 + e.0.len(),
        scan_entry(entry_bytes(e) + rest) == Scan::Done(e, 16 + e.0.len()),
{
    let len = e.0.len() as int;
    let b = entry_bytes(e) + rest;
    lemma_le64_round_trip(len as u64, e.0 + le64(e.1) + rest);
    lemma_le64_round_trip(e.1, rest);
    assert(b == le64(len as u64) + (e.0 + le64(e.1) + rest));
    assert(b.skip(8 + len) == le64(e.1) + rest);
    assert(b.subrange(8, 8 + len) == e.0);
}

/// More bytes behind `b` change nothing that `scan_entry` has read, and
/// shrink a shortfall by their number.
pub proof fn lemma_scan_entry_carries_over(b: Seq<u8>, more: Seq<u8>)
    ensures
        carries_over(scan_entry(b), scan_entry(b + more), more.len()),
{
    lemma_scan_u64_carries_over(b, more);
    if let Scan::Done(len, _) = scan_u64(b) {
        if b.len() - 8 >= len {
            lemma_scan_u64_carries_over(b.skip(8 + len), more);
            assert((b + more).skip(8 + len) == b.skip(8 + len) + more);
            assert((b + more).subrange(8, 8 + len) == b.subrange(8, 8 + len));
        }
    }
}

/// What `scan_entries` reads is what `entries_bytes` lays out.
pub proof fn lemma_scan_entries_sound(b: Seq<u8>, n: nat)
    ensures
        within(scan_entries(b, n), b.len()),
        scan_entries(b, n) matches Scan::Done(es, used) ==> {
            &&& es.len() == n
            &&& used >= 16 * n
            &&& forall|i: int| 0 <= i < es.len() ==> (#[trigger] es[i]).0.len() <= u64::MAX
            &&& entries_bytes(es) == b.subrange(0, used as int)
        },
    decreases n,
{
    if n > 0 {
        lemma_scan_entries_sound(b, (n - 1) as nat);
        if let Scan::Done(es0, used0) = scan_entries(b, (n - 1) as nat) {
            let at = used0 as int;
            let rest = b.skip(at);
            lemma_scan_entry_sound(rest);
            if let Scan::Done(e, len) = scan_entry(rest) {
                let es = es0.push(e);
                assert(es.drop_last() == es0);
                assert(rest.subrange(0, len as int) == b.subrange(at, at + len));
                assert(b.subrange(0, at) + b.subrange(at, at + len) == b.subrange(0, at + len));
            }
        }
    }
}

/// What `entries_bytes` lays out, `scan_entries` reads back, whatever
/// follows.
pub proof fn lemma_scan_entries_complete(es: Seq<EntryView>, rest: Seq<u8>)
    requires
        forall|i: int| 0 <= i < es.len() ==> (#[trigger] es[i]).0.len() <= u64::MAX,
    ensures
        scan_entries(entries_bytes(es) + rest, es.len()) == Scan::Done(
            es,
            entries_bytes(es).len(),
        ),
    decreases es.len(),
{
    if es.len() > 0 {
        let head = entries_bytes(es.drop_last());
        let last = entry_bytes(es.last());
        let b = entries_bytes(es) + rest;
        lemma_scan_entries_complete(es.drop_last(), last + rest);
        lemma_scan_entry_complete(es.last(), rest);
        assert(b == head + (last + rest));
        assert(b.skip(head.len() as int) == last + rest);
        assert(es.drop_last().push(es.last()) == es);
    } else {
        assert(es == Seq::<EntryView>::empty());
    }
}

/// More bytes behind `b` change nothing that `scan_entries` has read, and
/// shrink a shortfall by their number.
pub proof fn lemma_scan_entries_carries_over(b: Seq<u8>, more: Seq<u8>, n: nat)
    ensures
        carries_over(scan_entries(b, n), scan_entries(b + more, n), more.len()),
    decreases n,
{
    if n > 0 {
        lemma_scan_entries_carries_over(b, more, (n - 1) as nat);
        lemma_scan_entries_sound(b, (n - 1) as nat);
        if let Scan::Done(_, used) = scan_entries(b, (n - 1) as nat) {
            lemma_scan_entry_carries_over(b.skip(used as int), more);
            assert((b + more).skip(used as int) == b.skip(used as int) + more);
        }
    }
}

/// What `scan_channel` reads is what `channel_bytes` lays out: a channel
/// read from `b` occupies the first bytes of `b`, and those bytes are the
/// channel's own layout. A shortfall is of at least one byte.
pub proof fn lemma_scan_channel_sound(b: Seq<u8>)
    ensures
        within(scan_channel(b), b.len()),
        scan_channel(b) matches Scan::Done(es, used) ==> {
            &&& used >= 8
            &&& channel_fits(es)
            &&& channel_bytes(es) == b.subrange(0, used as int)
        },
{
    if let Scan::Done(n, _) = scan_u64(b) {
        let body = b.skip(8);
        lemma_scan_entries_sound(body, n as nat);
        if let Scan::Done(es, used) = scan_entries(body, n as nat) {
            let end = 8 + used as int;
            lemma_le64_of_value(b);
            assert(body.subrange(0, used as int) == b.subrange(8, end));
            assert(b.subrange(0, 8) + b.subrange(8, end) == b.subrange(0, end));
        }
    }
}

/// What `channel_bytes` lays out, `scan_channel` reads back, whatever
/// follows.
pub proof fn lemma_scan_channel_complete(es: Seq<EntryView>, rest: Seq<u8>)
    requires
        channel_fits(es),
    ensures
        scan_channel(channel_bytes(es) + rest) == Scan::Done(es, channel_bytes(es).len()),
{
    let b = channel_bytes(es) + rest;
    lemma_le64_round_trip(es.len() as u64, entries_bytes(es) + rest);
    lemma_scan_entries_complete(es, rest);
    assert(b == le64(es.len() as u64) + (entries_bytes(es) + rest));
    assert(b.skip(8) == entries_bytes(es) + rest);
}

/// More bytes behind `b` change nothing that `scan_channel` has read, and
/// shrink a shortfall by their number.
pub proof fn lemma_scan_channel_carries_over(b: Seq<u8>, more: Seq<u8>)
    ensures
        carries_over(scan_channel(b), scan_channel(b + more), more.len()),
{
    lemma_scan_u64_carries_over(b, more);
    if let Scan::Done(n, _) = scan_u64(b) {
        lemma_scan_entries_carries_over(b.skip(8), more, n as nat);
        assert((b + more).skip(8) == b.skip(8) + more);
    }
}

} // verus!
