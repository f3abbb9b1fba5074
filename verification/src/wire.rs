//! Conventions shared by both frame layouts: 64-bit little-endian words and
//! length-prefixed runs of them.

use byteorder::{ByteOrder, LittleEndian};
use vstd::bytes::{
    lemma_auto_spec_u64_to_from_le_bytes, spec_u64_from_le_bytes, spec_u64_to_le_bytes,
};
use vstd::prelude::*;
use vstd::slice::slice_subrange;
use vstd::utf8::encode_utf8;

verus! {

/// The eight bytes that carry `v` on the wire, least significant first.
pub open spec fn le64(v: u64) -> Seq<u8> {
    spec_u64_to_le_bytes(v)
}

/// The eight bytes that carry a signed `v` on the wire: those of its two's
/// complement, so that `-1` travels as eight bytes of `0xFF`.
pub open spec fn le64_signed(v: i64) -> Seq<u8> {
    le64(#[verifier::truncate] (v as u64))
}

/// The word carried by the first eight bytes of `b`.
pub open spec fn le64_value(b: Seq<u8>) -> u64 {
    spec_u64_from_le_bytes(b.subrange(0, 8))
}

/// The signed reading of the first eight bytes of `b`: the same bits as
/// [`le64_value`], taken as two's complement.
pub open spec fn le64_signed_value(b: Seq<u8>) -> i64 {
    #[verifier::truncate]
    (le64_value(b) as i64)
}

/// What reading one item off the front of a byte sequence comes to.
pub enum Scan<T> {
    /// The item, and the number of bytes it occupies.
    Done(T, nat),
    /// The bytes end inside the item. Reading stopped at a field that needs
    /// this many bytes more than there are.
    Short(nat),
}

/// A read that ran out of bytes.
#[derive(Debug, Clone, Copy, PartialEq, Eq)]
pub struct Truncated {
    /// How many bytes the field at which reading stopped still lacks. It is
    /// never zero.
    pub missing: u64,
}

/// The mathematical reading of what a `take_*` function returned.
pub open spec fn scanned<T: DeepView>(r: Result<(T, usize), Truncated>) -> Scan<T::V> {
    match r {
        Ok((v, used)) => Scan::Done(v.deep_view(), used as nat),
        Err(e) => Scan::Short(e.missing as nat),
    }
}

/// One word off the front of `b`.
pub open spec fn scan_u64(b: Seq<u8>) -> Scan<u64> {
    if b.len() >= 8 {
        Scan::Done(le64_value(b), 8)
    } else {
        Scan::Short((8 - b.len()) as nat)
    }
}

/// One signed word off the front of `b`.
pub open spec fn scan_i64(b: Seq<u8>) -> Scan<i64> {
    if b.len() >= 8 {
        Scan::Done(le64_signed_value(b), 8)
    } else {
        Scan::Short((8 - b.len()) as nat)
    }
}

/// Whether an outcome is possible on `len` bytes: an item lies within them,
/// and a shortfall is of at least one byte.
pub open spec fn within<T>(s: Scan<T>, len: nat) -> bool {
    match s {
        Scan::Done(_, used) => used <= len,
        Scan::Short(k) => k >= 1,
    }
}

/// How the outcome on some bytes carries over once `more` bytes have arrived
/// behind them: an item that was read stays as it was, and a shortfall larger
/// than `more` shrinks by `more`.
pub open spec fn carries_over<T>(before: Scan<T>, after: Scan<T>, more: nat) -> bool {
    match before {
        Scan::Done(_, _) => after == before,
        Scan::Short(k) => more < k ==> after == Scan::<T>::Short((k - more) as nat),
    }
}

/// `n` words in a row off the front of `b`.
pub open spec fn scan_words(b: Seq<u8>, n: nat) -> Scan<Seq<u64>>
    decreases n,
{
    if n == 0 {
        Scan::Done(Seq::empty(), 0)
    } else {
        match scan_words(b, (n - 1) as nat) {
            Scan::Short(k) => Scan::Short(k),
            Scan::Done(ws, used) => match scan_u64(b.skip(used as int)) {
                Scan::Short(k) => Scan::Short(k),
                Scan::Done(w, _) => Scan::Done(ws.push(w), used + 8),
            },
        }
    }
}

/// A list of words off the front of `b`: one word that says how many
/// follow, then that many words.
pub open spec fn scan_word_list(b: Seq<u8>) -> Scan<Seq<u64>> {
    match scan_u64(b) {
        Scan::Short(k) => Scan::Short(k),
        Scan::Done(n, _) => match scan_words(b.skip(8), n as nat) {
            Scan::Short(k) => Scan::Short(k),
            Scan::Done(ws, used) => Scan::Done(ws, 8 + used),
        },
    }
}

/// The words of `ws` on the wire, one after the other.
pub open spec fn words_bytes(ws: Seq<u64>) -> Seq<u8>
    decreases ws.len(),
{
    if ws.len() == 0 {
        Seq::empty()
    } else {
        words_bytes(ws.drop_last()) + le64(ws.last())
    }
}

/// A list of words on the wire: its length as one word, then its words.
pub open spec fn word_list_bytes(ws: Seq<u64>) -> Seq<u8> {
    le64(ws.len() as u64) + words_bytes(ws)
}

/// `byteorder::LittleEndian::write_u64` on a fresh eight-byte buffer. Trusted:
/// the buffer then holds the little-endian bytes of `v`.
#[verifier::external_body]
fn u64_to_wire(v: u64) -> (b: [u8; 8])
    ensures
        b@ == le64(v),
{
    let mut b = [0u8; 8];
    LittleEndian::write_u64(&mut b, v);
    b
}

/// `byteorder::LittleEndian::write_i64` on a fresh eight-byte buffer. Trusted:
/// the buffer then holds the little-endian bytes of the two's complement of
/// `v`.
#[verifier::external_body]
fn i64_to_wire(v: i64) -> (b: [u8; 8])
    ensures
        b@ == le64_signed(v),
{
    let mut b = [0u8; 8];
    LittleEndian::write_i64(&mut b, v);
    b
}

/// `byteorder::LittleEndian::read_u64`. Trusted: it returns the word whose
/// little-endian bytes are the first eight of `b`. It panics on a shorter
/// slice, which the precondition rules out.
#[verifier::external_body]
fn u64_from_wire(b: &[u8]) -> (v: u64)
    requires
        b@.len() >= 8,
    ensures
        v == le64_value(b@),
{
    LittleEndian::read_u64(b)
}

/// Appends `bytes` to `io`.
pub fn put_bytes(io: &mut Vec<u8>, bytes: &[u8])
    ensures
        final(io)@ == old(io)@ + bytes@,
{
    let mut i: usize = 0;
    while i < bytes.len()
        invariant
            i <= bytes@.len(),
            io@ == old(io)@ + bytes@.subrange(0, i as int),
        decreases bytes@.len() - i,
    {
        io.push(bytes[i]);
        i += 1;
    }
    assert(bytes@.subrange(0, i as int) == bytes@);
}

/// Appends `v` to `io` as one little-endian word.
pub fn put_u64(io: &mut Vec<u8>, v: u64)
    ensures
        final(io)@ == old(io)@ + le64(v),
{
    let b: [u8; 8] = u64_to_wire(v);
    put_bytes(io, b.as_slice());
}

/// Appends `v` to `io` as one little-endian word in two's complement, so that
/// a negative value arrives as a negative value and not as a large unsigned
/// one.
pub fn put_i64(io: &mut Vec<u8>, v: i64)
    ensures
        final(io)@ == old(io)@ + le64_signed(v),
{
    let b: [u8; 8] = i64_to_wire(v);
    put_bytes(io, b.as_slice());
}

/// Reads one word off the front of `io`.
pub fn take_u64(io: &[u8]) -> (r: Result<(u64, usize), Truncated>)
    ensures
        scanned(r) == scan_u64(io@),
        within(scanned(r), io@.len()),
{
    let have: usize = io.len();
    if have >= 8 {
        Ok((u64_from_wire(io), 8))
    } else {
        Err(Truncated { missing: 8 - have as u64 })
    }
}

/// Appends a list of words to `io`: its length, then each word in order.
pub fn put_word_list(io: &mut Vec<u8>, ws: &[u64])
    ensures
        final(io)@ == old(io)@ + word_list_bytes(ws@),
{
    put_u64(io, ws.len() as u64);
    let mut i: usize = 0;
    while i < ws.len()
        invariant
            i <= ws@.len(),
            io@ == old(io)@ + le64(ws@.len() as u64) + words_bytes(ws@.subrange(0, i as int)),
        decreases ws@.len() - i,
    {
        proof {
            let upto = ws@.subrange(0, i + 1);
            assert(upto.drop_last() == ws@.subrange(0, i as int));
            assert(upto.last() == ws@[i as int]);
        }
        put_u64(io, ws[i]);
        i += 1;
    }
    assert(ws@.subrange(0, i as int) == ws@);
}

/// Reads a list of words off the front of `io`: one word that says how many
/// follow, then that many words. No bound is put on the count; a count that
/// the bytes at hand cannot satisfy comes back as [`Truncated`].
pub fn take_word_list(io: &[u8]) -> (r: Result<(Vec<u64>, usize), Truncated>)
    ensures
        scanned(r) == scan_word_list(io@),
        within(scanned(r), io@.len()),
{
    proof {
        lemma_scan_word_list_sound(io@);
    }
    let n: u64 = match take_u64(io) {
        Ok((n, _)) => n,
        Err(e) => return Err(e),
    };
    let ghost body = io@.skip(8);
    let mut ws: Vec<u64> = Vec::new();
    let mut at: usize = 8;
    let mut i: u64 = 0;
    while i < n
        invariant
            8 <= at <= io@.len(),
            i <= n,
            body == io@.skip(8),
            scan_u64(io@) == Scan::Done(n, 8),
            scan_words(body, i as nat) == Scan::Done(ws@, (at - 8) as nat),
        decreases n - i,
    {
        let rest: &[u8] = slice_subrange(io, at, io.len());
        assert(rest@ == body.skip(at - 8));
        match take_u64(rest) {
            Err(e) => {
                proof {
                    lemma_scan_words_short_stays(body, (i + 1) as nat, n as nat);
                }
                return Err(e);
            },
            Ok((w, _)) => {
                ws.push(w);
                at = at + 8;
                i = i + 1;
            },
        }
    }
    assert(ws.deep_view() == ws@);
    Ok((ws, at))
}

/// Writes a text value: the length of its UTF-8 encoding as one word, then
/// the encoded bytes themselves, with no terminator and no padding.
pub fn write_str(io: &mut Vec<u8>, s: &str)
    ensures
        final(io)@ == old(io)@ + le64(encode_utf8(s@).len() as u64) + encode_utf8(s@),
{
    let bytes: &[u8] = s.as_bytes();
    put_u64(io, bytes.len() as u64);
    put_bytes(io, bytes);
}

/// A sequence is what stands before a place and what stands behind it.
pub proof fn lemma_split(b: Seq<u8>, at: int)
    requires
        0 <= at <= b.len(),
    ensures
        b == b.subrange(0, at) + b.skip(at),
{
}

/// What stands behind the first part of a layout.
pub proof fn lemma_behind(a: Seq<u8>, tail: Seq<u8>)
    ensures
        (a + tail).skip(a.len() as int) == tail,
{
}

/// Where the parts of a three-part layout begin.
pub proof fn lemma_three_parts(a: Seq<u8>, b: Seq<u8>, c: Seq<u8>, rest: Seq<u8>)
    ensures
        a + b + c + rest == a + (b + c + rest),
        (a + b + c + rest).skip(a.len() as int) == b + (c + rest),
        (a + b + c + rest).skip(a.len() as int).skip(b.len() as int) == c + rest,
        (a + b + c).len() == a.len() + b.len() + c.len(),
{
    let all = a + b + c + rest;
    assert(all == a + (b + c + rest));
    assert(all.skip(a.len() as int) == b + (c + rest));
    assert((b + (c + rest)).skip(b.len() as int) == c + rest);
}

/// Where the parts of a four-part layout begin.
pub proof fn lemma_four_parts(a: Seq<u8>, b: Seq<u8>, c: Seq<u8>, d: Seq<u8>, rest: Seq<u8>)
    ensures
        a + b + c + d + rest == a + (b + c + d + rest),
        (a + b + c + d + rest).skip(a.len() as int) == b + (c + d + rest),
        (a + b + c + d + rest).skip(a.len() as int).skip(b.len() as int) == c + (d + rest),
        (a + b + c + d + rest).skip(a.len() as int).skip(b.len() as int).skip(c.len() as int) == d
            + rest,
        (a + b + c + d).len() == a.len() + b.len() + c.len() + d.len(),
{
    let all = a + b + c + d + rest;
    assert(all == a + (b + c + d + rest));
    assert(all.skip(a.len() as int) == b + (c + d + rest));
    assert((b + (c + d + rest)).skip(b.len() as int) == c + (d + rest));
    assert((c + (d + rest)).skip(c.len() as int) == d + rest);
}

/// Three items read one behind the other make up what stands before the
/// end of the third.
pub proof fn lemma_three_cuts(b: Seq<u8>, n1: nat, n2: nat, n3: nat)
    requires
        n1 + n2 + n3 <= b.len(),
    ensures
        b.subrange(0, n1 as int) + b.skip(n1 as int).subrange(0, n2 as int) + b.skip(
            n1 as int,
        ).skip(n2 as int).subrange(0, n3 as int) == b.subrange(0, (n1 + n2 + n3) as int),
{
    let (end1, end2, end3) = (n1 as int, (n1 + n2) as int, (n1 + n2 + n3) as int);
    assert(b.skip(end1).subrange(0, n2 as int) == b.subrange(end1, end2));
    assert(b.skip(end1).skip(n2 as int).subrange(0, n3 as int) == b.subrange(end2, end3));
    assert(b.subrange(0, end1) + b.subrange(end1, end2) + b.subrange(end2, end3) == b.subrange(
        0,
        end3,
    ));
}

/// Four items read one behind the other make up what stands before the end
/// of the fourth.
pub proof fn lemma_four_cuts(b: Seq<u8>, n1: nat, n2: nat, n3: nat, n4: nat)
    requires
        n1 + n2 + n3 + n4 <= b.len(),
    ensures
        b.subrange(0, n1 as int) + b.skip(n1 as int).subrange(0, n2 as int) + b.skip(
            n1 as int,
        ).skip(n2 as int).subrange(0, n3 as int) + b.skip(n1 as int).skip(n2 as int).skip(
            n3 as int,
        ).subrange(0, n4 as int) == b.subrange(0, (n1 + n2 + n3 + n4) as int),
{
    let (end1, end2, end3) = (n1 as int, (n1 + n2) as int, (n1 + n2 + n3) as int);
    let end4 = end3 + n4;
    lemma_three_cuts(b, n1, n2, n3);
    assert(b.skip(end1).skip(n2 as int).skip(n3 as int).subrange(0, n4 as int) == b.subrange(
        end3,
        end4,
    ));
    assert(b.subrange(0, end3) + b.subrange(end3, end4) == b.subrange(0, end4));
}

/// A word survives the trip through its eight bytes, whatever follows them.
pub proof fn lemma_le64_round_trip(v: u64, rest: Seq<u8>)
    ensures
        le64(v).len() == 8,
        le64_value(le64(v) + rest) == v,
{
    lemma_auto_spec_u64_to_from_le_bytes();
    assert((le64(v) + rest).subrange(0, 8) == le64(v));
}

/// A target process survives the trip through its eight bytes, sign and
/// all, whatever follows them.
pub proof fn lemma_le64_signed_round_trip(v: i64, rest: Seq<u8>)
    ensures
        le64_signed(v).len() == 8,
        le64_signed_value(le64_signed(v) + rest) == v,
{
    lemma_le64_round_trip(v as u64, rest);
    assert((v as u64) as i64 == v) by (bit_vector);
}

/// Eight bytes are the bytes of the word they carry.
pub proof fn lemma_le64_of_value(b: Seq<u8>)
    requires
        b.len() >= 8,
    ensures
        le64(le64_value(b)) == b.subrange(0, 8),
{
    lemma_auto_spec_u64_to_from_le_bytes();
}

/// Once `m` words do not fit, no larger number of words fits, and the
/// shortfall is the one met first.
pub proof fn lemma_scan_words_short_stays(b: Seq<u8>, m: nat, n: nat)
    requires
        m <= n,
        scan_words(b, m) is Short,
    ensures
        scan_words(b, n) == scan_words(b, m),
    decreases n,
{
    if m < n {
        lemma_scan_words_short_stays(b, m, (n - 1) as nat);
    }
}

/// What `scan_words` reads is what `words_bytes` lays out: `n` words read
/// from `b` occupy its first `8 * n` bytes, and those bytes are the words'
/// own layout. A shortfall is of at least one byte.
pub proof fn lemma_scan_words_sound(b: Seq<u8>, n: nat)
    ensures
        within(scan_words(b, n), b.len()),
        scan_words(b, n) matches Scan::Done(ws, used) ==> {
            &&& ws.len() == n
            &&& used == 8 * n
            &&& words_bytes(ws) == b.subrange(0, used as int)
        },
    decreases n,
{
    if n > 0 {
        lemma_scan_words_sound(b, (n - 1) as nat);
        if let Scan::Done(ws0, used0) = scan_words(b, (n - 1) as nat) {
            let rest = b.skip(used0 as int);
            if let Scan::Done(w, _) = scan_u64(rest) {
                let ws = ws0.push(w);
                lemma_le64_of_value(rest);
                assert(ws.drop_last() == ws0);
                let at = used0 as int;
                assert(rest.subrange(0, 8) == b.subrange(at, at + 8));
                assert(b.subrange(0, at) + b.subrange(at, at + 8) == b.subrange(0, at + 8));
            }
        }
    }
}

/// A list of words takes one word for its length and one for each of its
/// own.
pub proof fn lemma_word_list_bytes_len(ws: Seq<u64>)
    ensures
        words_bytes(ws).len() == 8 * ws.len(),
        word_list_bytes(ws).len() == 8 + 8 * ws.len(),
    decreases ws.len(),
{
    lemma_auto_spec_u64_to_from_le_bytes();
    if ws.len() > 0 {
        lemma_word_list_bytes_len(ws.drop_last());
    }
}

/// What `words_bytes` lays out, `scan_words` reads back, whatever follows.
pub proof fn lemma_scan_words_complete(ws: Seq<u64>, rest: Seq<u8>)
    ensures
        scan_words(words_bytes(ws) + rest, ws.len()) == Scan::Done(ws, 8 * ws.len()),
    decreases ws.len(),
{
    if ws.len() > 0 {
        let head = words_bytes(ws.drop_last());
        let last = le64(ws.last());
        lemma_word_list_bytes_len(ws.drop_last());
        lemma_scan_words_complete(ws.drop_last(), last + rest);
        lemma_le64_round_trip(ws.last(), rest);
        let b = words_bytes(ws) + rest;
        assert(b == head + (last + rest));
        assert(b.skip(head.len() as int) == last + rest);
        assert(ws.drop_last().push(ws.last()) == ws);
    } else {
        assert(ws == Seq::<u64>::empty());
    }
}

/// More bytes behind `b` change nothing that `scan_u64` has read, and shrink
/// a shortfall by their number.
pub proof fn lemma_scan_u64_carries_over(b: Seq<u8>, more: Seq<u8>)
    ensures
        carries_over(scan_u64(b), scan_u64(b + more), more.len()),
{
    if b.len() >= 8 {
        assert((b + more).subrange(0, 8) == b.subrange(0, 8));
    }
}

/// More bytes behind `b` change nothing that `scan_words` has read, and
/// shrink a shortfall by their number.
pub proof fn lemma_scan_words_carries_over(b: Seq<u8>, more: Seq<u8>, n: nat)
    ensures
        carries_over(scan_words(b, n), scan_words(b + more, n), more.len()),
    decreases n,
{
    if n > 0 {
        lemma_scan_words_carries_over(b, more, (n - 1) as nat);
        lemma_scan_words_sound(b, (n - 1) as nat);
        if let Scan::Done(_, used) = scan_words(b, (n - 1) as nat) {
            lemma_scan_u64_carries_over(b.skip(used as int), more);
            assert((b + more).skip(used as int) == b.skip(used as int) + more);
        }
    }
}

/// What `scan_word_list` reads is what `word_list_bytes` lays out.
pub proof fn lemma_scan_word_list_sound(b: Seq<u8>)
    ensures
        within(scan_word_list(b), b.len()),
        scan_word_list(b) matches Scan::Done(ws, used) ==> {
            &&& used == 8 + 8 * ws.len()
            &&& ws.len() <= u64::MAX
            &&& word_list_bytes(ws) == b.subrange(0, used as int)
        },
{
    if let Scan::Done(n, _) = scan_u64(b) {
        let body = b.skip(8);
        lemma_scan_words_sound(body, n as nat);
        if let Scan::Done(ws, used) = scan_words(body, n as nat) {
            lemma_le64_of_value(b);
            let end = 8 + used as int;
            assert(body.subrange(0, used as int) == b.subrange(8, end));
            assert(b.subrange(0, 8) + b.subrange(8, end) == b.subrange(0, end));
        }
    }
}

/// What `word_list_bytes` lays out, `scan_word_list` reads back, whatever
/// follows.
pub proof fn lemma_scan_word_list_complete(ws: Seq<u64>, rest: Seq<u8>)
    requires
        ws.len() <= u64::MAX,
    ensures
        scan_word_list(word_list_bytes(ws) + rest) == Scan::Done(ws, word_list_bytes(ws).len()),
{
    lemma_word_list_bytes_len(ws);
    let count = le64(ws.len() as u64);
    let b = word_list_bytes(ws) + rest;
    lemma_le64_round_trip(ws.len() as u64, words_bytes(ws) + rest);
    lemma_scan_words_complete(ws, rest);
    assert(b == count + (words_bytes(ws) + rest));
    assert(b.skip(8) == words_bytes(ws) + rest);
}

/// More bytes behind `b` change nothing that `scan_word_list` has read, and
/// shrink a shortfall by their number.
pub proof fn lemma_scan_word_list_carries_over(b: Seq<u8>, more: Seq<u8>)
    ensures
        carries_over(scan_word_list(b), scan_word_list(b + more), more.len()),
{
    lemma_scan_u64_carries_over(b, more);
    if let Scan::Done(n, _) = scan_u64(b) {
        lemma_scan_words_carries_over(b.skip(8), more, n as nat);
        assert((b + more).skip(8) == b.skip(8) + more);
    }
}

} // verus!
