use ipc_bridge::channel::{take_channel, take_entry};
use ipc_bridge::incoming::{take_channels, take_lists, take_reply, IncomingBridgeMessage, Reply};
use ipc_bridge::wire::{take_u64, take_word_list, Truncated};

fn word(v: u64) -> Vec<u8> {
    v.to_le_bytes().to_vec()
}

fn list(ws: &[u64]) -> Vec<u8> {
    let mut io = word(ws.len() as u64);
    for w in ws {
        io.extend(word(*w));
    }
    io
}

fn entry(data: &[u8], flags: u64) -> Vec<u8> {
    let mut io = word(data.len() as u64);
    io.extend_from_slice(data);
    io.extend(word(flags));
    io
}

fn channel(entries: &[(Vec<u8>, u64)]) -> Vec<u8> {
    let mut io = word(entries.len() as u64);
    for (data, flags) in entries {
        io.extend(entry(data, *flags));
    }
    io
}

fn frame(reply: &Reply) -> Vec<u8> {
    let mut io = word(0);
    io.extend(list(&reply.data));
    io.extend(list(&reply.copiedHandles));
    io.extend(list(&reply.movedHandles));
    io.extend(channel(&reply.aBufs));
    io.extend(channel(&reply.bBufs));
    io.extend(channel(&reply.cBufs));
    io.extend(channel(&reply.xBufs));
    io.extend(word(reply.ty));
    io
}

fn empty(ty: u64) -> Reply {
    Reply {
        ty,
        data: vec![],
        copiedHandles: vec![],
        movedHandles: vec![],
        aBufs: vec![],
        bBufs: vec![],
        cBufs: vec![],
        xBufs: vec![],
    }
}

fn full() -> Reply {
    Reply {
        ty: 0x77,
        data: vec![0, 0x7100_0000, u64::MAX],
        copiedHandles: vec![0xFFFF8001],
        movedHandles: vec![3, 4],
        aBufs: vec![(vec![1, 2, 3, 4, 5], 0x10), (vec![], 0)],
        bBufs: vec![],
        cBufs: vec![(vec![0xEE; 300], u64::MAX)],
        xBufs: vec![(vec![9], 1), (vec![8, 8], 2), (vec![7, 7, 7], 3)],
    }
}

fn short(missing: u64) -> Truncated {
    Truncated { missing }
}

#[test]
fn nonzero_result_is_an_error_of_eight_bytes() {
    let io = word(5);
    assert_eq!(
        IncomingBridgeMessage::read(&io),
        Ok((IncomingBridgeMessage::Error { res: 5 }, 8))
    );
}

#[test]
fn every_nonzero_result_is_an_error() {
    for res in [1, 2, 0xF601, 1 << 32, 1 << 63, u64::MAX] {
        let io = word(res);
        assert_eq!(
            IncomingBridgeMessage::read(&io),
            Ok((IncomingBridgeMessage::Error { res }, 8))
        );
    }
}

#[test]
fn nothing_is_read_behind_a_nonzero_result() {
    let mut io = word(0xE401);
    io.extend(frame(&full()));
    io.extend_from_slice(&[1, 2, 3]);
    assert_eq!(
        IncomingBridgeMessage::read(&io),
        Ok((IncomingBridgeMessage::Error { res: 0xE401 }, 8))
    );
}

#[test]
fn error_result_code_is_little_endian() {
    let io = [0x01, 0x02, 0, 0, 0, 0, 0, 0];
    assert_eq!(
        IncomingBridgeMessage::read(&io),
        Ok((IncomingBridgeMessage::Error { res: 0x0201 }, 8))
    );
}

#[test]
fn nine_words_make_an_empty_reply() {
    let mut io = vec![0u8; 64];
    io.extend(word(3));
    assert_eq!(io.len(), 8 + 8 * 3 + 8 * 4 + 8);
    assert_eq!(
        IncomingBridgeMessage::read(&io),
        Ok((IncomingBridgeMessage::Success(empty(3)), 72))
    );
}

#[test]
fn empty_reply_of_kind_zero() {
    let io = vec![0u8; 72];
    assert_eq!(
        IncomingBridgeMessage::read(&io),
        Ok((IncomingBridgeMessage::Success(empty(0)), 72))
    );
}

#[test]
fn full_reply_is_read_back() {
    let io = frame(&full());
    assert_eq!(
        IncomingBridgeMessage::read(&io),
        Ok((IncomingBridgeMessage::Success(full()), io.len()))
    );
}

#[test]
fn bytes_behind_the_frame_are_left_alone() {
    let mut io = frame(&full());
    let used = io.len();
    io.extend(frame(&empty(1)));
    assert_eq!(
        IncomingBridgeMessage::read(&io),
        Ok((IncomingBridgeMessage::Success(full()), used))
    );
    assert_eq!(
        IncomingBridgeMessage::read(&io[used..]),
        Ok((IncomingBridgeMessage::Success(empty(1)), 72))
    );
}

#[test]
fn one_entry_of_five_bytes() {
    let mut reply = empty(1);
    reply.aBufs.push((vec![10, 20, 30, 40, 50], 0xABCD));
    let io = frame(&reply);
    assert_eq!(io.len(), 72 + 8 + 5 + 8);
    assert_eq!(&io[40..48], &[5, 0, 0, 0, 0, 0, 0, 0]);
    assert_eq!(&io[48..53], &[10, 20, 30, 40, 50]);
    assert_eq!(&io[53..61], &[0xCD, 0xAB, 0, 0, 0, 0, 0, 0]);
    match IncomingBridgeMessage::read(&io) {
        Ok((IncomingBridgeMessage::Success(got), used)) => {
            assert_eq!(used, 93);
            assert_eq!(got.aBufs, vec![(vec![10, 20, 30, 40, 50], 0xABCD)]);
            assert_eq!(got, reply);
        }
        other => panic!("{:?}", other),
    }
}

#[test]
fn take_entry_reads_five_bytes_and_flags() {
    let mut io = entry(&[10, 20, 30, 40, 50], 0xABCD);
    io.extend_from_slice(&[0xFF; 4]);
    assert_eq!(take_entry(&io), Ok(((vec![10, 20, 30, 40, 50], 0xABCD), 21)));
}

#[test]
fn empty_buffer_is_an_entry() {
    let io = entry(&[], 6);
    assert_eq!(io.len(), 16);
    assert_eq!(take_entry(&io), Ok(((vec![], 6), 16)));
    let mut reply = empty(2);
    reply.xBufs.push((vec![], 6));
    reply.xBufs.push((vec![], 7));
    let io = frame(&reply);
    assert_eq!(
        IncomingBridgeMessage::read(&io),
        Ok((IncomingBridgeMessage::Success(reply), 72 + 32))
    );
}

#[test]
fn channels_come_in_the_order_a_b_c_x() {
    let mut io = word(0);
    io.extend(vec![0u8; 24]);
    io.extend(channel(&[(vec![0xA], 1)]));
    io.extend(channel(&[(vec![0xB], 2)]));
    io.extend(channel(&[(vec![0xC], 3)]));
    io.extend(channel(&[(vec![0xD], 4)]));
    io.extend(word(9));
    match IncomingBridgeMessage::read(&io) {
        Ok((IncomingBridgeMessage::Success(got), used)) => {
            assert_eq!(used, io.len());
            assert_eq!(got.aBufs, vec![(vec![0xA], 1)]);
            assert_eq!(got.bBufs, vec![(vec![0xB], 2)]);
            assert_eq!(got.cBufs, vec![(vec![0xC], 3)]);
            assert_eq!(got.xBufs, vec![(vec![0xD], 4)]);
            assert_eq!(got.ty, 9);
        }
        other => panic!("{:?}", other),
    }
}

#[test]
fn lists_come_in_the_order_words_copied_moved() {
    let mut io = word(0);
    io.extend(list(&[1]));
    io.extend(list(&[2, 2]));
    io.extend(list(&[3, 3, 3]));
    io.extend(vec![0u8; 32]);
    io.extend(word(0));
    match IncomingBridgeMessage::read(&io) {
        Ok((IncomingBridgeMessage::Success(got), _)) => {
            assert_eq!(got.data, vec![1]);
            assert_eq!(got.copiedHandles, vec![2, 2]);
            assert_eq!(got.movedHandles, vec![3, 3, 3]);
        }
        other => panic!("{:?}", other),
    }
}

#[test]
fn kind_is_the_last_word_of_the_frame() {
    let io = frame(&full());
    let n = io.len();
    assert_eq!(&io[n - 8..], &[0x77, 0, 0, 0, 0, 0, 0, 0]);
    let mut other = io.clone();
    other[n - 8] = 0x78;
    match IncomingBridgeMessage::read(&other) {
        Ok((IncomingBridgeMessage::Success(got), used)) => {
            assert_eq!(used, n);
            assert_eq!(got.ty, 0x78);
        }
        other => panic!("{:?}", other),
    }
}

#[test]
fn kind_placed_first_is_not_read_as_the_kind() {
    let reply = Reply { ty: 2, data: vec![5], ..empty(0) };
    let mut io = word(0);
    io.extend(word(reply.ty));
    io.extend(list(&reply.data));
    io.extend(vec![0u8; 16]);
    io.extend(vec![0u8; 32]);
    assert_eq!(io.len(), frame(&reply).len());
    let got = IncomingBridgeMessage::read(&io);
    assert_ne!(got, Ok((IncomingBridgeMessage::Success(reply), io.len())));
    assert_eq!(got, Err(short(8)));
    io.extend(word(0));
    match IncomingBridgeMessage::read(&io) {
        Ok((IncomingBridgeMessage::Success(got), _)) => {
            assert_eq!(got.data, vec![1, 5]);
            assert_eq!(got.ty, 0);
        }
        other => panic!("{:?}", other),
    }
}

#[test]
fn kind_placed_before_the_channels_is_not_read_as_the_kind() {
    let reply = Reply { ty: 1, aBufs: vec![(vec![4, 4], 4)], ..empty(0) };
    let mut io = word(0);
    io.extend(vec![0u8; 24]);
    io.extend(word(reply.ty));
    io.extend(channel(&reply.aBufs));
    io.extend(vec![0u8; 24]);
    assert_eq!(io.len(), frame(&reply).len());
    assert_ne!(
        IncomingBridgeMessage::read(&io),
        Ok((IncomingBridgeMessage::Success(reply), io.len()))
    );
}

#[test]
fn no_bytes_are_short_of_a_word() {
    assert_eq!(IncomingBridgeMessage::read(&[]), Err(short(8)));
    assert_eq!(take_u64(&[]), Err(short(8)));
}

#[test]
fn part_of_the_result_is_short() {
    assert_eq!(IncomingBridgeMessage::read(&[1, 0, 0]), Err(short(5)));
    assert_eq!(IncomingBridgeMessage::read(&[0; 7]), Err(short(1)));
}

#[test]
fn zero_result_alone_is_short() {
    assert_eq!(IncomingBridgeMessage::read(&word(0)), Err(short(8)));
}

#[test]
fn missing_word_of_a_list_is_short() {
    let mut io = word(0);
    io.extend(word(2));
    io.extend(word(11));
    io.extend_from_slice(&[12, 0, 0, 0]);
    assert_eq!(IncomingBridgeMessage::read(&io), Err(short(4)));
}

#[test]
fn missing_buffer_bytes_are_short() {
    let mut io = vec![0u8; 32];
    io.extend(word(1));
    io.extend(word(5));
    io.extend_from_slice(&[1, 2]);
    assert_eq!(IncomingBridgeMessage::read(&io), Err(short(3)));
}

#[test]
fn missing_flags_are_short() {
    let mut io = vec![0u8; 32];
    io.extend(word(1));
    io.extend(word(5));
    io.extend_from_slice(&[1, 2, 3, 4, 5]);
    assert_eq!(IncomingBridgeMessage::read(&io), Err(short(8)));
    io.extend_from_slice(&[0; 6]);
    assert_eq!(IncomingBridgeMessage::read(&io), Err(short(2)));
}

#[test]
fn missing_kind_is_short() {
    let io = vec![0u8; 64];
    assert_eq!(IncomingBridgeMessage::read(&io), Err(short(8)));
    let io = vec![0u8; 71];
    assert_eq!(IncomingBridgeMessage::read(&io), Err(short(1)));
}

#[test]
fn no_count_is_too_large_to_try() {
    let mut io = word(0);
    io.extend(word(u64::MAX));
    assert_eq!(IncomingBridgeMessage::read(&io), Err(short(8)));
    io.extend(word(1));
    io.extend_from_slice(&[0; 3]);
    assert_eq!(IncomingBridgeMessage::read(&io), Err(short(5)));
}

#[test]
fn no_buffer_length_is_too_large_to_try() {
    let mut io = vec![0u8; 32];
    io.extend(word(u64::MAX));
    io.extend(word(u64::MAX));
    io.extend_from_slice(&[0; 10]);
    assert_eq!(IncomingBridgeMessage::read(&io), Err(short(u64::MAX - 10)));
}

#[test]
fn every_proper_prefix_of_a_frame_is_short() {
    let io = frame(&full());
    for n in 0..io.len() {
        match IncomingBridgeMessage::read(&io[..n]) {
            Err(Truncated { missing }) => {
                assert!(missing >= 1);
                assert!(n as u64 + missing <= io.len() as u64);
            }
            other => panic!("{} bytes: {:?}", n, other),
        }
    }
}

#[test]
fn fetching_what_is_missing_ends_at_the_end_of_the_frame() {
    let mut stream = frame(&full());
    let len = stream.len();
    stream.extend(frame(&empty(4)));
    let mut have = 0;
    let mut rounds = 0;
    loop {
        match IncomingBridgeMessage::read(&stream[..have]) {
            Ok((msg, used)) => {
                assert_eq!(msg, IncomingBridgeMessage::Success(full()));
                assert_eq!(used, len);
                assert_eq!(have, len);
                break;
            }
            Err(Truncated { missing }) => {
                have += missing as usize;
                assert!(have <= len);
            }
        }
        rounds += 1;
        assert!(rounds < 100);
    }
}

#[test]
fn missing_shrinks_byte_by_byte() {
    let mut io = vec![0u8; 32];
    io.extend(word(1));
    io.extend(word(100));
    for have in 0..100u64 {
        assert_eq!(IncomingBridgeMessage::read(&io), Err(short(100 - have)));
        io.push(0xAB);
    }
    assert_eq!(IncomingBridgeMessage::read(&io), Err(short(8)));
}

#[test]
fn res_is_the_result_word() {
    assert_eq!(IncomingBridgeMessage::Error { res: 0xF601 }.res(), 0xF601);
    assert_eq!(IncomingBridgeMessage::Success(full()).res(), 0);
}

#[test]
fn take_u64_is_little_endian() {
    assert_eq!(take_u64(&[8, 7, 6, 5, 4, 3, 2, 1]), Ok((0x0102_0304_0506_0708, 8)));
    assert_eq!(take_u64(&[0xFF; 8]), Ok((u64::MAX, 8)));
    assert_eq!(take_u64(&[1, 0, 0, 0, 0, 0, 0, 0, 0x55, 0x66]), Ok((1, 8)));
}

#[test]
fn take_word_list_reads_length_then_words() {
    let mut io = list(&[7, 8, 9]);
    io.push(0xFF);
    assert_eq!(take_word_list(&io), Ok((vec![7, 8, 9], 32)));
    assert_eq!(take_word_list(&word(0)), Ok((vec![], 8)));
    assert_eq!(take_word_list(&io[..31]), Err(short(1)));
    assert_eq!(take_word_list(&io[..8]), Err(short(8)));
    assert_eq!(take_word_list(&io[..5]), Err(short(3)));
}

#[test]
fn take_channel_reads_count_then_entries() {
    let entries = vec![(vec![1, 2, 3], 5), (vec![], 6), (vec![4], 7)];
    let mut io = channel(&entries);
    let len = io.len();
    assert_eq!(len, 8 + (16 + 3) + 16 + (16 + 1));
    io.extend_from_slice(&[0xFF; 9]);
    assert_eq!(take_channel(&io), Ok((entries, len)));
    assert_eq!(take_channel(&word(0)), Ok((vec![], 8)));
    assert_eq!(take_channel(&io[..len - 1]), Err(short(1)));
    assert_eq!(take_channel(&io[..8 + 19 + 16 + 8]), Err(short(1)));
    assert_eq!(take_channel(&io[..10]), Err(short(6)));
}

#[test]
fn take_lists_reads_three_lists() {
    let mut io = list(&[1]);
    io.extend(list(&[]));
    io.extend(list(&[2, 3]));
    assert_eq!(take_lists(&io), Ok(((vec![1], vec![], vec![2, 3]), 48)));
    assert_eq!(take_lists(&io[..40]), Err(short(8)));
    assert_eq!(take_lists(&io[..17]), Err(short(7)));
}

#[test]
fn take_channels_reads_four_channels() {
    let mut io = channel(&[]);
    io.extend(channel(&[(vec![1], 1)]));
    io.extend(channel(&[]));
    io.extend(channel(&[(vec![], 2)]));
    assert_eq!(io.len(), 8 + 25 + 8 + 24);
    assert_eq!(
        take_channels(&io),
        Ok(((vec![], vec![(vec![1], 1)], vec![], vec![(vec![], 2)]), 65))
    );
    assert_eq!(take_channels(&io[..64]), Err(short(1)));
    assert_eq!(take_channels(&io[..33]), Err(short(8)));
}

#[test]
fn take_reply_reads_what_follows_the_result() {
    let io = frame(&full());
    assert_eq!(take_reply(&io[8..]), Ok((full(), io.len() - 8)));
    assert_eq!(take_reply(&[0; 64]), Ok((empty(0), 64)));
    assert_eq!(take_reply(&[0; 63]), Err(short(1)));
}
