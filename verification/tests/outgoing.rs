use byteorder::{ReadBytesExt, LE};
use ipc_bridge::outgoing::OutgoingIPCMessage;
use ipc_bridge::wire::{put_i64, put_u64, put_word_list, write_str};

/// What a receiver makes of a command's frame.
#[derive(Debug, PartialEq)]
struct Received {
    ty: u64,
    data: Vec<u64>,
    pid: i64,
    copied: Vec<u64>,
    moved: Vec<u64>,
    reserved: [u64; 4],
    left: usize,
}

fn receive_list(io: &mut &[u8]) -> Vec<u64> {
    let n = io.read_u64::<LE>().unwrap();
    (0..n).map(|_| io.read_u64::<LE>().unwrap()).collect()
}

fn receive(frame: &[u8]) -> Received {
    let mut io = frame;
    let ty = io.read_u64::<LE>().unwrap();
    let data = receive_list(&mut io);
    let pid = io.read_i64::<LE>().unwrap();
    let copied = receive_list(&mut io);
    let moved = receive_list(&mut io);
    let mut reserved = [0u64; 4];
    for word in reserved.iter_mut() {
        *word = io.read_u64::<LE>().unwrap();
    }
    Received { ty, data, pid, copied, moved, reserved, left: io.len() }
}

fn frame_of(msg: &OutgoingIPCMessage) -> Vec<u8> {
    let mut io = Vec::new();
    msg.write(&mut io);
    io
}

#[test]
fn new_sets_kind_and_sub_command() {
    let msg = OutgoingIPCMessage::new(4, 2);
    assert_eq!(msg.ty, 4);
    assert_eq!(msg.data, vec![2]);
    assert_eq!(msg.pid, -1);
    assert!(msg.copiedHandles.is_empty());
    assert!(msg.movedHandles.is_empty());
    assert!(msg.aBufs.is_empty());
    assert!(msg.bBufs.is_empty());
    assert!(msg.cBufs.is_empty());
    assert!(msg.xBufs.is_empty());
}

#[test]
fn new_widens_the_kind() {
    let msg = OutgoingIPCMessage::new(255, u64::MAX);
    assert_eq!(msg.ty, 255);
    assert_eq!(msg.data, vec![u64::MAX]);
}

#[test]
fn initialize_command_is_96_bytes() {
    let mut msg = OutgoingIPCMessage::new(4, 4);
    msg.data.push(0);
    msg.copiedHandles.push(0xFFFF8001);
    msg.pid = 10;
    let io = frame_of(&msg);
    assert_eq!(io.len(), 96);
    assert_eq!(&io[0..8], &[4, 0, 0, 0, 0, 0, 0, 0]);
}

#[test]
fn initialize_command_byte_for_byte() {
    let mut msg = OutgoingIPCMessage::new(4, 4);
    msg.data.push(0);
    msg.copiedHandles.push(0xFFFF8001);
    msg.pid = 10;
    let mut expected: Vec<u8> = Vec::new();
    expected.extend_from_slice(&[4, 0, 0, 0, 0, 0, 0, 0]);
    expected.extend_from_slice(&[2, 0, 0, 0, 0, 0, 0, 0]);
    expected.extend_from_slice(&[4, 0, 0, 0, 0, 0, 0, 0]);
    expected.extend_from_slice(&[0, 0, 0, 0, 0, 0, 0, 0]);
    expected.extend_from_slice(&[10, 0, 0, 0, 0, 0, 0, 0]);
    expected.extend_from_slice(&[1, 0, 0, 0, 0, 0, 0, 0]);
    expected.extend_from_slice(&[0x01, 0x80, 0xFF, 0xFF, 0, 0, 0, 0]);
    expected.extend_from_slice(&[0, 0, 0, 0, 0, 0, 0, 0]);
    expected.extend_from_slice(&[0; 32]);
    assert_eq!(frame_of(&msg), expected);
}

#[test]
fn smallest_command_is_80_bytes() {
    let msg = OutgoingIPCMessage::new(1, 7);
    assert_eq!(frame_of(&msg).len(), 8 * (5 + 1) + 32);
}

#[test]
fn frame_length_counts_every_word_and_handle() {
    let mut msg = OutgoingIPCMessage::new(4, 2);
    msg.data.extend_from_slice(&[0, 0x7100_0000, 0x1000]);
    msg.copiedHandles.extend_from_slice(&[1, 2]);
    msg.movedHandles.extend_from_slice(&[3, 4, 5]);
    assert_eq!(frame_of(&msg).len(), 8 * (5 + 4 + 2 + 3) + 32);
}

#[test]
fn write_appends_and_keeps_what_was_there() {
    let msg = OutgoingIPCMessage::new(4, 4);
    let mut io = vec![0xAA, 0xBB];
    msg.write(&mut io);
    assert_eq!(io.len(), 2 + 80);
    assert_eq!(&io[..2], &[0xAA, 0xBB]);
    assert_eq!(&io[2..], &frame_of(&msg)[..]);
}

#[test]
fn write_leaves_the_message_as_it_was() {
    let mut msg = OutgoingIPCMessage::new(4, 4);
    msg.movedHandles.push(9);
    msg.aBufs.push(vec![1, 2, 3]);
    let first = frame_of(&msg);
    let second = frame_of(&msg);
    assert_eq!(first, second);
    assert_eq!(msg.movedHandles, vec![9]);
    assert_eq!(msg.aBufs, vec![vec![1, 2, 3]]);
}

#[test]
fn command_round_trips_through_a_receiver() {
    let mut msg = OutgoingIPCMessage::new(4, 2);
    msg.pid = 0xA;
    msg.data.push(0);
    msg.data.push(0xDEAD_BEEF_0000_0001);
    msg.data.push(0x1000);
    msg.copiedHandles.push(0xFFFF8001);
    msg.movedHandles.push(17);
    msg.movedHandles.push(u64::MAX);
    let got = receive(&frame_of(&msg));
    assert_eq!(
        got,
        Received {
            ty: 4,
            data: vec![2, 0, 0xDEAD_BEEF_0000_0001, 0x1000],
            pid: 0xA,
            copied: vec![0xFFFF8001],
            moved: vec![17, u64::MAX],
            reserved: [0; 4],
            left: 0,
        }
    );
}

#[test]
fn empty_lists_round_trip() {
    let mut msg = OutgoingIPCMessage::new(0, 0);
    msg.data.clear();
    let got = receive(&frame_of(&msg));
    assert_eq!(got.data, Vec::<u64>::new());
    assert_eq!(got.copied, Vec::<u64>::new());
    assert_eq!(got.moved, Vec::<u64>::new());
    assert_eq!(frame_of(&msg).len(), 8 * 5 + 32);
}

#[test]
fn no_target_process_comes_back_as_minus_one() {
    let msg = OutgoingIPCMessage::new(4, 4);
    let io = frame_of(&msg);
    assert_eq!(&io[24..32], &[0xFF; 8]);
    let got = receive(&io);
    assert_eq!(got.pid, -1);
    assert_ne!(got.pid as i128, 18446744073709551615i128);
}

#[test]
fn target_process_keeps_its_sign() {
    for pid in [i64::MIN, -2, -1, 0, 1, 10, i64::MAX] {
        let mut msg = OutgoingIPCMessage::new(4, 4);
        msg.pid = pid;
        assert_eq!(receive(&frame_of(&msg)).pid, pid);
    }
}

#[test]
fn buffers_are_not_transmitted() {
    let plain = OutgoingIPCMessage::new(4, 4);
    let mut loaded = OutgoingIPCMessage::new(4, 4);
    loaded.aBufs.push(vec![1, 2, 3]);
    loaded.bBufs.push(vec![]);
    loaded.cBufs.push(vec![0xFF; 100]);
    loaded.xBufs.push(vec![7]);
    loaded.xBufs.push(vec![8]);
    let io = frame_of(&loaded);
    assert_eq!(io, frame_of(&plain));
    assert_eq!(&io[io.len() - 32..], &[0u8; 32]);
    assert_eq!(receive(&io).reserved, [0; 4]);
}

#[test]
fn reserved_words_follow_the_moved_handles() {
    let mut msg = OutgoingIPCMessage::new(4, 4);
    msg.movedHandles.push(0x1122_3344_5566_7788);
    let io = frame_of(&msg);
    let n = io.len();
    assert_eq!(&io[n - 40..n - 32], &[0x88, 0x77, 0x66, 0x55, 0x44, 0x33, 0x22, 0x11]);
    assert_eq!(&io[n - 32..], &[0u8; 32]);
}

#[test]
fn put_u64_is_little_endian() {
    let mut io = Vec::new();
    put_u64(&mut io, 0x0102_0304_0506_0708);
    assert_eq!(io, vec![8, 7, 6, 5, 4, 3, 2, 1]);
}

#[test]
fn put_u64_appends() {
    let mut io = vec![9];
    put_u64(&mut io, 1);
    put_u64(&mut io, u64::MAX);
    assert_eq!(io.len(), 17);
    assert_eq!(&io[..9], &[9, 1, 0, 0, 0, 0, 0, 0, 0]);
    assert_eq!(&io[9..], &[0xFF; 8]);
}

#[test]
fn put_i64_is_twos_complement() {
    let mut io = Vec::new();
    put_i64(&mut io, -2);
    assert_eq!(io, vec![0xFE, 0xFF, 0xFF, 0xFF, 0xFF, 0xFF, 0xFF, 0xFF]);
    let mut io = Vec::new();
    put_i64(&mut io, i64::MIN);
    assert_eq!(io, vec![0, 0, 0, 0, 0, 0, 0, 0x80]);
    let mut io = Vec::new();
    put_i64(&mut io, 0x0102);
    assert_eq!(io, vec![2, 1, 0, 0, 0, 0, 0, 0]);
}

#[test]
fn put_word_list_writes_length_then_words() {
    let mut io = Vec::new();
    put_word_list(&mut io, &[0x0A, 0x0B00]);
    assert_eq!(
        io,
        vec![2, 0, 0, 0, 0, 0, 0, 0, 0x0A, 0, 0, 0, 0, 0, 0, 0, 0, 0x0B, 0, 0, 0, 0, 0, 0]
    );
    let mut io = Vec::new();
    put_word_list(&mut io, &[]);
    assert_eq!(io, vec![0; 8]);
}

#[test]
fn write_str_writes_length_then_bytes() {
    let mut io = Vec::new();
    write_str(&mut io, "ldr:ro");
    assert_eq!(io, vec![6, 0, 0, 0, 0, 0, 0, 0, b'l', b'd', b'r', b':', b'r', b'o']);
}

#[test]
fn write_str_of_nothing_is_one_zero_word() {
    let mut io = Vec::new();
    write_str(&mut io, "");
    assert_eq!(io, vec![0; 8]);
}

#[test]
fn write_str_counts_bytes_not_characters() {
    let mut io = Vec::new();
    write_str(&mut io, "é€");
    assert_eq!(io, vec![5, 0, 0, 0, 0, 0, 0, 0, 0xC3, 0xA9, 0xE2, 0x82, 0xAC]);
}

#[test]
fn write_str_has_no_terminator_and_appends() {
    let mut io = vec![1, 2, 3];
    write_str(&mut io, "a\0b");
    assert_eq!(io, vec![1, 2, 3, 3, 0, 0, 0, 0, 0, 0, 0, b'a', 0, b'b']);
}
