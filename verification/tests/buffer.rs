use rh2::buffer::{IoInner, ReadPoll};
use tokio::io::ReadBuf;

fn read(io: &mut IoInner, room: usize) -> (ReadPoll, Vec<u8>) {
    let mut space = vec![0u8; room];
    let mut buf = ReadBuf::new(&mut space);
    let poll = io.poll_read(&mut buf);
    (poll, buf.filled().to_vec())
}

#[test]
fn an_empty_open_transport_makes_the_reader_wait() {
    let mut io = IoInner::default();
    assert_eq!(read(&mut io, 8), (ReadPoll::Pending, vec![]));
}

#[test]
fn bytes_come_out_in_order_over_partial_reads() {
    let mut io = IoInner::default();
    io.push_inbound(b"hello ");
    assert_eq!(read(&mut io, 2), (ReadPoll::Ready, b"he".to_vec()));
    io.push_inbound(b"world");
    assert_eq!(read(&mut io, 6), (ReadPoll::Ready, b"llo wo".to_vec()));
    assert_eq!(read(&mut io, 100), (ReadPoll::Ready, b"rld".to_vec()));
    assert_eq!(read(&mut io, 1), (ReadPoll::Pending, vec![]));
}

#[test]
fn a_read_without_room_is_ready_while_bytes_wait() {
    let mut io = IoInner::default();
    io.push_inbound(b"x");
    assert_eq!(read(&mut io, 0), (ReadPoll::Ready, vec![]));
    assert_eq!(read(&mut io, 1), (ReadPoll::Ready, b"x".to_vec()));
}

#[test]
fn the_end_of_the_input_comes_after_the_last_byte() {
    let mut io = IoInner::default();
    io.push_inbound(b"abc");
    io.close_inbound();
    assert_eq!(read(&mut io, 2), (ReadPoll::Ready, b"ab".to_vec()));
    assert_eq!(read(&mut io, 2), (ReadPoll::Ready, b"c".to_vec()));
    assert_eq!(read(&mut io, 2), (ReadPoll::Ready, vec![]));
}

#[test]
fn a_read_keeps_what_the_buffer_held() {
    let mut io = IoInner::default();
    io.push_inbound(b"cd");
    let mut space = [0u8; 3];
    let mut buf = ReadBuf::new(&mut space);
    buf.put_slice(b"ab");
    assert_eq!(io.poll_read(&mut buf), ReadPoll::Ready);
    assert_eq!(buf.filled(), b"abc");
    assert_eq!(read(&mut io, 9), (ReadPoll::Ready, b"d".to_vec()));
}

#[test]
fn outbound_bytes_are_handed_out_once() {
    let mut io = IoInner::default();
    assert_eq!(io.poll_write(b"one"), 3);
    assert_eq!(io.poll_write(b""), 0);
    assert_eq!(io.poll_write(b"two"), 3);
    assert_eq!(io.take_outbound(), b"onetwo".to_vec());
    assert_eq!(io.take_outbound(), Vec::<u8>::new());
}

#[test]
fn a_push_drops_what_has_been_read() {
    let mut io = IoInner::default();
    io.push_inbound(b"abcd");
    io.poll_write(b"z");
    assert_eq!(read(&mut io, 2), (ReadPoll::Ready, b"ab".to_vec()));
    io.push_inbound(b"ef");
    assert_eq!(
        format!("{:?}", io),
        "IoInner { inbound: [99, 100, 101, 102], inbound_pos: 0, outbound: [122], inbound_closed: false }"
    );
}

#[test]
fn writing_leaves_the_inbound_buffer_alone() {
    let mut io = IoInner::default();
    io.push_inbound(b"abc");
    read(&mut io, 1);
    io.close_inbound();
    assert_eq!(io.poll_write(b"z"), 1);
    assert_eq!(
        format!("{:?}", io),
        "IoInner { inbound: [97, 98, 99], inbound_pos: 1, outbound: [122], inbound_closed: true }"
    );
    assert_eq!(io.take_outbound(), b"z".to_vec());
    assert_eq!(read(&mut io, 2), (ReadPoll::Ready, b"bc".to_vec()));
    assert_eq!(
        format!("{:?}", io),
        "IoInner { inbound: [], inbound_pos: 0, outbound: [], inbound_closed: true }"
    );
}

#[test]
fn every_written_byte_is_handed_out_once() {
    let mut io = IoInner::default();
    let mut taken = Vec::new();
    io.poll_write(b"ab");
    taken.extend(io.take_outbound());
    taken.extend(io.take_outbound());
    io.poll_write(b"c");
    io.poll_write(b"de");
    taken.extend(io.take_outbound());
    assert_eq!(taken, b"abcde".to_vec());
}

#[test]
fn pieces_do_not_matter() {
    let mut whole = IoInner::default();
    whole.push_inbound(b"abcdef");
    let mut parts = IoInner::default();
    parts.push_inbound(b"ab");
    parts.push_inbound(b"");
    parts.push_inbound(b"cdef");
    assert_eq!(read(&mut whole, 10), read(&mut parts, 10));
}
