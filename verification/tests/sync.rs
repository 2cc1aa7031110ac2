use libgtr::packet::MAGIC_BYTES;
use libgtr::sync::{
    count_matching_magic, find_embedded_magic, Event, PacketSync, ReadFailure, Request, Stage,
};
use libgtr::GtrPacket;

const BODY: usize = 39;

/// A packet as it stands in the stream.
fn frame(counter: u16) -> Vec<u8> {
    let mut bytes = MAGIC_BYTES.to_vec();
    bytes.extend([1, 1, (counter / 256) as u8, (counter % 256) as u8, 0, 0, 0, 1, 0, 27, 0, 0]);
    bytes.extend([0, 0b0011_1111, 0b1111_0000]);
    for i in 0..8u8 {
        bytes.extend([4, 0, i]);
    }
    bytes
}

fn body(counter: u16) -> Vec<u8> {
    frame(counter)[4..].to_vec()
}

/// Runs a reader on a stream, and returns the counters of the packets.
fn counters(stream: &[u8]) -> Vec<u16> {
    let (mut sync, mut request) = PacketSync::start();
    let mut rest = stream;
    let mut found = Vec::new();
    loop {
        let event = match request {
            Request::CheckStop => Event::StopFlag(false),
            Request::ReadByte => {
                if rest.is_empty() {
                    return found;
                }
                let b = rest[0];
                rest = &rest[1..];
                Event::Byte(b)
            }
            Request::ReadBytes(n) => {
                if rest.len() < n {
                    return found;
                }
                let bytes = rest[..n].to_vec();
                rest = &rest[n..];
                Event::Bytes(bytes)
            }
            Request::Deliver(packet) => {
                found.push(packet.header.counter);
                Event::Delivered
            }
            Request::Pause => Event::Rested,
            Request::Finish => return found,
        };
        request = sync.step(event).unwrap();
    }
}

/// Answers the stop check and then one byte after the other.
fn search(sync: &mut PacketSync, bytes: &[u8]) {
    for b in bytes {
        assert_eq!(sync.step(Event::StopFlag(false)), Some(Request::ReadByte));
        assert_eq!(sync.step(Event::Byte(*b)), Some(Request::CheckStop));
    }
}

fn synced() -> PacketSync {
    let (mut sync, request) = PacketSync::start();
    assert_eq!(request, Request::CheckStop);
    search(&mut sync, b"yoho");
    assert!(sync.is_synced());
    sync
}

fn ask_body(sync: &mut PacketSync) {
    assert_eq!(sync.step(Event::StopFlag(false)), Some(Request::ReadBytes(BODY)));
}

#[test]
fn clean_stream() {
    let mut stream = frame(1);
    stream.extend(frame(2));
    stream.extend(frame(300));
    assert_eq!(counters(&stream), vec![1, 2, 300]);
}

#[test]
fn noise_before_the_first_packet() {
    let mut stream = b"noise yoh yo".to_vec();
    stream.extend(frame(1));
    stream.extend(frame(2));
    assert_eq!(counters(&stream), vec![1, 2]);
    assert_eq!(counters(b"only yohnoise yoh"), Vec::<u16>::new());
}

#[test]
fn overlapping_start_of_magic() {
    let mut stream = b"yo".to_vec();
    stream.extend(frame(5));
    assert_eq!(counters(&stream), vec![5]);
}

#[test]
fn damaged_packet_costs_only_itself() {
    let mut stream = frame(1);
    let mut bad = frame(2);
    bad[13] = 28;
    stream.extend(bad);
    stream.extend(frame(3));
    stream.extend(frame(4));
    assert_eq!(counters(&stream), vec![1, 3, 4]);
}

#[test]
fn intact_packets_among_damaged_ones() {
    let mut bad = frame(9);
    bad[12] = 1;
    let mut stream = b"??".to_vec();
    for part in [&bad, &frame(1), &bad, &bad, &frame(2), &frame(3), &bad, &frame(4), &bad] {
        stream.extend(part.iter());
    }
    assert_eq!(counters(&stream), vec![1, 2, 3, 4]);
}

#[test]
fn magic_bytes_inside_an_intact_packet() {
    let mut tricky = frame(6);
    tricky[20..24].copy_from_slice(b"yoho");
    tricky[39..43].copy_from_slice(b"yoho");
    let mut stream = tricky;
    stream.extend(frame(7));
    assert_eq!(counters(&stream), vec![6, 7]);
}

#[test]
fn shortened_packet_costs_only_itself() {
    let mut stream = frame(1);
    stream.extend(&frame(2)[..9]);
    stream.extend(frame(3));
    stream.extend(frame(4));
    assert_eq!(counters(&stream), vec![1, 3, 4]);
}

#[test]
fn two_right_magic_bytes_are_enough() {
    let mut stream = frame(1);
    let mut rough = frame(2);
    rough[0] = b'?';
    rough[1] = b'?';
    stream.extend(rough);
    stream.extend(frame(3));
    assert_eq!(counters(&stream), vec![1, 2, 3]);
}

#[test]
fn one_right_magic_byte_is_not_enough() {
    let mut stream = frame(1);
    let mut rough = frame(2);
    rough[0] = b'?';
    rough[1] = b'?';
    rough[2] = b'?';
    stream.extend(rough);
    stream.extend(frame(3));
    assert_eq!(counters(&stream), vec![1, 3]);
}

#[test]
fn search_resumes_at_wrong_magic() {
    let mut sync = synced();
    ask_body(&mut sync);
    assert!(matches!(sync.step(Event::Bytes(body(1))), Some(Request::Deliver(_))));
    assert_eq!(sync.step(Event::Delivered), Some(Request::ReadBytes(4)));
    assert_eq!(sync.step(Event::Bytes(b"?yoh".to_vec())), Some(Request::CheckStop));
    assert!(!sync.is_synced());
    search(&mut sync, b"o");
    assert!(sync.is_synced());
}

#[test]
fn delivered_packet_is_parsed() {
    let mut sync = synced();
    ask_body(&mut sync);
    let expected = GtrPacket::from_bytes(&frame(77)).unwrap();
    assert_eq!(sync.step(Event::Bytes(body(77))), Some(Request::Deliver(expected)));
}

#[test]
fn embedded_magic_is_found_first() {
    let mut buffer = [0u8; 43];
    assert_eq!(find_embedded_magic(&buffer), None);
    buffer[0..4].copy_from_slice(b"yoho");
    assert_eq!(find_embedded_magic(&buffer), None);
    buffer[39..43].copy_from_slice(b"yoho");
    assert_eq!(find_embedded_magic(&buffer), None);
    buffer[38..42].copy_from_slice(b"yoho");
    assert_eq!(find_embedded_magic(&buffer), Some(38));
    buffer[10..14].copy_from_slice(b"yoho");
    assert_eq!(find_embedded_magic(&buffer), Some(10));
    buffer[1..5].copy_from_slice(b"yoho");
    assert_eq!(find_embedded_magic(&buffer), Some(1));
}

#[test]
fn matching_magic_is_counted() {
    assert_eq!(count_matching_magic(b"yoho"), 4);
    assert_eq!(count_matching_magic(b"ohoy"), 0);
    assert_eq!(count_matching_magic(b"yxxx"), 1);
    assert_eq!(count_matching_magic(b"yxhx"), 2);
    assert_eq!(count_matching_magic(b"xoho"), 3);
}

#[test]
fn recovered_packet_that_is_not_valid_loses_the_stream() {
    let mut sync = synced();
    ask_body(&mut sync);
    let mut broken = vec![0u8; BODY];
    broken[6..10].copy_from_slice(b"yoho");
    assert_eq!(sync.step(Event::Bytes(broken)), Some(Request::ReadBytes(10)));
    assert_eq!(sync.step(Event::Bytes(vec![0; 10])), Some(Request::CheckStop));
    assert!(!sync.is_synced());
}

#[test]
fn failed_reads_after_a_packet_lose_the_stream() {
    let mut sync = synced();
    ask_body(&mut sync);
    let mut broken = vec![0u8; BODY];
    broken[6..10].copy_from_slice(b"yoho");
    assert_eq!(sync.step(Event::Bytes(broken)), Some(Request::ReadBytes(10)));
    assert_eq!(sync.step(Event::Failed(ReadFailure::TimedOut)), Some(Request::CheckStop));
    assert!(!sync.is_synced());

    let mut sync = synced();
    ask_body(&mut sync);
    assert!(matches!(sync.step(Event::Bytes(body(1))), Some(Request::Deliver(_))));
    assert_eq!(sync.step(Event::Delivered), Some(Request::ReadBytes(4)));
    assert_eq!(sync.step(Event::Failed(ReadFailure::BrokenPipe)), Some(Request::CheckStop));
    assert!(!sync.is_synced());
}

#[test]
fn eleven_timeouts_lose_the_stream() {
    let mut sync = synced();
    for _ in 0..10 {
        ask_body(&mut sync);
        assert_eq!(sync.step(Event::Failed(ReadFailure::TimedOut)), Some(Request::CheckStop));
        assert!(sync.is_synced());
    }
    ask_body(&mut sync);
    assert!(matches!(sync.step(Event::Bytes(body(1))), Some(Request::Deliver(_))));
    sync.step(Event::Delivered).unwrap();
    sync.step(Event::Bytes(b"yoho".to_vec())).unwrap();
    ask_body(&mut sync);
    assert_eq!(sync.step(Event::Failed(ReadFailure::TimedOut)), Some(Request::CheckStop));
    assert!(!sync.is_synced());
}

#[test]
fn failures_while_searching() {
    let (mut sync, _) = PacketSync::start();
    sync.step(Event::StopFlag(false)).unwrap();
    assert_eq!(sync.step(Event::NoByte), Some(Request::CheckStop));
    sync.step(Event::StopFlag(false)).unwrap();
    assert_eq!(sync.step(Event::Failed(ReadFailure::TimedOut)), Some(Request::CheckStop));
    sync.step(Event::StopFlag(false)).unwrap();
    assert_eq!(sync.step(Event::Failed(ReadFailure::Other)), Some(Request::Finish));
}

#[test]
fn failures_while_in_step() {
    let mut sync = synced();
    ask_body(&mut sync);
    assert_eq!(sync.step(Event::Failed(ReadFailure::Other)), Some(Request::CheckStop));
    assert!(!sync.is_synced());
    for why in [ReadFailure::BrokenPipe, ReadFailure::NotConnected] {
        let mut sync = synced();
        ask_body(&mut sync);
        assert_eq!(sync.step(Event::Failed(why)), Some(Request::Finish));
    }
}

#[test]
fn stopping() {
    let mut sync = synced();
    assert_eq!(sync.step(Event::StopFlag(true)), Some(Request::Finish));
    assert_eq!(sync.step(Event::StopFlag(false)), None);
    assert_eq!(sync.step(Event::Delivered), None);
}

#[test]
fn nobody_receives() {
    let mut sync = synced();
    ask_body(&mut sync);
    assert!(matches!(sync.step(Event::Bytes(body(1))), Some(Request::Deliver(_))));
    assert_eq!(sync.step(Event::ReceiverGone), Some(Request::Finish));
}

#[test]
fn wrong_answers_are_not_taken() {
    let mut sync = synced();
    assert_eq!(sync.step(Event::Byte(1)), None);
    ask_body(&mut sync);
    assert_eq!(sync.step(Event::Bytes(vec![0; 38])), None);
    assert!(matches!(sync.step(Event::Bytes(body(1))), Some(Request::Deliver(_))));
}

#[test]
fn stream_lost_often_never_pauses() {
    let (mut sync, _) = PacketSync::start();
    for _ in 0..20 {
        search(&mut sync, b"--yoho");
        ask_body(&mut sync);
        assert_eq!(sync.step(Event::Bytes(vec![0; BODY])), Some(Request::CheckStop));
        assert!(!sync.is_synced());
    }
}

#[test]
fn bytes_left_in_the_ring_count_in_the_next_search() {
    let (mut sync, _) = PacketSync::start();
    search(&mut sync, b"-yoho");
    assert!(sync.is_synced());
    ask_body(&mut sync);
    sync.step(Event::Failed(ReadFailure::Other)).unwrap();
    assert!(!sync.is_synced());
    search(&mut sync, b"o");
    assert!(sync.is_synced());
}

#[test]
fn idle_reads_do_not_change_a_search() {
    let (mut sync, _) = PacketSync::start();
    for b in b"yoho" {
        for _ in 0..3 {
            assert_eq!(sync.step(Event::StopFlag(false)), Some(Request::ReadByte));
            assert_eq!(sync.step(Event::NoByte), Some(Request::CheckStop));
            assert_eq!(sync.step(Event::StopFlag(false)), Some(Request::ReadByte));
            assert_eq!(sync.step(Event::Failed(ReadFailure::TimedOut)), Some(Request::CheckStop));
        }
        assert!(!sync.is_synced());
        search(&mut sync, &[*b]);
    }
    assert!(sync.is_synced());
}

#[test]
fn failed_reads_do_not_mix_packets() {
    let mut sync = synced();
    ask_body(&mut sync);
    assert_eq!(sync.step(Event::Failed(ReadFailure::TimedOut)), Some(Request::CheckStop));
    ask_body(&mut sync);
    let first = GtrPacket::from_bytes(&frame(1)).unwrap();
    assert_eq!(sync.step(Event::Bytes(body(1))), Some(Request::Deliver(first)));
    assert_eq!(sync.step(Event::Delivered), Some(Request::ReadBytes(4)));
    assert_eq!(sync.step(Event::Failed(ReadFailure::TimedOut)), Some(Request::CheckStop));
    search(&mut sync, b"..yoho");
    assert!(sync.is_synced());
    ask_body(&mut sync);
    let second = GtrPacket::from_bytes(&frame(2)).unwrap();
    assert_eq!(sync.step(Event::Bytes(body(2))), Some(Request::Deliver(second)));
}

#[test]
fn packet_without_room_is_offered_again() {
    let mut sync = synced();
    ask_body(&mut sync);
    let expected = GtrPacket::from_bytes(&frame(8)).unwrap();
    assert_eq!(sync.step(Event::Bytes(body(8))), Some(Request::Deliver(expected.clone())));
    for _ in 0..3 {
        assert_eq!(sync.stage(), Stage::Delivery);
        assert_eq!(sync.step(Event::NoRoom), Some(Request::CheckStop));
        assert_eq!(sync.stage(), Stage::Room);
        assert_eq!(
            sync.step(Event::StopFlag(false)),
            Some(Request::Deliver(expected.clone()))
        );
    }
    assert_eq!(sync.step(Event::Delivered), Some(Request::ReadBytes(4)));
}

#[test]
fn stopping_while_there_is_no_room() {
    let mut sync = synced();
    ask_body(&mut sync);
    assert!(matches!(sync.step(Event::Bytes(body(8))), Some(Request::Deliver(_))));
    assert_eq!(sync.step(Event::NoRoom), Some(Request::CheckStop));
    assert_eq!(sync.step(Event::StopFlag(true)), Some(Request::Finish));
    assert_eq!(sync.stage(), Stage::Finished);
}
