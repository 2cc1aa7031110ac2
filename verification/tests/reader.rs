use crossbeam_channel::{bounded, RecvError};
use libgtr::reader::{joined, received, try_received, TryReceive, CHANNEL_CAPACITY};
use libgtr::{GtrError, GtrPacket, GtrSerialReader};
use std::sync::atomic::{AtomicBool, Ordering};
use std::sync::Arc;

fn packet(counter: u8) -> GtrPacket {
    let mut bytes = vec![0u8; 43];
    bytes[7] = counter;
    bytes[13] = 27;
    GtrPacket::from_bytes(&bytes).unwrap()
}

#[test]
fn packets_come_in_order() {
    let (tx, rx) = bounded(CHANNEL_CAPACITY);
    let reader = GtrSerialReader::new(rx, Arc::new(AtomicBool::new(false)), ());
    assert_eq!(reader.try_recv_packet().unwrap(), None);
    tx.send(packet(1)).unwrap();
    tx.send(packet(2)).unwrap();
    tx.send(packet(3)).unwrap();
    assert_eq!(reader.recv_packet().unwrap(), packet(1));
    assert_eq!(reader.try_recv_packet().unwrap(), Some(packet(2)));
    drop(tx);
    assert_eq!(reader.recv_packet().unwrap(), packet(3));
    assert!(matches!(reader.recv_packet(), Err(GtrError::ChannelReceive(RecvError))));
    match reader.try_recv_packet() {
        Err(GtrError::ThreadComm(text)) => assert_eq!(text, "Reader thread disconnected"),
        other => panic!("{:?}", other),
    }
}

#[test]
fn outcomes_of_a_receive() {
    assert_eq!(received(Ok(packet(4))).unwrap(), packet(4));
    assert!(matches!(received(Err(RecvError)), Err(GtrError::ChannelReceive(RecvError))));
    assert_eq!(try_received(TryReceive::Packet(packet(5))).unwrap(), Some(packet(5)));
    assert_eq!(try_received(TryReceive::Empty).unwrap(), None);
    assert!(matches!(try_received(TryReceive::Disconnected), Err(GtrError::ThreadComm(_))));
}

#[test]
fn stop_joins_once() {
    let (_tx, rx) = bounded(CHANNEL_CAPACITY);
    let signal = Arc::new(AtomicBool::new(false));
    let mut reader = GtrSerialReader::new(rx, Arc::clone(&signal), 7u32);
    assert!(reader.is_running());
    let mut joins = Vec::new();
    reader.stop(|h| { joins.push(h); true }).unwrap();
    assert_eq!(joins, vec![7]);
    assert!(signal.load(Ordering::Relaxed));
    assert!(!reader.is_running());
    reader.stop(|_| panic!("joined twice")).unwrap();
}

#[test]
fn stop_reports_a_panic() {
    assert!(joined(true).is_ok());
    let (_tx, rx) = bounded(CHANNEL_CAPACITY);
    let mut reader = GtrSerialReader::new(rx, Arc::new(AtomicBool::new(false)), ());
    match reader.stop(|_| false) {
        Err(GtrError::ThreadComm(text)) => assert_eq!(text, "Reader thread panicked"),
        other => panic!("{:?}", other),
    }
    assert!(reader.stop(|_| false).is_ok());
}

#[test]
fn errors_from_outside() {
    let io = std::io::Error::new(std::io::ErrorKind::Other, "gone");
    assert!(matches!(GtrError::from(io), GtrError::Io(e) if e.to_string() == "gone"));
    let serial = serialport::Error::new(serialport::ErrorKind::NoDevice, "no port");
    assert!(matches!(GtrError::from(serial), GtrError::Serial(e) if e.description == "no port"));
    assert!(matches!(GtrError::from(RecvError), GtrError::ChannelReceive(RecvError)));
}

#[test]
fn errors_in_words() {
    let io = std::io::Error::new(std::io::ErrorKind::Other, "gone");
    assert_eq!(GtrError::from(io).message(), "I/O error: gone");
    let serial = serialport::Error::new(serialport::ErrorKind::NoDevice, "no port");
    assert_eq!(GtrError::from(serial).message(), "Serial port error: no port");
    assert_eq!(
        GtrError::from(RecvError).message(),
        format!("Channel receive error: {}", RecvError)
    );
    assert_eq!(GtrError::Parse("bad".to_string()).message(), "Parse error: bad");
    assert_eq!(GtrError::ChannelSend.message(), "Channel send error: Packet dropped");
    assert_eq!(GtrError::SyncLost.message(), "Synchronization lost");
    assert_eq!(
        GtrError::ThreadComm("gone".to_string()).message(),
        "Thread communication error: gone"
    );
}

#[test]
fn stop_sets_the_signal_before_it_joins() {
    let (_tx, rx) = bounded(CHANNEL_CAPACITY);
    let signal = Arc::new(AtomicBool::new(false));
    let mut reader = GtrSerialReader::new(rx, Arc::clone(&signal), ());
    reader.stop(|_| signal.load(Ordering::Relaxed)).unwrap();
}
