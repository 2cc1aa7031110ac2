use libgtr::packet::{
    HEADER_SIZE, MAGIC_BYTES, NUM_SENSORS, PACKET_PAYLOAD_SIZE, PACKET_TOTAL_SIZE, SENSOR_SIZE,
    STATUS_SIZE,
};
use libgtr::text::push_decimal;
use libgtr::{GtrError, GtrPacket, Header, Sensor, Status};
use std::io::Write;

fn parse_text<T>(outcome: Result<T, GtrError>) -> String {
    match outcome {
        Err(GtrError::Parse(text)) => text,
        Err(e) => panic!("not a parse error: {:?}", e),
        Ok(_) => panic!("no error"),
    }
}

fn header_bytes() -> Vec<u8> {
    vec![0x02, 0x03, 0x12, 0x34, 0xDE, 0xAD, 0xBE, 0xEF, 0x00, 0x1B, 0x55, 0x66]
}

fn packet_bytes() -> Vec<u8> {
    let mut bytes = MAGIC_BYTES.to_vec();
    bytes.extend(header_bytes());
    bytes.extend([0x00, 0b0010_1010, 0b1010_1011]);
    for i in 0..NUM_SENSORS as u8 {
        bytes.extend([0b0000_0100 | (i % 4), i, 0xF0 + i]);
    }
    bytes
}

#[test]
fn test_parse() {
    let mut full_packet_data = Vec::new();
    full_packet_data.write_all(&MAGIC_BYTES).unwrap();
    full_packet_data.write_all(&[0x01, 0x01, 0x00, 0x01, 0x00, 0x00, 0x00, 0x01, 0x00, 0x1B, 0x00, 0x00]).unwrap();
    full_packet_data.write_all(&[0x00, 0b00111111, 0b11100000 | (8 << 1)]).unwrap();
    for i in 0..NUM_SENSORS {
        let cog_val = i as u32;
        let byte0 = 0b00000100 | ((cog_val >> 16) & 0b11) as u8;
        let byte1 = ((cog_val >> 8) & 0xFF) as u8;
        let byte2 = (cog_val & 0xFF) as u8;
        full_packet_data.write_all(&[byte0, byte1, byte2]).unwrap();
    }

    assert_eq!(full_packet_data.len(), PACKET_TOTAL_SIZE);

    let packet = GtrPacket::from_bytes(&full_packet_data).unwrap();
    assert_eq!(packet.header.version, 1);
    assert_eq!(packet.status.nr_sensors, 8);
    assert_eq!(packet.status.s1_ok, true);
    assert_eq!(packet.sensors[0].sens_ok, true);
    assert_eq!(packet.sensors[0].cog_value, 0);
    assert_eq!(packet.sensors[7].cog_value, 7);
}

#[test]
fn sizes_add_up() {
    assert_eq!(&MAGIC_BYTES, b"yoho");
    assert_eq!(PACKET_PAYLOAD_SIZE, STATUS_SIZE + SENSOR_SIZE * NUM_SENSORS);
    assert_eq!(PACKET_TOTAL_SIZE, HEADER_SIZE + PACKET_PAYLOAD_SIZE);
}

#[test]
fn header_fields_are_big_endian() {
    let header = Header::from_bytes(&header_bytes()).unwrap();
    assert_eq!(
        header,
        Header {
            version: 0x02,
            kind: 0x03,
            counter: 0x1234,
            time_us: 0xDEAD_BEEF,
            payload_size: 27,
        }
    );
}

#[test]
fn header_too_short() {
    let text = parse_text(Header::from_bytes(&header_bytes()[..11]));
    assert_eq!(text, "Not enough data for Header. Expected 12, got 11");
    let text = parse_text(Header::from_bytes(&[]));
    assert_eq!(text, "Not enough data for Header. Expected 12, got 0");
}

#[test]
fn header_with_wrong_size() {
    let mut bytes = header_bytes();
    bytes[8] = 0x01;
    let text = parse_text(Header::from_bytes(&bytes));
    assert_eq!(text, "Invalid payload_size. Expected 27, got 283");
    bytes[8] = 0xFF;
    bytes[9] = 0xFF;
    let text = parse_text(Header::from_bytes(&bytes));
    assert_eq!(text, "Invalid payload_size. Expected 27, got 65535");
}

#[test]
fn status_bits() {
    let status = Status::from_bytes(&[0xFF, 0b0010_1010, 0b1010_1011]).unwrap();
    assert_eq!(
        status,
        Status {
            tec_ok: true,
            s8_ok: false,
            s7_ok: true,
            s6_ok: false,
            s5_ok: true,
            s4_ok: false,
            s3_ok: true,
            s2_ok: false,
            s1_ok: true,
            nr_sensors: 5,
        }
    );
    let status = Status::from_bytes(&[0x00, 0b1101_0101, 0b0101_1110]).unwrap();
    assert_eq!(
        status,
        Status {
            tec_ok: false,
            s8_ok: true,
            s7_ok: false,
            s6_ok: true,
            s5_ok: false,
            s4_ok: true,
            s3_ok: false,
            s2_ok: true,
            s1_ok: false,
            nr_sensors: 15,
        }
    );
}

#[test]
fn status_too_short() {
    let text = parse_text(Status::from_bytes(&[1, 2]));
    assert_eq!(text, "Not enough data for Status. Expected 3, got 2");
}

#[test]
fn sensor_values() {
    let sensor = Sensor::from_bytes(&[0b1111_1111, 0xFF, 0xFF]).unwrap();
    assert_eq!(sensor, Sensor { sens_ok: true, cog_value: 262143 });
    let sensor = Sensor::from_bytes(&[0b1111_1010, 0x12, 0x34]).unwrap();
    assert_eq!(sensor, Sensor { sens_ok: false, cog_value: 0x21234 });
}

#[test]
fn sensor_too_short() {
    let text = parse_text(Sensor::from_bytes(&[1]));
    assert_eq!(text, "Not enough data for Sensor. Expected 3, got 1");
}

#[test]
fn packet_fields() {
    let packet = GtrPacket::from_bytes(&packet_bytes()).unwrap();
    assert_eq!(packet.header.counter, 0x1234);
    assert_eq!(packet.status.nr_sensors, 5);
    for i in 0..NUM_SENSORS {
        let n = i as u32;
        assert!(packet.sensors[i].sens_ok);
        assert_eq!(packet.sensors[i].cog_value, (n % 4) * 65536 + n * 256 + 0xF0 + n);
    }
}

#[test]
fn packet_too_short() {
    let text = parse_text(GtrPacket::from_bytes(&packet_bytes()[..42]));
    assert_eq!(text, "Not enough data for GtrPacket. Expected 43, got 42");
}

#[test]
fn packet_with_wrong_size() {
    let mut bytes = packet_bytes();
    bytes[13] = 26;
    let text = parse_text(GtrPacket::from_bytes(&bytes));
    assert_eq!(text, "Invalid payload_size. Expected 27, got 26");
}

#[test]
fn packet_ignores_its_surroundings() {
    let mut bytes = packet_bytes();
    let packet = GtrPacket::from_bytes(&bytes).unwrap();
    bytes[0] = 0;
    bytes[3] = 0xFF;
    bytes.extend([9, 9, 9]);
    assert_eq!(GtrPacket::from_bytes(&bytes).unwrap(), packet);
}

#[test]
fn decimals() {
    for n in [0usize, 7, 9, 10, 19, 100, 12_345, 9_876_543_210, usize::MAX] {
        let mut text = String::from("n=");
        push_decimal(&mut text, n);
        assert_eq!(text, format!("n={}", n));
    }
}
