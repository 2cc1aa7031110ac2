//! The packet format of the Gator and its parser.
//!
//! A packet is 43 bytes: the four magic bytes `yoho`, twelve bytes of header,
//! three bytes of status, and three bytes for each of the eight sensors.

use crate::error::GtrError;
use crate::text::push_decimal;
use crate::wire::{read_u16, read_u32, read_u8};
use vstd::prelude::*;
use vstd::string::StringExecFns;

verus! {

/// The bytes that start every packet: `yoho`.
pub const MAGIC_BYTES: [u8; 4] = [0x79, 0x6f, 0x68, 0x6f];

/// Number of magic bytes.
pub const MAGIC_SIZE: usize = 4;

/// Bytes of the header, the magic bytes included.
pub const HEADER_SIZE: usize = 16;

/// Bytes of the status.
pub const STATUS_SIZE: usize = 3;

/// Bytes of one sensor.
pub const SENSOR_SIZE: usize = 3;

/// Sensors in a packet.
pub const NUM_SENSORS: usize = 8;

/// Bytes of status and sensors, the value of the header's size field.
pub const PACKET_PAYLOAD_SIZE: usize = 27;

/// Bytes of a packet.
pub const PACKET_TOTAL_SIZE: usize = 43;

/// The magic bytes as a sequence.
pub open spec fn magic() -> Seq<u8> {
    seq![0x79u8, 0x6fu8, 0x68u8, 0x6fu8]
}

/// The text of an error that names an expected and an actual number.
pub open spec fn mismatch_text(lead: Seq<char>, expected: nat, got: nat) -> Seq<char> {
    lead + crate::text::decimal(expected) + ", got "@ + crate::text::decimal(got)
}

/// The parse error that names an expected and an actual number.
fn mismatch(lead: &str, expected: usize, got: usize) -> (r: GtrError)
    ensures
        r matches GtrError::Parse(m) && m@ == mismatch_text(
            lead@,
            expected as nat,
            got as nat,
        ),
{
    let mut text = String::new();
    text.append(lead);
    push_decimal(&mut text, expected);
    text.append(", got ");
    push_decimal(&mut text, got);
    assert(text@ =~= mismatch_text(lead@, expected as nat, got as nat));
    GtrError::Parse(text)
}

/// Whether the outcome `r` is the value, or the parse error with the text, that
/// `expected` says.
pub open spec fn agrees<T>(r: Result<T, GtrError>, expected: Result<T, Seq<char>>) -> bool {
    match (r, expected) {
        (Ok(v), Ok(w)) => v == w,
        (Err(GtrError::Parse(m)), Err(text)) => m@ == text,
        _ => false,
    }
}

/// Header information for a Gator packet.
#[derive(Debug, Clone, PartialEq, Eq)]
pub struct Header {
    /// Protocol version
    pub version: u8,
    /// Message kind/type
    pub kind: u8,
    /// Packet counter
    pub counter: u16,
    /// Timestamp in microseconds
    pub time_us: u32,
    /// Payload size in bytes
    pub payload_size: u32,
}

impl Header {
    /// What the twelve header bytes behind the magic bytes say: version, kind,
    /// counter, time and payload size, the numbers in big-endian order, and two
    /// bytes of padding. Only one payload size is valid.
    pub open spec fn parse(bytes: Seq<u8>) -> Result<Header, Seq<char>> {
        let size = crate::wire::be16(bytes[8], bytes[9]);
        if bytes.len() < HEADER_SIZE - MAGIC_SIZE {
            Err(
                mismatch_text(
                    "Not enough data for Header. Expected "@,
                    (HEADER_SIZE - MAGIC_SIZE) as nat,
                    bytes.len(),
                ),
            )
        } else if size != PACKET_PAYLOAD_SIZE {
            Err(
                mismatch_text(
                    "Invalid payload_size. Expected "@,
                    PACKET_PAYLOAD_SIZE as nat,
                    size as nat,
                ),
            )
        } else {
            Ok(
                Header {
                    version: bytes[0],
                    kind: bytes[1],
                    counter: crate::wire::be16(bytes[2], bytes[3]) as u16,
                    time_us: crate::wire::be32(bytes[4], bytes[5], bytes[6], bytes[7]) as u32,
                    payload_size: size as u32,
                },
            )
        }
    }

    /// Parses the header bytes that follow the magic bytes.
    pub fn from_bytes(bytes: &[u8]) -> (r: Result<Self, GtrError>)
        ensures
            agrees(r, Header::parse(bytes@)),
    {
        if bytes.len() < HEADER_SIZE - MAGIC_SIZE {
            return Err(
                mismatch(
                    "Not enough data for Header. Expected ",
                    HEADER_SIZE - MAGIC_SIZE,
                    bytes.len(),
                ),
            );
        }
        let mut cursor: &[u8] = bytes;
        let version: u8 = match read_u8(&mut cursor) {
            Ok(v) => v,
            Err(e) => return Err(GtrError::from(e)),
        };
        let kind: u8 = match read_u8(&mut cursor) {
            Ok(v) => v,
            Err(e) => return Err(GtrError::from(e)),
        };
        let counter: u16 = match read_u16(&mut cursor) {
            Ok(v) => v,
            Err(e) => return Err(GtrError::from(e)),
        };
        let time_us: u32 = match read_u32(&mut cursor) {
            Ok(v) => v,
            Err(e) => return Err(GtrError::from(e)),
        };
        let payload_size: u16 = match read_u16(&mut cursor) {
            Ok(v) => v,
            Err(e) => return Err(GtrError::from(e)),
        };
        let final_size: u32 = payload_size as u32;
        if final_size as usize != PACKET_PAYLOAD_SIZE {
            return Err(
                mismatch(
                    "Invalid payload_size. Expected ",
                    PACKET_PAYLOAD_SIZE,
                    final_size as usize,
                ),
            );
        }
        Ok(Header { version, kind, counter, time_us, payload_size: final_size })
    }
}

/// Whether the bit with the given weight is set in `byte`.
pub open spec fn flag(byte: u8, weight: u8) -> bool {
    (byte / weight) % 2 == 1
}

/// Masking with a power of two tests the bit of that weight.
proof fn lemma_masks(b: u8)
    ensures
        ((b & 0b1000_0000) != 0) == flag(b, 128),
        ((b & 0b0100_0000) != 0) == flag(b, 64),
        ((b & 0b0010_0000) != 0) == flag(b, 32),
        ((b & 0b0001_0000) != 0) == flag(b, 16),
        ((b & 0b0000_1000) != 0) == flag(b, 8),
        ((b & 0b0000_0100) != 0) == flag(b, 4),
        ((b & 0b0000_0010) != 0) == flag(b, 2),
        ((b & 0b0000_0001) != 0) == flag(b, 1),
        (b & 0b0001_1110) >> 1 == (b / 2) % 16,
        (b & 0b0000_0011) == b % 4,
{
    assert(((b & 0b1000_0000) != 0) == ((b / 128) % 2 == 1)) by (bit_vector);
    assert(((b & 0b0100_0000) != 0) == ((b / 64) % 2 == 1)) by (bit_vector);
    assert(((b & 0b0010_0000) != 0) == ((b / 32) % 2 == 1)) by (bit_vector);
    assert(((b & 0b0001_0000) != 0) == ((b / 16) % 2 == 1)) by (bit_vector);
    assert(((b & 0b0000_1000) != 0) == ((b / 8) % 2 == 1)) by (bit_vector);
    assert(((b & 0b0000_0100) != 0) == ((b / 4) % 2 == 1)) by (bit_vector);
    assert(((b & 0b0000_0010) != 0) == ((b / 2) % 2 == 1)) by (bit_vector);
    assert(((b & 0b0000_0001) != 0) == ((b / 1) % 2 == 1)) by (bit_vector);
    assert((b & 0b0001_1110) >> 1 == (b / 2) % 16) by (bit_vector);
    assert((b & 0b0000_0011) == b % 4) by (bit_vector);
}

/// Status information for a Gator packet.
#[derive(Debug, Clone, PartialEq, Eq)]
pub struct Status {
    /// TEC (Thermo-Electric Cooler) status
    pub tec_ok: bool,
    /// Sensor 8 status
    pub s8_ok: bool,
    /// Sensor 7 status
    pub s7_ok: bool,
    /// Sensor 6 status
    pub s6_ok: bool,
    /// Sensor 5 status
    pub s5_ok: bool,
    /// Sensor 4 status
    pub s4_ok: bool,
    /// Sensor 3 status
    pub s3_ok: bool,
    /// Sensor 2 status
    pub s2_ok: bool,
    /// Sensor 1 status
    pub s1_ok: bool,
    /// Number of sensors present
    pub nr_sensors: u8,
}

impl Status {
    /// What the three status bytes say. The first is not used. The second holds
    /// the cooler and the sensors 8 to 4 in its lower six bits, the third holds
    /// the sensors 3 to 1 in its upper three bits and the number of sensors in
    /// the four bits below.
    pub open spec fn parse(bytes: Seq<u8>) -> Result<Status, Seq<char>> {
        if bytes.len() < STATUS_SIZE {
            Err(
                mismatch_text(
                    "Not enough data for Status. Expected "@,
                    STATUS_SIZE as nat,
                    bytes.len(),
                ),
            )
        } else {
            Ok(
                Status {
                    tec_ok: flag(bytes[1], 32),
                    s8_ok: flag(bytes[1], 16),
                    s7_ok: flag(bytes[1], 8),
                    s6_ok: flag(bytes[1], 4),
                    s5_ok: flag(bytes[1], 2),
                    s4_ok: flag(bytes[1], 1),
                    s3_ok: flag(bytes[2], 128),
                    s2_ok: flag(bytes[2], 64),
                    s1_ok: flag(bytes[2], 32),
                    nr_sensors: (bytes[2] / 2) % 16,
                },
            )
        }
    }

    /// Parses the status bytes.
    pub fn from_bytes(bytes: &[u8]) -> (r: Result<Self, GtrError>)
        ensures
            agrees(r, Status::parse(bytes@)),
    {
        if bytes.len() < STATUS_SIZE {
            return Err(
                mismatch("Not enough data for Status. Expected ", STATUS_SIZE, bytes.len()),
            );
        }
        let byte1: u8 = bytes[1];
        let byte2: u8 = bytes[2];
        proof {
            lemma_masks(byte1);
            lemma_masks(byte2);
        }
        let tec_ok = (byte1 & 0b00100000) != 0;
        let s8_ok = (byte1 & 0b00010000) != 0;
        let s7_ok = (byte1 & 0b00001000) != 0;
        let s6_ok = (byte1 & 0b00000100) != 0;
        let s5_ok = (byte1 & 0b00000010) != 0;
        let s4_ok = (byte1 & 0b00000001) != 0;

        let s3_ok = (byte2 & 0b10000000) != 0;
        let s2_ok = (byte2 & 0b01000000) != 0;
        let s1_ok = (byte2 & 0b00100000) != 0;
        let nr_sensors: u8 = (byte2 & 0b00011110) >> 1;

        Ok(
            Status {
                tec_ok,
                s8_ok,
                s7_ok,
                s6_ok,
                s5_ok,
                s4_ok,
                s3_ok,
                s2_ok,
                s1_ok,
                nr_sensors,
            },
        )
    }
}

/// Sensor data for a single Gator sensor channel.
#[derive(Debug, Clone, PartialEq, Eq)]
pub struct Sensor {
    /// Sensor status (true if OK)
    pub sens_ok: bool,
    /// Center-of-Gravity value (18 bits)
    pub cog_value: u32,
}

impl Sensor {
    /// What the three bytes of a sensor say: an 18-bit big-endian value, and
    /// above it the status bit.
    pub open spec fn parse(bytes: Seq<u8>) -> Result<Sensor, Seq<char>> {
        if bytes.len() < SENSOR_SIZE {
            Err(
                mismatch_text(
                    "Not enough data for Sensor. Expected "@,
                    SENSOR_SIZE as nat,
                    bytes.len(),
                ),
            )
        } else {
            Ok(
                Sensor {
                    sens_ok: flag(bytes[0], 4),
                    cog_value: ((bytes[0] % 4) * 0x1_0000 + bytes[1] * 0x100 + bytes[2]) as u32,
                },
            )
        }
    }

    /// Parses the bytes of one sensor.
    pub fn from_bytes(bytes: &[u8]) -> (r: Result<Self, GtrError>)
        ensures
            agrees(r, Sensor::parse(bytes@)),
    {
        if bytes.len() < SENSOR_SIZE {
            return Err(
                mismatch("Not enough data for Sensor. Expected ", SENSOR_SIZE, bytes.len()),
            );
        }
        let byte0: u8 = bytes[0];
        let byte1: u8 = bytes[1];
        let byte2: u8 = bytes[2];
        proof {
            lemma_masks(byte0);
        }
        let sens_ok = (byte0 & 0b00000100) != 0;
        let cog_msb2: u32 = (byte0 & 0b00000011) as u32;
        let cog_mid8: u32 = byte1 as u32;
        let cog_lsb8: u32 = byte2 as u32;
        assert((cog_msb2 << 16) | (cog_mid8 << 8) | cog_lsb8 == cog_msb2 * 0x1_0000 + cog_mid8
            * 0x100 + cog_lsb8) by (bit_vector)
            requires
                cog_msb2 < 4,
                cog_mid8 < 256,
                cog_lsb8 < 256,
        ;
        let cog_value: u32 = (cog_msb2 << 16) | (cog_mid8 << 8) | cog_lsb8;
        Ok(Sensor { sens_ok, cog_value })
    }
}

/// A fully parsed Gator packet, including header, status, and all sensor data.
#[derive(Debug, Clone, PartialEq, Eq)]
pub struct GtrPacket {
    /// Packet header
    pub header: Header,
    /// Status information
    pub status: Status,
    /// Array of sensor data
    pub sensors: [Sensor; NUM_SENSORS],
}

/// The contents of a packet.
pub struct PacketView {
    pub header: Header,
    pub status: Status,
    pub sensors: Seq<Sensor>,
}

impl View for GtrPacket {
    type V = PacketView;

    open spec fn view(&self) -> PacketView {
        PacketView { header: self.header, status: self.status, sensors: self.sensors@ }
    }
}

/// The bytes of sensor `i` in a packet.
pub open spec fn sensor_bytes(bytes: Seq<u8>, i: int) -> Seq<u8> {
    let start = HEADER_SIZE + STATUS_SIZE + i * SENSOR_SIZE;
    bytes.subrange(start, start + SENSOR_SIZE)
}

impl PacketView {
    /// What the bytes of a packet say. The magic bytes at the front are not
    /// looked at, nor is anything behind the packet.
    pub open spec fn parse(bytes: Seq<u8>) -> Result<PacketView, Seq<char>> {
        if bytes.len() < PACKET_TOTAL_SIZE {
            Err(
                mismatch_text(
                    "Not enough data for GtrPacket. Expected "@,
                    PACKET_TOTAL_SIZE as nat,
                    bytes.len(),
                ),
            )
        } else {
            match Header::parse(bytes.subrange(MAGIC_SIZE as int, HEADER_SIZE as int)) {
                Err(text) => Err(text),
                Ok(header) => Ok(
                    PacketView {
                        header,
                        status: Status::parse(
                            bytes.subrange(HEADER_SIZE as int, HEADER_SIZE + STATUS_SIZE),
                        )->Ok_0,
                        sensors: Seq::new(
                            NUM_SENSORS as nat,
                            |i: int| Sensor::parse(sensor_bytes(bytes, i))->Ok_0,
                        ),
                    },
                ),
            }
        }
    }
}

/// Whether the outcome `r` of parsing a packet is the contents, or the parse error
/// with the text, that `expected` says.
pub open spec fn packet_agrees(
    r: Result<GtrPacket, GtrError>,
    expected: Result<PacketView, Seq<char>>,
) -> bool {
    match (r, expected) {
        (Ok(p), Ok(w)) => p@ == w,
        (Err(GtrError::Parse(m)), Err(text)) => m@ == text,
        _ => false,
    }
}

/// A sensor to be filled in.
fn blank_sensor() -> (r: Sensor)
    ensures
        r == (Sensor { sens_ok: false, cog_value: 0 }),
{
    Sensor { sens_ok: false, cog_value: 0 }
}

impl GtrPacket {
    /// Parses a packet from the front of `bytes`.
    pub fn from_bytes(bytes: &[u8]) -> (r: Result<Self, GtrError>)
        ensures
            packet_agrees(r, PacketView::parse(bytes@)),
    {
        if bytes.len() < PACKET_TOTAL_SIZE {
            return Err(
                mismatch(
                    "Not enough data for GtrPacket. Expected ",
                    PACKET_TOTAL_SIZE,
                    bytes.len(),
                ),
            );
        }
        let header = match Header::from_bytes(&bytes[MAGIC_SIZE..HEADER_SIZE]) {
            Ok(header) => header,
            Err(e) => return Err(e),
        };
        let status = match Status::from_bytes(&bytes[HEADER_SIZE..HEADER_SIZE + STATUS_SIZE]) {
            Ok(status) => status,
            Err(e) => return Err(e),
        };
        let mut sensors: [Sensor; NUM_SENSORS] = [
            blank_sensor(),
            blank_sensor(),
            blank_sensor(),
            blank_sensor(),
            blank_sensor(),
            blank_sensor(),
            blank_sensor(),
            blank_sensor(),
        ];
        let mut i: usize = 0;
        while i < NUM_SENSORS
            invariant
                i <= NUM_SENSORS,
                bytes@.len() >= PACKET_TOTAL_SIZE,
                forall|j: int|
                    0 <= j < i ==> #[trigger] sensors@[j] == Sensor::parse(
                        sensor_bytes(bytes@, j),
                    )->Ok_0,
            decreases NUM_SENSORS - i,
        {
            let sensor_offset: usize = HEADER_SIZE + STATUS_SIZE + i * SENSOR_SIZE;
            match Sensor::from_bytes(&bytes[sensor_offset..sensor_offset + SENSOR_SIZE]) {
                Ok(sensor) => {
                    sensors[i] = sensor;
                },
                Err(e) => return Err(e),
            }
            i += 1;
        }
        let packet = GtrPacket { header, status, sensors };
        assert(packet@.sensors =~= PacketView::parse(bytes@)->Ok_0.sensors);
        Ok(packet)
    }
}

/// The weight `w` if `set`, else nothing.
pub open spec fn weigh(set: bool, w: int) -> int {
    if set {
        w
    } else {
        0
    }
}

impl Header {
    /// The twelve header bytes that say `self`.
    pub open spec fn encode(self) -> Seq<u8> {
        seq![
            self.version,
            self.kind,
            (self.counter / 0x100) as u8,
            (self.counter % 0x100) as u8,
            (self.time_us / 0x100_0000) as u8,
            (self.time_us / 0x1_0000 % 0x100) as u8,
            (self.time_us / 0x100 % 0x100) as u8,
            (self.time_us % 0x100) as u8,
            (self.payload_size / 0x100) as u8,
            (self.payload_size % 0x100) as u8,
            0u8,
            0u8,
        ]
    }

    /// Whether header bytes can say `self`.
    pub open spec fn valid(self) -> bool {
        self.payload_size == PACKET_PAYLOAD_SIZE
    }

    proof fn lemma_encode(self)
        requires
            self.valid(),
        ensures
            Header::parse(self.encode()) == Ok::<Header, Seq<char>>(self),
    {
        let t = self.time_us as int;
        assert(t == (t / 0x100_0000) * 0x100_0000 + (t / 0x1_0000 % 0x100) * 0x1_0000 + (t / 0x100
            % 0x100) * 0x100 + t % 0x100);
        assert(t / 0x100_0000 < 0x100);
    }
}

/// A byte that is put together from six flags holds each of them.
proof fn lemma_six_flags(b: u8, f5: bool, f4: bool, f3: bool, f2: bool, f1: bool, f0: bool)
    requires
        b == weigh(f5, 32) + weigh(f4, 16) + weigh(f3, 8) + weigh(f2, 4) + weigh(f1, 2) + weigh(
            f0,
            1,
        ),
    ensures
        flag(b, 32) == f5,
        flag(b, 16) == f4,
        flag(b, 8) == f3,
        flag(b, 4) == f2,
        flag(b, 2) == f1,
        flag(b, 1) == f0,
{
    let (w5, w4, w3): (u8, u8, u8) = (
        weigh(f5, 32) as u8,
        weigh(f4, 16) as u8,
        weigh(f3, 8) as u8,
    );
    let (w2, w1, w0): (u8, u8, u8) = (weigh(f2, 4) as u8, weigh(f1, 2) as u8, weigh(f0, 1) as u8);
    assert((b / 32 % 2 == 1) == (w5 == 32) && (b / 16 % 2 == 1) == (w4 == 16) && (b / 8 % 2 == 1)
        == (w3 == 8) && (b / 4 % 2 == 1) == (w2 == 4) && (b / 2 % 2 == 1) == (w1 == 2) && (b / 1 % 2
        == 1) == (w0 == 1)) by (bit_vector)
        requires
            b == w5 + w4 + w3 + w2 + w1 + w0,
            w5 == 32 || w5 == 0,
            w4 == 16 || w4 == 0,
            w3 == 8 || w3 == 0,
            w2 == 4 || w2 == 0,
            w1 == 2 || w1 == 0,
            w0 == 1 || w0 == 0,
    ;
}

/// A byte that is put together from three flags and a number of four bits holds each of
/// them.
proof fn lemma_three_flags(c: u8, f7: bool, f6: bool, f5: bool, n: u8)
    requires
        n < 16,
        c == weigh(f7, 128) + weigh(f6, 64) + weigh(f5, 32) + n * 2,
    ensures
        flag(c, 128) == f7,
        flag(c, 64) == f6,
        flag(c, 32) == f5,
        (c / 2) % 16 == n,
{
    let (w7, w6, w5): (u8, u8, u8) = (
        weigh(f7, 128) as u8,
        weigh(f6, 64) as u8,
        weigh(f5, 32) as u8,
    );
    assert((c / 128 % 2 == 1) == (w7 == 128) && (c / 64 % 2 == 1) == (w6 == 64) && (c / 32 % 2 == 1)
        == (w5 == 32) && c / 2 % 16 == n) by (bit_vector)
        requires
            n < 16,
            c == w7 + w6 + w5 + n * 2,
            w7 == 128 || w7 == 0,
            w6 == 64 || w6 == 0,
            w5 == 32 || w5 == 0,
    ;
}

impl Status {
    /// The three status bytes that say `self`.
    pub open spec fn encode(self) -> Seq<u8> {
        seq![
            0u8,
            (weigh(self.tec_ok, 32) + weigh(self.s8_ok, 16) + weigh(self.s7_ok, 8) + weigh(
                self.s6_ok,
                4,
            ) + weigh(self.s5_ok, 2) + weigh(self.s4_ok, 1)) as u8,
            (weigh(self.s3_ok, 128) + weigh(self.s2_ok, 64) + weigh(self.s1_ok, 32)
                + self.nr_sensors * 2) as u8,
        ]
    }

    /// Whether status bytes can say `self`.
    pub open spec fn valid(self) -> bool {
        self.nr_sensors < 16
    }

    proof fn lemma_encode(self)
        requires
            self.valid(),
        ensures
            Status::parse(self.encode()) == Ok::<Status, Seq<char>>(self),
    {
        let (b, c) = (self.encode()[1], self.encode()[2]);
        lemma_six_flags(b, self.tec_ok, self.s8_ok, self.s7_ok, self.s6_ok, self.s5_ok, self.s4_ok);
        lemma_three_flags(c, self.s3_ok, self.s2_ok, self.s1_ok, self.nr_sensors);
    }
}

impl Sensor {
    /// The three bytes that say `self`.
    pub open spec fn encode(self) -> Seq<u8> {
        seq![
            (weigh(self.sens_ok, 4) + self.cog_value / 0x1_0000) as u8,
            (self.cog_value / 0x100 % 0x100) as u8,
            (self.cog_value % 0x100) as u8,
        ]
    }

    /// Whether the bytes of a sensor can say `self`: the value has 18 bits.
    pub open spec fn valid(self) -> bool {
        self.cog_value < 0x4_0000
    }

    proof fn lemma_encode(self)
        requires
            self.valid(),
        ensures
            Sensor::parse(self.encode()) == Ok::<Sensor, Seq<char>>(self),
    {
    }
}

impl PacketView {
    /// The bytes that say `self`.
    pub open spec fn encode(self) -> Seq<u8> {
        magic() + self.header.encode() + self.status.encode() + Seq::new(
            (NUM_SENSORS * SENSOR_SIZE) as nat,
            |j: int| self.sensors[j / 3].encode()[j % 3],
        )
    }

    /// Whether the bytes of a packet can say `self`.
    pub open spec fn valid(self) -> bool {
        &&& self.header.valid()
        &&& self.status.valid()
        &&& self.sensors.len() == NUM_SENSORS
        &&& forall|i: int| 0 <= i < NUM_SENSORS ==> #[trigger] self.sensors[i].valid()
    }

    /// Parsing gives back every packet that the format can carry.
    pub proof fn law_parse_encode(self)
        requires
            self.valid(),
        ensures
            self.encode().len() == PACKET_TOTAL_SIZE,
            PacketView::parse(self.encode()) == Ok::<PacketView, Seq<char>>(self),
    {
        let bytes = self.encode();
        assert(bytes.subrange(MAGIC_SIZE as int, HEADER_SIZE as int) =~= self.header.encode());
        assert(bytes.subrange(HEADER_SIZE as int, HEADER_SIZE + STATUS_SIZE)
            =~= self.status.encode());
        self.header.lemma_encode();
        self.status.lemma_encode();
        let parsed = PacketView::parse(bytes)->Ok_0;
        assert forall|i: int| 0 <= i < NUM_SENSORS implies parsed.sensors[i]
            == self.sensors[i] by {
            assert(sensor_bytes(bytes, i) =~= self.sensors[i].encode());
            self.sensors[i].lemma_encode();
        }
        assert(parsed.sensors =~= self.sensors);
    }

    /// Every packet that is parsed is one that the format can carry: the payload
    /// size is the only valid one, the number of sensors has four bits, each of
    /// the eight sensors has 18 bits.
    pub proof fn law_parsed_is_valid(bytes: Seq<u8>)
        ensures
            PacketView::parse(bytes) matches Ok(packet) ==> packet.valid(),
    {
    }

    /// Bytes parse as a packet exactly if there are enough of them and the size
    /// field of the header holds the one valid payload size.
    pub proof fn law_parses_iff(bytes: Seq<u8>)
        ensures
            PacketView::parse(bytes) is Ok <==> bytes.len() >= PACKET_TOTAL_SIZE
                && crate::wire::be16(bytes[12], bytes[13]) == PACKET_PAYLOAD_SIZE,
    {
    }

    /// The outcome depends neither on the magic bytes nor on what follows the
    /// packet.
    pub proof fn law_parse_ignores_surroundings(a: Seq<u8>, b: Seq<u8>)
        requires
            a.len() >= PACKET_TOTAL_SIZE,
            b.len() >= PACKET_TOTAL_SIZE,
            a.subrange(MAGIC_SIZE as int, PACKET_TOTAL_SIZE as int) == b.subrange(
                MAGIC_SIZE as int,
                PACKET_TOTAL_SIZE as int,
            ),
        ensures
            PacketView::parse(a) == PacketView::parse(b),
    {
        let inner = a.subrange(MAGIC_SIZE as int, PACKET_TOTAL_SIZE as int);
        assert forall|i: int| MAGIC_SIZE <= i < PACKET_TOTAL_SIZE implies a[i] == b[i] by {
            assert(a[i] == inner[i - MAGIC_SIZE]);
            assert(b[i] == inner[i - MAGIC_SIZE]);
        }
        assert(a.subrange(MAGIC_SIZE as int, HEADER_SIZE as int) =~= b.subrange(
            MAGIC_SIZE as int,
            HEADER_SIZE as int,
        ));
        assert(a.subrange(HEADER_SIZE as int, HEADER_SIZE + STATUS_SIZE) =~= b.subrange(
            HEADER_SIZE as int,
            HEADER_SIZE + STATUS_SIZE,
        ));
        if PacketView::parse(a) is Ok {
            let pa = PacketView::parse(a)->Ok_0;
            let pb = PacketView::parse(b)->Ok_0;
            assert forall|i: int| 0 <= i < NUM_SENSORS implies pa.sensors[i]
                == pb.sensors[i] by {
                assert(sensor_bytes(a, i) =~= sensor_bytes(b, i));
            }
            assert(pa.sensors =~= pb.sensors);
        }
    }
}

/// A big-endian pair of bytes is 27 only as the bytes 0 and 27.
proof fn lemma_size_bytes(hi: u8, lo: u8)
    ensures
        crate::wire::be16(hi, lo) == 27 <==> hi == 0 && lo == 27,
{
}

impl Header {
    /// A header is parsed from twelve bytes or more whose ninth and tenth say 27. It
    /// says what the first ten of them say, and nothing else matters.
    pub proof fn law_says_what_the_bytes_say(bytes: Seq<u8>)
        ensures
            Header::parse(bytes) is Ok <==> bytes.len() >= 12 && bytes[8] == 0 && bytes[9] == 27,
            Header::parse(bytes) matches Ok(header) ==> header.valid() && header.encode()
                == bytes.take(10) + seq![0u8, 0u8],
    {
        lemma_size_bytes(bytes[8], bytes[9]);
        if let Ok(header) = Header::parse(bytes) {
            let (a, b, c, d) = (bytes[4], bytes[5], bytes[6], bytes[7]);
            let t = crate::wire::be32(a, b, c, d);
            assert(t / 0x100_0000 == a && t / 0x1_0000 % 0x100 == b && t / 0x100 % 0x100 == c && t
                % 0x100 == d);
            assert(header.encode() =~= bytes.take(10) + seq![0u8, 0u8]);
        }
    }

    /// What is said of bytes that are not a header.
    pub proof fn law_error_texts(bytes: Seq<u8>)
        ensures
            bytes.len() < 12 ==> Header::parse(bytes) == Err::<Header, Seq<char>>(
                "Not enough data for Header. Expected 12, got "@ + crate::text::decimal(
                    bytes.len(),
                ),
            ),
            bytes.len() >= 12 && !(bytes[8] == 0 && bytes[9] == 27) ==> Header::parse(bytes)
                == Err::<Header, Seq<char>>(
                "Invalid payload_size. Expected 27, got "@ + crate::text::decimal(
                    (bytes[8] * 0x100 + bytes[9]) as nat,
                ),
            ),
    {
        lemma_size_bytes(bytes[8], bytes[9]);
        lemma_expected(12, '1', '2');
        lemma_expected(27, '2', '7');
        reveal_strlit("Not enough data for Header. Expected 12, got ");
        reveal_strlit("Not enough data for Header. Expected ");
        reveal_strlit("Invalid payload_size. Expected 27, got ");
        reveal_strlit("Invalid payload_size. Expected ");
        reveal_strlit(", got ");
        assert("Not enough data for Header. Expected "@ + seq!['1', '2'] + ", got "@
            =~= "Not enough data for Header. Expected 12, got "@);
        assert("Invalid payload_size. Expected "@ + seq!['2', '7'] + ", got "@
            =~= "Invalid payload_size. Expected 27, got "@);
    }
}

/// A number of two digits in decimal.
proof fn lemma_expected(n: nat, tens: char, ones: char)
    requires
        10 <= n < 100,
        tens == crate::text::digit(n / 10),
        ones == crate::text::digit(n % 10),
    ensures
        crate::text::decimal(n) == seq![tens, ones],
{
    assert(crate::text::decimal(n / 10) == seq![tens]);
    assert(seq![tens].push(ones) =~= seq![tens, ones]);
}

/// The weight of a bit that is set, or nothing.
proof fn lemma_weigh(byte: u8, w: u8)
    requires
        w > 0,
    ensures
        weigh(flag(byte, w), w as int) == (byte / w % 2) * w,
{
    assert(byte / w % 2 == 0 || byte / w % 2 == 1);
    assert(1 * w == w);
    assert(0 * w == 0);
}

impl Status {
    /// A status is parsed from any three bytes or more. It says what the second and
    /// third of them say, but for the upper two bits of the second and the lowest bit
    /// of the third, and nothing else matters.
    pub proof fn law_says_what_the_bytes_say(bytes: Seq<u8>)
        ensures
            Status::parse(bytes) is Ok <==> bytes.len() >= 3,
            Status::parse(bytes) matches Ok(status) ==> status.valid() && status.encode() == seq![
                0u8,
                bytes[1] % 64,
                (bytes[2] - bytes[2] % 2) as u8,
            ],
    {
        if let Ok(status) = Status::parse(bytes) {
            let (b, c) = (bytes[1], bytes[2]);
            assert(b % 64 == (b / 32 % 2) * 32 + (b / 16 % 2) * 16 + (b / 8 % 2) * 8 + (b / 4 % 2)
                * 4 + (b / 2 % 2) * 2 + (b / 1 % 2)) by (bit_vector);
            assert(c - c % 2 == (c / 128 % 2) * 128 + (c / 64 % 2) * 64 + (c / 32 % 2) * 32 + (c / 2
                % 16) * 2) by (bit_vector);
            lemma_weigh(b, 32);
            lemma_weigh(b, 16);
            lemma_weigh(b, 8);
            lemma_weigh(b, 4);
            lemma_weigh(b, 2);
            lemma_weigh(b, 1);
            lemma_weigh(c, 128);
            lemma_weigh(c, 64);
            lemma_weigh(c, 32);
            assert(status.encode() =~= seq![0u8, b % 64, (c - c % 2) as u8]);
        }
    }

    /// What is said of bytes that are not a status.
    pub proof fn law_error_text(bytes: Seq<u8>)
        ensures
            bytes.len() < 3 ==> Status::parse(bytes) == Err::<Status, Seq<char>>(
                "Not enough data for Status. Expected 3, got "@ + crate::text::decimal(bytes.len()),
            ),
    {
        reveal_strlit("Not enough data for Status. Expected 3, got ");
        reveal_strlit("Not enough data for Status. Expected ");
        reveal_strlit(", got ");
        assert("Not enough data for Status. Expected "@ + seq!['3'] + ", got "@
            =~= "Not enough data for Status. Expected 3, got "@);
    }
}

impl Sensor {
    /// A sensor is parsed from any three bytes or more. It says what the first three
    /// say, but for the upper five bits of the first, and nothing else matters.
    pub proof fn law_says_what_the_bytes_say(bytes: Seq<u8>)
        ensures
            Sensor::parse(bytes) is Ok <==> bytes.len() >= 3,
            Sensor::parse(bytes) matches Ok(sensor) ==> sensor.valid() && sensor.encode() == seq![
                bytes[0] % 8,
                bytes[1],
                bytes[2],
            ],
    {
    }

    /// What is said of bytes that are not a sensor.
    pub proof fn law_error_text(bytes: Seq<u8>)
        ensures
            bytes.len() < 3 ==> Sensor::parse(bytes) == Err::<Sensor, Seq<char>>(
                "Not enough data for Sensor. Expected 3, got "@ + crate::text::decimal(bytes.len()),
            ),
    {
        reveal_strlit("Not enough data for Sensor. Expected 3, got ");
        reveal_strlit("Not enough data for Sensor. Expected ");
        reveal_strlit(", got ");
        assert("Not enough data for Sensor. Expected "@ + seq!['3'] + ", got "@
            =~= "Not enough data for Sensor. Expected 3, got "@);
    }
}

/// What byte `i` of a packet says: the magic bytes and the unused bytes say nothing
/// and are given as they are sent, and unused bits are given as zero.
pub open spec fn said_byte(bytes: Seq<u8>, i: int) -> u8 {
    if i < 4 {
        magic()[i]
    } else if 14 <= i < 17 {
        0
    } else if i == 17 {
        bytes[i] % 64
    } else if i == 18 {
        (bytes[i] - bytes[i] % 2) as u8
    } else if i >= 19 && (i - 19) % 3 == 0 {
        bytes[i] % 8
    } else {
        bytes[i]
    }
}

impl PacketView {
    /// A parsed packet says what each of its bytes says, in the place where it stands:
    /// laid out again, it gives those bytes back.
    pub proof fn law_says_what_the_bytes_say(bytes: Seq<u8>)
        ensures
            PacketView::parse(bytes) is Ok <==> bytes.len() >= 43 && bytes[12] == 0 && bytes[13]
                == 27,
            PacketView::parse(bytes) matches Ok(packet) ==> packet.valid() && packet.encode()
                == Seq::new(43, |i: int| said_byte(bytes, i)),
    {
        let header_bytes = bytes.subrange(4, 16);
        let status_bytes = bytes.subrange(16, 19);
        lemma_size_bytes(bytes[12], bytes[13]);
        if let Ok(packet) = PacketView::parse(bytes) {
            Header::law_says_what_the_bytes_say(header_bytes);
            Status::law_says_what_the_bytes_say(status_bytes);
            PacketView::law_parsed_is_valid(bytes);
            let said = Seq::new(43, |i: int| said_byte(bytes, i));
            assert(packet.header.encode() =~= said.subrange(4, 16));
            assert(packet.status.encode() =~= said.subrange(16, 19));
            let laid = Seq::new(24, |j: int| packet.sensors[j / 3].encode()[j % 3]);
            assert forall|j: int| 0 <= j < 24 implies #[trigger] laid[j] == said.skip(19)[j] by {
                let i = j / 3;
                let of_sensor = sensor_bytes(bytes, i);
                Sensor::law_says_what_the_bytes_say(of_sensor);
                assert(of_sensor[j % 3] == bytes[19 + j]);
            }
            assert(laid =~= said.skip(19));
            assert(packet.encode() =~= magic() + packet.header.encode() + packet.status.encode()
                + laid);
            assert(packet.encode() =~= said);
        }
    }

    /// What is said of bytes that are not a packet.
    pub proof fn law_error_texts(bytes: Seq<u8>)
        ensures
            bytes.len() < 43 ==> PacketView::parse(bytes) == Err::<PacketView, Seq<char>>(
                "Not enough data for GtrPacket. Expected 43, got "@ + crate::text::decimal(
                    bytes.len(),
                ),
            ),
            bytes.len() >= 43 && !(bytes[12] == 0 && bytes[13] == 27) ==> PacketView::parse(bytes)
                == Err::<PacketView, Seq<char>>(
                "Invalid payload_size. Expected 27, got "@ + crate::text::decimal(
                    (bytes[12] * 0x100 + bytes[13]) as nat,
                ),
            ),
    {
        lemma_expected(43, '4', '3');
        reveal_strlit("Not enough data for GtrPacket. Expected 43, got ");
        reveal_strlit("Not enough data for GtrPacket. Expected ");
        reveal_strlit(", got ");
        assert("Not enough data for GtrPacket. Expected "@ + seq!['4', '3'] + ", got "@
            =~= "Not enough data for GtrPacket. Expected 43, got "@);
        Header::law_error_texts(bytes.subrange(4, 16));
    }
}

/// An outcome that agrees with a value is that value, and one that agrees with a text
/// is the parse error with that text.
pub proof fn law_agreement_is_exact<T>(
    r: Result<T, GtrError>,
    expected: Result<T, Seq<char>>,
)
    requires
        agrees(r, expected),
    ensures
        r is Ok <==> expected is Ok,
        r matches Ok(value) ==> value == expected->Ok_0,
        r matches Err(e) ==> (e matches GtrError::Parse(text) && text@ == expected->Err_0),
{
}

/// A packet that agrees with contents has these contents, each of the eight sensors at
/// its place, and an outcome that agrees with a text is the parse error with that text.
pub proof fn law_packet_agreement_is_exact(
    r: Result<GtrPacket, GtrError>,
    expected: Result<PacketView, Seq<char>>,
    i: int,
)
    requires
        packet_agrees(r, expected),
    ensures
        r is Ok <==> expected is Ok,
        r matches Ok(packet) ==> packet.header == expected->Ok_0.header && packet.status
            == expected->Ok_0.status && expected->Ok_0.sensors.len() == 8 && (0 <= i < 8
            ==> packet.sensors@[i] == expected->Ok_0.sensors[i]),
        r matches Err(e) ==> (e matches GtrError::Parse(text) && text@ == expected->Err_0),
{
}

} // verus!
