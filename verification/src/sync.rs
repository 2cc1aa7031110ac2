//! Synchronization with the byte stream of the Gator.
//!
//! [`PacketSync`] makes the decisions of the background reader. It does no input
//! and no output: it asks its driver for something with a [`Request`], the driver
//! answers with an [`Event`], and [`PacketSync::step`] decides what comes next.
//!
//! The reader searches the stream for the magic bytes. Once it has found them it
//! reads packet after packet, and falls back to searching when what it reads no
//! longer looks like packets.

use crate::packet::{
    GtrPacket, PacketView, MAGIC_BYTES, MAGIC_SIZE, PACKET_TOTAL_SIZE,
};
use vstd::prelude::*;

verus! {

/// Bytes of a packet behind its magic bytes.
pub const BODY_SIZE: usize = 39;

/// How many of the next magic bytes must be right to stay in step.
pub const MIN_MATCHING_MAGIC: usize = 2;

/// How many packet reads may time out before the reader searches again.
pub const MAX_TIMEOUTS: u32 = 10;

/// How often the reader may lose the stream before it pauses.
pub const MAX_RESYNCS: u32 = 5;

/// Why a read failed.
#[derive(Debug, Clone, Copy, PartialEq, Eq)]
pub enum ReadFailure {
    /// Nothing arrived in time.
    TimedOut,
    /// The pipe is broken.
    BrokenPipe,
    /// The port is not connected.
    NotConnected,
    /// Anything else.
    Other,
}

/// What the reader asks of its driver. `P` is the type of a packet.
#[derive(Debug, Clone, PartialEq, Eq)]
pub enum Request<P> {
    /// Say whether the reader has been told to stop: [`Event::StopFlag`].
    CheckStop,
    /// Read at most one byte: [`Event::Byte`], [`Event::NoByte`] or [`Event::Failed`].
    ReadByte,
    /// Read exactly this many bytes: [`Event::Bytes`] or [`Event::Failed`].
    ReadBytes(usize),
    /// Pass the packet on: [`Event::Delivered`], [`Event::NoRoom`] or
    /// [`Event::ReceiverGone`].
    Deliver(P),
    /// Wait a few milliseconds: [`Event::Rested`].
    Pause,
    /// Nothing more: the reader has ended.
    Finish,
}

/// What the driver answers. `B` is the type of a run of bytes.
#[derive(Debug, Clone, PartialEq, Eq)]
pub enum Event<B> {
    /// Whether the reader has been told to stop.
    StopFlag(bool),
    /// A read for one byte gave none.
    NoByte,
    /// A read for one byte gave this one.
    Byte(u8),
    /// A read for a number of bytes gave these.
    Bytes(B),
    /// A read failed.
    Failed(ReadFailure),
    /// The packet was passed on.
    Delivered,
    /// The packet could not be passed on yet: there is no room for it.
    NoRoom,
    /// Nobody receives packets any more.
    ReceiverGone,
    /// The pause is over.
    Rested,
}

impl View for Request<GtrPacket> {
    type V = Request<PacketView>;

    open spec fn view(&self) -> Request<PacketView> {
        match *self {
            Request::CheckStop => Request::CheckStop,
            Request::ReadByte => Request::ReadByte,
            Request::ReadBytes(n) => Request::ReadBytes(n),
            Request::Deliver(p) => Request::Deliver(p@),
            Request::Pause => Request::Pause,
            Request::Finish => Request::Finish,
        }
    }
}

impl View for Event<Vec<u8>> {
    type V = Event<Seq<u8>>;

    open spec fn view(&self) -> Event<Seq<u8>> {
        match *self {
            Event::StopFlag(stop) => Event::StopFlag(stop),
            Event::NoByte => Event::NoByte,
            Event::Byte(b) => Event::Byte(b),
            Event::Bytes(d) => Event::Bytes(d@),
            Event::Failed(why) => Event::Failed(why),
            Event::Delivered => Event::Delivered,
            Event::NoRoom => Event::NoRoom,
            Event::ReceiverGone => Event::ReceiverGone,
            Event::Rested => Event::Rested,
        }
    }
}

/// What the reader is waiting for.
#[derive(Debug, Clone, Copy, PartialEq, Eq)]
pub enum Stage {
    /// The stop flag.
    StopCheck,
    /// One byte to search.
    Byte,
    /// The bytes of a packet behind its magic bytes.
    Body,
    /// The rest of a packet that started inside a damaged one.
    Tail(usize),
    /// A packet to be passed on.
    Delivery,
    /// The stop flag, with a packet for which there was no room.
    Room,
    /// The magic bytes of the next packet.
    Magic,
    /// The end of a pause.
    Pause,
    /// Nothing.
    Finished,
}

/// Whether the magic bytes stand at position `k`.
pub open spec fn magic_at(bytes: Seq<u8>, k: int) -> bool {
    bytes.subrange(k, k + MAGIC_SIZE) == crate::packet::magic()
}

/// Whether `k` is the first position behind the start of a damaged packet at
/// which the magic bytes stand. The last position that would hold them is not
/// searched.
pub open spec fn first_embedded_magic(buffer: Seq<u8>, k: int) -> bool {
    &&& 1 <= k < BODY_SIZE
    &&& magic_at(buffer, k)
    &&& forall|j: int| 1 <= j < k ==> !magic_at(buffer, j)
}

/// How many of four bytes are equal to the magic byte at their place.
pub open spec fn matching_magic(bytes: Seq<u8>) -> int {
    (if bytes[0] == crate::packet::magic()[0] { 1int } else { 0 })
        + (if bytes[1] == crate::packet::magic()[1] { 1int } else { 0 })
        + (if bytes[2] == crate::packet::magic()[2] { 1int } else { 0 })
        + (if bytes[3] == crate::packet::magic()[3] { 1int } else { 0 })
}

/// The four bytes of a ring, read from `head` on.
pub open spec fn window(ring: Seq<u8>, head: int) -> Seq<u8> {
    seq![ring[head % 4], ring[(head + 1) % 4], ring[(head + 2) % 4], ring[(head + 3) % 4]]
}

/// Whether a ring holds the magic bytes, starting at some place.
pub open spec fn holds_magic(ring: Seq<u8>) -> bool {
    exists|r: int| 0 <= r < MAGIC_SIZE && #[trigger] window(ring, r) == crate::packet::magic()
}

/// The state of the reader.
pub struct SyncModel {
    /// The last four bytes that were searched, as a ring.
    pub ring: Seq<u8>,
    /// Where the next searched byte goes, which is where the oldest one stands.
    pub head: int,
    /// Whether the reader is in step with the stream.
    pub synced: bool,
    /// The packet that is being put together.
    pub buffer: Seq<u8>,
    /// Packet reads that timed out.
    pub timeouts: int,
    /// Times that the stream was lost since it was last found.
    pub resyncs: int,
    /// What the reader is waiting for.
    pub stage: Stage,
}

impl SyncModel {
    /// The reader before its first request.
    pub open spec fn initial() -> SyncModel {
        SyncModel {
            ring: Seq::new(MAGIC_SIZE as nat, |i: int| 0u8),
            head: 0,
            synced: false,
            buffer: Seq::new(PACKET_TOTAL_SIZE as nat, |i: int| 0u8),
            timeouts: 0,
            resyncs: 0,
            stage: Stage::StopCheck,
        }
    }

    /// What holds of every state. While the reader is in step, the ring still
    /// holds the magic bytes that it found, starting at some place.
    pub open spec fn wf(self) -> bool {
        &&& self.ring.len() == MAGIC_SIZE
        &&& 0 <= self.head < MAGIC_SIZE
        &&& self.buffer.len() == PACKET_TOTAL_SIZE
        &&& 0 <= self.timeouts <= MAX_TIMEOUTS
        &&& 0 <= self.resyncs <= MAX_RESYNCS + 1
        &&& self.synced ==> self.resyncs <= MAX_RESYNCS
        &&& self.synced ==> holds_magic(self.ring)
        &&& match self.stage {
            Stage::Byte => !self.synced,
            Stage::Body => self.synced,
            Stage::Delivery | Stage::Room => self.synced && PacketView::parse(self.buffer) is Ok,
            Stage::Magic => self.synced,
            Stage::Tail(k) => self.synced && 1 <= k < BODY_SIZE,
            _ => true,
        }
    }

    /// Whether `request` asks for what the reader is waiting for.
    pub open spec fn awaits(self, request: Request<PacketView>) -> bool {
        match self.stage {
            Stage::StopCheck => request is CheckStop,
            Stage::Byte => request is ReadByte,
            Stage::Body => request == Request::<PacketView>::ReadBytes(BODY_SIZE),
            Stage::Tail(k) => request == Request::<PacketView>::ReadBytes(k),
            Stage::Delivery => request == Request::Deliver(PacketView::parse(self.buffer)->Ok_0),
            Stage::Room => request is CheckStop,
            Stage::Magic => request == Request::<PacketView>::ReadBytes(MAGIC_SIZE),
            Stage::Pause => request is Pause,
            Stage::Finished => request is Finish,
        }
    }

    /// Back to the check of the stop flag.
    pub open spec fn next_round(self) -> (SyncModel, Request<PacketView>) {
        (SyncModel { stage: Stage::StopCheck, ..self }, Request::CheckStop)
    }

    /// The end.
    pub open spec fn finished(self) -> (SyncModel, Request<PacketView>) {
        (SyncModel { stage: Stage::Finished, ..self }, Request::Finish)
    }

    /// Out of step: the reader has to search again. The bytes in the ring stay.
    pub open spec fn lost(self) -> SyncModel {
        SyncModel { synced: false, head: 0, resyncs: self.resyncs + 1, ..self }
    }

    /// The end of an attempt to read a packet.
    pub open spec fn end_round(self) -> (SyncModel, Request<PacketView>) {
        if self.resyncs > MAX_RESYNCS {
            (SyncModel { stage: Stage::Pause, ..self }, Request::Pause)
        } else {
            self.next_round()
        }
    }

    /// The stop flag has been read.
    pub open spec fn on_stop_flag(self, stop: bool) -> (SyncModel, Request<PacketView>) {
        if stop {
            self.finished()
        } else if self.synced {
            (SyncModel { stage: Stage::Body, ..self }, Request::ReadBytes(BODY_SIZE))
        } else {
            (SyncModel { stage: Stage::Byte, ..self }, Request::ReadByte)
        }
    }

    /// A byte to search: it takes the place of the oldest in the ring, and the
    /// reader is in step if the ring then holds the magic bytes in order.
    pub open spec fn on_byte(self, b: u8) -> (SyncModel, Request<PacketView>) {
        let ring = self.ring.update(self.head, b);
        let head = (self.head + 1) % 4;
        if window(ring, head) == crate::packet::magic() {
            SyncModel {
                ring,
                head: 0,
                synced: true,
                buffer: crate::packet::magic() + self.buffer.skip(MAGIC_SIZE as int),
                resyncs: 0,
                ..self
            }.next_round()
        } else {
            SyncModel { ring, head, ..self }.next_round()
        }
    }

    /// The packet in the buffer is complete and valid: it is passed on.
    pub open spec fn deliver(self, packet: PacketView) -> (SyncModel, Request<PacketView>) {
        (SyncModel { stage: Stage::Delivery, ..self }, Request::Deliver(packet))
    }

    /// The stop flag has been read while there was no room for the packet in the
    /// buffer: unless the reader is to stop, the packet is offered again.
    pub open spec fn on_room(self, stop: bool) -> (SyncModel, Request<PacketView>) {
        if stop {
            self.finished()
        } else {
            self.deliver(PacketView::parse(self.buffer)->Ok_0)
        }
    }

    /// The bytes of a packet behind its magic bytes. A packet that is not valid
    /// is searched for the magic bytes of another: if they are there, the buffer
    /// is moved up so that it starts with them, and the bytes that are then
    /// missing are asked for.
    pub open spec fn on_body(self, body: Seq<u8>) -> (SyncModel, Request<PacketView>) {
        let buffer = self.buffer.take(MAGIC_SIZE as int) + body;
        let filled = SyncModel { buffer, ..self };
        match PacketView::parse(buffer) {
            Ok(packet) => filled.deliver(packet),
            Err(_) => if exists|k: int| first_embedded_magic(buffer, k) {
                let k = choose|k: int| first_embedded_magic(buffer, k);
                (
                    SyncModel {
                        buffer: buffer.skip(k) + buffer.skip(PACKET_TOTAL_SIZE - k),
                        stage: Stage::Tail(k as usize),
                        ..self
                    },
                    Request::ReadBytes(k as usize),
                )
            } else {
                filled.lost().end_round()
            },
        }
    }

    /// The read of a packet failed. Too many timeouts mean that the reader is out
    /// of step, any other failure means so at once, and without a connection the
    /// reader ends.
    pub open spec fn on_body_failure(self, why: ReadFailure) -> (SyncModel, Request<PacketView>) {
        match why {
            ReadFailure::TimedOut => if self.timeouts + 1 > MAX_TIMEOUTS {
                SyncModel { timeouts: 0, ..self.lost() }.next_round()
            } else {
                SyncModel { timeouts: self.timeouts + 1, ..self }.next_round()
            },
            ReadFailure::BrokenPipe => self.lost().finished(),
            ReadFailure::NotConnected => self.lost().finished(),
            ReadFailure::Other => self.lost().end_round(),
        }
    }

    /// The missing bytes of a packet that started inside a damaged one.
    pub open spec fn on_tail(self, tail: Seq<u8>) -> (SyncModel, Request<PacketView>) {
        let buffer = self.buffer.take(PACKET_TOTAL_SIZE - tail.len()) + tail;
        let filled = SyncModel { buffer, ..self };
        match PacketView::parse(buffer) {
            Ok(packet) => filled.deliver(packet),
            Err(_) => filled.lost().end_round(),
        }
    }

    /// The four bytes where the next packet should start. With enough of them
    /// right the reader stays in step, else it searches on from these four.
    pub open spec fn on_magic(self, bytes: Seq<u8>) -> (SyncModel, Request<PacketView>) {
        let buffer = bytes + self.buffer.skip(MAGIC_SIZE as int);
        let filled = SyncModel { buffer, ..self };
        if matching_magic(bytes) >= MIN_MATCHING_MAGIC {
            filled.end_round()
        } else {
            SyncModel { ring: bytes, ..filled.lost() }.end_round()
        }
    }

    /// The state and the request that follow an event, if the event answers what
    /// the reader is waiting for.
    pub open spec fn step(self, event: Event<Seq<u8>>) -> Option<
        (SyncModel, Request<PacketView>),
    > {
        match (self.stage, event) {
            (Stage::StopCheck, Event::StopFlag(stop)) => Some(self.on_stop_flag(stop)),
            (Stage::Byte, Event::NoByte) => Some(self.next_round()),
            (Stage::Byte, Event::Byte(b)) => Some(self.on_byte(b)),
            (Stage::Byte, Event::Failed(ReadFailure::TimedOut)) => Some(self.next_round()),
            (Stage::Byte, Event::Failed(_)) => Some(self.finished()),
            (Stage::Body, Event::Bytes(d)) => if d.len() == BODY_SIZE {
                Some(self.on_body(d))
            } else {
                None
            },
            (Stage::Body, Event::Failed(why)) => Some(self.on_body_failure(why)),
            (Stage::Tail(k), Event::Bytes(d)) => if d.len() == k {
                Some(self.on_tail(d))
            } else {
                None
            },
            (Stage::Tail(_), Event::Failed(_)) => Some(self.lost().end_round()),
            (Stage::Delivery, Event::Delivered) => Some(
                (
                    SyncModel { stage: Stage::Magic, ..self },
                    Request::ReadBytes(MAGIC_SIZE),
                ),
            ),
            (Stage::Delivery, Event::NoRoom) => Some(
                (SyncModel { stage: Stage::Room, ..self }, Request::CheckStop),
            ),
            (Stage::Delivery, Event::ReceiverGone) => Some(self.finished()),
            (Stage::Room, Event::StopFlag(stop)) => Some(self.on_room(stop)),
            (Stage::Magic, Event::Bytes(d)) => if d.len() == MAGIC_SIZE {
                Some(self.on_magic(d))
            } else {
                None
            },
            (Stage::Magic, Event::Failed(_)) => Some(self.lost().end_round()),
            (Stage::Pause, Event::Rested) => Some(
                (SyncModel { resyncs: 0, ..self }).next_round(),
            ),
            _ => None,
        }
    }
}

/// The reader: what it has read and what it is waiting for.
///
/// The driver answers each request with [`PacketSync::step`]. Bytes that a read got
/// before it failed are not handed over; they are lost.
pub struct PacketSync {
    ring: [u8; MAGIC_SIZE],
    head: usize,
    synced: bool,
    buffer: [u8; PACKET_TOTAL_SIZE],
    timeouts: u32,
    resyncs: u32,
    stage: Stage,
}

impl View for PacketSync {
    type V = SyncModel;

    closed spec fn view(&self) -> SyncModel {
        SyncModel {
            ring: self.ring@,
            head: self.head as int,
            synced: self.synced,
            buffer: self.buffer@,
            timeouts: self.timeouts as int,
            resyncs: self.resyncs as int,
            stage: self.stage,
        }
    }
}

/// Whether the magic bytes stand at position `k` of a packet buffer.
fn is_magic_at(buffer: &[u8; PACKET_TOTAL_SIZE], k: usize) -> (r: bool)
    requires
        k + MAGIC_SIZE <= PACKET_TOTAL_SIZE,
    ensures
        r == magic_at(buffer@, k as int),
{
    let ghost there = buffer@.subrange(k as int, k + MAGIC_SIZE);
    let r = buffer[k] == MAGIC_BYTES[0] && buffer[k + 1] == MAGIC_BYTES[1] && buffer[k + 2]
        == MAGIC_BYTES[2] && buffer[k + 3] == MAGIC_BYTES[3];
    proof {
        assert(there[0] == buffer@[k as int]);
        assert(there[1] == buffer@[k + 1]);
        assert(there[2] == buffer@[k + 2]);
        assert(there[3] == buffer@[k + 3]);
        if r {
            assert(there =~= crate::packet::magic());
        }
    }
    r
}

/// Looks for the magic bytes of another packet inside a damaged one.
pub fn find_embedded_magic(buffer: &[u8; PACKET_TOTAL_SIZE]) -> (r: Option<usize>)
    ensures
        match r {
            Some(k) => first_embedded_magic(buffer@, k as int),
            None => forall|k: int| 1 <= k < BODY_SIZE ==> !magic_at(buffer@, k),
        },
{
    let mut offset: usize = 1;
    while offset < BODY_SIZE
        invariant
            1 <= offset <= BODY_SIZE,
            forall|k: int| 1 <= k < offset ==> !magic_at(buffer@, k),
        decreases BODY_SIZE - offset,
    {
        if is_magic_at(buffer, offset) {
            return Some(offset);
        }
        offset += 1;
    }
    None
}

/// Counts the bytes that are equal to the magic byte at their place.
pub fn count_matching_magic(bytes: &[u8]) -> (r: usize)
    requires
        bytes@.len() == MAGIC_SIZE,
    ensures
        r == matching_magic(bytes@),
{
    let mut count: usize = 0;
    if bytes[0] == MAGIC_BYTES[0] {
        count += 1;
    }
    if bytes[1] == MAGIC_BYTES[1] {
        count += 1;
    }
    if bytes[2] == MAGIC_BYTES[2] {
        count += 1;
    }
    if bytes[3] == MAGIC_BYTES[3] {
        count += 1;
    }
    count
}

/// The first embedded magic is the only one.
pub proof fn lemma_first_embedded_magic(buffer: Seq<u8>, k: int)
    requires
        first_embedded_magic(buffer, k),
    ensures
        (choose|j: int| first_embedded_magic(buffer, j)) == k,
{
    let j = choose|j: int| first_embedded_magic(buffer, j);
    assert(first_embedded_magic(buffer, j));
    assert(!(j < k)) by {
        if j < k {
            assert(!magic_at(buffer, j));
        }
    }
    assert(!(k < j)) by {
        if k < j {
            assert(!magic_at(buffer, k));
        }
    }
}

impl SyncModel {
    /// Every step leads from a valid state to a valid state, and its request asks
    /// for what the reader is then waiting for.
    pub proof fn law_step_keeps_wf(self, event: Event<Seq<u8>>)
        requires
            self.wf(),
        ensures
            self.step(event) matches Some((next, request)) ==> next.wf() && next.awaits(request),
    {
        match (self.stage, event) {
            (Stage::Byte, Event::Byte(b)) => {
                let ring = self.ring.update(self.head, b);
                let head = (self.head + 1) % 4;
                if window(ring, head) == crate::packet::magic() {
                    assert(holds_magic(ring));
                }
            },
            (Stage::Body, Event::Bytes(d)) => {
                if d.len() == BODY_SIZE {
                    let buffer = self.buffer.take(MAGIC_SIZE as int) + d;
                    if exists|k: int| first_embedded_magic(buffer, k) {
                        let k = choose|k: int| first_embedded_magic(buffer, k);
                        assert(first_embedded_magic(buffer, k));
                    }
                }
            },
            _ => {},
        }
    }

    /// A packet is passed on only while the reader is in step, it is what the
    /// buffer says, and it is one that the format can carry.
    pub proof fn law_delivered_is_valid(self, event: Event<Seq<u8>>)
        requires
            self.wf(),
        ensures
            self.step(event) matches Some((next, Request::Deliver(packet))) ==> next.synced
                && PacketView::parse(next.buffer) == Ok::<PacketView, Seq<char>>(packet)
                && packet.valid(),
    {
        self.law_step_keeps_wf(event);
        if let Some((next, Request::Deliver(_))) = self.step(event) {
            PacketView::law_parsed_is_valid(next.buffer);
        }
    }

    /// A reader that is told to stop ends, also where it has a packet for which there
    /// was no room.
    pub proof fn law_stop_ends(self)
        requires
            self.stage == Stage::StopCheck || self.stage == Stage::Room,
        ensures
            self.step(Event::StopFlag(true)) matches Some((next, request)) && request is Finish
                && next.stage == Stage::Finished,
    {
    }

    /// A reader that finds no room for a packet asks for the stop flag. If it is not to
    /// stop it is back where it was and offers the same packet again, and if it is to
    /// stop it ends.
    pub proof fn law_waiting_for_room(self)
        requires
            self.wf(),
            self.stage == Stage::Delivery,
        ensures
            self.step(Event::NoRoom) matches Some((waiting, request)) && request is CheckStop
                && waiting.step(Event::StopFlag(false)) == Some(
                (self, Request::Deliver(PacketView::parse(self.buffer)->Ok_0)),
            ) && self.awaits(Request::Deliver(PacketView::parse(self.buffer)->Ok_0)) && (
            waiting.step(Event::StopFlag(true)) matches Some((_, end)) && end is Finish),
    {
    }

    /// A reader that has ended takes no event.
    pub proof fn law_finished_is_final(self, event: Event<Seq<u8>>)
        requires
            self.stage == Stage::Finished,
        ensures
            self.step(event) is None,
    {
    }

    /// A searched byte moves the window on by one byte, and the reader is in step
    /// exactly if the window then holds the magic bytes.
    pub proof fn law_window_slides(self, b: u8)
        requires
            self.wf(),
            self.stage == Stage::Byte,
        ensures
            ({
                let slid = window(self.ring, self.head).skip(1).push(b);
                let next = self.on_byte(b).0;
                &&& self.step(Event::Byte(b)) == Some(self.on_byte(b))
                &&& next.synced <==> slid == crate::packet::magic()
                &&& !next.synced ==> window(next.ring, next.head) == slid
            }),
    {
        let slid = window(self.ring, self.head).skip(1).push(b);
        let ring = self.ring.update(self.head, b);
        let head = (self.head + 1) % 4;
        assert(window(ring, head) =~= slid);
    }

    /// A read for a byte to search that gives none, or that times out, leads back to
    /// the state before it.
    pub proof fn law_idle_read_changes_nothing(self)
        requires
            self.stage == Stage::StopCheck,
            !self.synced,
        ensures
            self.step(Event::StopFlag(false)) matches Some((searching, request)) && request
                is ReadByte && searching.step(Event::NoByte) == Some(
                (self, Request::<PacketView>::CheckStop),
            ) && searching.step(Event::Failed(ReadFailure::TimedOut)) == Some(
                (self, Request::<PacketView>::CheckStop),
            ),
    {
    }

    /// Where too few of the next magic bytes are right, the search goes on with
    /// exactly the four bytes that stood in their place.
    pub proof fn law_search_resumes_at_wrong_magic(self, bytes: Seq<u8>)
        requires
            self.wf(),
            self.stage == Stage::Magic,
            bytes.len() == MAGIC_SIZE,
            matching_magic(bytes) < MIN_MATCHING_MAGIC,
        ensures
            self.step(Event::Bytes(bytes)) matches Some((next, request)) && !next.synced
                && window(next.ring, next.head) == bytes,
    {
        let next = self.on_magic(bytes).0;
        assert(window(next.ring, next.head) =~= bytes);
    }

    /// Timeouts of packet reads add up, whatever happens in between: only the one
    /// that makes the reader search again sets the count back.
    pub proof fn law_timeouts_add_up(self, event: Event<Seq<u8>>)
        requires
            self.wf(),
        ensures
            self.step(event) matches Some((next, request)) ==> if self.stage == Stage::Body
                && event == Event::<Seq<u8>>::Failed(ReadFailure::TimedOut) {
                &&& next.timeouts == (self.timeouts + 1) % (MAX_TIMEOUTS + 1)
                &&& next.synced <==> next.timeouts != 0
            } else {
                next.timeouts == self.timeouts
            },
    {
    }

    /// How many bytes at the front of the buffer can still matter.
    pub open spec fn live(self) -> int {
        match self.stage {
            Stage::Tail(k) => PACKET_TOTAL_SIZE - k,
            Stage::Body => MAGIC_SIZE as int,
            Stage::StopCheck | Stage::Pause => if self.synced {
                MAGIC_SIZE as int
            } else {
                0
            },
            Stage::Delivery | Stage::Room => PACKET_TOTAL_SIZE as int,
            _ => 0,
        }
    }

    /// Whether two states differ at most in bytes of the buffer that no longer
    /// matter.
    pub open spec fn same_but_stale(self, other: SyncModel) -> bool {
        &&& self == (SyncModel { buffer: self.buffer, ..other })
        &&& self.buffer.take(self.live()) == other.buffer.take(self.live())
    }

    /// What a failed read leaves in the part of the buffer that it was to fill
    /// has no influence on anything that follows.
    pub proof fn law_stale_bytes_do_not_matter(self, other: SyncModel, event: Event<Seq<u8>>)
        requires
            self.wf(),
            other.wf(),
            self.same_but_stale(other),
        ensures
            match (self.step(event), other.step(event)) {
                (Some((a, p)), Some((b, q))) => p == q && a.same_but_stale(b),
                (None, None) => true,
                _ => false,
            },
    {
        assert(self.buffer.take(0) =~= other.buffer.take(0));
        match (self.stage, event) {
            (Stage::Byte, Event::Byte(b)) => {
                let a = self.on_byte(b).0;
                let c = other.on_byte(b).0;
                assert(a.buffer.take(0) =~= c.buffer.take(0));
                if a.synced {
                    assert(a.buffer.take(MAGIC_SIZE as int) =~= c.buffer.take(MAGIC_SIZE as int));
                }
            },
            (Stage::Magic, Event::Bytes(d)) => {
                if d.len() == MAGIC_SIZE {
                    let a = self.on_magic(d).0;
                    let c = other.on_magic(d).0;
                    assert(a.buffer.take(0) =~= c.buffer.take(0));
                    assert(a.buffer.take(MAGIC_SIZE as int) =~= c.buffer.take(MAGIC_SIZE as int));
                }
            },
            (Stage::Body, Event::Bytes(d)) => {
                if d.len() == BODY_SIZE {
                    assert(self.on_body(d) == other.on_body(d));
                }
            },
            (Stage::Tail(k), Event::Bytes(d)) => {
                if d.len() == k {
                    assert(self.on_tail(d) == other.on_tail(d));
                }
            },
            (Stage::Delivery, _) | (Stage::Room, _) => {
                assert(self.buffer.take(PACKET_TOTAL_SIZE as int) =~= self.buffer);
                assert(other.buffer.take(PACKET_TOTAL_SIZE as int) =~= other.buffer);
            },
            _ => {},
        }
    }
}

impl PacketSync {
    /// A reader at its start, and its first request.
    pub fn start() -> (r: (PacketSync, Request<GtrPacket>))
        ensures
            r.0@ == SyncModel::initial(),
            r.0@.wf(),
            r.1@ == Request::<PacketView>::CheckStop,
    {
        let reader = PacketSync {
            ring: [0; MAGIC_SIZE],
            head: 0,
            synced: false,
            buffer: [0; PACKET_TOTAL_SIZE],
            timeouts: 0,
            resyncs: 0,
            stage: Stage::StopCheck,
        };
        assert(reader@.ring =~= SyncModel::initial().ring);
        assert(reader@.buffer =~= SyncModel::initial().buffer);
        (reader, Request::CheckStop)
    }

    /// Whether the reader is in step with the stream.
    pub fn is_synced(&self) -> (r: bool)
        ensures
            r == self@.synced,
    {
        self.synced
    }

    /// What the reader is waiting for.
    pub fn stage(&self) -> (r: Stage)
        ensures
            r == self@.stage,
    {
        self.stage
    }

    fn next_round(&mut self) -> (r: Request<GtrPacket>)
        ensures
            (final(self)@, r@) == old(self)@.next_round(),
    {
        self.stage = Stage::StopCheck;
        Request::CheckStop
    }

    fn finish(&mut self) -> (r: Request<GtrPacket>)
        ensures
            (final(self)@, r@) == old(self)@.finished(),
    {
        self.stage = Stage::Finished;
        Request::Finish
    }

    fn lose(&mut self)
        requires
            old(self)@.resyncs <= MAX_RESYNCS,
        ensures
            final(self)@ == old(self)@.lost(),
    {
        self.synced = false;
        self.head = 0;
        self.resyncs = self.resyncs + 1;
    }

    fn end_round(&mut self) -> (r: Request<GtrPacket>)
        ensures
            (final(self)@, r@) == old(self)@.end_round(),
    {
        if self.resyncs > MAX_RESYNCS {
            self.stage = Stage::Pause;
            Request::Pause
        } else {
            self.next_round()
        }
    }

    fn on_stop_flag(&mut self, stop: bool) -> (r: Request<GtrPacket>)
        ensures
            (final(self)@, r@) == old(self)@.on_stop_flag(stop),
    {
        if stop {
            self.finish()
        } else if self.synced {
            self.stage = Stage::Body;
            Request::ReadBytes(BODY_SIZE)
        } else {
            self.stage = Stage::Byte;
            Request::ReadByte
        }
    }

    fn on_room(&mut self, stop: bool) -> (r: Request<GtrPacket>)
        requires
            old(self)@.wf(),
            old(self)@.stage == Stage::Room,
        ensures
            (final(self)@, r@) == old(self)@.on_room(stop),
    {
        if stop {
            return self.finish();
        }
        match GtrPacket::from_bytes(&self.buffer) {
            Ok(packet) => {
                self.stage = Stage::Delivery;
                Request::Deliver(packet)
            },
            Err(_) => self.finish(),
        }
    }

    fn on_byte(&mut self, b: u8) -> (r: Request<GtrPacket>)
        requires
            old(self)@.wf(),
            old(self)@.stage == Stage::Byte,
        ensures
            (final(self)@, r@) == old(self)@.on_byte(b),
    {
        self.ring[self.head] = b;
        self.head = (self.head + 1) % MAGIC_SIZE;
        let found = self.ring[self.head] == MAGIC_BYTES[0] && self.ring[(self.head + 1)
            % MAGIC_SIZE] == MAGIC_BYTES[1] && self.ring[(self.head + 2) % MAGIC_SIZE]
            == MAGIC_BYTES[2] && self.ring[(self.head + 3) % MAGIC_SIZE] == MAGIC_BYTES[3];
        let ghost there = window(self@.ring, self@.head);
        proof {
            if found {
                assert(there =~= crate::packet::magic());
            } else {
                assert(there[0] != MAGIC_BYTES@[0] || there[1] != MAGIC_BYTES@[1] || there[2]
                    != MAGIC_BYTES@[2] || there[3] != MAGIC_BYTES@[3]);
            }
        }
        if found {
            self.synced = true;
            self.resyncs = 0;
            let mut i: usize = 0;
            let ghost before = self.buffer@;
            let ghost rest = *self;
            while i < MAGIC_SIZE
                invariant
                    i <= MAGIC_SIZE,
                    before.len() == PACKET_TOTAL_SIZE,
                    self.buffer@ =~= crate::packet::magic().take(i as int) + before.skip(i as int),
                    *self == (PacketSync { buffer: self.buffer, ..rest }),
                decreases MAGIC_SIZE - i,
            {
                self.buffer[i] = MAGIC_BYTES[i];
                i += 1;
            }
            assert(self.buffer@ =~= crate::packet::magic() + before.skip(MAGIC_SIZE as int));
            self.head = 0;
        }
        self.next_round()
    }

    fn on_body(&mut self, body: &[u8]) -> (r: Request<GtrPacket>)
        requires
            old(self)@.wf(),
            old(self)@.stage == Stage::Body,
            body@.len() == BODY_SIZE,
        ensures
            (final(self)@, r@) == old(self)@.on_body(body@),
    {
        self.fill(MAGIC_SIZE, body);
        let ghost buffer = self.buffer@;
        match GtrPacket::from_bytes(&self.buffer) {
            Ok(packet) => {
                self.stage = Stage::Delivery;
                Request::Deliver(packet)
            },
            Err(_) => match find_embedded_magic(&self.buffer) {
                Some(offset) => {
                    proof {
                        lemma_first_embedded_magic(buffer, offset as int);
                    }
                    self.move_up(offset);
                    self.stage = Stage::Tail(offset);
                    Request::ReadBytes(offset)
                },
                None => {
                    self.lose();
                    self.end_round()
                },
            },
        }
    }

    /// Writes bytes into the buffer from position `start` to its end.
    fn fill(&mut self, start: usize, bytes: &[u8])
        requires
            start + bytes@.len() == PACKET_TOTAL_SIZE,
        ensures
            final(self)@ == (SyncModel {
                buffer: old(self)@.buffer.take(start as int) + bytes@,
                ..old(self)@
            }),
    {
        let mut i: usize = 0;
        let ghost before = self.buffer@;
        let ghost rest = *self;
        while i < bytes.len()
            invariant
                i <= bytes@.len(),
                start + bytes@.len() == PACKET_TOTAL_SIZE,
                before.len() == PACKET_TOTAL_SIZE,
                self.buffer@ =~= before.take(start as int) + bytes@.take(i as int) + before.skip(
                    start + i,
                ),
                *self == (PacketSync { buffer: self.buffer, ..rest }),
            decreases bytes@.len() - i,
        {
            self.buffer[start + i] = bytes[i];
            i += 1;
        }
        assert(self.buffer@ =~= before.take(start as int) + bytes@);
    }

    /// Moves the buffer up by `offset`, so that it starts with what stood there.
    /// The bytes at its end stay as they are.
    fn move_up(&mut self, offset: usize)
        requires
            offset <= PACKET_TOTAL_SIZE,
        ensures
            final(self)@ == (SyncModel {
                buffer: old(self)@.buffer.skip(offset as int) + old(self)@.buffer.skip(
                    PACKET_TOTAL_SIZE - offset,
                ),
                ..old(self)@
            }),
    {
        let mut i: usize = 0;
        let ghost before = self.buffer@;
        let ghost rest = *self;
        while i < PACKET_TOTAL_SIZE - offset
            invariant
                i <= PACKET_TOTAL_SIZE - offset,
                offset <= PACKET_TOTAL_SIZE,
                before.len() == PACKET_TOTAL_SIZE,
                self.buffer@ =~= before.subrange(offset as int, offset + i) + before.skip(
                    i as int,
                ),
                *self == (PacketSync { buffer: self.buffer, ..rest }),
            decreases PACKET_TOTAL_SIZE - offset - i,
        {
            self.buffer[i] = self.buffer[offset + i];
            i += 1;
        }
        assert(self.buffer@ =~= before.skip(offset as int) + before.skip(
            PACKET_TOTAL_SIZE - offset,
        ));
    }

    fn on_body_failure(&mut self, why: ReadFailure) -> (r: Request<GtrPacket>)
        requires
            old(self)@.wf(),
            old(self)@.stage == Stage::Body,
        ensures
            (final(self)@, r@) == old(self)@.on_body_failure(why),
    {
        match why {
            ReadFailure::TimedOut => {
                self.timeouts = self.timeouts + 1;
                if self.timeouts > MAX_TIMEOUTS {
                    self.lose();
                    self.timeouts = 0;
                }
                self.next_round()
            },
            ReadFailure::BrokenPipe | ReadFailure::NotConnected => {
                self.lose();
                self.finish()
            },
            ReadFailure::Other => {
                self.lose();
                self.end_round()
            },
        }
    }

    fn on_tail(&mut self, tail: &[u8]) -> (r: Request<GtrPacket>)
        requires
            old(self)@.wf(),
            old(self)@.stage == Stage::Tail(tail.len()),
        ensures
            (final(self)@, r@) == old(self)@.on_tail(tail@),
    {
        self.fill(PACKET_TOTAL_SIZE - tail.len(), tail);
        match GtrPacket::from_bytes(&self.buffer) {
            Ok(packet) => {
                self.stage = Stage::Delivery;
                Request::Deliver(packet)
            },
            Err(_) => {
                self.lose();
                self.end_round()
            },
        }
    }

    fn on_magic(&mut self, bytes: &[u8]) -> (r: Request<GtrPacket>)
        requires
            old(self)@.wf(),
            old(self)@.stage == Stage::Magic,
            bytes@.len() == MAGIC_SIZE,
        ensures
            (final(self)@, r@) == old(self)@.on_magic(bytes@),
    {
        self.buffer[0] = bytes[0];
        self.buffer[1] = bytes[1];
        self.buffer[2] = bytes[2];
        self.buffer[3] = bytes[3];
        assert(self.buffer@ =~= bytes@ + old(self).buffer@.skip(MAGIC_SIZE as int));
        if count_matching_magic(bytes) < MIN_MATCHING_MAGIC {
            self.lose();
            self.ring = [bytes[0], bytes[1], bytes[2], bytes[3]];
            assert(self.ring@ =~= bytes@);
        }
        self.end_round()
    }

    /// Takes the answer to the last request and returns the next one. An event
    /// that does not answer the last request is not taken.
    pub fn step(&mut self, event: Event<Vec<u8>>) -> (r: Option<Request<GtrPacket>>)
        requires
            old(self)@.wf(),
        ensures
            match old(self)@.step(event@) {
                Some((next, request)) => final(self)@ == next && (r matches Some(q) && q@
                    == request),
                None => final(self)@ == old(self)@ && r is None,
            },
            final(self)@.wf(),
    {
        proof {
            self@.law_step_keeps_wf(event@);
        }
        match (self.stage, event) {
            (Stage::StopCheck, Event::StopFlag(stop)) => Some(self.on_stop_flag(stop)),
            (Stage::Byte, Event::NoByte) => Some(self.next_round()),
            (Stage::Byte, Event::Byte(b)) => Some(self.on_byte(b)),
            (Stage::Byte, Event::Failed(why)) => match why {
                ReadFailure::TimedOut => Some(self.next_round()),
                _ => Some(self.finish()),
            },
            (Stage::Body, Event::Bytes(d)) => if d.len() == BODY_SIZE {
                Some(self.on_body(d.as_slice()))
            } else {
                None
            },
            (Stage::Body, Event::Failed(why)) => Some(self.on_body_failure(why)),
            (Stage::Tail(missing), Event::Bytes(d)) => if d.len() == missing {
                Some(self.on_tail(d.as_slice()))
            } else {
                None
            },
            (Stage::Delivery, Event::Delivered) => {
                self.stage = Stage::Magic;
                Some(Request::ReadBytes(MAGIC_SIZE))
            },
            (Stage::Delivery, Event::NoRoom) => {
                self.stage = Stage::Room;
                Some(Request::CheckStop)
            },
            (Stage::Delivery, Event::ReceiverGone) => Some(self.finish()),
            (Stage::Room, Event::StopFlag(stop)) => Some(self.on_room(stop)),
            (Stage::Magic, Event::Bytes(d)) => if d.len() == MAGIC_SIZE {
                Some(self.on_magic(d.as_slice()))
            } else {
                None
            },
            (Stage::Tail(_), Event::Failed(_)) | (Stage::Magic, Event::Failed(_)) => {
                self.lose();
                Some(self.end_round())
            },
            (Stage::Pause, Event::Rested) => {
                self.resyncs = 0;
                Some(self.next_round())
            },
            _ => None,
        }
    }
}

} // verus!
