//! What the reader delivers from whole byte streams.
//!
//! [`deliveries`] runs the reader of [`crate::sync`] against a stream whose reads
//! do not fail, and collects the packets that it passes on. [`run`] and [`sent`]
//! follow the reader through any events, reads that fail among them. The laws say
//! which packets are passed on.

use crate::packet::{PacketView, MAGIC_SIZE, PACKET_TOTAL_SIZE};
use crate::sync::{
    Event, ReadFailure, Request, Stage, SyncModel, BODY_SIZE, MAX_RESYNCS, MIN_MATCHING_MAGIC,
};
use vstd::prelude::*;

verus! {

/// What a driver answers whose reads take bytes off the front of `input` and do
/// not fail, and what is left of the input then. There is no answer to a read for
/// more than there is.
pub open spec fn answer(request: Request<PacketView>, input: Seq<u8>) -> Option<
    (Event<Seq<u8>>, Seq<u8>),
> {
    match request {
        Request::CheckStop => Some((Event::StopFlag(false), input)),
        Request::ReadByte => if input.len() >= 1 {
            Some((Event::Byte(input[0]), input.skip(1)))
        } else {
            None
        },
        Request::ReadBytes(n) => if input.len() >= n {
            Some((Event::Bytes(input.take(n as int)), input.skip(n as int)))
        } else {
            None
        },
        Request::Deliver(_) => Some((Event::Delivered, input)),
        Request::Pause => Some((Event::Rested, input)),
        Request::Finish => None,
    }
}

/// How many requests in a row can go by before one takes input.
pub open spec fn rank(request: Request<PacketView>) -> int {
    match request {
        Request::Pause => 3,
        Request::CheckStop => 2,
        Request::Deliver(_) => 1,
        _ => 0,
    }
}

/// The packets that a reader passes on which has made `request` and reads `input`.
pub open spec fn deliveries(m: SyncModel, request: Request<PacketView>, input: Seq<u8>) -> Seq<
    PacketView,
>
    decreases input.len(), rank(request),
{
    if m.wf() && m.awaits(request) {
        match answer(request, input) {
            Some((event, rest)) => match m.step(event) {
                Some((next, following)) => match request {
                    Request::Deliver(packet) => seq![packet] + deliveries(next, following, rest),
                    _ => deliveries(next, following, rest),
                },
                None => seq![],
            },
            None => seq![],
        }
    } else {
        seq![]
    }
}

/// The state in which a reader waits for more which has made `request` and has read
/// `input`.
pub open spec fn halt(m: SyncModel, request: Request<PacketView>, input: Seq<u8>) -> SyncModel
    decreases input.len(), rank(request),
{
    if m.wf() && m.awaits(request) {
        match answer(request, input) {
            Some((event, rest)) => match m.step(event) {
                Some((next, following)) => halt(next, following, rest),
                None => m,
            },
            None => m,
        }
    } else {
        m
    }
}

/// Whether `frame` starts with the magic bytes.
pub open spec fn starts_with_magic(frame: Seq<u8>) -> bool {
    frame.take(MAGIC_SIZE as int) == crate::packet::magic()
}

/// Whether `frame` is a packet, intact or damaged, as it stands in the stream, with
/// enough right magic bytes for a reader that is in step. A damaged one is one that
/// does not parse; in such a one no other magic bytes are found.
pub open spec fn is_frame(frame: Seq<u8>) -> bool {
    &&& frame.len() == PACKET_TOTAL_SIZE
    &&& crate::sync::matching_magic(frame.take(MAGIC_SIZE as int)) >= MIN_MATCHING_MAGIC
    &&& PacketView::parse(frame) is Err ==> forall|k: int|
        1 <= k < BODY_SIZE ==> !#[trigger] crate::sync::magic_at(frame, k)
}

/// Whether `frames` are packets as they stand in the stream, one after the other.
/// One that follows a damaged one starts with all the magic bytes.
pub open spec fn are_frames(frames: Seq<Seq<u8>>) -> bool {
    &&& forall|i: int| 0 <= i < frames.len() ==> #[trigger] is_frame(frames[i])
    &&& forall|i: int, j: int|
        0 <= i < j < frames.len() && j == i + 1 && PacketView::parse(#[trigger] frames[i]) is Err
            ==> starts_with_magic(#[trigger] frames[j])
}

/// The bytes of `frames`, one after the other.
pub open spec fn concatenated(frames: Seq<Seq<u8>>) -> Seq<u8>
    decreases frames.len(),
{
    if frames.len() == 0 {
        seq![]
    } else {
        frames[0] + concatenated(frames.skip(1))
    }
}

/// The packets that the intact ones among `frames` say.
pub open spec fn intact(frames: Seq<Seq<u8>>) -> Seq<PacketView>
    decreases frames.len(),
{
    if frames.len() == 0 {
        seq![]
    } else {
        match PacketView::parse(frames[0]) {
            Ok(packet) => seq![packet] + intact(frames.skip(1)),
            Err(_) => intact(frames.skip(1)),
        }
    }
}

/// What holds of `frames` holds of the first and of the others.
proof fn lemma_frames_split(frames: Seq<Seq<u8>>)
    requires
        frames.len() > 0,
        are_frames(frames),
    ensures
        is_frame(frames[0]),
        are_frames(frames.skip(1)),
        PacketView::parse(frames[0]) is Err && frames.len() > 1 ==> starts_with_magic(
            frames.skip(1)[0],
        ),
{
    let others = frames.skip(1);
    assert(is_frame(frames[0]));
    assert forall|i: int| 0 <= i < others.len() implies #[trigger] is_frame(others[i]) by {
        assert(is_frame(frames[i + 1]));
    }
    assert forall|i: int, j: int|
        0 <= i < j < others.len() && j == i + 1 && PacketView::parse(
            #[trigger] others[i],
        ) is Err implies starts_with_magic(#[trigger] others[j]) by {
        assert(PacketView::parse(frames[i + 1]) is Err);
        assert(starts_with_magic(frames[j + 1]));
    }
    if PacketView::parse(frames[0]) is Err && frames.len() > 1 {
        assert(starts_with_magic(frames[1]));
    }
}

/// A reader in step reads the next body.
proof fn lemma_body(m: SyncModel, body: Seq<u8>, rest: Seq<u8>)
    requires
        m.wf(),
        m.synced,
        m.stage == Stage::StopCheck,
        body.len() == BODY_SIZE,
    ensures
        ({
            let (reading, _) = m.on_stop_flag(false);
            let (next, request) = reading.on_body(body);
            &&& next.wf()
            &&& next.awaits(request)
            &&& deliveries(m, Request::CheckStop, body + rest) == deliveries(next, request, rest)
            &&& halt(m, Request::CheckStop, body + rest) == halt(next, request, rest)
        }),
{
    let input = body + rest;
    let (reading, asked) = m.on_stop_flag(false);
    m.law_step_keeps_wf(Event::StopFlag(false));
    assert(deliveries(m, Request::CheckStop, input) == deliveries(reading, asked, input));
    assert(halt(m, Request::CheckStop, input) == halt(reading, asked, input));
    assert(input.take(BODY_SIZE as int) =~= body);
    assert(input.skip(BODY_SIZE as int) =~= rest);
    reading.law_step_keeps_wf(Event::Bytes(body));
    let (next, request) = reading.on_body(body);
    assert(deliveries(reading, asked, input) == deliveries(next, request, rest));
    assert(halt(reading, asked, input) == halt(next, request, rest));
}

/// A search ends with the first bytes that complete the magic bytes, and nothing
/// is delivered until then. Returns the state in which it ends.
proof fn lemma_search(m: SyncModel, bytes: Seq<u8>, rest: Seq<u8>) -> (n: SyncModel)
    requires
        m.wf(),
        !m.synced,
        m.stage == Stage::StopCheck,
        bytes.len() >= 1,
        crate::sync::magic_at(
            crate::sync::window(m.ring, m.head) + bytes,
            bytes.len() as int,
        ),
        forall|i: int|
            1 <= i < bytes.len() ==> !#[trigger] crate::sync::magic_at(
                crate::sync::window(m.ring, m.head) + bytes,
                i,
            ),
    ensures
        n.wf(),
        n.synced,
        n.stage == Stage::StopCheck,
        n.buffer.take(MAGIC_SIZE as int) == crate::packet::magic(),
        deliveries(m, Request::CheckStop, bytes + rest) == deliveries(n, Request::CheckStop, rest),
        halt(m, Request::CheckStop, bytes + rest) == halt(n, Request::CheckStop, rest),
    decreases bytes.len(),
{
    let input = bytes + rest;
    let seen = crate::sync::window(m.ring, m.head) + bytes;
    let b = bytes[0];
    let (searching, asked) = m.on_stop_flag(false);
    m.law_step_keeps_wf(Event::StopFlag(false));
    assert(deliveries(m, Request::CheckStop, input) == deliveries(searching, asked, input));
    assert(halt(m, Request::CheckStop, input) == halt(searching, asked, input));
    assert(input[0] == b);
    let (next, request) = searching.on_byte(b);
    searching.law_step_keeps_wf(Event::Byte(b));
    searching.law_window_slides(b);
    let slid = crate::sync::window(m.ring, m.head).skip(1).push(b);
    assert(slid =~= seen.subrange(1, 5));
    assert(input.skip(1) =~= bytes.skip(1) + rest);
    assert(deliveries(searching, asked, input) == deliveries(
        next,
        request,
        bytes.skip(1) + rest,
    ));
    assert(halt(searching, asked, input) == halt(next, request, bytes.skip(1) + rest));
    if bytes.len() == 1 {
        assert(bytes.skip(1) + rest =~= rest);
        assert(next.buffer.take(MAGIC_SIZE as int) =~= crate::packet::magic());
        next
    } else {
        assert(!crate::sync::magic_at(seen, 1));
        let further = slid + bytes.skip(1);
        assert(further =~= seen.skip(1));
        assert forall|i: int|
            1 <= i < bytes.skip(1).len() implies !#[trigger] crate::sync::magic_at(
            further,
            i,
        ) by {
            assert(!crate::sync::magic_at(seen, i + 1));
            assert(further.subrange(i, i + MAGIC_SIZE) =~= seen.subrange(
                i + 1,
                i + 1 + MAGIC_SIZE,
            ));
        }
        let end = bytes.skip(1).len() as int;
        assert(further.subrange(end, end + MAGIC_SIZE) =~= seen.subrange(
            end + 1,
            end + 1 + MAGIC_SIZE,
        ));
        lemma_search(next, bytes.skip(1), rest)
    }
}

/// A search in which the magic bytes do not turn up delivers nothing.
proof fn lemma_fruitless_search(m: SyncModel, bytes: Seq<u8>)
    requires
        m.wf(),
        !m.synced,
        m.stage == Stage::StopCheck,
        forall|i: int|
            1 <= i <= bytes.len() ==> !#[trigger] crate::sync::magic_at(
                crate::sync::window(m.ring, m.head) + bytes,
                i,
            ),
    ensures
        deliveries(m, Request::CheckStop, bytes) == Seq::<PacketView>::empty(),
    decreases bytes.len(),
{
    let seen = crate::sync::window(m.ring, m.head) + bytes;
    let (searching, asked) = m.on_stop_flag(false);
    m.law_step_keeps_wf(Event::StopFlag(false));
    assert(deliveries(m, Request::CheckStop, bytes) == deliveries(searching, asked, bytes));
    if bytes.len() > 0 {
        let b = bytes[0];
        let (next, request) = searching.on_byte(b);
        searching.law_step_keeps_wf(Event::Byte(b));
        searching.law_window_slides(b);
        let slid = crate::sync::window(m.ring, m.head).skip(1).push(b);
        assert(slid =~= seen.subrange(1, 5));
        assert(!crate::sync::magic_at(seen, 1));
        let further = slid + bytes.skip(1);
        assert forall|i: int|
            1 <= i <= bytes.skip(1).len() implies !#[trigger] crate::sync::magic_at(
            further,
            i,
        ) by {
            assert(!crate::sync::magic_at(seen, i + 1));
            assert(further.subrange(i, i + MAGIC_SIZE) =~= seen.subrange(
                i + 1,
                i + 1 + MAGIC_SIZE,
            ));
        }
        lemma_fruitless_search(next, bytes.skip(1));
    }
}

/// The end of an attempt to read a packet leads back to the check of the stop
/// flag, without any input and with the search where it was.
proof fn lemma_end_round(m: SyncModel, input: Seq<u8>) -> (n: SyncModel)
    requires
        m.wf(),
        !(m.stage is Byte),
        m.end_round().0.wf(),
    ensures
        n.wf(),
        n.stage == Stage::StopCheck,
        n.synced == m.synced,
        n.ring == m.ring,
        n.head == m.head,
        deliveries(m.end_round().0, m.end_round().1, input) == deliveries(
            n,
            Request::CheckStop,
            input,
        ),
        halt(m.end_round().0, m.end_round().1, input) == halt(n, Request::CheckStop, input),
{
    let (next, request) = m.end_round();
    if m.resyncs > MAX_RESYNCS {
        next.law_step_keeps_wf(Event::Rested);
        SyncModel { resyncs: 0, stage: Stage::StopCheck, ..next }
    } else {
        next
    }
}

/// A ring that holds the magic bytes does not make a search end before the magic
/// bytes that follow are complete.
proof fn lemma_stale_ring(ring: Seq<u8>)
    requires
        ring.len() == MAGIC_SIZE,
        crate::sync::holds_magic(ring),
    ensures
        forall|i: int|
            1 <= i < MAGIC_SIZE ==> !#[trigger] crate::sync::magic_at(
                crate::sync::window(ring, 0) + (seq![] + crate::packet::magic()),
                i,
            ),
{
    let r = choose|r: int|
        0 <= r < MAGIC_SIZE && #[trigger] crate::sync::window(ring, r) == crate::packet::magic();
    let w = crate::sync::window(ring, r);
    let seen = crate::sync::window(ring, 0) + (seq![] + crate::packet::magic());
    assert(w[0] == 0x79u8 && w[1] == 0x6fu8 && w[2] == 0x68u8 && w[3] == 0x6fu8);
    assert forall|i: int| 1 <= i < MAGIC_SIZE implies !#[trigger] crate::sync::magic_at(
        seen,
        i,
    ) by {
        let there = seen.subrange(i, i + MAGIC_SIZE);
        assert(there[0] == seen[i]);
        assert(there[1] == seen[i + 1]);
        assert(there[2] == seen[i + 2]);
        assert(there[3] == seen[i + 3]);
    }
}

/// A reader in step that reads an intact body passes on the packet. Returns the
/// state in which it does so.
proof fn lemma_intact_body(
    m: SyncModel,
    body: Seq<u8>,
    rest: Seq<u8>,
    packet: PacketView,
) -> (full: SyncModel)
    requires
        m.wf(),
        m.synced,
        m.stage == Stage::StopCheck,
        body.len() == BODY_SIZE,
        PacketView::parse(m.buffer.take(MAGIC_SIZE as int) + body) == Ok::<PacketView, Seq<char>>(
            packet,
        ),
    ensures
        full.wf(),
        full.stage == Stage::Delivery,
        full.awaits(Request::Deliver(packet)),
        deliveries(m, Request::CheckStop, body + rest) == deliveries(
            full,
            Request::Deliver(packet),
            rest,
        ),
        halt(m, Request::CheckStop, body + rest) == halt(full, Request::Deliver(packet), rest),
{
    lemma_body(m, body, rest);
    m.on_stop_flag(false).0.on_body(body).0
}

/// A reader in step that reads a damaged body searches again, from where the ring
/// starts. Returns the state in which it does so.
proof fn lemma_damaged_body(m: SyncModel, body: Seq<u8>, rest: Seq<u8>) -> (n: SyncModel)
    requires
        m.wf(),
        m.synced,
        m.stage == Stage::StopCheck,
        body.len() == BODY_SIZE,
        PacketView::parse(m.buffer.take(MAGIC_SIZE as int) + body) is Err,
        forall|k: int|
            1 <= k < BODY_SIZE ==> !#[trigger] crate::sync::magic_at(
                m.buffer.take(MAGIC_SIZE as int) + body,
                k,
            ),
    ensures
        n.wf(),
        !n.synced,
        n.stage == Stage::StopCheck,
        n.head == 0,
        forall|i: int|
            1 <= i < MAGIC_SIZE ==> !#[trigger] crate::sync::magic_at(
                crate::sync::window(n.ring, n.head) + (seq![] + crate::packet::magic()),
                i,
            ),
        deliveries(m, Request::CheckStop, body + rest) == deliveries(n, Request::CheckStop, rest),
        halt(m, Request::CheckStop, body + rest) == halt(n, Request::CheckStop, rest),
{
    lemma_body(m, body, rest);
    let (reading, _) = m.on_stop_flag(false);
    let buffer = m.buffer.take(MAGIC_SIZE as int) + body;
    assert(!exists|k: int| crate::sync::first_embedded_magic(buffer, k));
    let lost = SyncModel { buffer, ..reading }.lost();
    assert(reading.on_body(body) == lost.end_round());
    let n = lemma_end_round(SyncModel { stage: Stage::StopCheck, ..lost }, rest);
    lemma_stale_ring(n.ring);
    n
}

/// Whether the last of `frames` is intact, if there is any.
pub open spec fn ends_intact(frames: Seq<Seq<u8>>) -> bool {
    frames.len() > 0 ==> PacketView::parse(frames.last()) is Ok
}

/// A reader that passes on a packet and then reads packets passes on all that are
/// intact.
proof fn lemma_from_delivery(m: SyncModel, packet: PacketView, frames: Seq<Seq<u8>>)
    requires
        m.wf(),
        m.stage == Stage::Delivery,
        m.awaits(Request::Deliver(packet)),
        are_frames(frames),
    ensures
        deliveries(m, Request::Deliver(packet), concatenated(frames)) == seq![packet] + intact(
            frames,
        ),
        ends_intact(frames) ==> halt(
            m,
            Request::Deliver(packet),
            concatenated(frames),
        ).stage == Stage::Magic,
    decreases frames.len(), 1int,
{
    let input = concatenated(frames);
    let waiting = SyncModel { stage: Stage::Magic, ..m };
    let asked = Request::<PacketView>::ReadBytes(MAGIC_SIZE);
    m.law_step_keeps_wf(Event::Delivered);
    assert(deliveries(m, Request::Deliver(packet), input) == seq![packet] + deliveries(
        waiting,
        asked,
        input,
    ));
    assert(halt(m, Request::Deliver(packet), input) == halt(waiting, asked, input));
    if frames.len() > 0 {
        lemma_frames_split(frames);
        let start = frames[0].take(MAGIC_SIZE as int);
        assert(input.take(MAGIC_SIZE as int) =~= start);
        waiting.law_step_keeps_wf(Event::Bytes(start));
        let (next, request) = waiting.on_magic(start);
        assert(deliveries(waiting, asked, input) == deliveries(
            next,
            request,
            input.skip(MAGIC_SIZE as int),
        ));
        assert(halt(waiting, asked, input) == halt(next, request, input.skip(MAGIC_SIZE as int)));
        assert(next.buffer.take(MAGIC_SIZE as int) =~= start);
        law_in_step_delivers_intact(next, frames);
    }
}

/// A reader in step that reads packets, some of them damaged, passes on those that
/// are intact, in order, and nothing else. The first four bytes of the first have
/// been read already; they matter only if it is damaged. Behind an intact one it
/// waits for the magic bytes of the next.
pub proof fn law_in_step_delivers_intact(m: SyncModel, frames: Seq<Seq<u8>>)
    requires
        m.wf(),
        m.synced,
        m.stage == Stage::StopCheck,
        frames.len() > 0,
        are_frames(frames),
        PacketView::parse(frames[0]) is Err ==> m.buffer.take(MAGIC_SIZE as int)
            == frames[0].take(MAGIC_SIZE as int),
    ensures
        deliveries(m, Request::CheckStop, concatenated(frames).skip(MAGIC_SIZE as int)) == intact(
            frames,
        ),
        ends_intact(frames) ==> halt(
            m,
            Request::CheckStop,
            concatenated(frames).skip(MAGIC_SIZE as int),
        ).stage == Stage::Magic,
    decreases frames.len(), 0int,
{
    lemma_frames_split(frames);
    let frame = frames[0];
    let others = frames.skip(1);
    let body = frame.skip(MAGIC_SIZE as int);
    let rest = concatenated(others);
    assert(concatenated(frames).skip(MAGIC_SIZE as int) =~= body + rest);
    let buffer = m.buffer.take(MAGIC_SIZE as int) + body;
    assert(buffer.subrange(MAGIC_SIZE as int, PACKET_TOTAL_SIZE as int) =~= frame.subrange(
        MAGIC_SIZE as int,
        PACKET_TOTAL_SIZE as int,
    ));
    assert(PacketView::parse(buffer) == PacketView::parse(frame)) by {
        PacketView::law_parse_ignores_surroundings(buffer, frame);
    }
    match PacketView::parse(frame) {
        Ok(packet) => {
            let full = lemma_intact_body(m, body, rest, packet);
            lemma_from_delivery(full, packet, others);
        },
        Err(_) => {
            assert(buffer =~= frame);
            let n = lemma_damaged_body(m, body, rest);
            if others.len() == 0 {
                lemma_fruitless_search(n, rest);
                assert(intact(others) =~= Seq::<PacketView>::empty());
            } else {
                assert(seq![] + rest =~= rest);
                law_out_of_step_delivers_intact(n, seq![], others);
            }
        },
    }
}

/// A reader out of step that comes to packets, some of them damaged, passes on
/// those that are intact, in order, and nothing else. Before them there may be
/// noise; together with what the ring holds, it does not complete the magic bytes
/// before those of the first packet. Behind an intact one it waits for the magic bytes
/// of the next.
pub proof fn law_out_of_step_delivers_intact(
    m: SyncModel,
    noise: Seq<u8>,
    frames: Seq<Seq<u8>>,
)
    requires
        m.wf(),
        !m.synced,
        m.stage == Stage::StopCheck,
        forall|i: int|
            1 <= i < noise.len() + MAGIC_SIZE ==> !#[trigger] crate::sync::magic_at(
                crate::sync::window(m.ring, m.head) + (noise + crate::packet::magic()),
                i,
            ),
        frames.len() > 0,
        are_frames(frames),
        starts_with_magic(frames[0]),
    ensures
        deliveries(m, Request::CheckStop, noise + concatenated(frames)) == intact(frames),
        ends_intact(frames) ==> halt(
            m,
            Request::CheckStop,
            noise + concatenated(frames),
        ).stage == Stage::Magic,
    decreases frames.len(), 1int,
{
    let sought = noise + crate::packet::magic();
    let seen = crate::sync::window(m.ring, m.head) + sought;
    let rest = concatenated(frames).skip(MAGIC_SIZE as int);
    lemma_frames_split(frames);
    assert(concatenated(frames).take(MAGIC_SIZE as int) =~= frames[0].take(MAGIC_SIZE as int));
    assert(noise + concatenated(frames) =~= sought + rest) by {
        assert(concatenated(frames) =~= concatenated(frames).take(MAGIC_SIZE as int) + rest);
    }
    assert(seen.subrange(sought.len() as int, sought.len() + MAGIC_SIZE)
        =~= crate::packet::magic());
    let n = lemma_search(m, sought, rest);
    law_in_step_delivers_intact(n, frames);
}

/// A reader that starts on a stream of packets, with some noise in front in which
/// the magic bytes do not occur before those of the first packet, passes on all
/// packets that are intact, in order, and nothing else.
pub proof fn law_stream_is_delivered(noise: Seq<u8>, frames: Seq<Seq<u8>>)
    requires
        forall|i: int|
            0 <= i < noise.len() ==> !#[trigger] crate::sync::magic_at(
                noise + crate::packet::magic(),
                i,
            ),
        frames.len() > 0,
        are_frames(frames),
        starts_with_magic(frames[0]),
    ensures
        deliveries(SyncModel::initial(), Request::CheckStop, noise + concatenated(frames))
            == intact(frames),
        ends_intact(frames) ==> halt(
            SyncModel::initial(),
            Request::CheckStop,
            noise + concatenated(frames),
        ).stage == Stage::Magic,
{
    let m = SyncModel::initial();
    let sought = noise + crate::packet::magic();
    let seen = crate::sync::window(m.ring, m.head) + sought;
    assert forall|i: int|
        1 <= i < noise.len() + MAGIC_SIZE implies !#[trigger] crate::sync::magic_at(
        seen,
        i,
    ) by {
        let there = seen.subrange(i, i + MAGIC_SIZE);
        if i < MAGIC_SIZE {
            assert(there[0] == 0u8);
        } else {
            assert(there =~= sought.subrange(i - 4, i - 4 + MAGIC_SIZE));
            assert(!crate::sync::magic_at(sought, i - 4));
        }
    }
    law_out_of_step_delivers_intact(m, noise, frames);
}

/// A damaged packet inside which another one starts leads to the delivery of the
/// other one. Returns the state in which it is delivered.
proof fn lemma_embedded(
    m: SyncModel,
    body: Seq<u8>,
    k: int,
    tail: Seq<u8>,
    rest: Seq<u8>,
) -> (full: SyncModel)
    requires
        m.wf(),
        m.synced,
        m.stage == Stage::StopCheck,
        body.len() == BODY_SIZE,
        tail.len() == k,
        PacketView::parse(m.buffer.take(MAGIC_SIZE as int) + body) is Err,
        crate::sync::first_embedded_magic(m.buffer.take(MAGIC_SIZE as int) + body, k),
        PacketView::parse((m.buffer.take(MAGIC_SIZE as int) + body).skip(k) + tail) is Ok,
    ensures
        full.wf(),
        full.stage == Stage::Delivery,
        ({
            let packet = PacketView::parse(
                (m.buffer.take(MAGIC_SIZE as int) + body).skip(k) + tail,
            )->Ok_0;
            &&& full.awaits(Request::Deliver(packet))
            &&& deliveries(m, Request::CheckStop, body + (tail + rest)) == deliveries(
                full,
                Request::Deliver(packet),
                rest,
            )
        }),
{
    lemma_body(m, body, tail + rest);
    let (reading, _) = m.on_stop_flag(false);
    let buffer = m.buffer.take(MAGIC_SIZE as int) + body;
    crate::sync::lemma_first_embedded_magic(buffer, k);
    let (waiting, asked) = reading.on_body(body);
    assert((tail + rest).take(k) =~= tail);
    assert((tail + rest).skip(k) =~= rest);
    waiting.law_step_keeps_wf(Event::Bytes(tail));
    let (full, delivery) = waiting.on_tail(tail);
    assert(waiting.buffer.take(PACKET_TOTAL_SIZE - k) =~= buffer.skip(k));
    assert(deliveries(waiting, asked, tail + rest) == deliveries(full, delivery, rest));
    full
}

/// A reader that has lost the stream and then comes to packets passes on those that
/// are intact.
proof fn lemma_after_loss(m: SyncModel, frames: Seq<Seq<u8>>)
    requires
        m.wf(),
        m.synced,
        are_frames(frames),
        frames.len() > 0 ==> starts_with_magic(frames[0]),
    ensures
        ({
            let (next, request) = m.lost().end_round();
            &&& next.wf()
            &&& deliveries(next, request, concatenated(frames)) == intact(frames)
        }),
{
    let lost = SyncModel { stage: Stage::StopCheck, ..m.lost() };
    let n = lemma_end_round(lost, concatenated(frames));
    assert(lost.end_round() == m.lost().end_round());
    lemma_from_loss(n, frames);
}

/// A reader that searches, with the magic bytes somewhere in its ring, and then comes
/// to packets passes on those that are intact.
proof fn lemma_from_loss(n: SyncModel, frames: Seq<Seq<u8>>)
    requires
        n.wf(),
        !n.synced,
        n.stage == Stage::StopCheck,
        n.head == 0,
        crate::sync::holds_magic(n.ring),
        are_frames(frames),
        frames.len() > 0 ==> starts_with_magic(frames[0]),
    ensures
        deliveries(n, Request::CheckStop, concatenated(frames)) == intact(frames),
{
    if frames.len() == 0 {
        lemma_fruitless_search(n, concatenated(frames));
        assert(intact(frames) =~= Seq::<PacketView>::empty());
    } else {
        lemma_stale_ring(n.ring);
        assert(seq![] + concatenated(frames) =~= concatenated(frames));
        law_out_of_step_delivers_intact(n, seq![], frames);
    }
}

/// Where the read of magic bytes or of the rest of a packet fails, for whatever
/// reason, or the read of a packet in a way that makes the reader search again, the
/// packets that come then are passed on, as far as they are intact.
pub proof fn law_failed_read_costs_no_later_packet(
    m: SyncModel,
    why: ReadFailure,
    frames: Seq<Seq<u8>>,
)
    requires
        m.wf(),
        m.stage == Stage::Magic || m.stage is Tail || m.stage == Stage::Body && (why
            == ReadFailure::Other || why == ReadFailure::TimedOut && m.timeouts == 10),
        are_frames(frames),
        frames.len() > 0 ==> starts_with_magic(frames[0]),
    ensures
        m.step(Event::Failed(why)) matches Some((next, request)) && deliveries(
            next,
            request,
            concatenated(frames),
        ) == intact(frames),
{
    let (next, request) = m.step(Event::Failed(why))->Some_0;
    m.law_step_keeps_wf(Event::Failed(why));
    if m.stage == Stage::Body && why == ReadFailure::TimedOut {
        lemma_from_loss(next, frames);
    } else {
        lemma_after_loss(m, frames);
    }
}

/// Up to ten times in all, a packet that is read only after a timeout is passed on
/// all the same, and so are those that follow, as far as they are intact.
pub proof fn law_timeout_costs_nothing(m: SyncModel, frames: Seq<Seq<u8>>)
    requires
        m.wf(),
        m.stage == Stage::Body,
        m.timeouts < 10,
        frames.len() > 0,
        are_frames(frames),
        PacketView::parse(frames[0]) is Err ==> m.buffer.take(MAGIC_SIZE as int)
            == frames[0].take(MAGIC_SIZE as int),
    ensures
        m.step(Event::Failed(ReadFailure::TimedOut)) matches Some((next, request)) && deliveries(
            next,
            request,
            concatenated(frames).skip(MAGIC_SIZE as int),
        ) == intact(frames),
{
    let (next, _) = m.step(Event::Failed(ReadFailure::TimedOut))->Some_0;
    m.law_step_keeps_wf(Event::Failed(ReadFailure::TimedOut));
    law_in_step_delivers_intact(next, frames);
}

/// Where a packet that was found inside a damaged one turns out to be damaged too, the
/// packets that come then are passed on, as far as they are intact.
pub proof fn law_damaged_rest_leads_to_search(
    m: SyncModel,
    tail: Seq<u8>,
    frames: Seq<Seq<u8>>,
)
    requires
        m.wf(),
        m.stage matches Stage::Tail(k) && k == tail.len(),
        PacketView::parse(m.buffer.take(PACKET_TOTAL_SIZE - tail.len()) + tail) is Err,
        are_frames(frames),
        frames.len() > 0 ==> starts_with_magic(frames[0]),
    ensures
        deliveries(
            m,
            Request::ReadBytes(tail.len() as usize),
            tail + concatenated(frames),
        ) == intact(frames),
{
    let rest = concatenated(frames);
    let asked = Request::<PacketView>::ReadBytes(tail.len() as usize);
    let whole = m.buffer.take(PACKET_TOTAL_SIZE - tail.len()) + tail;
    let filled = SyncModel { buffer: whole, ..m };
    assert((tail + rest).take(tail.len() as int) =~= tail);
    assert((tail + rest).skip(tail.len() as int) =~= rest);
    let (next, request) = m.on_tail(tail);
    assert(deliveries(m, asked, tail + rest) == deliveries(next, request, rest));
    lemma_after_loss(filled, frames);
}

/// A packet that has lost bytes, so that the next one starts inside the bytes
/// that were read for it, costs only itself: where the loss shows and the magic
/// bytes of the next packet are the first that are found, that packet and those
/// that follow are passed on, as far as they are intact.
pub proof fn law_shortened_packet_is_skipped(
    m: SyncModel,
    stump: Seq<u8>,
    frames: Seq<Seq<u8>>,
)
    requires
        m.wf(),
        m.synced,
        m.stage == Stage::StopCheck,
        stump.len() <= BODY_SIZE,
        frames.len() > 0,
        are_frames(frames),
        ({
            let buffer = m.buffer.take(MAGIC_SIZE as int) + (stump + concatenated(frames)).take(
                BODY_SIZE as int,
            );
            &&& PacketView::parse(buffer) is Err
            &&& crate::sync::first_embedded_magic(buffer, MAGIC_SIZE + stump.len())
        }),
    ensures
        deliveries(m, Request::CheckStop, stump + concatenated(frames)) == intact(frames),
{
    let frame = frames[0];
    let others = frames.skip(1);
    lemma_frames_split(frames);
    let k = MAGIC_SIZE + stump.len();
    let input = stump + concatenated(frames);
    let body = input.take(BODY_SIZE as int);
    let tail = frame.skip(PACKET_TOTAL_SIZE - k);
    let buffer = m.buffer.take(MAGIC_SIZE as int) + body;
    assert(concatenated(frames) == frame + concatenated(others));
    assert(body =~= stump + frame.take(PACKET_TOTAL_SIZE - k));
    assert(input =~= body + (tail + concatenated(others)));
    assert(buffer.skip(k) =~= frame.take(PACKET_TOTAL_SIZE - k));
    assert(buffer.skip(k) + tail =~= frame);
    match PacketView::parse(frame) {
        Ok(packet) => {
            let full = lemma_embedded(m, body, k, tail, concatenated(others));
            lemma_from_delivery(full, packet, others);
        },
        Err(_) => {
            lemma_body(m, body, tail + concatenated(others));
            crate::sync::lemma_first_embedded_magic(buffer, k);
            let (waiting, _) = m.on_stop_flag(false).0.on_body(body);
            assert(waiting.buffer.take(PACKET_TOTAL_SIZE - k) =~= buffer.skip(k));
            law_damaged_rest_leads_to_search(waiting, tail, others);
        },
    }
}

/// A reader that starts on a stream in which the magic bytes do not occur passes
/// on nothing.
pub proof fn law_noise_delivers_nothing(noise: Seq<u8>)
    requires
        forall|i: int|
            0 <= i <= noise.len() - MAGIC_SIZE ==> !#[trigger] crate::sync::magic_at(noise, i),
    ensures
        deliveries(SyncModel::initial(), Request::CheckStop, noise)
            == Seq::<PacketView>::empty(),
{
    let m = SyncModel::initial();
    let seen = crate::sync::window(m.ring, m.head) + noise;
    assert forall|i: int| 1 <= i <= noise.len() implies !#[trigger] crate::sync::magic_at(
        seen,
        i,
    ) by {
        let there = seen.subrange(i, i + MAGIC_SIZE);
        if i < MAGIC_SIZE {
            assert(there[0] == 0u8);
        } else {
            assert(there =~= noise.subrange(i - 4, i - 4 + MAGIC_SIZE));
            assert(!crate::sync::magic_at(noise, i - 4));
        }
    }
    lemma_fruitless_search(m, noise);
}

/// The state of a search after a number of bytes, each of which was read after a
/// check of the stop flag.
pub open spec fn searched(m: SyncModel, bytes: Seq<u8>) -> SyncModel
    decreases bytes.len(),
{
    if bytes.len() == 0 {
        m
    } else {
        searched(m, bytes.drop_last()).on_stop_flag(false).0.on_byte(bytes.last()).0
    }
}

/// A search that has not ended before its last byte has ended with it exactly if
/// the last four bytes are the magic bytes. They are the last four that were
/// searched, where there are so many; else what the ring held before comes first.
pub proof fn law_search_ends_with_magic(m: SyncModel, bytes: Seq<u8>)
    requires
        m.wf(),
        !m.synced,
        m.stage == Stage::StopCheck,
        bytes.len() > 0,
        forall|i: int| 0 <= i < bytes.len() ==> !#[trigger] searched(m, bytes.take(i)).synced,
    ensures
        ({
            let seen = crate::sync::window(m.ring, m.head) + bytes;
            &&& searched(m, bytes).synced <==> crate::sync::magic_at(seen, bytes.len() as int)
            &&& bytes.len() >= MAGIC_SIZE ==> (searched(m, bytes).synced
                <==> crate::sync::magic_at(bytes, bytes.len() - MAGIC_SIZE))
        }),
{
    let seen = crate::sync::window(m.ring, m.head) + bytes;
    let n = bytes.len() as int;
    let before = bytes.drop_last();
    assert forall|i: int| 0 <= i <= before.len() implies !#[trigger] searched(
        m,
        before.take(i),
    ).synced by {
        assert(before.take(i) =~= bytes.take(i));
    }
    lemma_searched_window(m, before);
    let p = searched(m, before);
    let b = bytes.last();
    p.on_stop_flag(false).0.law_window_slides(b);
    let slid = crate::sync::window(p.ring, p.head).skip(1).push(b);
    assert(slid =~= seen.subrange(n, n + MAGIC_SIZE));
    if n >= MAGIC_SIZE {
        assert(slid =~= bytes.subrange(n - MAGIC_SIZE, n));
    }
}

/// While a search goes on, the window holds the last four bytes.
proof fn lemma_searched_window(m: SyncModel, bytes: Seq<u8>)
    requires
        m.wf(),
        !m.synced,
        m.stage == Stage::StopCheck,
        forall|i: int| 0 <= i <= bytes.len() ==> !#[trigger] searched(m, bytes.take(i)).synced,
    ensures
        ({
            let n = searched(m, bytes);
            &&& n.wf()
            &&& !n.synced
            &&& n.stage == Stage::StopCheck
            &&& crate::sync::window(n.ring, n.head) == (crate::sync::window(m.ring, m.head)
                + bytes).skip(bytes.len() as int)
        }),
    decreases bytes.len(),
{
    let seen = crate::sync::window(m.ring, m.head) + bytes;
    let n = bytes.len() as int;
    assert(bytes.take(n) =~= bytes);
    assert(!searched(m, bytes.take(n)).synced);
    if n == 0 {
        assert(seen.skip(0) =~= crate::sync::window(m.ring, m.head));
    } else {
        let before = bytes.drop_last();
        assert forall|i: int| 0 <= i <= before.len() implies !#[trigger] searched(
            m,
            before.take(i),
        ).synced by {
            assert(before.take(i) =~= bytes.take(i));
        }
        lemma_searched_window(m, before);
        let p = searched(m, before);
        let b = bytes.last();
        p.law_step_keeps_wf(Event::StopFlag(false));
        p.on_stop_flag(false).0.law_step_keeps_wf(Event::Byte(b));
        p.on_stop_flag(false).0.law_window_slides(b);
        let slid = crate::sync::window(p.ring, p.head).skip(1).push(b);
        assert(slid =~= seen.skip(n));
    }
}

/// Whether `packet` is what `all` says at position `p`, where the bytes of a packet
/// behind its magic bytes start.
pub open spec fn stands_at(all: Seq<u8>, p: int, packet: PacketView) -> bool {
    &&& 0 <= p <= all.len() - BODY_SIZE
    &&& PacketView::parse(crate::packet::magic() + all.subrange(p, p + BODY_SIZE)) == Ok::<
        PacketView,
        Seq<char>,
    >(packet)
}

/// Whether what the buffer holds of a packet, behind its first four bytes, was
/// read last.
spec fn in_past(m: SyncModel, past: Seq<u8>) -> bool {
    match m.stage {
        Stage::Tail(k) => {
            &&& past.len() >= BODY_SIZE - k
            &&& m.buffer.subrange(MAGIC_SIZE as int, PACKET_TOTAL_SIZE - k) == past.skip(
                past.len() - (BODY_SIZE - k),
            )
        },
        Stage::Delivery | Stage::Room => {
            &&& past.len() >= BODY_SIZE
            &&& m.buffer.skip(MAGIC_SIZE as int) == past.skip(past.len() - BODY_SIZE)
        },
        _ => true,
    }
}

/// The first position at which the next packet can stand.
spec fn lowest(m: SyncModel, past: Seq<u8>) -> int {
    match m.stage {
        Stage::Tail(k) => past.len() - (BODY_SIZE - k),
        Stage::Delivery | Stage::Room => past.len() - BODY_SIZE,
        Stage::Magic => past.len() + MAGIC_SIZE,
        _ => past.len() as int,
    }
}

/// Finds the position of each packet that is delivered.
proof fn lemma_positions(
    m: SyncModel,
    request: Request<PacketView>,
    past: Seq<u8>,
    input: Seq<u8>,
) -> (at: Seq<int>)
    requires
        m.wf(),
        m.awaits(request),
        in_past(m, past),
    ensures
        at.len() == deliveries(m, request, input).len(),
        forall|i: int|
            0 <= i < at.len() ==> #[trigger] at[i] >= lowest(m, past) && stands_at(
                past + input,
                at[i],
                deliveries(m, request, input)[i],
            ),
        forall|i: int, j: int| 0 <= i < j < at.len() ==> at[j] >= at[i] + PACKET_TOTAL_SIZE,
    decreases input.len(), rank(request),
{
    match answer(request, input) {
        None => seq![],
        Some((event, rest)) => match m.step(event) {
            None => seq![],
            Some((next, following)) => {
                let taken = input.take(input.len() - rest.len());
                let now = past + taken;
                lemma_next_in_past(m, request, past, input);
                let later = lemma_positions(next, following, now, rest);
                assert(now + rest =~= past + input);
                match request {
                    Request::Deliver(packet) => {
                        lemma_delivered_in_past(m, packet, past, input);
                        seq![past.len() - BODY_SIZE] + later
                    },
                    _ => later,
                }
            },
        },
    }
}

/// A step keeps track of where the bytes in the buffer were read.
proof fn lemma_next_in_past(
    m: SyncModel,
    request: Request<PacketView>,
    past: Seq<u8>,
    input: Seq<u8>,
)
    requires
        m.wf(),
        m.awaits(request),
        in_past(m, past),
        answer(request, input) is Some,
        m.step(answer(request, input)->Some_0.0) is Some,
    ensures
        ({
            let (event, rest) = answer(request, input)->Some_0;
            let (next, following) = m.step(event)->Some_0;
            let taken = input.take(input.len() - rest.len());
            &&& next.wf()
            &&& next.awaits(following)
            &&& rest == input.skip(taken.len() as int)
            &&& in_past(next, past + taken)
            &&& lowest(next, past + taken) >= if m.stage == Stage::Delivery {
                past.len() + MAGIC_SIZE
            } else {
                lowest(m, past)
            }
            &&& rest.len() < input.len() || (rest.len() == input.len() && rank(following) < rank(
                request,
            ))
        }),
{
    let (event, rest) = answer(request, input)->Some_0;
    let taken = input.take(input.len() - rest.len());
    m.law_step_keeps_wf(event);
    if m.stage == Stage::Body {
        lemma_body_in_past(m, taken, past);
    } else if m.stage is Tail {
        lemma_tail_in_past(m, taken, past);
    } else if m.stage == Stage::Delivery || m.stage == Stage::Room || m.stage == Stage::StopCheck
        || m.stage == Stage::Pause {
        assert(rest =~= input.skip(0));
    }
}

/// A packet that is delivered was read last.
proof fn lemma_delivered_in_past(
    m: SyncModel,
    packet: PacketView,
    past: Seq<u8>,
    input: Seq<u8>,
)
    requires
        m.wf(),
        m.stage == Stage::Delivery,
        m.awaits(Request::Deliver(packet)),
        in_past(m, past),
    ensures
        stands_at(past + input, past.len() - BODY_SIZE, packet),
{
    let p = past.len() - BODY_SIZE;
    let all = past + input;
    let read = crate::packet::magic() + all.subrange(p, p + BODY_SIZE);
    assert(all.subrange(p, p + BODY_SIZE) =~= past.skip(p));
    assert(read.subrange(MAGIC_SIZE as int, PACKET_TOTAL_SIZE as int) =~= m.buffer.skip(
        MAGIC_SIZE as int,
    ));
    assert(m.buffer.subrange(MAGIC_SIZE as int, PACKET_TOTAL_SIZE as int) =~= m.buffer.skip(
        MAGIC_SIZE as int,
    ));
    PacketView::law_parse_ignores_surroundings(read, m.buffer);
}

proof fn lemma_body_in_past(m: SyncModel, body: Seq<u8>, past: Seq<u8>)
    requires
        m.wf(),
        m.stage == Stage::Body,
        body.len() == BODY_SIZE,
    ensures
        in_past(m.on_body(body).0, past + body),
        lowest(m.on_body(body).0, past + body) >= past.len(),
{
    let next = m.on_body(body).0;
    let buffer = m.buffer.take(MAGIC_SIZE as int) + body;
    let now = past + body;
    if PacketView::parse(buffer) is Ok {
        assert(next.buffer.skip(MAGIC_SIZE as int) =~= now.skip(now.len() - BODY_SIZE));
    } else if exists|k: int| crate::sync::first_embedded_magic(buffer, k) {
        let k = choose|k: int| crate::sync::first_embedded_magic(buffer, k);
        assert(crate::sync::first_embedded_magic(buffer, k));
        assert(next.buffer.subrange(MAGIC_SIZE as int, PACKET_TOTAL_SIZE - k) =~= now.skip(
            now.len() - (BODY_SIZE - k),
        ));
    }
}

proof fn lemma_tail_in_past(m: SyncModel, tail: Seq<u8>, past: Seq<u8>)
    requires
        m.wf(),
        m.stage matches Stage::Tail(k) && k == tail.len(),
        in_past(m, past),
    ensures
        in_past(m.on_tail(tail).0, past + tail),
        lowest(m.on_tail(tail).0, past + tail) >= lowest(m, past),
{
    let k = tail.len();
    let next = m.on_tail(tail).0;
    let now = past + tail;
    let had = m.buffer.subrange(MAGIC_SIZE as int, PACKET_TOTAL_SIZE - k);
    assert(next.buffer.skip(MAGIC_SIZE as int) =~= had + tail);
    assert(now.skip(now.len() - BODY_SIZE) =~= past.skip(past.len() - (BODY_SIZE - k)) + tail);
}

/// Whatever the stream holds, if no read fails, every packet that a reader passes
/// on is read from consecutive bytes of it, in the order of the stream, and no two
/// of them share a byte, their magic bytes among them. Returns where each packet
/// stands.
pub proof fn law_deliveries_are_in_the_stream(m: SyncModel, input: Seq<u8>) -> (at: Seq<int>)
    requires
        m.wf(),
        m.stage == Stage::StopCheck,
    ensures
        at.len() == deliveries(m, Request::CheckStop, input).len(),
        forall|i: int|
            0 <= i < at.len() ==> stands_at(
                input,
                #[trigger] at[i],
                deliveries(m, Request::CheckStop, input)[i],
            ),
        forall|i: int, j: int| 0 <= i < j < at.len() ==> at[j] >= at[i] + PACKET_TOTAL_SIZE,
{
    let at = lemma_positions(m, Request::CheckStop, seq![], input);
    assert(seq![] + input =~= input);
    at
}

/// The state and the request after a number of events, if each of them was taken.
pub open spec fn run(
    m: SyncModel,
    request: Request<PacketView>,
    events: Seq<Event<Seq<u8>>>,
) -> Option<(SyncModel, Request<PacketView>)>
    decreases events.len(),
{
    if events.len() == 0 {
        Some((m, request))
    } else {
        match run(m, request, events.drop_last()) {
            Some((before, _)) => before.step(events.last()),
            None => None,
        }
    }
}

/// The state and the request after a number of events from the start.
pub open spec fn after(events: Seq<Event<Seq<u8>>>) -> Option<(SyncModel, Request<PacketView>)> {
    run(SyncModel::initial(), Request::CheckStop, events)
}

/// The packets that a reader passes on in the course of `events`, which has made
/// `request` before them.
pub open spec fn sent_from(
    m: SyncModel,
    request: Request<PacketView>,
    events: Seq<Event<Seq<u8>>>,
) -> Seq<PacketView>
    decreases events.len(),
{
    if events.len() == 0 {
        seq![]
    } else {
        match (run(m, request, events.drop_last()), events.last()) {
            (Some((_, Request::Deliver(packet))), Event::Delivered) => sent_from(
                m,
                request,
                events.drop_last(),
            ).push(packet),
            _ => sent_from(m, request, events.drop_last()),
        }
    }
}

/// The packets that a reader has passed on after a number of events from the start.
pub open spec fn sent(events: Seq<Event<Seq<u8>>>) -> Seq<PacketView> {
    sent_from(SyncModel::initial(), Request::CheckStop, events)
}

/// What a reader does in the course of two runs of events, one after the other, is
/// what it does in the course of each.
proof fn lemma_run_on(
    m: SyncModel,
    request: Request<PacketView>,
    first: Seq<Event<Seq<u8>>>,
    second: Seq<Event<Seq<u8>>>,
)
    requires
        run(m, request, first) is Some,
    ensures
        ({
            let (n, q) = run(m, request, first)->Some_0;
            &&& run(m, request, first + second) == run(n, q, second)
            &&& sent_from(m, request, first + second) == sent_from(m, request, first) + sent_from(
                n,
                q,
                second,
            )
        }),
    decreases second.len(),
{
    let (n, q) = run(m, request, first)->Some_0;
    if second.len() == 0 {
        assert(first + second =~= first);
        assert(sent_from(m, request, first) =~= sent_from(m, request, first) + sent_from(
            n,
            q,
            second,
        ));
    } else {
        let earlier = second.drop_last();
        lemma_run_on(m, request, first, earlier);
        assert((first + second).drop_last() =~= first + earlier);
        assert((first + second).last() == second.last());
        assert(sent_from(m, request, first + second) =~= sent_from(m, request, first) + sent_from(
            n,
            q,
            second,
        ));
    }
}

/// The first of a run of events, and those that follow.
proof fn lemma_run_first(
    m: SyncModel,
    request: Request<PacketView>,
    event: Event<Seq<u8>>,
    others: Seq<Event<Seq<u8>>>,
)
    requires
        m.step(event) is Some,
    ensures
        ({
            let (n, q) = m.step(event)->Some_0;
            let packets = match (request, event) {
                (Request::Deliver(packet), Event::Delivered) => seq![packet],
                _ => seq![],
            };
            &&& run(m, request, seq![event] + others) == run(n, q, others)
            &&& sent_from(m, request, seq![event] + others) == packets + sent_from(n, q, others)
        }),
{
    let first = seq![event];
    assert(first.drop_last() =~= seq![]);
    assert(first.last() == event);
    assert(run(m, request, first.drop_last()) == Some((m, request)));
    assert(run(m, request, first) == m.step(event));
    assert(sent_from(m, request, first.drop_last()) =~= seq![]);
    let packets = match (request, event) {
        (Request::Deliver(packet), Event::Delivered) => seq![packet],
        _ => seq![],
    };
    assert(sent_from(m, request, first) =~= packets);
    lemma_run_on(m, request, first, others);
}

/// Every state that a reader can get into is valid, and in none of them has the
/// reader lost the stream more than once since it was last in step. So it never
/// gets to the pause that it would make after losing the stream too often.
pub proof fn law_reached_states(events: Seq<Event<Seq<u8>>>)
    ensures
        after(events) matches Some((m, request)) ==> m.wf() && m.awaits(request) && m.resyncs <= 1
            && m.stage != Stage::Pause,
        after(events) matches Some((m, request)) ==> m.synced ==> m.resyncs == 0,
    decreases events.len(),
{
    if events.len() > 0 {
        law_reached_states(events.drop_last());
        if let Some((m, _)) = after(events.drop_last()) {
            m.law_step_keeps_wf(events.last());
        }
    }
}

/// Whether `events` are rounds of a search in which no byte arrives: the stop flag
/// is not set, and the read gives no byte or times out.
pub open spec fn are_idle_rounds(events: Seq<Event<Seq<u8>>>) -> bool {
    &&& events.len() % 2 == 0
    &&& forall|i: int|
        0 <= i < events.len() ==> if i % 2 == 0 {
            #[trigger] events[i] == Event::<Seq<u8>>::StopFlag(false)
        } else {
            events[i] == Event::<Seq<u8>>::NoByte || events[i] == Event::<Seq<u8>>::Failed(
                ReadFailure::TimedOut,
            )
        }
}

/// Any number of reads that give no byte, or that time out, leave a search as it
/// was, and nothing is passed on meanwhile.
pub proof fn law_idle_rounds_change_nothing(m: SyncModel, events: Seq<Event<Seq<u8>>>)
    requires
        m.stage == Stage::StopCheck,
        !m.synced,
        are_idle_rounds(events),
    ensures
        run(m, Request::CheckStop, events) == Some((m, Request::<PacketView>::CheckStop)),
        sent_from(m, Request::CheckStop, events) == Seq::<PacketView>::empty(),
    decreases events.len(),
{
    if events.len() > 0 {
        let n = events.len() as int;
        let almost = events.drop_last();
        let earlier = almost.drop_last();
        assert forall|i: int| 0 <= i < earlier.len() implies if i % 2 == 0 {
            #[trigger] earlier[i] == Event::<Seq<u8>>::StopFlag(false)
        } else {
            earlier[i] == Event::<Seq<u8>>::NoByte || earlier[i] == Event::<Seq<u8>>::Failed(
                ReadFailure::TimedOut,
            )
        } by {
            assert(earlier[i] == events[i]);
        }
        law_idle_rounds_change_nothing(m, earlier);
        assert(almost.last() == events[n - 2]);
        assert(events.last() == events[n - 1]);
        m.law_idle_read_changes_nothing();
        assert(run(m, Request::CheckStop, almost) == m.step(Event::StopFlag(false)));
        assert(sent_from(m, Request::CheckStop, almost) == sent_from(
            m,
            Request::CheckStop,
            earlier,
        ));
    }
}

/// The answers that a reader gets which has made `request` and reads `input`, from a
/// driver whose reads do not fail.
pub open spec fn answers(m: SyncModel, request: Request<PacketView>, input: Seq<u8>) -> Seq<
    Event<Seq<u8>>,
>
    decreases input.len(), rank(request),
{
    if m.wf() && m.awaits(request) {
        match answer(request, input) {
            Some((event, rest)) => match m.step(event) {
                Some((next, following)) => seq![event] + answers(next, following, rest),
                None => seq![],
            },
            None => seq![],
        }
    } else {
        seq![]
    }
}

/// What a reader passes on in the course of the answers to its requests is what it
/// delivers from the stream, and each of these answers is taken.
pub proof fn law_answers_send_deliveries(
    m: SyncModel,
    request: Request<PacketView>,
    input: Seq<u8>,
)
    requires
        m.wf(),
        m.awaits(request),
    ensures
        run(m, request, answers(m, request, input)) matches Some((n, _)) && n == halt(
            m,
            request,
            input,
        ),
        sent_from(m, request, answers(m, request, input)) == deliveries(m, request, input),
    decreases input.len(), rank(request),
{
    if let Some((event, rest)) = answer(request, input) {
        if let Some((next, following)) = m.step(event) {
            m.law_step_keeps_wf(event);
            law_answers_send_deliveries(next, following, rest);
            lemma_run_first(m, request, event, answers(next, following, rest));
            assert(seq![] + sent_from(next, following, answers(next, following, rest))
                =~= sent_from(next, following, answers(next, following, rest)));
        }
    }
}

/// A reader that starts on a stream of packets, with some noise in front as
/// [`law_stream_is_delivered`] says, has passed on all packets that are intact, in
/// order, and nothing else, once its requests have been answered from the stream.
pub proof fn law_stream_is_sent(noise: Seq<u8>, frames: Seq<Seq<u8>>)
    requires
        forall|i: int|
            0 <= i < noise.len() ==> !#[trigger] crate::sync::magic_at(
                noise + crate::packet::magic(),
                i,
            ),
        frames.len() > 0,
        are_frames(frames),
        starts_with_magic(frames[0]),
    ensures
        sent(
            answers(
                SyncModel::initial(),
                Request::CheckStop,
                noise + concatenated(frames),
            ),
        ) == intact(frames),
{
    law_stream_is_delivered(noise, frames);
    law_answers_send_deliveries(
        SyncModel::initial(),
        Request::CheckStop,
        noise + concatenated(frames),
    );
}

/// Reads that give no byte, or that time out, in a search make no difference to what
/// a reader passes on, nor to the state that it gets into, however many there are
/// and wherever in the search they are.
pub proof fn law_idle_rounds_do_not_change_what_is_sent(
    before: Seq<Event<Seq<u8>>>,
    idle: Seq<Event<Seq<u8>>>,
    behind: Seq<Event<Seq<u8>>>,
)
    requires
        after(before) matches Some((m, request)) && m.stage == Stage::StopCheck && !m.synced,
        are_idle_rounds(idle),
    ensures
        after(before + idle + behind) == after(before + behind),
        sent(before + idle + behind) == sent(before + behind),
{
    let start = SyncModel::initial();
    let (m, request) = after(before)->Some_0;
    law_reached_states(before);
    law_idle_rounds_change_nothing(m, idle);
    lemma_run_on(start, Request::CheckStop, before, idle);
    lemma_run_on(start, Request::CheckStop, before + idle, behind);
    lemma_run_on(start, Request::CheckStop, before, behind);
    assert(sent(before + idle) =~= sent(before));
}

/// The bytes that the port delivered for an event. A read that failed may have got
/// some bytes, `lost`, before it did.
pub open spec fn arrived(event: Event<Seq<u8>>, lost: Seq<u8>) -> Seq<u8> {
    match event {
        Event::Byte(b) => seq![b],
        Event::Bytes(d) => d,
        Event::Failed(_) => lost,
        _ => seq![],
    }
}

/// All bytes that the port delivered for `events`, where `lost[i]` is what event `i`
/// got before it failed, if it did.
pub open spec fn all_arrived(events: Seq<Event<Seq<u8>>>, lost: Seq<Seq<u8>>) -> Seq<u8>
    decreases events.len(),
{
    if events.len() == 0 {
        seq![]
    } else {
        all_arrived(events.drop_last(), lost) + arrived(events.last(), lost[events.len() - 1])
    }
}

/// The first position at which the next packet can stand when reads may fail.
spec fn lowest_yet(m: SyncModel, past: Seq<u8>) -> int {
    match m.stage {
        Stage::Magic => past.len() as int,
        _ => lowest(m, past),
    }
}

/// A step keeps track of where the bytes in the buffer were read, whether or not
/// the read failed.
proof fn lemma_step_in_past(m: SyncModel, event: Event<Seq<u8>>, past: Seq<u8>, lost: Seq<u8>)
    requires
        m.wf(),
        in_past(m, past),
        m.step(event) is Some,
    ensures
        ({
            let next = m.step(event)->Some_0.0;
            let now = past + arrived(event, lost);
            &&& in_past(next, now)
            &&& lowest_yet(next, now) >= if event is Delivered {
                past.len() as int
            } else {
                lowest_yet(m, past)
            }
        }),
{
    match (m.stage, event) {
        (Stage::Body, Event::Bytes(d)) => lemma_body_in_past(m, d, past),
        (Stage::Tail(_), Event::Bytes(d)) => lemma_tail_in_past(m, d, past),
        _ => {},
    }
}

/// Finds the position of each packet that was sent.
proof fn lemma_sent_positions(events: Seq<Event<Seq<u8>>>, lost: Seq<Seq<u8>>) -> (at: Seq<int>)
    requires
        after(events) is Some,
    ensures
        at.len() == sent(events).len(),
        forall|i: int|
            0 <= i < at.len() ==> stands_at(
                all_arrived(events, lost),
                #[trigger] at[i],
                sent(events)[i],
            ),
        forall|i: int, j: int| 0 <= i < j < at.len() ==> at[j] >= at[i] + BODY_SIZE,
        forall|i: int|
            0 <= i < at.len() ==> #[trigger] at[i] + BODY_SIZE <= lowest_yet(
                after(events)->Some_0.0,
                all_arrived(events, lost),
            ),
        in_past(after(events)->Some_0.0, all_arrived(events, lost)),
    decreases events.len(),
{
    if events.len() == 0 {
        seq![]
    } else {
        let earlier = events.drop_last();
        let event = events.last();
        let got = arrived(event, lost[events.len() - 1]);
        let past = all_arrived(earlier, lost);
        let now = past + got;
        let before = lemma_sent_positions(earlier, lost);
        let (m, request) = after(earlier)->Some_0;
        law_reached_states(earlier);
        lemma_step_in_past(m, event, past, lost[events.len() - 1]);
        assert forall|i: int| 0 <= i < before.len() implies stands_at(
            now,
            #[trigger] before[i],
            sent(earlier)[i],
        ) by {
            lemma_stands_later(past, got, before[i], sent(earlier)[i]);
        }
        match (request, event) {
            (Request::Deliver(packet), Event::Delivered) => {
                lemma_delivered_in_past(m, packet, past, got);
                before.push(past.len() - BODY_SIZE)
            },
            _ => before,
        }
    }
}

/// What stands in a stream still stands there when more has arrived.
proof fn lemma_stands_later(past: Seq<u8>, got: Seq<u8>, p: int, packet: PacketView)
    requires
        stands_at(past, p, packet),
    ensures
        stands_at(past + got, p, packet),
{
    assert((past + got).subrange(p, p + BODY_SIZE) =~= past.subrange(p, p + BODY_SIZE));
}

/// Whatever happens, reads that fail among it, every packet that a reader has passed
/// on was read from consecutive bytes of all that the port delivered, in the order
/// in which they arrived, and no two packets share a byte. Where a read fails, the
/// bytes that it got, `lost[i]` for event `i`, count as delivered by the port.
/// Returns where each packet stands.
pub proof fn law_sent_packets_are_in_the_stream(
    events: Seq<Event<Seq<u8>>>,
    lost: Seq<Seq<u8>>,
) -> (at: Seq<int>)
    requires
        after(events) is Some,
        lost.len() == events.len(),
    ensures
        at.len() == sent(events).len(),
        forall|i: int|
            0 <= i < at.len() ==> stands_at(
                all_arrived(events, lost),
                #[trigger] at[i],
                sent(events)[i],
            ),
        forall|i: int, j: int| 0 <= i < j < at.len() ==> at[j] >= at[i] + BODY_SIZE,
{
    lemma_sent_positions(events, lost)
}

/// A failed read of magic bytes, or of the rest of a packet, whatever went before it
/// and for whatever reason it failed, takes nothing from what is passed on of the
/// packets that come then.
pub proof fn law_sent_across_failed_read(
    before: Seq<Event<Seq<u8>>>,
    why: ReadFailure,
    frames: Seq<Seq<u8>>,
)
    requires
        after(before) matches Some((m, _)) && (m.stage == Stage::Magic || m.stage is Tail
            || m.stage == Stage::Body && why == ReadFailure::Other),
        are_frames(frames),
        frames.len() > 0 ==> starts_with_magic(frames[0]),
    ensures
        ({
            let failed = before + seq![Event::Failed(why)];
            after(failed) matches Some((next, request)) && sent(
                failed + answers(next, request, concatenated(frames)),
            ) == sent(before) + intact(frames)
        }),
{
    let start = SyncModel::initial();
    let (m, asked) = after(before)->Some_0;
    law_reached_states(before);
    m.law_step_keeps_wf(Event::Failed(why));
    let (next, request) = m.step(Event::Failed(why))->Some_0;
    let failure = seq![Event::<Seq<u8>>::Failed(why)];
    lemma_run_first(m, asked, Event::Failed(why), seq![]);
    assert(failure + seq![] =~= failure);
    lemma_run_on(start, Request::CheckStop, before, failure);
    let further = answers(next, request, concatenated(frames));
    lemma_run_on(start, Request::CheckStop, before + failure, further);
    law_answers_send_deliveries(next, request, concatenated(frames));
    law_failed_read_costs_no_later_packet(m, why, frames);
    assert(sent(before + failure) =~= sent(before));
}

/// A stream of packets of which the last is intact, then a read of the next magic bytes
/// that fails, for whatever reason, and then another stream of packets: all packets that
/// are intact are passed on, in order, and nothing else.
pub proof fn law_streams_are_sent_across_failed_read(
    noise: Seq<u8>,
    first: Seq<Seq<u8>>,
    why: ReadFailure,
    second: Seq<Seq<u8>>,
)
    requires
        forall|i: int|
            0 <= i < noise.len() ==> !#[trigger] crate::sync::magic_at(
                noise + crate::packet::magic(),
                i,
            ),
        first.len() > 0,
        are_frames(first),
        starts_with_magic(first[0]),
        ends_intact(first),
        are_frames(second),
        second.len() > 0 ==> starts_with_magic(second[0]),
    ensures
        ({
            let before = answers(
                SyncModel::initial(),
                Request::CheckStop,
                noise + concatenated(first),
            );
            let failed = before + seq![Event::Failed(why)];
            after(failed) matches Some((next, request)) && sent(
                failed + answers(next, request, concatenated(second)),
            ) == intact(first) + intact(second)
        }),
{
    let start = SyncModel::initial();
    law_stream_is_delivered(noise, first);
    law_stream_is_sent(noise, first);
    law_answers_send_deliveries(start, Request::CheckStop, noise + concatenated(first));
    law_sent_across_failed_read(
        answers(start, Request::CheckStop, noise + concatenated(first)),
        why,
        second,
    );
}

/// A packet that was found inside a damaged one and turns out to be damaged too,
/// whatever went before it, takes nothing from what is passed on of the packets that
/// come then.
pub proof fn law_sent_across_damaged_rest(
    before: Seq<Event<Seq<u8>>>,
    tail: Seq<u8>,
    frames: Seq<Seq<u8>>,
)
    requires
        after(before) matches Some((m, _)) && (m.stage matches Stage::Tail(k) && k == tail.len())
            && PacketView::parse(m.buffer.take(PACKET_TOTAL_SIZE - tail.len()) + tail) is Err,
        are_frames(frames),
        frames.len() > 0 ==> starts_with_magic(frames[0]),
    ensures
        after(before) matches Some((m, request)) && sent(
            before + answers(m, request, tail + concatenated(frames)),
        ) == sent(before) + intact(frames),
{
    let (m, request) = after(before)->Some_0;
    law_reached_states(before);
    let further = answers(m, request, tail + concatenated(frames));
    lemma_run_on(SyncModel::initial(), Request::CheckStop, before, further);
    law_answers_send_deliveries(m, request, tail + concatenated(frames));
    law_damaged_rest_leads_to_search(m, tail, frames);
}

/// A reader that is not told to stop, whose receiver is there, and whose reads fail
/// only by timeouts never ends, whatever bytes arrive and however often nothing does.
pub proof fn law_reader_goes_on(events: Seq<Event<Seq<u8>>>)
    requires
        forall|i: int|
            0 <= i < events.len() ==> #[trigger] events[i] != Event::<Seq<u8>>::StopFlag(true)
                && !(events[i] is ReceiverGone) && (events[i] is Failed ==> events[i] == Event::<
                Seq<u8>,
            >::Failed(ReadFailure::TimedOut)),
    ensures
        after(events) matches Some((m, request)) ==> m.stage != Stage::Finished && !(
        request is Finish),
    decreases events.len(),
{
    if events.len() > 0 {
        let earlier = events.drop_last();
        let event = events[events.len() - 1];
        assert forall|i: int| 0 <= i < earlier.len() implies #[trigger] earlier[i] != Event::<
            Seq<u8>,
        >::StopFlag(true) && !(earlier[i] is ReceiverGone) && (earlier[i] is Failed ==> earlier[i]
            == Event::<Seq<u8>>::Failed(ReadFailure::TimedOut)) by {
            assert(earlier[i] == events[i]);
        }
        law_reader_goes_on(earlier);
        law_reached_states(earlier);
        if let Some((m, _)) = after(earlier) {
            m.law_ends_only_with_cause(event);
        }
    }
}

/// A reader that reads from a stream, with no read that fails, has not ended when the
/// stream is used up: it waits for more.
pub proof fn law_stream_does_not_end_the_reader(
    m: SyncModel,
    request: Request<PacketView>,
    input: Seq<u8>,
)
    requires
        m.wf(),
        m.awaits(request),
        m.stage != Stage::Finished,
    ensures
        run(m, request, answers(m, request, input)) matches Some((n, asked)) && n.stage
            != Stage::Finished && (asked is ReadByte || asked is ReadBytes),
    decreases input.len(), rank(request),
{
    match answer(request, input) {
        Some((event, rest)) => {
            m.law_takes_what_fits(request, event);
            let (next, following) = m.step(event)->Some_0;
            m.law_step_keeps_wf(event);
            m.law_ends_only_with_cause(event);
            law_stream_does_not_end_the_reader(next, following, rest);
            lemma_run_first(m, request, event, answers(next, following, rest));
        },
        None => {},
    }
}

/// Once a reader has ended, whatever ended it, no event is taken any more, and so
/// nothing more is passed on.
pub proof fn law_nothing_follows_the_end(
    before: Seq<Event<Seq<u8>>>,
    event: Event<Seq<u8>>,
    behind: Seq<Event<Seq<u8>>>,
)
    requires
        after(before) matches Some((m, _)) && m.step(event) is Some && crate::steps::ends(
            m.stage,
            event,
        ),
        behind.len() > 0,
    ensures
        after(before + seq![event]) matches Some((_, Request::Finish)),
        after(before + seq![event] + behind) is None,
        sent(before + seq![event] + behind) == sent(before),
{
    let start = SyncModel::initial();
    let (m, asked) = after(before)->Some_0;
    law_reached_states(before);
    m.law_ends_only_with_cause(event);
    lemma_run_first(m, asked, event, seq![]);
    assert(seq![event] + seq![] =~= seq![event]);
    lemma_run_on(start, Request::CheckStop, before, seq![event]);
    lemma_run_on(start, Request::CheckStop, before + seq![event], behind);
    let (end, _) = m.step(event)->Some_0;
    lemma_ended(end, behind);
    assert(sent(before + seq![event] + behind) =~= sent(before));
}

/// A reader that has ended takes nothing and passes nothing on.
proof fn lemma_ended(m: SyncModel, events: Seq<Event<Seq<u8>>>)
    requires
        m.stage == Stage::Finished,
    ensures
        events.len() > 0 ==> run(m, Request::Finish, events) is None,
        sent_from(m, Request::Finish, events) == Seq::<PacketView>::empty(),
    decreases events.len(),
{
    if events.len() > 0 {
        lemma_ended(m, events.drop_last());
        m.law_finished_is_final(events.last());
        if events.len() == 1 {
            assert(events.drop_last() =~= seq![]);
        }
    }
}

} // verus!
