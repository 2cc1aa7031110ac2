//! What each step of the reader does, said of the bytes and the counters.
//!
//! The laws here say of every state and every event where the reader goes, what it
//! asks for, and what it keeps. They speak of the bytes themselves: `yoho` at a
//! place, the size field of a packet, the number of times that something happened.

use crate::packet::{GtrPacket, PacketView};
use crate::sync::{Event, ReadFailure, Request, Stage, SyncModel};
use vstd::prelude::*;

verus! {

/// Whether the bytes `yoho` stand at position `k`.
pub open spec fn yoho_at(bytes: Seq<u8>, k: int) -> bool {
    &&& 0 <= k <= bytes.len() - 4
    &&& bytes[k] == 0x79
    &&& bytes[k + 1] == 0x6f
    &&& bytes[k + 2] == 0x68
    &&& bytes[k + 3] == 0x6f
}

/// Whether the 43 bytes of a packet have the one valid size in their size field.
pub open spec fn size_is_right(bytes: Seq<u8>) -> bool {
    bytes[12] == 0 && bytes[13] == 27
}

/// Whether an event is an answer to a request.
pub open spec fn fits(request: Request<PacketView>, event: Event<Seq<u8>>) -> bool {
    match event {
        Event::StopFlag(_) => request is CheckStop,
        Event::NoByte | Event::Byte(_) => request is ReadByte,
        Event::Bytes(d) => request matches Request::ReadBytes(n) && n == d.len(),
        Event::Failed(_) => request is ReadByte || request is ReadBytes,
        Event::Delivered | Event::NoRoom | Event::ReceiverGone => request is Deliver,
        Event::Rested => request is Pause,
    }
}

/// Whether an event is one on which a reader ends that waits for `stage`: it is told
/// to stop, nobody receives packets, the read of a packet finds no connection, or the
/// read of a byte to search fails otherwise than by a timeout.
pub open spec fn ends(stage: Stage, event: Event<Seq<u8>>) -> bool {
    ||| event == Event::<Seq<u8>>::StopFlag(true)
    ||| event is ReceiverGone
    ||| stage == Stage::Byte && event is Failed && event != Event::<Seq<u8>>::Failed(
        ReadFailure::TimedOut,
    )
    ||| stage == Stage::Body && (event == Event::<Seq<u8>>::Failed(ReadFailure::BrokenPipe)
        || event == Event::<Seq<u8>>::Failed(ReadFailure::NotConnected))
}

/// `magic_at` looks for the bytes `yoho`.
pub proof fn law_magic_is_yoho(bytes: Seq<u8>, k: int)
    requires
        0 <= k <= bytes.len() - 4,
    ensures
        crate::sync::magic_at(bytes, k) <==> yoho_at(bytes, k),
{
    let there = bytes.subrange(k, k + 4);
    assert(there[0] == bytes[k]);
    assert(there[1] == bytes[k + 1]);
    assert(there[2] == bytes[k + 2]);
    assert(there[3] == bytes[k + 3]);
    if yoho_at(bytes, k) {
        assert(there =~= crate::packet::magic());
    }
}

/// All four magic bytes match themselves, and putting one right adds one to the number
/// of bytes that match, if it was wrong.
pub proof fn law_matching_counts_right_bytes(bytes: Seq<u8>, i: int)
    requires
        bytes.len() == 4,
        0 <= i < 4,
    ensures
        crate::sync::matching_magic(seq![0x79u8, 0x6fu8, 0x68u8, 0x6fu8]) == 4,
        ({
            let right = seq![0x79u8, 0x6fu8, 0x68u8, 0x6fu8][i];
            crate::sync::matching_magic(bytes.update(i, right)) == crate::sync::matching_magic(
                bytes,
            ) + (if bytes[i] == right {
                0int
            } else {
                1
            })
        }),
{
}

/// A reader starts out of step, at the check of the stop flag, with nothing read and
/// nothing counted.
pub proof fn law_starts_with_nothing(i: int)
    ensures
        ({
            let m = SyncModel::initial();
            &&& m.stage == Stage::StopCheck
            &&& !m.synced
            &&& m.head == 0
            &&& m.timeouts == 0
            &&& m.resyncs == 0
            &&& m.ring.len() == 4
            &&& m.buffer.len() == 43
            &&& 0 <= i < 4 ==> m.ring[i] == 0
            &&& 0 <= i < 43 ==> m.buffer[i] == 0
        }),
{
}

impl SyncModel {
    /// A reader that has made a request takes exactly the events that answer it.
    pub proof fn law_takes_what_fits(self, request: Request<PacketView>, event: Event<Seq<u8>>)
        requires
            self.wf(),
            self.awaits(request),
        ensures
            self.step(event) is Some <==> fits(request, event),
    {
    }

    /// What is asked for at the first and at every further round is what the stage
    /// says: one byte in a search, 39 bytes of a packet, what is missing of one, the
    /// packet that the buffer says, or four magic bytes.
    pub proof fn law_asks_for_what_it_awaits(self, request: Request<PacketView>)
        ensures
            self.awaits(request) <==> match self.stage {
                Stage::StopCheck | Stage::Room => request == Request::<PacketView>::CheckStop,
                Stage::Byte => request == Request::<PacketView>::ReadByte,
                Stage::Body => request == Request::<PacketView>::ReadBytes(39),
                Stage::Tail(k) => request == Request::<PacketView>::ReadBytes(k),
                Stage::Delivery => request == Request::Deliver(
                    PacketView::parse(self.buffer)->Ok_0,
                ),
                Stage::Magic => request == Request::<PacketView>::ReadBytes(4),
                Stage::Pause => request == Request::<PacketView>::Pause,
                Stage::Finished => request == Request::<PacketView>::Finish,
            },
    {
    }

    /// A reader ends on the events on which it is to end, and on no other.
    pub proof fn law_ends_only_with_cause(self, event: Event<Seq<u8>>)
        requires
            self.wf(),
        ensures
            self.step(event) matches Some((next, request)) ==> (next.stage == Stage::Finished
                <==> ends(self.stage, event)) && (request is Finish <==> ends(self.stage, event)),
    {
        self.law_step_keeps_wf(event);
    }

    /// Where the read of magic bytes or of the rest of a packet fails, for whatever
    /// reason, the reader searches again. Its ring and its count of timeouts stay.
    pub proof fn law_failed_read_leads_to_search(self, why: ReadFailure)
        requires
            self.wf(),
            self.stage == Stage::Magic || self.stage is Tail,
        ensures
            self.step(Event::Failed(why)) matches Some((next, request)) && !next.synced
                && next.head == 0 && next.ring == self.ring && next.buffer == self.buffer
                && next.timeouts == self.timeouts && next.resyncs == self.resyncs + 1 && if (
            self.resyncs >= 5) {
                next.stage == Stage::Pause && request is Pause
            } else {
                next.stage == Stage::StopCheck && request is CheckStop
            },
    {
    }

    /// Where the read of a byte to search times out or gives nothing, the search goes
    /// on as it was. Where it fails otherwise the reader ends, and after that no event
    /// is taken and nothing is asked for.
    pub proof fn law_failed_search(self, event: Event<Seq<u8>>, later: Event<Seq<u8>>)
        requires
            self.wf(),
            self.stage == Stage::Byte,
            event is Failed || event is NoByte,
        ensures
            self.step(event) matches Some((next, request)) && next == (SyncModel {
                stage: next.stage,
                ..self
            }) && if event is NoByte || event == Event::<Seq<u8>>::Failed(ReadFailure::TimedOut) {
                next.stage == Stage::StopCheck && request is CheckStop
            } else {
                next.stage == Stage::Finished && request is Finish && next.step(later) is None
            },
    {
    }

    /// Where the read of a packet times out, the reader stays in step, but for the
    /// eleventh time, at which it searches again and counts from the start. Any other
    /// failure makes it search again at once, and without a connection it ends.
    pub proof fn law_failed_packet_read(self, why: ReadFailure)
        requires
            self.wf(),
            self.stage == Stage::Body,
        ensures
            self.step(Event::Failed(why)) matches Some((next, request)) && next.ring == self.ring
                && next.buffer == self.buffer && (next.synced <==> why == ReadFailure::TimedOut
                && self.timeouts < 10) && next.timeouts == (if why != ReadFailure::TimedOut {
                self.timeouts
            } else if self.timeouts < 10 {
                self.timeouts + 1
            } else {
                0
            }) && (if next.synced {
                next.resyncs == self.resyncs && next.head == self.head
            } else {
                next.resyncs == self.resyncs + 1 && next.head == 0
            }) && match why {
                ReadFailure::TimedOut => next.stage == Stage::StopCheck && request is CheckStop,
                ReadFailure::BrokenPipe | ReadFailure::NotConnected => next.stage
                    == Stage::Finished && request is Finish,
                ReadFailure::Other => if self.resyncs >= 5 {
                    next.stage == Stage::Pause && request is Pause
                } else {
                    next.stage == Stage::StopCheck && request is CheckStop
                },
            },
    {
    }

    /// A searched byte brings the reader in step exactly if it follows `yoh` and is
    /// `o`. The ring holds it in place of the oldest byte, and the next round begins.
    pub proof fn law_searched_byte(self, b: u8)
        requires
            self.wf(),
            self.stage == Stage::Byte,
        ensures
            self.step(Event::Byte(b)) matches Some((next, request)) && request is CheckStop
                && next.stage == Stage::StopCheck && next.timeouts == self.timeouts && next.ring
                == self.ring.update(self.head, b) && (next.synced <==> self.ring[(self.head + 1)
                % 4] == 0x79 && self.ring[(self.head + 2) % 4] == 0x6f && self.ring[(self.head + 3)
                % 4] == 0x68 && b == 0x6f) && (if next.synced {
                next.head == 0 && next.resyncs == 0 && yoho_at(next.buffer, 0) && next.buffer.skip(
                    4,
                ) == self.buffer.skip(4)
            } else {
                next.head == (self.head + 1) % 4 && next.resyncs == self.resyncs && next.buffer
                    == self.buffer
            }),
    {
        let ring = self.ring.update(self.head, b);
        let there = crate::sync::window(ring, (self.head + 1) % 4);
        assert(there[0] == ring[(self.head + 1) % 4]);
        assert(there[1] == ring[(self.head + 2) % 4]);
        assert(there[2] == ring[(self.head + 3) % 4]);
        assert(there[3] == b);
        if there[0] == 0x79 && there[1] == 0x6f && there[2] == 0x68 && there[3] == 0x6f {
            assert(there =~= crate::packet::magic());
        }
        let next = self.step(Event::Byte(b))->Some_0.0;
        assert(next.buffer.skip(4) =~= self.buffer.skip(4));
    }

    /// A packet whose size field is right is passed on as it was read. Else the reader
    /// asks for as many bytes as stand before the first `yoho` inside it, and keeps
    /// the bytes from there on. If there is none, it searches again.
    pub proof fn law_packet_read(self, body: Seq<u8>)
        requires
            self.wf(),
            self.stage == Stage::Body,
            body.len() == 39,
        ensures
            ({
                let read = self.buffer.take(4) + body;
                self.step(Event::Bytes(body)) matches Some((next, request)) && next.ring
                    == self.ring && next.timeouts == self.timeouts && if size_is_right(read) {
                    &&& request == Request::Deliver(PacketView::parse(read)->Ok_0)
                    &&& PacketView::parse(read) is Ok
                    &&& next == (SyncModel { buffer: read, stage: Stage::Delivery, ..self })
                } else {
                    match request {
                        Request::ReadBytes(k) => {
                            &&& 1 <= k <= 38
                            &&& yoho_at(read, k as int)
                            &&& forall|j: int| 1 <= j < k ==> !#[trigger] yoho_at(read, j)
                            &&& next.buffer.take(43 - k) == read.skip(k as int)
                            &&& next == (SyncModel {
                                buffer: next.buffer,
                                stage: Stage::Tail(k),
                                ..self
                            })
                        },
                        _ => {
                            &&& forall|j: int| 1 <= j <= 38 ==> !#[trigger] yoho_at(read, j)
                            &&& !next.synced
                            &&& next.head == 0
                            &&& next.resyncs == self.resyncs + 1
                            &&& if self.resyncs >= 5 {
                                next.stage == Stage::Pause && request is Pause
                            } else {
                                next.stage == Stage::StopCheck && request is CheckStop
                            }
                        },
                    }
                }
            }),
    {
        let read = self.buffer.take(4) + body;
        let (next, request) = self.step(Event::Bytes(body))->Some_0;
        PacketView::law_says_what_the_bytes_say(read);
        assert forall|j: int| 1 <= j <= 38 implies crate::sync::magic_at(read, j)
            == #[trigger] yoho_at(read, j) by {
            law_magic_is_yoho(read, j);
        }
        if !size_is_right(read) {
            if exists|k: int| crate::sync::first_embedded_magic(read, k) {
                let k = choose|k: int| crate::sync::first_embedded_magic(read, k);
                assert(crate::sync::first_embedded_magic(read, k));
                assert(yoho_at(read, k));
                assert forall|j: int| 1 <= j < k implies !#[trigger] yoho_at(read, j) by {
                    assert(!crate::sync::magic_at(read, j));
                }
                assert(next.buffer.take(43 - k) =~= read.skip(k));
            } else {
                lemma_no_embedded(read);
            }
        }
    }

    /// The rest of a packet completes it. A packet whose size field is right is passed
    /// on, and else the reader searches again.
    pub proof fn law_rest_of_packet_read(self, tail: Seq<u8>)
        requires
            self.wf(),
            self.stage matches Stage::Tail(k) && k == tail.len(),
        ensures
            ({
                let whole = self.buffer.take(43 - tail.len()) + tail;
                self.step(Event::Bytes(tail)) matches Some((next, request)) && next.buffer == whole
                    && next.ring == self.ring && next.timeouts == self.timeouts && if size_is_right(
                    whole,
                ) {
                    &&& request == Request::Deliver(PacketView::parse(whole)->Ok_0)
                    &&& PacketView::parse(whole) is Ok
                    &&& next == (SyncModel { buffer: whole, stage: Stage::Delivery, ..self })
                } else {
                    &&& !next.synced
                    &&& next.head == 0
                    &&& next.resyncs == self.resyncs + 1
                    &&& if self.resyncs >= 5 {
                        next.stage == Stage::Pause && request is Pause
                    } else {
                        next.stage == Stage::StopCheck && request is CheckStop
                    }
                }
            }),
    {
        PacketView::law_says_what_the_bytes_say(self.buffer.take(43 - tail.len()) + tail);
    }

    /// Of the four bytes where a packet should start, two that are right keep the
    /// reader in step, at whatever places they stand. With fewer it searches again,
    /// and the four are the last that it has seen.
    pub proof fn law_next_magic_read(self, bytes: Seq<u8>)
        requires
            self.wf(),
            self.stage == Stage::Magic,
            bytes.len() == 4,
        ensures
            self.step(Event::Bytes(bytes)) matches Some((next, request)) && next.timeouts
                == self.timeouts && next.buffer == bytes + self.buffer.skip(4) && (next.synced
                <==> exists|i: int, j: int|
                0 <= i < j < 4 && #[trigger] bytes[i] == yoho(i) && #[trigger] bytes[j] == yoho(j))
                && (if next.synced {
                next.ring == self.ring && next.head == self.head && next.resyncs == self.resyncs
                    && next.stage == Stage::StopCheck && request is CheckStop
            } else {
                next.ring == bytes && next.head == 0 && next.resyncs == self.resyncs + 1 && if (
                self.resyncs >= 5) {
                    next.stage == Stage::Pause && request is Pause
                } else {
                    next.stage == Stage::StopCheck && request is CheckStop
                }
            }),
    {
        let right = |i: int| bytes[i] == yoho(i);
        assert(right(0) == (bytes[0] == yoho(0)));
        assert(right(1) == (bytes[1] == yoho(1)));
        assert(right(2) == (bytes[2] == yoho(2)));
        assert(right(3) == (bytes[3] == yoho(3)));
        if exists|i: int, j: int|
            0 <= i < j < 4 && #[trigger] bytes[i] == yoho(i) && #[trigger] bytes[j] == yoho(j) {
            let (i, j) = choose|i: int, j: int|
                0 <= i < j < 4 && #[trigger] bytes[i] == yoho(i) && #[trigger] bytes[j] == yoho(j);
            assert(crate::sync::matching_magic(bytes) >= 2);
        }
    }

    /// At the check of the stop flag, and at every other answer that brings no bytes,
    /// the reader keeps all that it has read. Unless it is told to stop it goes on: to
    /// a packet if it is in step, to a byte if it is not, to the same packet again
    /// where there was no room for it, to the next magic bytes where there was.
    pub proof fn law_answers_without_bytes(self, event: Event<Seq<u8>>)
        requires
            self.wf(),
            event is StopFlag || event is Delivered || event is NoRoom || event is ReceiverGone
                || event is Rested,
        ensures
            self.step(event) matches Some((next, request)) ==> next == (SyncModel {
                stage: next.stage,
                resyncs: next.resyncs,
                ..self
            }) && next.resyncs == (if event is Rested {
                0
            } else {
                self.resyncs
            }) && match event {
                Event::StopFlag(true) | Event::ReceiverGone => next.stage == Stage::Finished,
                Event::StopFlag(_) => if self.stage == Stage::Room {
                    next.stage == Stage::Delivery
                } else if self.synced {
                    next.stage == Stage::Body
                } else {
                    next.stage == Stage::Byte
                },
                Event::Delivered => next.stage == Stage::Magic,
                Event::NoRoom => next.stage == Stage::Room,
                _ => next.stage == Stage::StopCheck,
            },
    {
    }
}

/// The magic byte at place `i`.
pub open spec fn yoho(i: int) -> u8 {
    if i == 0 {
        0x79
    } else if i == 2 {
        0x68
    } else {
        0x6f
    }
}

/// Where no position is the first at which the magic bytes stand, they stand nowhere.
proof fn lemma_no_embedded(read: Seq<u8>)
    requires
        !exists|k: int| crate::sync::first_embedded_magic(read, k),
    ensures
        forall|k: int| 1 <= k <= 38 ==> !#[trigger] crate::sync::magic_at(read, k),
{
    assert forall|k: int| 1 <= k <= 38 implies !#[trigger] crate::sync::magic_at(read, k) by {
        lemma_none_up_to(read, k);
    }
}

proof fn lemma_none_up_to(read: Seq<u8>, k: int)
    requires
        !exists|j: int| crate::sync::first_embedded_magic(read, j),
        0 <= k <= 38,
    ensures
        forall|j: int| 1 <= j <= k ==> !#[trigger] crate::sync::magic_at(read, j),
    decreases k,
{
    if k > 0 {
        lemma_none_up_to(read, k - 1);
        assert(!crate::sync::first_embedded_magic(read, k));
    }
}

/// The model of a request asks for the same thing, and the model of an event says the
/// same thing: two that have the same model differ at most in how they hold a packet
/// or bytes.
pub proof fn law_models_are_faithful(
    a: Request<GtrPacket>,
    b: Request<GtrPacket>,
    c: Event<Vec<u8>>,
    d: Event<Vec<u8>>,
)
    ensures
        a@ == b@ <==> match (a, b) {
            (Request::Deliver(p), Request::Deliver(q)) => p.header == q.header && p.status
                == q.status && p.sensors@ == q.sensors@,
            _ => a == b,
        },
        a@ is Deliver <==> a is Deliver,
        a@ is Finish <==> a is Finish,
        a@ is Pause <==> a is Pause,
        a@ is CheckStop <==> a is CheckStop,
        a@ is ReadByte <==> a is ReadByte,
        a matches Request::ReadBytes(n) ==> a@ == Request::<PacketView>::ReadBytes(n),
        c@ == d@ <==> match (c, d) {
            (Event::Bytes(p), Event::Bytes(q)) => p@ == q@,
            _ => c == d,
        },
        c matches Event::Bytes(p) ==> c@ == Event::Bytes(p@),
        c matches Event::Byte(p) ==> c@ == Event::<Seq<u8>>::Byte(p),
        c matches Event::StopFlag(p) ==> c@ == Event::<Seq<u8>>::StopFlag(p),
        c matches Event::Failed(p) ==> c@ == Event::<Seq<u8>>::Failed(p),
        c is NoByte <==> c@ is NoByte,
        c is Delivered <==> c@ is Delivered,
        c is NoRoom <==> c@ is NoRoom,
        c is ReceiverGone <==> c@ is ReceiverGone,
        c is Rested <==> c@ is Rested,
{
}

} // verus!
