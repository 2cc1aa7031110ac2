//! The receiving end of the reader, which a program holds.
//!
//! A background thread drives [`crate::sync::PacketSync`] on a serial port and
//! sends the packets through a channel. [`GtrSerialReader`] receives them and
//! stops the thread.

use crate::error::GtrError;
use crate::packet::GtrPacket;
use crate::signal::StopSignal;
use crossbeam_channel::{Receiver, RecvError, TryRecvError};
use std::sync::atomic::{AtomicBool, Ordering};
use std::sync::Arc;
use vstd::prelude::*;

verus! {

/// How many packets the channel holds before the background thread has to wait.
pub const CHANNEL_CAPACITY: usize = 100;

/// How long a read on the serial port waits, in milliseconds.
pub const READ_TIMEOUT_MS: u64 = 1000;

/// How long the background thread waits on [`crate::sync::Request::Pause`], in
/// milliseconds.
pub const PAUSE_MS: u64 = 5;

/// How long the background thread waits for room in the channel before it answers
/// [`crate::sync::Event::NoRoom`], in milliseconds.
pub const ROOM_WAIT_MS: u64 = 100;

/// Declares `crossbeam_channel::Receiver`, an opaque value.
#[verifier::external_type_specification]
#[verifier::external_body]
#[verifier::reject_recursive_types(T)]
pub struct ExReceiver<T>(Receiver<T>);

/// What a receive that does not block gave.
#[derive(Debug, Clone, PartialEq, Eq)]
pub enum TryReceive {
    /// This packet.
    Packet(GtrPacket),
    /// Nothing: there is no packet at the moment.
    Empty,
    /// Nothing: there will be no more packets.
    Disconnected,
}

/// `crossbeam_channel::Receiver::recv`: blocks until there is a packet or the
/// channel is empty and closed. Which of them it is, and which packet, depends on
/// the other threads, so nothing is stated of the result.
#[verifier::external_body]
fn recv(packet_rx: &Receiver<GtrPacket>) -> (r: Result<GtrPacket, RecvError>) {
    packet_rx.recv()
}

/// `crossbeam_channel::Receiver::try_recv`, with its outcome as a [`TryReceive`]:
/// a packet, or why there is none, without blocking. Which of them it is, and
/// which packet, depends on the other threads, so nothing is stated of the result.
#[verifier::external_body]
fn try_recv(packet_rx: &Receiver<GtrPacket>) -> (r: TryReceive) {
    match packet_rx.try_recv() {
        Ok(packet) => TryReceive::Packet(packet),
        Err(TryRecvError::Empty) => TryReceive::Empty,
        Err(TryRecvError::Disconnected) => TryReceive::Disconnected,
    }
}

/// Whether `outcome` is one that [`recv`] can give on `channel`.
pub closed spec fn recv_gives(
    channel: Receiver<GtrPacket>,
    outcome: Result<GtrPacket, RecvError>,
) -> bool {
    call_ensures(recv, (&channel,), outcome)
}

/// Whether `outcome` is one that [`try_recv`] can give on `channel`.
pub closed spec fn try_recv_gives(channel: Receiver<GtrPacket>, outcome: TryReceive) -> bool {
    call_ensures(try_recv, (&channel,), outcome)
}

/// Whether `true` has been stored in `signal`, for the background thread to see.
pub open spec fn stop_raised(signal: Arc<AtomicBool>) -> bool {
    call_ensures(AtomicBool::store, (&*signal, true, Ordering::Relaxed), ())
}

/// Whether `r` is the thread communication error with the given text.
pub open spec fn is_thread_error<T>(r: Result<T, GtrError>, text: Seq<char>) -> bool {
    r matches Err(GtrError::ThreadComm(m)) && m@ == text
}

/// Whether `r` is what a blocking receive with this outcome means to the caller:
/// the packet, or the error that says that the channel is closed.
pub open spec fn is_received(
    outcome: Result<GtrPacket, RecvError>,
    r: Result<GtrPacket, GtrError>,
) -> bool {
    match outcome {
        Ok(packet) => r == Ok::<GtrPacket, GtrError>(packet),
        Err(e) => r == Err::<GtrPacket, GtrError>(GtrError::ChannelReceive(e)),
    }
}

/// Whether `r` is what a receive that does not block and has this outcome means to
/// the caller: the packet, nothing, or the error that says that the channel is
/// closed.
pub open spec fn is_try_received(
    outcome: TryReceive,
    r: Result<Option<GtrPacket>, GtrError>,
) -> bool {
    match outcome {
        TryReceive::Packet(packet) => r == Ok::<Option<GtrPacket>, GtrError>(Some(packet)),
        TryReceive::Empty => r == Ok::<Option<GtrPacket>, GtrError>(None),
        TryReceive::Disconnected => is_thread_error(r, "Reader thread disconnected"@),
    }
}

/// What a blocking receive means to the caller.
pub fn received(outcome: Result<GtrPacket, RecvError>) -> (r: Result<GtrPacket, GtrError>)
    ensures
        is_received(outcome, r),
{
    match outcome {
        Ok(packet) => Ok(packet),
        Err(e) => Err(GtrError::from(e)),
    }
}

/// What a receive that does not block means to the caller.
pub fn try_received(outcome: TryReceive) -> (r: Result<Option<GtrPacket>, GtrError>)
    ensures
        is_try_received(outcome, r),
{
    match outcome {
        TryReceive::Packet(packet) => Ok(Some(packet)),
        TryReceive::Empty => Ok(None),
        TryReceive::Disconnected => Err(
            GtrError::ThreadComm("Reader thread disconnected".to_string()),
        ),
    }
}

/// What the end of the background thread means to the caller.
pub fn joined(ended: bool) -> (r: Result<(), GtrError>)
    ensures
        ended ==> r is Ok,
        !ended ==> is_thread_error(r, "Reader thread panicked"@),
{
    if ended {
        Ok(())
    } else {
        Err(GtrError::ThreadComm("Reader thread panicked".to_string()))
    }
}

/// Receives the packets of a background thread that reads from the Gator. `H` is
/// what the thread is joined by.
///
/// Use [`GtrSerialReader::recv_packet`] or [`GtrSerialReader::try_recv_packet`] to
/// receive packets.
pub struct GtrSerialReader<H> {
    packet_rx: Receiver<GtrPacket>,
    stop_signal: StopSignal,
    reader_thread: Option<H>,
}

impl<H> GtrSerialReader<H> {
    /// The channel that packets come from.
    pub closed spec fn channel(&self) -> Receiver<GtrPacket> {
        self.packet_rx
    }

    /// The signal that the background thread watches.
    pub closed spec fn signal(&self) -> Arc<AtomicBool> {
        self.stop_signal.flag()
    }

    /// What this reader has stored in the signal, in order.
    pub closed spec fn stored(&self) -> Seq<bool> {
        self.stop_signal.stored()
    }

    /// What the background thread is joined by, if that is still to be done.
    pub closed spec fn thread(&self) -> Option<H> {
        self.reader_thread
    }

    /// A reader on a background thread that sends to the channel of `packet_rx` and
    /// ends when `stop_signal` is set.
    pub fn new(
        packet_rx: Receiver<GtrPacket>,
        stop_signal: Arc<AtomicBool>,
        reader_thread: H,
    ) -> (r: Self)
        ensures
            r.channel() == packet_rx,
            r.signal() == stop_signal,
            r.thread() == Some(reader_thread),
            r.stored() == Seq::<bool>::empty(),
    {
        GtrSerialReader {
            packet_rx,
            stop_signal: StopSignal::new(stop_signal),
            reader_thread: Some(reader_thread),
        }
    }

    /// Receive the next parsed packet, blocking until available.
    ///
    /// The result is what [`received`] makes of what the channel of this reader gave:
    /// an error, where there is one, says that the channel is closed.
    ///
    /// One receive is made for each call. That there is no second one is not part of
    /// the contract: a receive changes nothing that the contract can speak of.
    pub fn recv_packet(&self) -> (r: Result<GtrPacket, GtrError>)
        ensures
            exists|outcome: Result<GtrPacket, RecvError>| #[trigger]
                recv_gives(self.channel(), outcome) && is_received(outcome, r),
            r matches Err(e) ==> e is ChannelReceive,
    {
        let outcome = recv(&self.packet_rx);
        assert(recv_gives(self.channel(), outcome));
        received(outcome)
    }

    /// Try to receive a packet without blocking.
    ///
    /// The result is what [`try_received`] makes of what the channel of this reader
    /// gave: a packet, nothing, or, where the channel is closed, an error. As with
    /// [`GtrSerialReader::recv_packet`], that one receive is made for each call is not
    /// part of the contract.
    pub fn try_recv_packet(&self) -> (r: Result<Option<GtrPacket>, GtrError>)
        ensures
            exists|outcome: TryReceive| #[trigger]
                try_recv_gives(self.channel(), outcome) && is_try_received(outcome, r),
            r is Err ==> is_thread_error(r, "Reader thread disconnected"@),
    {
        let outcome = try_recv(&self.packet_rx);
        assert(try_recv_gives(self.channel(), outcome));
        try_received(outcome)
    }

    /// Whether the background thread is still to be stopped.
    pub fn is_running(&self) -> (r: bool)
        ensures
            r == (self.thread() is Some),
    {
        self.reader_thread.is_some()
    }

    /// Stop the background thread: sets the stop signal, then waits for the thread
    /// with `join`, which says whether the thread ended without a panic. Once the
    /// thread has been waited for, stopping again only sets the signal again.
    ///
    /// `join` may rely on the signal having been set before it is called. The reader
    /// stores `true` in it once and nothing else, before or after `join`. That the
    /// signal stays set is not part of the contract: whoever else holds it may
    /// change it. Nor is it that no packet is taken from the channel meanwhile.
    pub fn stop<J: FnOnce(H) -> bool>(&mut self, join: J) -> (r: Result<(), GtrError>)
        requires
            old(self).thread() matches Some(handle) ==> (stop_raised(old(self).signal())
                ==> call_requires(join, (handle,))),
        ensures
            final(self).thread() is None,
            final(self).channel() == old(self).channel(),
            final(self).signal() == old(self).signal(),
            stop_raised(old(self).signal()),
            final(self).stored() == old(self).stored().push(true),
            match old(self).thread() {
                Some(handle) => exists|ended: bool| #[trigger]
                    call_ensures(join, (handle,), ended) && (ended ==> r is Ok) && (!ended
                        ==> is_thread_error(r, "Reader thread panicked"@)),
                None => r is Ok,
            },
    {
        self.stop_signal.raise();
        match self.reader_thread.take() {
            Some(handle) => joined(join(handle)),
            None => Ok(()),
        }
    }
}

/// A packet that was received is handed on as it is, and a closed channel is told as
/// such, with the error that the channel gave. No two outcomes give the same result.
pub proof fn law_received_outcome_is_handed_on(
    outcome: Result<GtrPacket, RecvError>,
    other: Result<GtrPacket, RecvError>,
    r: Result<GtrPacket, GtrError>,
)
    requires
        is_received(outcome, r),
    ensures
        r is Ok <==> outcome is Ok,
        r matches Ok(packet) ==> packet == outcome->Ok_0,
        r matches Err(e) ==> e == GtrError::ChannelReceive(outcome->Err_0),
        is_received(other, r) ==> other == outcome,
{
}

/// A packet that was received without blocking is handed on as it is, an empty channel
/// is no error, and a closed one is. No two outcomes give the same result.
pub proof fn law_try_received_outcome_is_handed_on(
    outcome: TryReceive,
    other: TryReceive,
    r: Result<Option<GtrPacket>, GtrError>,
)
    requires
        is_try_received(outcome, r),
    ensures
        r is Err <==> outcome is Disconnected,
        r matches Ok(None) <==> outcome is Empty,
        outcome matches TryReceive::Packet(packet) ==> r == Ok::<Option<GtrPacket>, GtrError>(
            Some(packet),
        ),
        r matches Err(e) ==> (e matches GtrError::ThreadComm(text) && text@
            == "Reader thread disconnected"@),
        is_try_received(other, r) ==> other == outcome,
{
}

/// A thread communication error is an error, says the text, and says no other.
pub proof fn law_thread_error_says_the_text<T>(
    r: Result<T, GtrError>,
    text: Seq<char>,
    other: Seq<char>,
)
    requires
        is_thread_error(r, text),
    ensures
        r matches Err(e) && (e matches GtrError::ThreadComm(m) && m@ == text),
        is_thread_error(r, other) ==> other == text,
{
}

} // verus!
