//! The errors of the library.

use crossbeam_channel::RecvError;
use vstd::prelude::*;
use vstd::string::StringExecFns;

verus! {

/// Declares `serialport::Error`, an opaque value that [`GtrError::Serial`] carries.
#[verifier::external_type_specification]
#[verifier::external_body]
pub struct ExSerialPortError(serialport::Error);

/// Declares `std::io::Error`, an opaque value that [`GtrError::Io`] carries.
#[verifier::external_type_specification]
#[verifier::external_body]
pub struct ExIoError(std::io::Error);

/// Declares `crossbeam_channel::RecvError`, an opaque value that
/// [`GtrError::ChannelReceive`] carries.
#[verifier::external_type_specification]
#[verifier::external_body]
pub struct ExRecvError(RecvError);

/// Errors that can occur when communicating with the Gator.
#[derive(Debug)]
pub enum GtrError {
    /// The serial port could not be opened or configured.
    Serial(serialport::Error),
    /// Reading bytes failed.
    Io(std::io::Error),
    /// Bytes that do not form a packet.
    Parse(String),
    /// A packet was dropped because it could not be sent.
    ChannelSend,
    /// The packet channel is closed.
    ChannelReceive(RecvError),
    /// Synchronization with the byte stream was lost.
    SyncLost,
    /// The reader thread is gone or panicked.
    ThreadComm(String),
}

/// Whether `text` is `lead` followed by what `cause` displays as.
pub open spec fn is_text_of<E: core::fmt::Display>(
    text: Seq<char>,
    lead: Seq<char>,
    cause: E,
) -> bool {
    exists|shown: String| #[trigger]
        vstd::string::to_string_from_display_ensures::<E>(&cause, shown) && text == lead + shown@
}

impl GtrError {
    /// The error in words.
    pub fn message(&self) -> (r: String)
        ensures
            match *self {
                GtrError::Serial(e) => is_text_of(r@, "Serial port error: "@, e),
                GtrError::Io(e) => is_text_of(r@, "I/O error: "@, e),
                GtrError::Parse(text) => r@ == "Parse error: "@ + text@,
                GtrError::ChannelSend => r@ == "Channel send error: Packet dropped"@,
                GtrError::ChannelReceive(e) => is_text_of(r@, "Channel receive error: "@, e),
                GtrError::SyncLost => r@ == "Synchronization lost"@,
                GtrError::ThreadComm(text) => r@ == "Thread communication error: "@ + text@,
            },
    {
        match self {
            GtrError::Serial(e) => "Serial port error: ".to_string().concat(e.to_string().as_str()),
            GtrError::Io(e) => "I/O error: ".to_string().concat(e.to_string().as_str()),
            GtrError::Parse(text) => "Parse error: ".to_string().concat(text.as_str()),
            GtrError::ChannelSend => "Channel send error: Packet dropped".to_string(),
            GtrError::ChannelReceive(e) => "Channel receive error: ".to_string().concat(
                e.to_string().as_str(),
            ),
            GtrError::SyncLost => "Synchronization lost".to_string(),
            GtrError::ThreadComm(text) => "Thread communication error: ".to_string().concat(
                text.as_str(),
            ),
        }
    }
}

impl From<serialport::Error> for GtrError {
    fn from(e: serialport::Error) -> (r: Self) {
        GtrError::Serial(e)
    }
}

impl vstd::std_specs::convert::FromSpecImpl<serialport::Error> for GtrError {
    open spec fn obeys_from_spec() -> bool {
        true
    }

    open spec fn from_spec(e: serialport::Error) -> Self {
        GtrError::Serial(e)
    }
}

impl From<std::io::Error> for GtrError {
    fn from(e: std::io::Error) -> (r: Self) {
        GtrError::Io(e)
    }
}

impl vstd::std_specs::convert::FromSpecImpl<std::io::Error> for GtrError {
    open spec fn obeys_from_spec() -> bool {
        true
    }

    open spec fn from_spec(e: std::io::Error) -> Self {
        GtrError::Io(e)
    }
}

impl From<RecvError> for GtrError {
    fn from(e: RecvError) -> (r: Self) {
        GtrError::ChannelReceive(e)
    }
}

impl vstd::std_specs::convert::FromSpecImpl<RecvError> for GtrError {
    open spec fn obeys_from_spec() -> bool {
        true
    }

    open spec fn from_spec(e: RecvError) -> Self {
        GtrError::ChannelReceive(e)
    }
}

/// A text that names a cause starts with its lead, and behind it stands what the cause
/// displays as.
pub proof fn law_text_names_the_cause<E: core::fmt::Display>(
    text: Seq<char>,
    lead: Seq<char>,
    cause: E,
) -> (shown: String)
    requires
        is_text_of(text, lead, cause),
    ensures
        vstd::string::to_string_from_display_ensures::<E>(&cause, shown),
        text.len() == lead.len() + shown@.len(),
        text.take(lead.len() as int) == lead,
        text.skip(lead.len() as int) == shown@,
{
    let shown = choose|shown: String| #[trigger]
        vstd::string::to_string_from_display_ensures::<E>(&cause, shown) && text == lead + shown@;
    assert((lead + shown@).take(lead.len() as int) =~= lead);
    assert((lead + shown@).skip(lead.len() as int) =~= shown@);
    shown
}

} // verus!
