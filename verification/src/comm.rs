//! The one-byte control protocol that clients and the server exchange next to the frame data.

use vstd::prelude::*;

verus! {

/// A control message, as carried by a one-byte datagram.
#[derive(Clone, Copy, Debug, PartialEq, Eq, Structural)]
pub enum Actions {
    /// Keepalive from a client; it changes nothing.
    Ping,
    /// A client announces itself.
    NewConnection,
    /// A client announces that it leaves.
    Disconnection,
    /// A client asks for a frame.
    RequestFrame,
    /// A plain acknowledgement.
    GeneralOk,
    /// Any byte that names no message; the byte is kept.
    Unknown(u8),
}

impl Actions {
    /// The message that a wire byte stands for.
    pub open spec fn decode(value: u8) -> Actions {
        if value == 1 {
            Actions::Ping
        } else if value == 2 {
            Actions::NewConnection
        } else if value == 3 {
            Actions::Disconnection
        } else if value == 4 {
            Actions::RequestFrame
        } else if value == 5 {
            Actions::GeneralOk
        } else {
            Actions::Unknown(value)
        }
    }

    /// The wire byte of a message.
    pub open spec fn wire_byte(self) -> u8 {
        match self {
            Actions::Ping => 1,
            Actions::NewConnection => 2,
            Actions::Disconnection => 3,
            Actions::RequestFrame => 4,
            Actions::GeneralOk => 5,
            Actions::Unknown(value) => value,
        }
    }

    /// Encodes the message as its wire byte.
    pub fn to_byte(&self) -> (value: u8)
        ensures
            value == self.wire_byte(),
    {
        match self {
            Actions::Ping => 1,
            Actions::NewConnection => 2,
            Actions::Disconnection => 3,
            Actions::RequestFrame => 4,
            Actions::GeneralOk => 5,
            Actions::Unknown(value) => *value,
        }
    }
}

impl From<u8> for Actions {
    fn from(value: u8) -> (action: Actions) {
        match value {
            1 => Actions::Ping,
            2 => Actions::NewConnection,
            3 => Actions::Disconnection,
            4 => Actions::RequestFrame,
            5 => Actions::GeneralOk,
            _ => Actions::Unknown(value),
        }
    }
}

impl vstd::std_specs::convert::FromSpecImpl<u8> for Actions {
    open spec fn obeys_from_spec() -> bool {
        true
    }

    open spec fn from_spec(value: u8) -> Actions {
        Actions::decode(value)
    }
}

/// Decoding the wire byte of a message gives the message back, unless the message is an
/// `Unknown` that holds the byte of a known message.
pub proof fn lemma_decode_wire_byte(action: Actions)
    requires
        action matches Actions::Unknown(value) ==> !(1 <= value <= 5),
    ensures
        Actions::decode(action.wire_byte()) == action,
{
}

/// Encoding the message that a byte stands for gives the byte back.
pub proof fn lemma_wire_byte_decode(value: u8)
    ensures
        Actions::decode(value).wire_byte() == value,
{
}

} // verus!
