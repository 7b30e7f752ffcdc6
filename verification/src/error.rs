use vstd::prelude::*;

verus! {

/// Everything that can go wrong in the store, on the network, or while
/// encoding and decoding packets.
#[derive(Debug, Clone, PartialEq, Eq)]
pub enum Error {
    // Store
    StoreSetError,
    StoreDeleteError,
    KeyNotFoundError,
    // Networking
    InvalidAddr,
    UnableToBind,
    UnableToAccept,
    InvalidStream,
    ConnectionTimedOut,
    UnableToSend,
    UnableToReceive,
    // Packet
    InvalidPacketFields,
    PacketBuildError,
    UnableToSerialize,
    UnableToDeserialize,
    MissingPacketFields,
    UnexpectedPacketType,
    ValueLengthTooLong,
    InvalidPacketTypeFlag,
    InvalidPacketLengthFlag,
    InvalidIncludeFlag,
    InvalidKeyField,
    InvalidValueField,
    Custom(String),
}

/// The human-readable message of each error.
pub open spec fn error_message(e: Error) -> Seq<char> {
    match e {
        Error::StoreSetError => "unable to set key-value pair"@,
        Error::StoreDeleteError => "unable to delete key-value pair "@,
        Error::KeyNotFoundError => "key not found"@,
        Error::InvalidAddr => "invalid IP address"@,
        Error::UnableToBind => "unable to bind to address"@,
        Error::UnableToAccept => "unable to accept incoming connection"@,
        Error::ConnectionTimedOut => "connection timed out"@,
        Error::UnableToSend => "unable to send packet through stream"@,
        Error::UnableToReceive => "unable to receive packet from stream"@,
        Error::PacketBuildError => "could not build packet"@,
        Error::InvalidStream => "invalid stream"@,
        Error::UnableToSerialize => "unable to serialize packet"@,
        Error::UnableToDeserialize => "unable to deserialize packet"@,
        Error::InvalidPacketFields => "invalid packet fields"@,
        Error::MissingPacketFields => "one or more packet fields are missing data"@,
        Error::UnexpectedPacketType => "unexpected packet type"@,
        Error::ValueLengthTooLong => "value exceeds max length of 4.2GB"@,
        Error::InvalidPacketTypeFlag => "invalid packet type flag"@,
        Error::InvalidPacketLengthFlag => "invalid packet length flag"@,
        Error::InvalidIncludeFlag => "invalid include flag"@,
        Error::InvalidKeyField => "invalid key field"@,
        Error::InvalidValueField => "invalid value field"@,
        Error::Custom(msg) => msg@,
    }
}

/// The length of each fixed message.
spec fn message_length(e: Error) -> nat {
    match e {
        Error::StoreSetError => 28,
        Error::StoreDeleteError => 32,
        Error::KeyNotFoundError => 13,
        Error::InvalidAddr => 18,
        Error::UnableToBind => 25,
        Error::UnableToAccept => 36,
        Error::ConnectionTimedOut => 20,
        Error::UnableToSend => 36,
        Error::UnableToReceive => 36,
        Error::PacketBuildError => 22,
        Error::InvalidStream => 14,
        Error::UnableToSerialize => 26,
        Error::UnableToDeserialize => 28,
        Error::InvalidPacketFields => 21,
        Error::MissingPacketFields => 42,
        Error::UnexpectedPacketType => 22,
        Error::ValueLengthTooLong => 33,
        Error::InvalidPacketTypeFlag => 24,
        Error::InvalidPacketLengthFlag => 26,
        Error::InvalidIncludeFlag => 20,
        Error::InvalidKeyField => 17,
        Error::InvalidValueField => 19,
        Error::Custom(msg) => msg@.len(),
    }
}

/// The eleventh character of each fixed message.
spec fn message_mark(e: Error) -> char {
    match e {
        Error::StoreSetError => 's',
        Error::StoreDeleteError => 'd',
        Error::KeyNotFoundError => 'u',
        Error::InvalidAddr => ' ',
        Error::UnableToBind => 'b',
        Error::UnableToAccept => 'a',
        Error::ConnectionTimedOut => ' ',
        Error::UnableToSend => 's',
        Error::UnableToReceive => 'r',
        Error::PacketBuildError => 'b',
        Error::InvalidStream => 'r',
        Error::UnableToSerialize => 's',
        Error::UnableToDeserialize => 'd',
        Error::InvalidPacketFields => 'c',
        Error::MissingPacketFields => 'e',
        Error::UnexpectedPacketType => ' ',
        Error::ValueLengthTooLong => 'e',
        Error::InvalidPacketTypeFlag => 'c',
        Error::InvalidPacketLengthFlag => 'c',
        Error::InvalidIncludeFlag => 'c',
        Error::InvalidKeyField => 'y',
        Error::InvalidValueField => 'l',
        Error::Custom(msg) => msg@[10],
    }
}

/// The length and eleventh character of each fixed message.
proof fn lemma_message_shape(e: Error)
    ensures
        error_message(e).len() == message_length(e),
        error_message(e)[10] == message_mark(e),
{
    match e {
        Error::StoreSetError => {
            reveal_strlit("unable to set key-value pair");
        },
        Error::StoreDeleteError => {
            reveal_strlit("unable to delete key-value pair ");
        },
        Error::KeyNotFoundError => {
            reveal_strlit("key not found");
        },
        Error::InvalidAddr => {
            reveal_strlit("invalid IP address");
        },
        Error::UnableToBind => {
            reveal_strlit("unable to bind to address");
        },
        Error::UnableToAccept => {
            reveal_strlit("unable to accept incoming connection");
        },
        Error::ConnectionTimedOut => {
            reveal_strlit("connection timed out");
        },
        Error::UnableToSend => {
            reveal_strlit("unable to send packet through stream");
        },
        Error::UnableToReceive => {
            reveal_strlit("unable to receive packet from stream");
        },
        Error::PacketBuildError => {
            reveal_strlit("could not build packet");
        },
        Error::InvalidStream => {
            reveal_strlit("invalid stream");
        },
        Error::UnableToSerialize => {
            reveal_strlit("unable to serialize packet");
        },
        Error::UnableToDeserialize => {
            reveal_strlit("unable to deserialize packet");
        },
        Error::InvalidPacketFields => {
            reveal_strlit("invalid packet fields");
        },
        Error::MissingPacketFields => {
            reveal_strlit("one or more packet fields are missing data");
        },
        Error::UnexpectedPacketType => {
            reveal_strlit("unexpected packet type");
        },
        Error::ValueLengthTooLong => {
            reveal_strlit("value exceeds max length of 4.2GB");
        },
        Error::InvalidPacketTypeFlag => {
            reveal_strlit("invalid packet type flag");
        },
        Error::InvalidPacketLengthFlag => {
            reveal_strlit("invalid packet length flag");
        },
        Error::InvalidIncludeFlag => {
            reveal_strlit("invalid include flag");
        },
        Error::InvalidKeyField => {
            reveal_strlit("invalid key field");
        },
        Error::InvalidValueField => {
            reveal_strlit("invalid value field");
        },
        Error::Custom(_) => {},
    }
}

/// Different errors other than `Custom` have different messages.
pub proof fn law_messages_distinct(e1: Error, e2: Error)
    requires
        !(e1 is Custom),
        !(e2 is Custom),
        e1 != e2,
    ensures
        error_message(e1) != error_message(e2),
{
    lemma_message_shape(e1);
    lemma_message_shape(e2);
}

impl Error {
    /// An error that carries its own message.
    pub fn from_string(message: &str) -> (e: Error)
        ensures
            e matches Error::Custom(m) && m@ == message@,
    {
        Error::Custom(String::from_str(message))
    }

    /// The message that describes this error.
    pub fn to_string(&self) -> (s: String)
        ensures
            s@ == error_message(*self),
    {
        match self {
            Error::StoreSetError => String::from_str("unable to set key-value pair"),
            Error::StoreDeleteError => String::from_str("unable to delete key-value pair "),
            Error::KeyNotFoundError => String::from_str("key not found"),
            Error::InvalidAddr => String::from_str("invalid IP address"),
            Error::UnableToBind => String::from_str("unable to bind to address"),
            Error::UnableToAccept => String::from_str("unable to accept incoming connection"),
            Error::ConnectionTimedOut => String::from_str("connection timed out"),
            Error::UnableToSend => String::from_str("unable to send packet through stream"),
            Error::UnableToReceive => String::from_str("unable to receive packet from stream"),
            Error::PacketBuildError => String::from_str("could not build packet"),
            Error::InvalidStream => String::from_str("invalid stream"),
            Error::UnableToSerialize => String::from_str("unable to serialize packet"),
            Error::UnableToDeserialize => String::from_str("unable to deserialize packet"),
            Error::InvalidPacketFields => String::from_str("invalid packet fields"),
            Error::MissingPacketFields => String::from_str(
                "one or more packet fields are missing data",
            ),
            Error::UnexpectedPacketType => String::from_str("unexpected packet type"),
            Error::ValueLengthTooLong => String::from_str("value exceeds max length of 4.2GB"),
            Error::InvalidPacketTypeFlag => String::from_str("invalid packet type flag"),
            Error::InvalidPacketLengthFlag => String::from_str("invalid packet length flag"),
            Error::InvalidIncludeFlag => String::from_str("invalid include flag"),
            Error::InvalidKeyField => String::from_str("invalid key field"),
            Error::InvalidValueField => String::from_str("invalid value field"),
            Error::Custom(msg) => msg.clone(),
        }
    }
}

} // verus!
