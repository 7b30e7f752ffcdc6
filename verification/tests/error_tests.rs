use mem_store_rs::error::Error;

#[test]
fn messages() {
    assert_eq!(Error::StoreSetError.to_string(), "unable to set key-value pair");
    assert_eq!(Error::StoreDeleteError.to_string(), "unable to delete key-value pair ");
    assert_eq!(Error::KeyNotFoundError.to_string(), "key not found");
    assert_eq!(Error::InvalidAddr.to_string(), "invalid IP address");
    assert_eq!(Error::UnableToBind.to_string(), "unable to bind to address");
    assert_eq!(Error::UnableToAccept.to_string(), "unable to accept incoming connection");
    assert_eq!(Error::ConnectionTimedOut.to_string(), "connection timed out");
    assert_eq!(Error::UnableToSend.to_string(), "unable to send packet through stream");
    assert_eq!(Error::UnableToReceive.to_string(), "unable to receive packet from stream");
    assert_eq!(Error::PacketBuildError.to_string(), "could not build packet");
    assert_eq!(Error::InvalidStream.to_string(), "invalid stream");
    assert_eq!(Error::UnableToSerialize.to_string(), "unable to serialize packet");
    assert_eq!(Error::UnableToDeserialize.to_string(), "unable to deserialize packet");
    assert_eq!(Error::InvalidPacketFields.to_string(), "invalid packet fields");
    assert_eq!(
        Error::MissingPacketFields.to_string(),
        "one or more packet fields are missing data"
    );
    assert_eq!(Error::UnexpectedPacketType.to_string(), "unexpected packet type");
    assert_eq!(Error::ValueLengthTooLong.to_string(), "value exceeds max length of 4.2GB");
    assert_eq!(Error::InvalidPacketTypeFlag.to_string(), "invalid packet type flag");
    assert_eq!(Error::InvalidPacketLengthFlag.to_string(), "invalid packet length flag");
    assert_eq!(Error::InvalidIncludeFlag.to_string(), "invalid include flag");
    assert_eq!(Error::InvalidKeyField.to_string(), "invalid key field");
    assert_eq!(Error::InvalidValueField.to_string(), "invalid value field");
}

#[test]
fn custom_message() {
    let e = Error::from_string("something broke");
    assert_eq!(e, Error::Custom("something broke".to_string()));
    assert_eq!(e.to_string(), "something broke");
}

#[test]
fn fixed_messages_are_distinct() {
    let all = vec![
        Error::StoreSetError, Error::StoreDeleteError, Error::KeyNotFoundError,
        Error::InvalidAddr, Error::UnableToBind, Error::UnableToAccept, Error::InvalidStream,
        Error::ConnectionTimedOut, Error::UnableToSend, Error::UnableToReceive,
        Error::InvalidPacketFields, Error::PacketBuildError, Error::UnableToSerialize,
        Error::UnableToDeserialize, Error::MissingPacketFields, Error::UnexpectedPacketType,
        Error::ValueLengthTooLong, Error::InvalidPacketTypeFlag, Error::InvalidPacketLengthFlag,
        Error::InvalidIncludeFlag, Error::InvalidKeyField, Error::InvalidValueField,
    ];
    for (i, a) in all.iter().enumerate() {
        for (j, b) in all.iter().enumerate() {
            if i != j {
                assert_ne!(a.to_string(), b.to_string());
            }
        }
    }
}
