use mem_store_rs::error::Error;
use mem_store_rs::protocol::{encode_frame, frame_length, Packet, PacketType};
use mem_store_rs::collections::{StringMap, StringSet};
use mem_store_rs::store::Item;

fn s(x: &str) -> String {
    x.to_string()
}

#[test]
fn tags() {
    assert_eq!(PacketType::RequestGet.to_tag(), b'<');
    assert_eq!(PacketType::RequestSet.to_tag(), b'>');
    assert_eq!(PacketType::RequestDelete.to_tag(), b'-');
    assert_eq!(PacketType::ResponseOk.to_tag(), b'$');
    assert_eq!(PacketType::ResponseError(s("x")).to_tag(), b'&');
}

#[test]
fn constructors() {
    assert_eq!(
        Packet::ok_response(),
        Packet { key: None, value: None, packet_type: PacketType::ResponseOk }
    );
    assert_eq!(
        Packet::error_response(Error::KeyNotFoundError),
        Packet { key: None, value: None, packet_type: PacketType::ResponseError(s("key not found")) }
    );
    assert_eq!(
        Packet::get_request(s("k")),
        Packet { key: Some(s("k")), value: None, packet_type: PacketType::RequestGet }
    );
    assert_eq!(
        Packet::set_request(s("k"), Item::String(s("v"))),
        Packet {
            key: Some(s("k")),
            value: Some(Item::String(s("v"))),
            packet_type: PacketType::RequestSet
        }
    );
    assert_eq!(
        Packet::delete_request(s("k")),
        Packet { key: Some(s("k")), value: None, packet_type: PacketType::RequestDelete }
    );
    assert_eq!(Packet::default(), Packet::ok_response());
    assert_eq!(PacketType::default(), PacketType::ResponseOk);
}

#[test]
fn get_request_bytes() {
    let bytes = Packet::get_request(s("hello")).serialize().unwrap();
    assert_eq!(bytes, vec![b'<', 1, 0, 0, 5, b'h', b'e', b'l', b'l', b'o']);
}

#[test]
fn set_request_bytes() {
    let bytes = Packet::set_request(s("k"), Item::List(vec![s("a"), s("b")])).serialize().unwrap();
    assert_eq!(bytes, vec![b'>', 1, 1, 0, 1, b'k', 0, 0, 0, 3, b'a', b',', b'b']);
}

#[test]
fn ok_response_bytes() {
    assert_eq!(Packet::ok_response().serialize().unwrap(), vec![b'$', 0, 0]);
}

#[test]
fn error_response_bytes() {
    let bytes = Packet::error_response(Error::Custom(s("bad"))).serialize().unwrap();
    assert_eq!(bytes, vec![b'&', 0, 3, b'b', b'a', b'd']);
}

#[test]
fn key_goes_out_as_utf8() {
    let bytes = Packet::get_request(s("é")).serialize().unwrap();
    assert_eq!(bytes, vec![b'<', 1, 0, 0, 2, 0xC3, 0xA9]);
}

#[test]
fn long_key_length_is_big_endian() {
    let key = "x".repeat(300);
    let bytes = Packet::get_request(key).serialize().unwrap();
    assert_eq!(&bytes[..5], &[b'<', 1, 0, 1, 44]);
    assert_eq!(bytes.len(), 305);
}

#[test]
fn roundtrip_set_request() {
    let p = Packet::set_request(s("my_list"), Item::from_string(s("a,b,c")));
    let back = Packet::deserialize(&p.serialize().unwrap()).unwrap();
    assert_eq!(back, p);
}

#[test]
fn roundtrip_each_kind() {
    let packets = vec![
        Packet::get_request(s("k")),
        Packet::ok_response(),
        Packet { key: None, value: Some(Item::HashSet(StringSet::from_vec(vec![s("x"), s("y")]))), packet_type: PacketType::ResponseOk },
        Packet {
            key: Some(s("m")),
            value: Some(Item::HashMap(StringMap::from_vec(vec![(s("a"), s("1")), (s("b"), s("2"))]))),
            packet_type: PacketType::RequestSet,
        },
        Packet { key: Some(s("d")), value: None, packet_type: PacketType::RequestDelete },
        Packet::error_response(Error::InvalidPacketFields),
    ];
    for p in packets {
        let back = Packet::deserialize(&p.serialize().unwrap()).unwrap();
        assert_eq!(back, p);
    }
}

#[test]
fn error_response_drops_key_and_value() {
    let p = Packet {
        key: Some(s("k")),
        value: Some(Item::String(s("v"))),
        packet_type: PacketType::ResponseError(s("oops")),
    };
    let back = Packet::deserialize(&p.serialize().unwrap()).unwrap();
    assert_eq!(back, Packet::error_response(Error::Custom(s("oops"))));
}

#[test]
fn value_reads_back_through_its_text() {
    let p = Packet::set_request(s("k"), Item::List(vec![s("only")]));
    let back = Packet::deserialize(&p.serialize().unwrap()).unwrap();
    assert_eq!(back.value, Some(Item::String(s("only"))));
}

#[test]
fn bytes_read_back_one_char_each() {
    let back = Packet::deserialize(&[b'<', 1, 0, 0, 2, 0xC3, 0xA9]).unwrap();
    assert_eq!(back.key, Some(s("\u{c3}\u{a9}")));
}

#[test]
fn trailing_bytes_are_ignored() {
    let back = Packet::deserialize(&[b'$', 0, 0, 9, 9]).unwrap();
    assert_eq!(back, Packet::ok_response());
}

#[test]
fn deserialize_failures() {
    let bad: Vec<Vec<u8>> = vec![
        vec![],
        vec![0x60, 0, 0],
        vec![b'+', 0, 0],
        vec![b'<'],
        vec![b'<', 1],
        vec![b'<', 2, 0],
        vec![b'<', 0, 7],
        vec![b'<', 1, 0, 0],
        vec![b'<', 1, 0, 0, 3, b'a'],
        vec![b'>', 0, 1, 0, 0, 0],
        vec![b'>', 0, 1, 0, 0, 0, 2, b'a'],
        vec![b'&', 0],
        vec![b'&', 0, 2, b'a'],
    ];
    for b in bad {
        assert_eq!(Packet::deserialize(&b), Err(Error::UnableToDeserialize));
    }
}

#[test]
fn frame_has_length_prefix() {
    let frame = encode_frame(&Packet::ok_response()).unwrap();
    assert_eq!(frame, vec![0, 0, 0, 3, b'$', 0, 0]);
    assert_eq!(frame_length([0, 0, 0, 3]), 3);
    assert_eq!(frame_length([1, 2, 3, 4]), 0x01020304);
}

#[test]
fn packet_clone() {
    let p = Packet::set_request(s("k"), Item::String(s("v")));
    assert_eq!(p.clone(), p);
    let t = PacketType::ResponseError(s("e"));
    assert_eq!(t.clone(), t);
}

#[test]
fn documented_get_example() {
    let back = Packet::deserialize(&[b'<', 1, 0, 0, 5, b'h', b'e', b'l', b'l', b'o']).unwrap();
    assert_eq!(back, Packet::get_request(s("hello")));
    let back = Packet::deserialize(&[b'&', 0, 2, b'h', b'i']).unwrap();
    assert_eq!(back, Packet::error_response(Error::Custom(s("hi"))));
    let back = Packet::deserialize(&[b'>', 1, 1, 0, 1, b'k', 0, 0, 0, 1, b'v']).unwrap();
    assert_eq!(back, Packet::set_request(s("k"), Item::String(s("v"))));
}

#[test]
fn error_response_key_not_found_bytes() {
    let mut expected = vec![b'&', 0, 13];
    expected.extend_from_slice(b"key not found");
    assert_eq!(Packet::error_response(Error::KeyNotFoundError).serialize().unwrap(), expected);
}

#[test]
fn frame_reads_back() {
    let p = Packet::set_request(s("k"), Item::String(s("v")));
    let frame = encode_frame(&p).unwrap();
    let n = frame_length([frame[0], frame[1], frame[2], frame[3]]);
    assert_eq!(n, frame.len() - 4);
    assert_eq!(Packet::deserialize(&frame[4..4 + n]).unwrap(), p);
}

#[test]
fn every_strict_prefix_is_rejected() {
    let packets = vec![
        Packet::set_request(s("key"), Item::from_string(s("a,b"))),
        Packet::get_request(s("k")),
        Packet::error_response(Error::KeyNotFoundError),
        Packet::ok_response(),
    ];
    for p in packets {
        let bytes = p.serialize().unwrap();
        for n in 0..bytes.len() {
            assert_eq!(Packet::deserialize(&bytes[..n]), Err(Error::UnableToDeserialize));
        }
    }
}
