use mem_store_rs::api::{delete_key, get_key, post_key, INTERNAL_SERVER_ERROR, NOT_FOUND};
use mem_store_rs::client::acknowledgement;
use mem_store_rs::error::Error;
use mem_store_rs::protocol::{Packet, PacketType};
use mem_store_rs::server::{listen_step, ListenAction, ListenEvent, Server};
use mem_store_rs::collections::{StringMap, StringSet};
use mem_store_rs::store::{Item, Store};

fn s(x: &str) -> String {
    x.to_string()
}

#[test]
fn server_set_then_get() {
    let mut server = Server::new();
    let value = Item::from_string(s("a,b,c"));
    let reply = server.handle_req(Packet::set_request(s("my_list"), value.clone()));
    assert_eq!(reply.response, Packet::ok_response());
    assert_eq!(reply.outcome, Ok(()));
    let reply = server.handle_req(Packet::get_request(s("my_list")));
    assert_eq!(reply.outcome, Ok(()));
    assert_eq!(
        reply.response,
        Packet { key: None, value: Some(value), packet_type: PacketType::ResponseOk }
    );
}

#[test]
fn server_get_missing_key() {
    let mut server = Server::new();
    let reply = server.handle_get(Packet::get_request(s("nope")));
    assert_eq!(reply.response, Packet::ok_response());
    assert_eq!(reply.outcome, Ok(()));
}

#[test]
fn server_get_without_key() {
    let mut server = Server::new();
    let reply = server.handle_get(Packet { key: None, value: None, packet_type: PacketType::RequestGet });
    assert_eq!(reply.response, Packet::error_response(Error::InvalidPacketFields));
    assert_eq!(reply.outcome, Err(Error::InvalidPacketFields));
}

#[test]
fn server_set_without_value() {
    let mut server = Server::new();
    let reply = server.handle_set(Packet {
        key: Some(s("k")),
        value: None,
        packet_type: PacketType::RequestSet,
    });
    assert_eq!(reply.response, Packet::error_response(Error::InvalidPacketFields));
    assert_eq!(reply.outcome, Err(Error::InvalidPacketFields));
    assert!(server.store().get(s("k")).is_none());
}

#[test]
fn server_set_keeps_first_value() {
    let mut server = Server::new();
    server.handle_set(Packet::set_request(s("k"), Item::String(s("1"))));
    let reply = server.handle_set(Packet::set_request(s("k"), Item::String(s("2"))));
    assert_eq!(reply.response, Packet::error_response(Error::StoreSetError));
    assert_eq!(reply.outcome, Ok(()));
    assert_eq!(server.store().get(s("k")), Some(&Item::String(s("1"))));
}

#[test]
fn client_acknowledgement() {
    assert_eq!(acknowledgement(Packet::ok_response()), Ok(()));
    assert_eq!(
        acknowledgement(Packet::error_response(Error::StoreSetError)),
        Err(Error::Custom(s("unable to set key-value pair")))
    );
    assert_eq!(
        acknowledgement(Packet::get_request(s("k"))),
        Err(Error::UnexpectedPacketType)
    );
}

#[test]
fn http_get_post_delete() {
    let mut store = Store::new();
    assert_eq!(get_key(&store, s("k")), Err(NOT_FOUND));
    assert_eq!(post_key(&mut store, s("k"), s("x:1,y:2")), Ok(()));
    assert_eq!(post_key(&mut store, s("k"), s("other")), Err(INTERNAL_SERVER_ERROR));
    assert_eq!(get_key(&store, s("k")), Ok(s("x:1,y:2")));
    assert_eq!(
        store.get(s("k")),
        Some(&Item::HashMap(StringMap::from_vec(vec![(s("x"), s("1")), (s("y"), s("2"))])))
    );
    assert_eq!(delete_key(&mut store, s("k")), Ok(()));
    assert_eq!(delete_key(&mut store, s("k")), Err(NOT_FOUND));
    assert_eq!(get_key(&store, s("k")), Err(NOT_FOUND));
}

#[test]
fn listen_steps() {
    assert_eq!(listen_step(ListenEvent::Accepted), ListenAction::ServeNext);
    assert_eq!(listen_step(ListenEvent::Handled(Ok(()))), ListenAction::ServeNext);
    assert_eq!(
        listen_step(ListenEvent::Handled(Err(Error::UnableToReceive))),
        ListenAction::AcceptNext
    );
    assert_eq!(
        listen_step(ListenEvent::AcceptFailed),
        ListenAction::Stop(Error::UnableToAccept)
    );
}

#[test]
fn client_delete_request_is_typed_delete() {
    assert_eq!(Packet::delete_request(s("k")).packet_type, PacketType::RequestDelete);
}
