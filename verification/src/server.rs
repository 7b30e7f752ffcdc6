//! How the server answers requests. Receiving requests and sending the
//! answers over the network happen outside this module.
use vstd::prelude::*;

use crate::error::{error_message, Error};
use crate::protocol::{Packet, PacketTypeView, PacketView};
use crate::store::{after_add, lookup, ItemView, Store};

verus! {

/// What the server sends back for a request, and how the handling of the
/// request ended.
pub struct Reply {
    pub response: Packet,
    pub outcome: Result<(), Error>,
}

/// The server's state: the store it serves.
pub struct Server {
    store: Store,
}

/// The error response for a request that lacks a field it needs.
pub open spec fn invalid_fields_response() -> PacketView {
    PacketView {
        key: None,
        value: None,
        packet_type: PacketTypeView::ResponseError(error_message(Error::InvalidPacketFields)),
    }
}

/// The error response for a set request whose key is already held.
pub open spec fn set_refused_response() -> PacketView {
    PacketView {
        key: None,
        value: None,
        packet_type: PacketTypeView::ResponseError(error_message(Error::StoreSetError)),
    }
}

/// The answer to a set request that carries both a key and a value: ok
/// where the key was new, an error response where it was already held.
pub open spec fn set_response(m: Map<Seq<char>, ItemView>, k: Seq<char>) -> PacketView {
    if m.contains_key(k) {
        set_refused_response()
    } else {
        PacketView { key: None, value: None, packet_type: PacketTypeView::ResponseOk }
    }
}

impl View for Server {
    type V = Map<Seq<char>, ItemView>;

    closed spec fn view(&self) -> Map<Seq<char>, ItemView> {
        self.store@
    }
}

impl Server {
    /// A server with an empty store.
    pub fn new() -> (s: Server)
        ensures
            s@ == Map::<Seq<char>, ItemView>::empty(),
    {
        Server { store: Store::new() }
    }

    /// The store being served.
    pub fn store(&self) -> (s: &Store)
        ensures
            s@ == self@,
    {
        &self.store
    }

    /// Answers a get request: an ok response carrying the value held under
    /// the key (no value where none is held). A request without a key is
    /// answered with an error response and ends in `InvalidPacketFields`.
    pub fn handle_get(&mut self, request: Packet) -> (r: Reply)
        ensures
            final(self)@ == old(self)@,
            request.key is None ==> r.response@ == invalid_fields_response() && r.outcome
                == Err::<(), Error>(Error::InvalidPacketFields),
            request.key matches Some(k) ==> r.outcome is Ok && r.response@ == (PacketView {
                key: None,
                value: lookup(old(self)@, k@),
                packet_type: PacketTypeView::ResponseOk,
            }),
    {
        let key = match request.key {
            Some(key) => key,
            None => {
                return Reply {
                    response: Packet::error_response(Error::InvalidPacketFields),
                    outcome: Err(Error::InvalidPacketFields),
                };
            },
        };
        let response = match self.store.get(key) {
            Some(value) => Packet {
                key: None,
                value: Some(value.clone()),
                packet_type: crate::protocol::PacketType::ResponseOk,
            },
            None => Packet::ok_response(),
        };
        Reply { response, outcome: Ok(()) }
    }

    /// Answers a set request: adds the value under the key and answers ok; a
    /// key already held keeps its value and is answered with a
    /// `StoreSetError` response. A request without a key or
    /// without a value is answered with an error response, ends in
    /// `InvalidPacketFields`, and leaves the store as it is.
    pub fn handle_set(&mut self, request: Packet) -> (r: Reply)
        ensures
            (request.key is Some && request.value is Some) ==> {
                &&& final(self)@ == after_add(old(self)@, request.key->0@, request.value->0@)
                &&& r.outcome is Ok
                &&& r.response@ == set_response(old(self)@, request.key->0@)
            },
            (request.key is None || request.value is None) ==> {
                &&& final(self)@ == old(self)@
                &&& r.outcome == Err::<(), Error>(Error::InvalidPacketFields)
                &&& r.response@ == invalid_fields_response()
            },
    {
        let (key, value) = match (request.key, request.value) {
            (Some(key), Some(value)) => (key, value),
            _ => {
                return Reply {
                    response: Packet::error_response(Error::InvalidPacketFields),
                    outcome: Err(Error::InvalidPacketFields),
                };
            },
        };
        let response = match self.store.add(key, value) {
            Ok(_) => Packet::ok_response(),
            Err(_) => Packet::error_response(Error::StoreSetError),
        };
        Reply { response, outcome: Ok(()) }
    }

    /// Answers a get or a set request (other requests are not handled).
    pub fn handle_req(&mut self, request: Packet) -> (r: Reply)
        requires
            request.packet_type@ is RequestGet || request.packet_type@ is RequestSet,
        ensures
            request.packet_type@ is RequestGet ==> {
                &&& final(self)@ == old(self)@
                &&& request.key is None ==> r.response@ == invalid_fields_response()
                    && r.outcome == Err::<(), Error>(Error::InvalidPacketFields)
                &&& request.key matches Some(k) ==> r.outcome is Ok && r.response@ == (
                PacketView {
                    key: None,
                    value: lookup(old(self)@, k@),
                    packet_type: PacketTypeView::ResponseOk,
                })
            },
            request.packet_type@ is RequestSet ==> {
                &&& (request.key is Some && request.value is Some) ==> {
                    &&& final(self)@ == after_add(old(self)@, request.key->0@, request.value->0@)
                    &&& r.outcome is Ok
                    &&& r.response@ == set_response(old(self)@, request.key->0@)
                }
                &&& (request.key is None || request.value is None) ==> {
                    &&& final(self)@ == old(self)@
                    &&& r.outcome == Err::<(), Error>(Error::InvalidPacketFields)
                    &&& r.response@ == invalid_fields_response()
                }
            },
    {
        match request.packet_type {
            crate::protocol::PacketType::RequestGet => self.handle_get(request),
            _ => self.handle_set(request),
        }
    }
}

/// What last happened in the server's accept-and-serve loop.
pub enum ListenEvent {
    /// A connection was accepted.
    Accepted,
    /// Accepting a connection failed.
    AcceptFailed,
    /// A request on the current connection was handled, with this outcome.
    Handled(Result<(), Error>),
}

/// What the accept-and-serve loop does next.
#[derive(Debug, PartialEq, Eq)]
pub enum ListenAction {
    /// Handle the next request on the current connection.
    ServeNext,
    /// Drop the current connection and accept the next one.
    AcceptNext,
    /// Stop listening with this error.
    Stop(Error),
}

/// The next step of the accept-and-serve loop: serve a connection once it
/// is accepted and for as long as its requests are handled; go back to
/// accepting when handling a request fails; stop with `UnableToAccept` when
/// accepting fails.
pub fn listen_step(event: ListenEvent) -> (a: ListenAction)
    ensures
        event is Accepted ==> a is ServeNext,
        event is AcceptFailed ==> a == ListenAction::Stop(Error::UnableToAccept),
        event matches ListenEvent::Handled(r) ==> (r is Ok ==> a is ServeNext) && (r is Err
            ==> a is AcceptNext),
{
    match event {
        ListenEvent::Accepted => ListenAction::ServeNext,
        ListenEvent::AcceptFailed => ListenAction::Stop(Error::UnableToAccept),
        ListenEvent::Handled(Ok(_)) => ListenAction::ServeNext,
        ListenEvent::Handled(Err(_)) => ListenAction::AcceptNext,
    }
}

} // verus!
