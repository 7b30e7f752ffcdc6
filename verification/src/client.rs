//! How the client reads the server's answers. Sending requests and
//! receiving answers over the network happen outside this module.
use vstd::prelude::*;

use crate::error::Error;
use crate::protocol::{Packet, PacketType, PacketTypeView};

verus! {

/// The outcome of a set or delete request, read from the server's response:
/// success for an ok response, the server's message for an error response,
/// and `UnexpectedPacketType` for any other packet.
pub fn acknowledgement(response: Packet) -> (r: Result<(), Error>)
    ensures
        response.packet_type@ is ResponseOk ==> r is Ok,
        response.packet_type@ matches PacketTypeView::ResponseError(m) ==> r matches Err(
            Error::Custom(e),
        ) && e@ == m,
        !(response.packet_type@ is ResponseOk || response.packet_type@ is ResponseError) ==> r
            == Err::<(), Error>(Error::UnexpectedPacketType),
{
    match response.packet_type {
        PacketType::ResponseOk => Ok(()),
        PacketType::ResponseError(e) => Err(Error::Custom(e)),
        _ => Err(Error::UnexpectedPacketType),
    }
}

} // verus!
