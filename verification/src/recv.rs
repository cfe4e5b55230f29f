//! What incoming packets mean for sending.

use crate::model::TransportModel;
use crate::octets::{bytes_contents, ReadError};
use crate::packet::{parse_packet, Packet, PacketHeader};
use crate::transport::Transport;
use crate::wire::FragItem;
use octs::Bytes;
use vstd::prelude::*;

verus! {

/// What an incoming packet of these bytes makes of a transport. One that can't
/// be read changes nothing.
pub open spec fn received(t: TransportModel, packet: Seq<u8>) -> TransportModel {
    match parse_packet(packet) {
        Ok((header, frags)) => TransportModel { owe_ack: t.owe_ack || frags.len() > 0, ..t },
        Err(e) => t,
    }
}

/// Takes note of an incoming packet. If it bears fragments, we owe the peer an
/// acknowledgement. A header alone does not make us owe one, as two idle peers
/// would acknowledge each other's acknowledgements forever otherwise.
pub fn recv_on(transport: &mut Transport, packet: Bytes) -> (r: Result<(), ReadError>)
    ensures
        final(transport)@ == received(old(transport)@, bytes_contents(packet)),
        match r {
            Ok(()) => parse_packet(bytes_contents(packet)) is Ok,
            Err(e) => parse_packet(bytes_contents(packet)) == Err::<
                (PacketHeader, Seq<FragItem>),
                ReadError,
            >(e),
        },
{
    match Packet::decode(packet) {
        Ok(packet) => {
            if packet.frags.len() > 0 {
                transport.owe_ack = true;
            }
            Ok(())
        },
        Err(e) => Err(e),
    }
}

}
