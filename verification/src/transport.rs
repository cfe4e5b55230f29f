//! State of a transport, and the keys by which its parts are found.

use crate::lane::{LaneIndex, LaneKind};
use crate::limit::min_nat;
use crate::model::{new_send, FlushedModel, TransportModel};
use crate::packet::{Acknowledge, MessageSeq, PacketSeq};
use crate::rtt::RttEstimator;
use crate::send::TransportSend;
use crate::size::MinSize;
use crate::time::Instant;
use std::collections::HashMap;
use vstd::prelude::*;

verus! {

/// Key of a message that was pushed for sending.
#[derive(Debug, Clone, Copy, PartialEq, Eq, Hash, Structural)]
pub struct MessageKey {
    /// Lane that the message is sent along.
    pub lane: LaneIndex,
    /// Sequence number of the message on that lane.
    pub seq: MessageSeq,
}

/// Says which slot of which message on which lane a fragment has.
#[derive(Debug, Clone, Copy, PartialEq, Eq, Hash, Structural)]
pub struct FragmentPath {
    /// Lane of the message.
    pub lane_index: LaneIndex,
    /// Sequence number of the message on that lane.
    pub msg_seq: MessageSeq,
    /// Slot of the fragment in the message.
    pub frag_index: MinSize,
}

/// What was put into a packet when it was flushed.
#[derive(Debug)]
pub struct FlushedPacket {
    /// When the packet was flushed.
    pub flushed_at: Instant,
    /// Fragments in the packet.
    pub frags: Vec<FragmentPath>,
}

impl View for FlushedPacket {
    type V = FlushedModel;

    open spec fn view(&self) -> FlushedModel {
        FlushedModel { flushed_at: self.flushed_at, frags: self.frags@ }
    }
}

/// One side of a connection over which messages are sent.
#[derive(Debug)]
pub struct Transport {
    /// Messages to send.
    pub send: TransportSend,
    /// Estimate of the round-trip time to the peer.
    pub rtt: RttEstimator,
    /// Which packets of the peer have arrived.
    pub peer_acks: Acknowledge,
    /// Whether the peer waits for an acknowledgement.
    pub owe_ack: bool,
    /// When the last packet was flushed.
    pub last_flush_at: Instant,
    /// Packets that were flushed, by their sequence number.
    pub flushed_packets: HashMap<u16, FlushedPacket>,
}

impl View for Transport {
    type V = TransportModel;

    open spec fn view(&self) -> TransportModel {
        TransportModel {
            send: self.send@,
            pto: self.rtt@,
            peer_acks: self.peer_acks,
            owe_ack: self.owe_ack,
            last_flush_at: self.last_flush_at,
            flushed: self.flushed_packets@.map_values(|p: FlushedPacket| p@),
        }
    }
}

/// Packets have no room for a fragment which carries anything.
#[derive(Debug, Clone, Copy, PartialEq, Eq, Structural)]
pub struct MtuTooSmall {
    /// Most bytes that a packet may have.
    pub mtu: usize,
    /// How many bytes it would have to have at least.
    pub min: usize,
}

/// Most bytes that a packet takes besides the payload of its only fragment.
pub const MAX_PACKET_OVERHEAD: usize = 25;

/// Most bytes that a fragment can carry if it is to fit into a packet of
/// `min_mtu` bytes.
pub open spec fn frag_len_for(min_mtu: usize) -> MinSize {
    MinSize(min_nat((min_mtu - MAX_PACKET_OVERHEAD) as nat, u32::MAX as nat) as u32)
}

impl Transport {
    /// Makes a transport over which nothing was sent. Its fragments fit into
    /// packets of `min_mtu` bytes.
    pub fn new(min_mtu: usize, send_lanes: Vec<LaneKind>, rtt: RttEstimator, now: Instant) -> (r:
        Result<Self, MtuTooSmall>)
        ensures
            match r {
                Ok(t) => {
                    &&& min_mtu > MAX_PACKET_OVERHEAD
                    &&& t@ == (TransportModel {
                        send: new_send(frag_len_for(min_mtu), send_lanes@),
                        pto: rtt@,
                        peer_acks: Acknowledge { last_recv: PacketSeq(0), bits: 0 },
                        owe_ack: false,
                        last_flush_at: now,
                        flushed: Map::empty(),
                    })
                    &&& t@.send.wf()
                },
                Err(e) => {
                    &&& min_mtu <= MAX_PACKET_OVERHEAD
                    &&& e.mtu == min_mtu
                    &&& e.min == MAX_PACKET_OVERHEAD + 1
                },
            },
    {
        if min_mtu <= MAX_PACKET_OVERHEAD {
            return Err(MtuTooSmall { mtu: min_mtu, min: MAX_PACKET_OVERHEAD + 1 });
        }
        let max_frag_len = match MinSize::from_usize(min_mtu - MAX_PACKET_OVERHEAD) {
            Some(len) => len,
            None => MinSize(u32::MAX),
        };
        let transport = Transport {
            send: TransportSend::new(max_frag_len, send_lanes),
            rtt,
            peer_acks: Acknowledge::default(),
            owe_ack: false,
            last_flush_at: now,
            flushed_packets: HashMap::new(),
        };
        assert(transport@.flushed =~= Map::empty());
        Ok(transport)
    }
}

}
