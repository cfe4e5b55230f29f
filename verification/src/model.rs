//! What the state of a transport stands for, and what flushing makes of it.

use crate::frag::{chunk, lemma_num_frags, num_frags, splittable, MessageTooBig, MAX_FRAGS};
use crate::lane::{LaneIndex, LaneKind};
use crate::limit::{min_nat, BucketModel};
use crate::packet::{
    frag_wire, next_seq, Acknowledge, FragmentHeader, FragmentPosition, MessageSeq, PacketHeader,
    PacketSeq, MAX_FRAG_OVERHEAD, PACKET_HEADER_LEN,
};
use crate::queue::{has_frag, unflushed, FragModel};
use crate::send::TransportSendError;
use crate::size::MinSize;
use crate::time::{Duration, Instant};
use crate::transport::{FragmentPath, MessageKey};
use vstd::prelude::*;

verus! {

/// Slots of the fragments of a message.
pub type Slots = Seq<Option<FragModel>>;

/// State of a lane.
#[verifier::ext_equal]
pub struct LaneModel {
    /// What the lane guarantees.
    pub kind: LaneKind,
    /// Messages on the lane, by their sequence number.
    pub msgs: Map<u16, Slots>,
    /// Sequence number of the next message.
    pub next_msg_seq: MessageSeq,
}

/// State of what is to be sent.
#[verifier::ext_equal]
pub struct SendModel {
    /// Most bytes that a fragment carries.
    pub max_frag_len: MinSize,
    /// Lanes that messages are sent along.
    pub lanes: Seq<LaneModel>,
    /// Bytes that may be sent.
    pub bucket: BucketModel,
    /// Sequence number of the next packet.
    pub next_packet_seq: PacketSeq,
    /// Why a message could not be queued.
    pub error: Option<TransportSendError>,
}

/// What was put into a flushed packet.
#[verifier::ext_equal]
pub struct FlushedModel {
    /// When the packet was flushed.
    pub flushed_at: Instant,
    /// Fragments in the packet.
    pub frags: Seq<FragmentPath>,
}

/// State of a transport.
#[verifier::ext_equal]
pub struct TransportModel {
    /// What is to be sent.
    pub send: SendModel,
    /// How long to wait for an acknowledgement before sending again.
    pub pto: Duration,
    /// Which packets of the peer have arrived.
    pub peer_acks: Acknowledge,
    /// Whether the peer waits for an acknowledgement.
    pub owe_ack: bool,
    /// When the last packet was flushed.
    pub last_flush_at: Instant,
    /// Packets that were flushed, by their sequence number.
    pub flushed: Map<u16, FlushedModel>,
}

/// Whether the slots are those of a message, in which fragments carry up to
/// `max` bytes.
pub open spec fn msg_wf(msg: Slots, max: nat) -> bool {
    &&& 1 <= msg.len() <= MAX_FRAGS
    &&& forall|i: int|
        0 <= i < msg.len() && (#[trigger] msg[i]) is Some ==> msg[i]->0.payload.len() <= max
            && msg[i]->0.position == FragmentPosition::at(i, i == msg.len() - 1)
}

impl LaneModel {
    /// Whether all that is on the lane are messages.
    pub open spec fn wf(self, max: nat) -> bool {
        &&& self.msgs.dom().finite()
        &&& forall|seq: u16| #[trigger]
            self.msgs.contains_key(seq) ==> msg_wf(self.msgs[seq], max)
    }

    /// Messages that have not been flushed yet: a fragment of theirs was never put
    /// into a packet.
    pub open spec fn queued(self) -> Set<u16> {
        self.msgs.dom().filter(|seq: u16| unflushed(self.msgs[seq]))
    }

    /// The lane without the messages that have no fragment to be sent.
    pub open spec fn pruned(self) -> LaneModel {
        LaneModel {
            msgs: self.msgs.restrict(
                Set::new(|seq: u16| self.msgs.contains_key(seq) && has_frag(self.msgs[seq])),
            ),
            ..self
        }
    }
}

impl SendModel {
    /// Whether all lanes hold messages, of which any fragment can be put into a
    /// packet.
    pub open spec fn wf(self) -> bool {
        &&& 0 < self.max_frag_len.0
        &&& self.max_frag_len.0 + PACKET_HEADER_LEN + MAX_FRAG_OVERHEAD <= usize::MAX
        &&& self.bucket.wf()
        &&& forall|i: int|
            0 <= i < self.lanes.len() ==> (#[trigger] self.lanes[i]).wf(self.max_frag_len.0 as nat)
    }
}

// ---------------------------------------------------------------------------
// Queueing
// ---------------------------------------------------------------------------

/// Slots of a message of these bytes, pushed at `now`. A message without any
/// bytes has one fragment nevertheless, as it would never arrive otherwise.
pub open spec fn msg_slots(msg: Seq<u8>, max: nat, now: Instant) -> Slots {
    if msg.len() == 0 {
        seq![
            Some(
                FragModel {
                    position: FragmentPosition::at(0, true),
                    payload: Seq::<u8>::empty(),
                    sent_at: now,
                    next_flush_at: now,
                    flushed: false,
                },
            ),
        ]
    } else {
        let n = num_frags(msg.len(), max);
        Seq::new(
            n,
            |i: int|
                Some(
                    FragModel {
                        position: FragmentPosition::at(i, i == n - 1),
                        payload: chunk(msg, max, i),
                        sent_at: now,
                        next_flush_at: now,
                        flushed: false,
                    },
                ),
        )
    }
}

/// What is answered to a message of these bytes that is pushed on a lane.
pub open spec fn push_result(s: SendModel, lane_index: LaneIndex, msg: Seq<u8>) -> Result<
    MessageKey,
    TransportSendError,
> {
    let lane = s.lanes[lane_index.0.0 as int];
    if lane.msgs.contains_key(lane.next_msg_seq.0) {
        Err(TransportSendError::TooManyMessages)
    } else if !splittable(msg.len(), s.max_frag_len.0 as nat) {
        Err(
            TransportSendError::MessageTooBig(
                MessageTooBig {
                    len: msg.len() as usize,
                    max: (s.max_frag_len.0 * MAX_FRAGS) as u64,
                },
            ),
        )
    } else {
        Ok(MessageKey { lane: lane_index, seq: lane.next_msg_seq })
    }
}

/// What pushing a message of these bytes on a lane makes of the state.
pub open spec fn pushed(
    s: SendModel,
    lane_index: LaneIndex,
    msg: Seq<u8>,
    now: Instant,
) -> SendModel {
    match push_result(s, lane_index, msg) {
        Ok(key) => {
            let lane = s.lanes[lane_index.0.0 as int];
            SendModel {
                lanes: s.lanes.update(
                    lane_index.0.0 as int,
                    LaneModel {
                        msgs: lane.msgs.insert(
                            key.seq.0,
                            msg_slots(msg, s.max_frag_len.0 as nat, now),
                        ),
                        next_msg_seq: MessageSeq(next_seq(key.seq.0)),
                        ..lane
                    },
                ),
                ..s
            }
        },
        Err(err) => SendModel { error: Some(err), ..s },
    }
}

/// A message has slots like those of any message.
pub proof fn lemma_msg_slots_wf(msg: Seq<u8>, max: nat, now: Instant)
    requires
        max > 0,
        splittable(msg.len(), max),
    ensures
        msg_wf(msg_slots(msg, max, now), max),
{
    lemma_num_frags(msg.len(), max);
    let slots = msg_slots(msg, max, now);
    assert forall|i: int| 0 <= i < slots.len() implies (#[trigger] slots[i])->0.payload.len()
        <= max by {
        if msg.len() > 0 {
            assert(0 <= i * max < msg.len());
            assert((i + 1) * max == i * max + max) by (nonlinear_arith);
        }
    }
}

/// Lanes stay well-formed as a message is pushed.
pub proof fn lemma_pushed_wf(s: SendModel, lane_index: LaneIndex, msg: Seq<u8>, now: Instant)
    requires
        s.wf(),
        lane_index.0.0 < s.lanes.len(),
    ensures
        pushed(s, lane_index, msg, now).wf(),
{
    let max = s.max_frag_len.0 as nat;
    let after = pushed(s, lane_index, msg, now);
    if push_result(s, lane_index, msg) is Ok {
        lemma_msg_slots_wf(msg, max, now);
        assert forall|i: int| 0 <= i < after.lanes.len() implies (#[trigger] after.lanes[i]).wf(
            max,
        ) by {
            assert(s.lanes[i].wf(max));
        }
    }
}

/// State of a lane before any message is pushed.
pub open spec fn new_lane(kind: LaneKind) -> LaneModel {
    LaneModel { kind, msgs: Map::empty(), next_msg_seq: MessageSeq(0) }
}

/// State before any message is pushed.
pub open spec fn new_send(max_frag_len: MinSize, lanes: Seq<LaneKind>) -> SendModel {
    SendModel {
        max_frag_len,
        lanes: Seq::new(lanes.len(), |i: int| new_lane(lanes[i])),
        bucket: BucketModel { cap: usize::MAX as nat, rem: usize::MAX as nat },
        next_packet_seq: PacketSeq(0),
        error: None,
    }
}

// ---------------------------------------------------------------------------
// Fragments on the lanes
// ---------------------------------------------------------------------------

/// Whether there is a slot at this path.
pub open spec fn has_slot(lanes: Seq<LaneModel>, path: FragmentPath) -> bool {
    &&& path.lane_index.0.0 < lanes.len()
    &&& lanes[path.lane_index.0.0 as int].msgs.contains_key(path.msg_seq.0)
    &&& path.frag_index.0 < lanes[path.lane_index.0.0 as int].msgs[path.msg_seq.0].len()
}

/// Slot at this path.
pub open spec fn slot_at(lanes: Seq<LaneModel>, path: FragmentPath) -> Option<FragModel> {
    lanes[path.lane_index.0.0 as int].msgs[path.msg_seq.0][path.frag_index.0 as int]
}

/// Whether there is a fragment at this path.
pub open spec fn has_frag_at(lanes: Seq<LaneModel>, path: FragmentPath) -> bool {
    has_slot(lanes, path) && slot_at(lanes, path) is Some
}

/// Fragment at this path.
pub open spec fn frag_at(lanes: Seq<LaneModel>, path: FragmentPath) -> FragModel {
    slot_at(lanes, path)->0
}

/// Whether there is a fragment at this path which may be put into a packet.
pub open spec fn due(lanes: Seq<LaneModel>, now: Instant, path: FragmentPath) -> bool {
    has_frag_at(lanes, path) && now.nanos >= frag_at(lanes, path).next_flush_at.nanos
}

/// Bytes in a packet of the fragment at this path.
pub open spec fn wire_at(lanes: Seq<LaneModel>, path: FragmentPath) -> Seq<u8> {
    frag_wire(
        FragmentHeader {
            seq: path.msg_seq,
            lane: path.lane_index,
            position: frag_at(lanes, path).position,
        },
        frag_at(lanes, path).payload,
    )
}

/// The lanes with another slot at this path.
pub open spec fn with_slot(
    lanes: Seq<LaneModel>,
    path: FragmentPath,
    slot: Option<FragModel>,
) -> Seq<LaneModel> {
    let lane = lanes[path.lane_index.0.0 as int];
    lanes.update(
        path.lane_index.0.0 as int,
        LaneModel {
            msgs: lane.msgs.insert(
                path.msg_seq.0,
                lane.msgs[path.msg_seq.0].update(path.frag_index.0 as int, slot),
            ),
            ..lane
        },
    )
}

/// Putting a slot in its own place changes nothing.
pub proof fn lemma_with_same_slot(lanes: Seq<LaneModel>, path: FragmentPath)
    requires
        has_slot(lanes, path),
    ensures
        with_slot(lanes, path, slot_at(lanes, path)) == lanes,
{
    let lane = lanes[path.lane_index.0.0 as int];
    let msg = lane.msgs[path.msg_seq.0];
    assert(msg.update(path.frag_index.0 as int, slot_at(lanes, path)) =~= msg);
    assert(lane.msgs.insert(path.msg_seq.0, msg) =~= lane.msgs);
    assert(with_slot(lanes, path, slot_at(lanes, path)) =~= lanes);
}

/// Putting a slot at one path leaves the slots at the others as they are.
pub proof fn lemma_with_slot(
    lanes: Seq<LaneModel>,
    path: FragmentPath,
    slot: Option<FragModel>,
    other: FragmentPath,
)
    requires
        has_slot(lanes, path),
    ensures
        ({
            let after = with_slot(lanes, path, slot);
            &&& after.len() == lanes.len()
            &&& has_slot(after, other) <==> has_slot(lanes, other)
            &&& has_slot(lanes, other) ==> slot_at(after, other) == if other == path {
                slot
            } else {
                slot_at(lanes, other)
            }
        }),
{
}

/// What becomes of a slot once its fragment is in a packet: an unreliable lane
/// forgets the fragment, and a reliable one keeps it to send it again later.
pub open spec fn slot_after_send(
    kind: LaneKind,
    frag: FragModel,
    now: Instant,
    pto: Duration,
) -> Option<FragModel> {
    if kind.is_reliable() {
        Some(FragModel { next_flush_at: now.plus(pto), flushed: true, ..frag })
    } else {
        None
    }
}

/// The lanes once the fragment at this path is in a packet.
pub open spec fn after_send(
    lanes: Seq<LaneModel>,
    path: FragmentPath,
    now: Instant,
    pto: Duration,
) -> Seq<LaneModel> {
    with_slot(
        lanes,
        path,
        slot_after_send(lanes[path.lane_index.0.0 as int].kind, frag_at(lanes, path), now, pto),
    )
}

// ---------------------------------------------------------------------------
// Packets
// ---------------------------------------------------------------------------

/// What a packet was filled with.
#[verifier::ext_equal]
pub struct Fill {
    /// The lanes, once the fragments are in the packet.
    pub lanes: Seq<LaneModel>,
    /// Bytes of the fragments in the packet.
    pub bytes: Seq<u8>,
    /// Fragments in the packet.
    pub taken: Seq<FragmentPath>,
    /// Fragments for which there was no room.
    pub kept: Seq<FragmentPath>,
}

/// Goes through the fragments at these paths in order, and puts each for which
/// there still is room into a packet.
pub open spec fn fill(
    lanes: Seq<LaneModel>,
    paths: Seq<FragmentPath>,
    room: nat,
    now: Instant,
    pto: Duration,
) -> Fill
    decreases paths.len(),
{
    if paths.len() == 0 {
        Fill { lanes, bytes: Seq::empty(), taken: Seq::empty(), kept: Seq::empty() }
    } else {
        let f = fill(lanes, paths.drop_last(), room, now, pto);
        let path = paths.last();
        let wire = wire_at(f.lanes, path);
        if f.bytes.len() + wire.len() <= room {
            Fill {
                lanes: after_send(f.lanes, path, now, pto),
                bytes: f.bytes + wire,
                taken: f.taken.push(path),
                kept: f.kept,
            }
        } else {
            Fill { kept: f.kept.push(path), ..f }
        }
    }
}

/// How many bytes a packet may have. No buffer has room for more than
/// `isize::MAX`.
pub open spec fn packet_room(rem: nat, mtu: nat) -> nat {
    min_nat(rem, min_nat(mtu, isize::MAX as nat))
}

/// State of a flush that is under way.
#[verifier::ext_equal]
pub struct FlushModel {
    /// Time of the flush.
    pub now: Instant,
    /// Most bytes that a packet may have.
    pub mtu: nat,
    /// Whether to send a packet even if there is nothing to put into it.
    pub must_emit: bool,
    /// Whether a packet was sent.
    pub sent_packet_yet: bool,
    /// Fragments that are left to be sent, in this order.
    pub paths: Seq<FragmentPath>,
}

/// What building a packet comes to.
#[verifier::ext_equal]
pub struct Step {
    /// The transport afterwards.
    pub transport: TransportModel,
    /// The flush afterwards.
    pub flush: FlushModel,
    /// The packet, if there is one to send.
    pub packet: Option<Seq<u8>>,
}

/// Header of the next packet.
pub open spec fn next_header(t: TransportModel) -> PacketHeader {
    PacketHeader { seq: t.send.next_packet_seq, acks: t.peer_acks }
}

/// What the next packet is filled with.
pub open spec fn next_fill(t: TransportModel, f: FlushModel) -> Fill {
    fill(
        t.send.lanes,
        f.paths,
        (packet_room(t.send.bucket.rem, f.mtu) - PACKET_HEADER_LEN) as nat,
        f.now,
        t.pto,
    )
}

/// The transport with `n` bytes less to be sent.
pub open spec fn spend(t: TransportModel, n: nat) -> TransportModel {
    TransportModel {
        send: SendModel {
            bucket: BucketModel { rem: (t.send.bucket.rem - n) as nat, ..t.send.bucket },
            ..t.send
        },
        ..t
    }
}

/// The transport once a packet with this fill is sent.
pub open spec fn after_packet(t: TransportModel, now: Instant, fill: Fill) -> TransportModel {
    let t1 = spend(t, PACKET_HEADER_LEN as nat + fill.bytes.len());
    TransportModel {
        send: SendModel {
            lanes: fill.lanes,
            next_packet_seq: PacketSeq(next_seq(t.send.next_packet_seq.0)),
            ..t1.send
        },
        owe_ack: false,
        last_flush_at: now,
        flushed: t.flushed.insert(
            t.send.next_packet_seq.0,
            FlushedModel { flushed_at: now, frags: fill.taken },
        ),
        ..t1
    }
}

/// Builds one packet: a header, and as many of the fragments as there is room
/// for. There is none to send where not even the header has room, or where it
/// would be a header alone which need not be sent. The header is paid for in
/// that second case too.
pub open spec fn step(t: TransportModel, f: FlushModel) -> Step {
    let fill = next_fill(t, f);
    if packet_room(t.send.bucket.rem, f.mtu) < PACKET_HEADER_LEN {
        Step { transport: t, flush: f, packet: None }
    } else if fill.taken.len() > 0 || (!f.sent_packet_yet && f.must_emit) {
        Step {
            transport: after_packet(t, f.now, fill),
            flush: FlushModel { sent_packet_yet: true, paths: fill.kept, ..f },
            packet: Some(next_header(t).wire() + fill.bytes),
        }
    } else {
        Step { transport: spend(t, PACKET_HEADER_LEN as nat), flush: f, packet: None }
    }
}

/// Every path that a packet is filled from is either taken or kept.
pub proof fn lemma_fill_len(
    lanes: Seq<LaneModel>,
    paths: Seq<FragmentPath>,
    room: nat,
    now: Instant,
    pto: Duration,
)
    ensures
        ({
            let f = fill(lanes, paths, room, now, pto);
            f.taken.len() + f.kept.len() == paths.len()
        }),
    decreases paths.len(),
{
    if paths.len() > 0 {
        lemma_fill_len(lanes, paths.drop_last(), room, now, pto);
    }
}

/// Outcome of a flush.
#[verifier::ext_equal]
pub struct Flushed {
    /// The transport afterwards.
    pub transport: TransportModel,
    /// Packets to send, in this order.
    pub packets: Seq<Seq<u8>>,
}

/// Most packets that are still to come.
pub open spec fn flush_work(f: FlushModel) -> nat {
    f.paths.len() + if f.sent_packet_yet {
        0nat
    } else {
        1nat
    }
}

/// Builds packets until there is none to send.
pub open spec fn flush_rest(t: TransportModel, f: FlushModel) -> Flushed
    decreases flush_work(f),
{
    proof {
        lemma_fill_len(
            t.send.lanes,
            f.paths,
            (packet_room(t.send.bucket.rem, f.mtu) - PACKET_HEADER_LEN) as nat,
            f.now,
            t.pto,
        );
    }
    let s = step(t, f);
    match s.packet {
        None => Flushed { transport: s.transport, packets: Seq::empty() },
        Some(packet) => {
            let rest = flush_rest(s.transport, s.flush);
            Flushed { packets: seq![packet] + rest.packets, ..rest }
        },
    }
}

/// Whether these are the paths of all fragments that are due, each of them
/// once, from the one pushed first to the one pushed last.
pub open spec fn flush_order(
    lanes: Seq<LaneModel>,
    now: Instant,
    order: Seq<FragmentPath>,
) -> bool {
    &&& order.no_duplicates()
    &&& forall|path: FragmentPath| #[trigger] order.contains(path) <==> due(lanes, now, path)
    &&& forall|i: int, j: int|
        0 <= i < j < order.len() ==> frag_at(lanes, #[trigger] order[i]).sent_at.nanos <= frag_at(
            lanes,
            #[trigger] order[j],
        ).sent_at.nanos
}

/// The transport without the messages that have no fragment to be sent.
pub open spec fn pruned(t: TransportModel) -> TransportModel {
    TransportModel {
        send: SendModel {
            lanes: Seq::new(t.send.lanes.len(), |i: int| t.send.lanes[i].pruned()),
            ..t.send
        },
        ..t
    }
}

/// Whether it is time to send a packet even if there is no other reason to.
pub open spec fn heartbeat_due(
    t: TransportModel,
    now: Instant,
    heartbeat_interval: Option<Duration>,
) -> bool {
    match heartbeat_interval {
        None => true,
        Some(interval) => now.since(t.last_flush_at) >= interval.nanos,
    }
}

/// A flush that goes through the fragments in this order.
pub open spec fn begin(
    t: TransportModel,
    now: Instant,
    mtu: nat,
    heartbeat_interval: Option<Duration>,
    order: Seq<FragmentPath>,
) -> FlushModel {
    FlushModel {
        now,
        mtu,
        must_emit: order.len() > 0 || t.owe_ack || heartbeat_due(t, now, heartbeat_interval),
        sent_packet_yet: false,
        paths: order,
    }
}

/// Outcome of a flush that goes through the fragments in this order.
pub open spec fn flush_in(
    t: TransportModel,
    now: Instant,
    mtu: nat,
    heartbeat_interval: Option<Duration>,
    order: Seq<FragmentPath>,
) -> Flushed {
    flush_rest(pruned(t), begin(t, now, mtu, heartbeat_interval, order))
}

}
