use aeronet_transport::lane::{LaneIndex, LaneKind};
use aeronet_transport::packet::{
    Acknowledge, FragmentHeader, FragmentPosition, MessageSeq, Packet, PacketHeader, PacketSeq,
};
use aeronet_transport::recv::recv_on;
use aeronet_transport::rtt::RttEstimator;
use aeronet_transport::send::flush_on;
use aeronet_transport::size::MinSize;
use aeronet_transport::time::{Duration, Instant};
use aeronet_transport::transport::Transport;
use octs::Bytes;

const MTU: usize = 1024;

fn start() -> Instant {
    Instant::from_nanos(1_000_000_000_000)
}

fn heartbeat() -> Duration {
    Duration::from_secs(5)
}

fn lane() -> LaneIndex {
    LaneIndex::new(0)
}

fn new_transport(now: Instant) -> Transport {
    let rtt = RttEstimator::new(Duration::from_millis(999));
    Transport::new(MTU, vec![LaneKind::ReliableOrdered], rtt, now).unwrap()
}

#[test]
fn send_some_data() {
    round_trip(b"hello world");
}

// if we're forming a packet, empty messages *must* also be included as
// fragments
#[test]
fn send_no_data() {
    round_trip(b"");
}

fn round_trip(msg: &'static [u8]) {
    let now = start();
    let mut transport = new_transport(now);
    transport
        .send
        .push(lane(), Bytes::from_static(msg), now)
        .unwrap();
    assert_eq!(1, transport.send.lanes().first().unwrap().num_queued_msgs());

    let packets = flush_on(&mut transport, now, 1024, None);
    assert_eq!(1, packets.len());

    let packet = Packet::decode(packets[0].clone()).unwrap();
    assert_eq!(
        packet.header,
        PacketHeader {
            seq: PacketSeq::new(0),
            acks: Acknowledge::default(),
        },
    );
    assert_eq!(1, packet.frags.len());
    assert_eq!(
        packet.frags[0].header,
        FragmentHeader {
            lane: lane(),
            position: FragmentPosition::last(MinSize::new(0)).unwrap(),
            seq: MessageSeq::new(0),
        },
    );
    assert_eq!(packet.frags[0].payload.bytes(), &Bytes::from_static(msg));
}

/// With `heartbeat_interval = None`, an idle transport still flushes one
/// header-only packet every update.
#[test]
fn legacy_none_always_emits() {
    let now = start();
    let mut transport = new_transport(now);

    assert_eq!(1, flush_on(&mut transport, now, 1024, None).len());
}

/// With a heartbeat interval set, an idle transport (no frags, no owed acks,
/// heartbeat not yet due) flushes nothing.
#[test]
fn idle_with_heartbeat_emits_nothing() {
    let now = start();
    let mut transport = new_transport(now);

    assert!(flush_on(&mut transport, now, 1024, Some(heartbeat())).is_empty());
}

/// Once the heartbeat interval has elapsed since the last flush, exactly one
/// header-only keepalive packet is emitted, and the timer resets so the next
/// idle flush emits nothing again.
#[test]
fn heartbeat_emits_after_interval() {
    let start = start();
    let mut transport = new_transport(start);

    let due = start
        .later_by(heartbeat())
        .later_by(Duration::from_millis(1));
    assert_eq!(
        1,
        flush_on(&mut transport, due, 1024, Some(heartbeat())).len()
    );

    // timer reset: flushing again immediately emits nothing
    assert!(flush_on(&mut transport, due, 1024, Some(heartbeat())).is_empty());
}

/// Pending fragments are always flushed, even when idle sends are suppressed
/// and the heartbeat is not due.
#[test]
fn pending_frags_emit_when_suppressed() {
    let now = start();
    let mut transport = new_transport(now);
    transport
        .send
        .push(lane(), Bytes::from_static(b"hello"), now)
        .unwrap();

    assert_eq!(
        1,
        flush_on(&mut transport, now, 1024, Some(heartbeat())).len()
    );
}

/// Receiving an ack-eliciting (fragment-bearing) packet makes us owe the peer
/// an ack, which forces a flush even while idle sends are suppressed; the flush
/// then clears the owed ack.
#[test]
fn owe_ack_triggers_emit_then_clears() {
    let now = start();

    // build a real ack-eliciting packet from a sender
    let mut sender = new_transport(now);
    sender
        .send
        .push(lane(), Bytes::from_static(b"hi"), now)
        .unwrap();
    let ack_eliciting = flush_on(&mut sender, now, 1024, Some(heartbeat()))
        .into_iter()
        .next()
        .expect("should emit a packet carrying the fragment");

    let mut receiver = new_transport(now);
    recv_on(&mut receiver, ack_eliciting).unwrap();
    assert!(
        receiver.owe_ack,
        "fragment-bearing packet should oblige an ack"
    );

    // owing an ack forces a flush even though the heartbeat is not due
    assert_eq!(
        1,
        flush_on(&mut receiver, now, 1024, Some(heartbeat())).len()
    );
    assert!(!receiver.owe_ack, "flushing should discharge the owed ack");

    // and the next idle flush is silent again
    assert!(flush_on(&mut receiver, now, 1024, Some(heartbeat())).is_empty());
}

/// Ping-pong guard: receiving a header-only packet (a pure ack / keepalive)
/// must NOT make us owe an ack, otherwise two idle peers would volley acks
/// forever.
#[test]
fn header_only_recv_does_not_owe_ack() {
    let now = start();

    // a header-only packet: flush an idle transport without an interval
    let mut sender = new_transport(now);
    let header_only = flush_on(&mut sender, now, 1024, None)
        .into_iter()
        .next()
        .expect("legacy flush should emit a header-only packet");

    let mut receiver = new_transport(now);
    recv_on(&mut receiver, header_only).unwrap();
    assert!(
        !receiver.owe_ack,
        "header-only packet must not oblige an ack"
    );

    // therefore the receiver stays silent while idle
    assert!(flush_on(&mut receiver, now, 1024, Some(heartbeat())).is_empty());
}
