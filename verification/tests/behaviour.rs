use aeronet_transport::frag::{split, MessageTooBig};
use aeronet_transport::lane::{LaneIndex, LaneKind, LaneReliability};
use aeronet_transport::limit::{NotEnoughTokens, TokenBucket};
use aeronet_transport::octets::ReadError;
use aeronet_transport::packet::{
    Acknowledge, Fragment, FragmentHeader, FragmentPayload, FragmentPosition, MessageSeq, Packet,
    PacketHeader, PacketSeq,
};
use aeronet_transport::recv::recv_on;
use aeronet_transport::rtt::RttEstimator;
use aeronet_transport::send::{
    can_flush_at, due_frags, flush_in_order, flush_on, Flush, TransportSend, TransportSendError,
};
use aeronet_transport::size::MinSize;
use aeronet_transport::time::{Duration, Instant};
use aeronet_transport::transport::{FragmentPath, MessageKey, MtuTooSmall, Transport};
use octs::Bytes;

const RELIABLE: u32 = 0;
const UNRELIABLE: u32 = 1;

fn at(millis: u64) -> Instant {
    Instant::from_nanos(millis as u128 * 1_000_000)
}

fn transport(min_mtu: usize) -> Transport {
    let lanes = vec![LaneKind::ReliableOrdered, LaneKind::UnreliableUnordered];
    let rtt = RttEstimator::new(Duration::from_millis(100));
    Transport::new(min_mtu, lanes, rtt, at(0)).unwrap()
}

fn push(t: &mut Transport, lane: u32, msg: &[u8], now: Instant) -> MessageKey {
    t.send
        .push(LaneIndex::new(lane), Bytes::copy_from_slice(msg), now)
        .unwrap()
}

/// Lane, message, index and payload of each fragment in a packet.
fn frags_in(packet: &Bytes) -> Vec<(u32, u16, u32, Vec<u8>)> {
    let packet = Packet::decode(packet.clone()).unwrap();
    packet
        .frags
        .iter()
        .map(|f| {
            (
                f.header.lane.0 .0,
                f.header.seq.0,
                f.header.position.0 .0 / 2,
                f.payload.bytes().to_vec(),
            )
        })
        .collect()
}

#[test]
fn durations_and_instants() {
    assert_eq!(2_000_000_000, Duration::from_secs(2).nanos);
    assert_eq!(3_000_000, Duration::from_millis(3).nanos);
    assert_eq!(7, Duration::from_nanos(7).nanos);
    let span = at(5).saturating_duration_since(at(2));
    assert_eq!(Duration::from_millis(3), span);
    assert_eq!(0, at(2).saturating_duration_since(at(5)).nanos);
    assert_eq!(at(7), at(5).later_by(Duration::from_millis(2)));
}

#[test]
fn sizes_convert() {
    assert_eq!(Some(MinSize::new(7)), MinSize::from_usize(7));
    assert_eq!(None, MinSize::from_usize(0x1_0000_0000));
    assert_eq!(9, MinSize::new(9).to_usize());
}

#[test]
fn lane_reliability() {
    assert_eq!(LaneReliability::Unreliable, LaneKind::UnreliableUnordered.reliability());
    assert_eq!(LaneReliability::Unreliable, LaneKind::UnreliableSequenced.reliability());
    assert_eq!(LaneReliability::Reliable, LaneKind::ReliableUnordered.reliability());
    assert_eq!(LaneReliability::Reliable, LaneKind::ReliableOrdered.reliability());
}

#[test]
fn sequence_numbers_start_over() {
    assert_eq!(MessageSeq::new(6), MessageSeq::new(5).next());
    assert_eq!(MessageSeq::new(0), MessageSeq::new(u16::MAX).next());
    assert_eq!(PacketSeq::new(0), PacketSeq::new(u16::MAX).next());
}

#[test]
fn bucket_refills_up_to_cap() {
    let mut bucket = TokenBucket::new(100);
    bucket.set_cap(40);
    assert_eq!((40, 40), (bucket.cap(), bucket.rem()));
    let mut limit = bucket.min_of(25);
    assert_eq!(Ok(()), limit.consume(20));
    assert_eq!(Err(NotEnoughTokens), limit.consume(6));
    assert_eq!(Ok(()), limit.consume(5));
    let mut bucket = limit.into_bucket();
    assert_eq!(15, bucket.rem());
    assert_eq!(Err(NotEnoughTokens), bucket.min_of(1000).consume(16));
    bucket.refill_exact(5);
    assert_eq!(20, bucket.rem());
    bucket.refill_exact(usize::MAX);
    assert_eq!(40, bucket.rem());
}

#[test]
fn split_covers_message() {
    let msg = Bytes::from_static(b"abcdefgh");
    let frags = split(MinSize::new(3), &msg).unwrap();
    let payloads: Vec<&[u8]> = frags.iter().map(|f| &f.1.bytes()[..]).collect();
    assert_eq!(vec![&b"abc"[..], &b"def"[..], &b"gh"[..]], payloads);
    assert_eq!(FragmentPosition::non_last(MinSize::new(0)).unwrap(), frags[0].0);
    assert_eq!(FragmentPosition::non_last(MinSize::new(1)).unwrap(), frags[1].0);
    assert_eq!(FragmentPosition::last(MinSize::new(2)).unwrap(), frags[2].0);
    assert_eq!(2, split(MinSize::new(4), &msg).unwrap().len());
    assert!(split(MinSize::new(4), &Bytes::new()).unwrap().is_empty());
}

#[test]
fn fragment_positions_have_a_greatest_index() {
    let greatest = MinSize::new(0x7fff_ffff);
    assert_eq!(u32::MAX, FragmentPosition::last(greatest).unwrap().0 .0);
    assert_eq!(u32::MAX - 1, FragmentPosition::non_last(greatest).unwrap().0 .0);
    assert_eq!(None, FragmentPosition::last(MinSize::new(0x8000_0000)));
    assert_eq!(None, FragmentPosition::non_last(MinSize::new(0x8000_0000)));
    assert_eq!(
        FragmentPosition::zero_last(),
        FragmentPosition::last(MinSize::new(0)).unwrap()
    );
}

#[test]
fn header_bytes() {
    let header = PacketHeader {
        seq: PacketSeq::new(0x0102),
        acks: Acknowledge {
            last_recv: PacketSeq::new(0xfeff),
            bits: 0x0a0b_0c0d,
        },
    };
    let mut dst = vec![9];
    header.encode(&mut dst);
    assert_eq!(vec![9, 1, 2, 0xfe, 0xff, 0x0a, 0x0b, 0x0c, 0x0d], dst);
    assert_eq!(8, header.encode_len());
    let packet = Packet::decode(Bytes::from(dst[1..].to_vec())).unwrap();
    assert_eq!(header, packet.header);
    assert!(packet.frags.is_empty());
}

#[test]
fn fragment_bytes() {
    let frag = Fragment {
        header: FragmentHeader {
            seq: MessageSeq::new(3),
            lane: LaneIndex::new(300),
            position: FragmentPosition::non_last(MinSize::new(5)).unwrap(),
        },
        payload: FragmentPayload::new(Bytes::from_static(b"xyz")).unwrap(),
    };
    let mut dst = Vec::new();
    frag.encode(&mut dst);
    assert_eq!(vec![0, 3, 0xac, 0x02, 10, 3, b'x', b'y', b'z'], dst);
    assert_eq!(dst.len(), frag.encode_len());
    assert_eq!(MinSize::new(3), frag.payload.len());
}

fn packet_with(body: &[u8]) -> Bytes {
    let mut packet = vec![0; 8];
    packet.extend_from_slice(body);
    Bytes::from(packet)
}

#[test]
fn decode_rejects_bad_packets() {
    let short = Err(ReadError::TooShort);
    let decode = |packet: Bytes| Packet::decode(packet).map(|_| ());
    assert_eq!(short, decode(Bytes::from_static(&[0; 7])));
    assert_eq!(short, decode(packet_with(&[1])));
    // ends inside of a number
    assert_eq!(short, decode(packet_with(&[0, 1, 0x80])));
    // ends inside of a payload
    assert_eq!(short, decode(packet_with(&[0, 1, 0, 1, 2, b'a'])));
    // number goes on for too long
    let long = [0, 1, 0x80, 0x80, 0x80, 0x80, 0x80, 0];
    assert_eq!(Err(ReadError::VarIntTooLarge), decode(packet_with(&long)));
    // five bytes are the most that a number may have
    let most = [0, 1, 0xff, 0xff, 0xff, 0xff, 0x0f, 1, 0];
    let packet = Packet::decode(packet_with(&most)).unwrap();
    assert_eq!(LaneIndex::new(u32::MAX), packet.frags[0].header.lane);
}

#[test]
fn bad_packet_changes_nothing() {
    let mut t = transport(1024);
    assert_eq!(
        Err(ReadError::TooShort),
        recv_on(&mut t, packet_with(&[1]))
    );
    assert!(!t.owe_ack);
    t.owe_ack = true;
    recv_on(&mut t, packet_with(&[])).unwrap();
    assert!(t.owe_ack);
}

#[test]
fn transport_needs_room_for_a_fragment() {
    let rtt = RttEstimator::new(Duration::from_millis(1));
    let lanes = || vec![LaneKind::ReliableOrdered];
    let err = Transport::new(25, lanes(), rtt, at(0)).unwrap_err();
    assert_eq!(MtuTooSmall { mtu: 25, min: 26 }, err);
    assert!(Transport::new(26, lanes(), rtt, at(0)).is_ok());
}

#[test]
fn keys_are_counted_per_lane() {
    let mut t = transport(1024);
    let key = |lane, seq| MessageKey {
        lane: LaneIndex::new(lane),
        seq: MessageSeq::new(seq),
    };
    assert_eq!(key(0, 0), push(&mut t, 0, b"a", at(0)));
    assert_eq!(key(0, 1), push(&mut t, 0, b"a", at(0)));
    assert_eq!(key(1, 0), push(&mut t, 1, b"a", at(0)));
    assert_eq!(2, t.send.lanes()[0].num_queued_msgs());
    assert_eq!(1, t.send.lanes()[1].num_queued_msgs());
    assert_eq!(LaneKind::ReliableOrdered, t.send.lanes()[0].kind());
    assert_eq!(2, t.send.lanes()[0].clone().num_queued_msgs());
}

#[test]
fn keys_start_over_once_their_messages_are_gone() {
    let mut t = transport(1024);
    let first = push(&mut t, UNRELIABLE, b"a", at(0));
    flush_on(&mut t, at(0), 1024, None);
    for _ in 0..u16::MAX {
        assert_ne!(first, push(&mut t, UNRELIABLE, b"a", at(0)));
        flush_on(&mut t, at(0), 1024, None);
    }
    assert_eq!(first, push(&mut t, UNRELIABLE, b"a", at(0)));
}

#[test]
fn too_many_messages() {
    let mut send = TransportSend::new(MinSize::new(10), vec![LaneKind::ReliableUnordered]);
    let lane = LaneIndex::new(0);
    for _ in 0..=u16::MAX {
        send.push(lane, Bytes::new(), at(0)).unwrap();
    }
    assert_eq!(None, send.take_error());
    let err = TransportSendError::TooManyMessages;
    assert_eq!(Err(err), send.push(lane, Bytes::new(), at(0)));
    assert_eq!(65536, send.lanes()[0].num_queued_msgs());
    assert_eq!(Some(err), send.take_error());
    assert_eq!(None, send.take_error());
}

#[test]
fn message_too_big() {
    let mut send = TransportSend::new(MinSize::new(1), vec![LaneKind::ReliableUnordered]);
    let lane = LaneIndex::new(0);
    let msg = Bytes::from(vec![0; 0x8000_0001]);
    let err = MessageTooBig {
        len: 0x8000_0001,
        max: 0x8000_0000,
    };
    assert_eq!(
        Err(TransportSendError::from(err)),
        send.push(lane, msg, at(0))
    );
    assert_eq!(
        Some(TransportSendError::MessageTooBig(err)),
        send.take_error()
    );
    assert_eq!(0, send.lanes()[0].num_queued_msgs());
    // the number that the message would have had is still free
    let key = send.push(lane, Bytes::new(), at(0)).unwrap();
    assert_eq!(MessageSeq::new(0), key.seq);
}

#[test]
fn long_message_is_spread_over_packets() {
    // packets of 30 bytes carry fragments of up to 5 bytes
    let mut t = transport(30);
    let key = push(&mut t, RELIABLE, b"abcdefghijklm", at(0));
    assert_eq!(MessageSeq::new(0), key.seq);
    let packets = flush_on(&mut t, at(0), 30, None);
    let mut frags = Vec::new();
    for (i, packet) in packets.iter().enumerate() {
        assert!(packet.len() <= 30);
        let header = Packet::decode(packet.clone()).unwrap().header;
        assert_eq!(PacketSeq::new(i as u16), header.seq);
        frags.extend(frags_in(packet));
    }
    frags.sort();
    let expected = vec![
        (0, 0, 0, b"abcde".to_vec()),
        (0, 0, 1, b"fghij".to_vec()),
        (0, 0, 2, b"klm".to_vec()),
    ];
    assert_eq!(expected, frags);
    // two fragments of 10 bytes have room after the header, and so has one of 8
    assert_eq!(2, packets.len());
}

#[test]
fn reliable_fragment_is_sent_again_after_timeout() {
    let mut t = transport(1024);
    let interval = Some(Duration::from_secs(60));
    push(&mut t, RELIABLE, b"again", at(10));
    assert_eq!(1, flush_on(&mut t, at(10), 1024, interval).len());
    assert!(flush_on(&mut t, at(109), 1024, interval).is_empty());
    assert_eq!(0, t.send.lanes()[0].num_queued_msgs());
    let packets = flush_on(&mut t, at(110), 1024, interval);
    assert_eq!(1, packets.len());
    assert_eq!(vec![(0, 0, 0, b"again".to_vec())], frags_in(&packets[0]));
}

#[test]
fn unreliable_fragment_is_forgotten() {
    let mut t = transport(1024);
    let interval = Some(Duration::from_secs(60));
    push(&mut t, UNRELIABLE, b"once", at(10));
    assert_eq!(1, flush_on(&mut t, at(10), 1024, interval).len());
    assert_eq!(0, t.send.lanes()[1].num_queued_msgs());
    assert!(flush_on(&mut t, at(5000), 1024, interval).is_empty());
}

#[test]
fn flushed_messages_are_not_queued() {
    let mut t = transport(1024);
    push(&mut t, RELIABLE, b"hello", at(0));
    push(&mut t, RELIABLE, b"", at(0));
    push(&mut t, UNRELIABLE, b"hello", at(0));
    assert_eq!(2, t.send.lanes()[0].num_queued_msgs());
    assert_eq!(1, t.send.lanes()[1].num_queued_msgs());
    assert_eq!(1, flush_on(&mut t, at(0), 1024, None).len());
    assert_eq!(0, t.send.lanes()[0].num_queued_msgs());
    assert_eq!(0, t.send.lanes()[0].clone().num_queued_msgs());
    assert_eq!(0, t.send.lanes()[1].num_queued_msgs());
    push(&mut t, RELIABLE, b"later", at(1));
    assert_eq!(1, t.send.lanes()[0].num_queued_msgs());
}

#[test]
fn flushed_messages_are_not_queued_without_a_timeout() {
    let rtt = RttEstimator::new(Duration::from_nanos(0));
    let mut t = Transport::new(1024, vec![LaneKind::ReliableOrdered], rtt, at(0)).unwrap();
    push(&mut t, RELIABLE, b"hello", at(0));
    assert_eq!(1, flush_on(&mut t, at(0), 1024, None).len());
    assert_eq!(0, t.send.lanes()[0].num_queued_msgs());
    // it is sent again all the same
    let packets = flush_on(&mut t, at(0), 1024, None);
    assert_eq!(1, frags_in(&packets[0]).len());
    assert_eq!(0, t.send.lanes()[0].num_queued_msgs());
}

#[test]
fn message_stays_queued_until_all_of_it_is_flushed() {
    // fragments of 10 bytes
    let mut t = transport(35);
    push(&mut t, RELIABLE, b"aaaaaaaaaabbbbbbbbbb", at(0));
    let order = due_frags(&mut t, at(0));
    assert_eq!(2, order.len());
    let mut flush = Flush::new(&t, at(0), 35, None, order);
    let packet = flush.next_packet(&mut t).unwrap();
    assert_eq!(1, frags_in(&packet).len());
    assert_eq!(1, t.send.lanes()[0].num_queued_msgs());
    flush.next_packet(&mut t).unwrap();
    assert_eq!(0, t.send.lanes()[0].num_queued_msgs());
}

#[test]
fn second_flush_at_the_same_time_is_silent() {
    let mut t = transport(1024);
    let interval = Some(Duration::from_secs(5));
    push(&mut t, RELIABLE, b"again", at(10));
    push(&mut t, UNRELIABLE, b"once", at(10));
    t.owe_ack = true;
    assert_eq!(1, flush_on(&mut t, at(10), 1024, interval).len());
    assert!(flush_on(&mut t, at(10), 1024, interval).is_empty());
}

#[test]
fn due_fragments_can_be_listed_again() {
    let mut t = transport(1024);
    push(&mut t, RELIABLE, b"a", at(10));
    push(&mut t, UNRELIABLE, b"b", at(20));
    let first = due_frags(&mut t, at(10));
    assert_eq!(1, first.len());
    assert_eq!(first, due_frags(&mut t, at(10)));
    let later = due_frags(&mut t, at(20));
    assert_eq!(2, later.len());
    assert_eq!(first[0], later[0]);
}

#[test]
fn resend_time_only_matters_to_due_reliable_fragments() {
    let mut t = transport(1024);
    let end = Instant::from_nanos(u128::MAX);
    assert!(can_flush_at(&t, end));
    push(&mut t, UNRELIABLE, b"a", at(0));
    assert!(can_flush_at(&t, end));
    push(&mut t, RELIABLE, b"a", at(0));
    assert!(!can_flush_at(&t, end));
    assert!(can_flush_at(&t, at(0)));
}

#[test]
fn older_fragments_go_first() {
    let mut t = transport(1024);
    push(&mut t, RELIABLE, b"newest", at(30));
    push(&mut t, UNRELIABLE, b"middle", at(20));
    push(&mut t, RELIABLE, b"oldest", at(10));
    let packets = flush_on(&mut t, at(40), 1024, None);
    assert_eq!(1, packets.len());
    let expected = vec![
        (0, 1, 0, b"oldest".to_vec()),
        (1, 0, 0, b"middle".to_vec()),
        (0, 0, 0, b"newest".to_vec()),
    ];
    assert_eq!(expected, frags_in(&packets[0]));
}

#[test]
fn fragments_wait_until_they_are_due() {
    let mut t = transport(1024);
    push(&mut t, UNRELIABLE, b"later", at(50));
    assert!(due_frags(&mut t, at(49)).is_empty());
    let paths = due_frags(&mut t, at(50));
    let path = FragmentPath {
        lane_index: LaneIndex::new(UNRELIABLE),
        msg_seq: MessageSeq::new(0),
        frag_index: MinSize::new(0),
    };
    assert_eq!(vec![path], paths);
}

#[test]
fn packets_are_recorded() {
    let mut t = transport(1024);
    push(&mut t, RELIABLE, b"a", at(5));
    flush_on(&mut t, at(7), 1024, None);
    flush_on(&mut t, at(8), 1024, None);
    assert_eq!(2, t.flushed_packets.len());
    let path = FragmentPath {
        lane_index: LaneIndex::new(RELIABLE),
        msg_seq: MessageSeq::new(0),
        frag_index: MinSize::new(0),
    };
    assert_eq!(at(7), t.flushed_packets[&0].flushed_at);
    assert_eq!(vec![path], t.flushed_packets[&0].frags);
    assert_eq!(at(8), t.flushed_packets[&1].flushed_at);
    assert!(t.flushed_packets[&1].frags.is_empty());
    assert_eq!(at(8), t.last_flush_at);
}

#[test]
fn bytes_are_paid_for() {
    let mut t = transport(1024);
    t.send.set_bytes_cap(100);
    assert_eq!(100, t.send.bytes_bucket().rem());
    push(&mut t, UNRELIABLE, b"abcde", at(0));
    let packets = flush_on(&mut t, at(0), 1024, None);
    // header, fragment header, payload
    assert_eq!(8 + 5 + 5, packets[0].len());
    // the header of the packet that was not sent is paid for too
    assert_eq!(100 - 18 - 8, t.send.bytes_bucket().rem());
    t.send.refill_bytes(10);
    assert_eq!(84, t.send.bytes_bucket().rem());
    t.send.refill_bytes(1000);
    assert_eq!(100, t.send.bytes_bucket().rem());
}

#[test]
fn nothing_is_sent_without_bytes() {
    let mut t = transport(1024);
    t.owe_ack = true;
    push(&mut t, RELIABLE, b"abcde", at(0));
    t.send.set_bytes_cap(7);
    assert!(flush_on(&mut t, at(0), 1024, None).is_empty());
    assert_eq!(7, t.send.bytes_bucket().rem());
    assert!(t.owe_ack);
    // room for a header alone
    t.send.set_bytes_cap(17);
    t.send.refill_bytes(10);
    let packets = flush_on(&mut t, at(0), 1024, None);
    assert_eq!(1, packets.len());
    assert_eq!(8, packets[0].len());
    assert_eq!(1, t.send.lanes()[0].num_queued_msgs());
}

#[test]
fn small_fragment_fills_what_a_large_one_leaves() {
    let mut t = transport(1024);
    push(&mut t, RELIABLE, b"aaaaaaaaaaaaaaaaaaaa", at(1));
    push(&mut t, RELIABLE, b"b", at(2));
    // header and 7 bytes: only the small fragment fits
    let packets = flush_on(&mut t, at(3), 15, None);
    assert_eq!(1, packets.len());
    assert_eq!(vec![(0, 1, 0, b"b".to_vec())], frags_in(&packets[0]));
}

#[test]
fn acks_stand_in_the_header() {
    let mut t = transport(1024);
    t.peer_acks = Acknowledge {
        last_recv: PacketSeq::new(77),
        bits: 5,
    };
    let packets = flush_on(&mut t, at(0), 1024, None);
    let header = Packet::decode(packets[0].clone()).unwrap().header;
    assert_eq!(t.peer_acks, header.acks);
}

#[test]
fn flush_goes_through_the_given_order() {
    let mut t = transport(1024);
    let first = push(&mut t, RELIABLE, b"first", at(0));
    let second = push(&mut t, RELIABLE, b"second", at(0));
    let path = |key: MessageKey| FragmentPath {
        lane_index: key.lane,
        msg_seq: key.seq,
        frag_index: MinSize::new(0),
    };
    let order = vec![path(second), path(first)];
    let packets = flush_in_order(&mut t, at(0), 1024, None, order);
    assert_eq!(1, packets.len());
    let expected = vec![
        (0, 1, 0, b"second".to_vec()),
        (0, 0, 0, b"first".to_vec()),
    ];
    assert_eq!(expected, frags_in(&packets[0]));
}

#[test]
fn flush_can_be_taken_packet_by_packet() {
    let mut t = transport(1024);
    push(&mut t, UNRELIABLE, b"abc", at(0));
    let order = due_frags(&mut t, at(0));
    let mut flush = Flush::new(&t, at(0), 1024, None, order);
    assert_eq!(0, t.flushed_packets.len());
    assert!(flush.next_packet(&mut t).is_some());
    assert_eq!(1, t.flushed_packets.len());
    assert!(flush.next_packet(&mut t).is_none());
    assert_eq!(1, t.flushed_packets.len());
}

#[test]
fn every_fragment_goes_out_if_there_is_room() {
    let mut t = transport(26);
    let msg: Vec<u8> = (0..200).collect();
    push(&mut t, RELIABLE, &msg, at(0));
    let mut seen = vec![0; 200];
    for packet in flush_on(&mut t, at(0), 26, None) {
        for (_, _, index, payload) in frags_in(&packet) {
            assert_eq!(vec![msg[index as usize]], payload);
            seen[index as usize] += 1;
        }
    }
    assert_eq!(vec![1; 200], seen);
}
