use hylarana::checksum::fingerprint;
use hylarana::multicast::fragments::{Fragment, FragmentDecoder, FragmentEncoder, FragmentError};
use hylarana::multicast::nack::{find_loss, Dequeue, Queue};
use hylarana::multicast::packet::{Packet, PacketDecoder, PacketEncoder};
use hylarana::multicast::receiver::Receiver;
use hylarana::multicast::remuxer::Remuxer;
use hylarana::multicast::sender::Sender;

fn bytes_packet(sequence: u16, chunk: &[u8]) -> Vec<u8> {
    Packet::Bytes { sequence, chunk: chunk.to_vec() }.into_bytes()
}

#[test]
fn fingerprint_known_values() {
    assert_eq!(fingerprint(b"123456789"), 0xCBF4_3926 ^ 0x5354_554E);
    assert_eq!(fingerprint(b"1"), 3498621689);
    assert_eq!(fingerprint(b""), 0x5354_554E);
}

#[test]
fn packet_wire_layout() {
    let bytes = Packet::Ping { timestamp: 0x0102_0304_0506_0708 }.into_bytes();
    assert_eq!(bytes.len(), 13);
    assert_eq!(bytes[4], 0);
    assert_eq!(&bytes[5..], &[1, 2, 3, 4, 5, 6, 7, 8]);
    let crc = fingerprint(&bytes[4..]);
    assert_eq!(&bytes[0..4], &crc.to_be_bytes());

    let nack = Packet::Nack { range: 3..9 }.into_bytes();
    assert_eq!(&nack[4..], &[2, 0, 3, 0, 9]);

    let data = bytes_packet(0x0A0B, b"xyz");
    assert_eq!(&data[4..], &[3, 0x0A, 0x0B, b'x', b'y', b'z']);
}

#[test]
fn packet_roundtrip_every_kind() {
    match Packet::try_from(&Packet::Ping { timestamp: 77 }.into_bytes()) {
        Ok(Packet::Ping { timestamp }) => assert_eq!(timestamp, 77),
        _ => panic!("ping"),
    }
    match Packet::try_from(&Packet::Pong { timestamp: u64::MAX }.into_bytes()) {
        Ok(Packet::Pong { timestamp }) => assert_eq!(timestamp, u64::MAX),
        _ => panic!("pong"),
    }
    match Packet::try_from(&Packet::Nack { range: 10..20 }.into_bytes()) {
        Ok(Packet::Nack { range }) => assert_eq!(range, 10..20),
        _ => panic!("nack"),
    }
    match Packet::try_from(&bytes_packet(5, b"hello")) {
        Ok(Packet::Bytes { sequence, chunk }) => {
            assert_eq!(sequence, 5);
            assert_eq!(chunk, b"hello".to_vec());
        }
        _ => panic!("bytes"),
    }
}

#[test]
fn packet_corruption_is_refused() {
    let mut bytes = bytes_packet(1, b"payload");
    bytes[9] ^= 0xFF;
    assert!(Packet::try_from(&bytes).is_err());
    let mut unknown = vec![4u8];
    unknown.extend_from_slice(b"zz");
    let crc = fingerprint(&unknown);
    let mut wire = crc.to_be_bytes().to_vec();
    wire.extend_from_slice(&unknown);
    assert!(Packet::try_from(&wire).is_err());
}

#[test]
fn packet_try_decode_short_input() {
    assert!(Packet::try_decode(&[1, 2, 3]).is_none());
    let body = [0u8, 1, 2];
    let mut wire = fingerprint(&body).to_be_bytes().to_vec();
    wire.extend_from_slice(&body);
    assert!(Packet::try_decode(&wire).is_none());
    assert!(matches!(Packet::try_decode(&[9, 9, 9, 9, 0]), Some(Err(()))));
    assert!(matches!(
        Packet::try_decode(&Packet::Pong { timestamp: 3 }.into_bytes()),
        Some(Ok(Packet::Pong { timestamp: 3 }))
    ));
}

#[test]
fn max_size_leaves_room_for_the_header() {
    assert_eq!(Packet::get_max_size(1400), 1393);
    assert_eq!(Packet::get_max_size(7), 0);
}

#[test]
fn packet_encoder_indexes_pieces() {
    let mut encoder = PacketEncoder::new(6);
    assert!(encoder.encode(b"").is_empty());
    let packets = encoder.encode(b"abcdefghij").to_vec();
    assert_eq!(
        packets,
        vec![
            vec![0, 0, b'a', b'b', b'c', b'd'],
            vec![0, 1, b'e', b'f', b'g', b'h'],
            vec![0, 2, b'i', b'j'],
        ]
    );
}

#[test]
fn packet_decoder_gives_payload_on_next_start() {
    let mut encoder = PacketEncoder::new(6);
    let mut decoder = PacketDecoder::default();
    let first = encoder.encode(b"abcdefghij").to_vec();
    let mut out = Vec::new();
    for p in &first {
        assert!(decoder.decode(p).is_none());
    }
    let second = encoder.encode(b"xy").to_vec();
    for p in &second {
        if let Some(payload) = decoder.decode(p) {
            out.push(payload);
        }
    }
    assert_eq!(out, vec![b"abcdefghij".to_vec()]);
}

#[test]
fn packet_decoder_drops_a_payload_with_a_gap() {
    let mut encoder = PacketEncoder::new(6);
    let mut decoder = PacketDecoder::default();
    let first = encoder.encode(b"abcdefghij").to_vec();
    assert!(decoder.decode(&first[0]).is_none());
    assert!(decoder.decode(&first[2]).is_none());
    let second = encoder.encode(b"xy").to_vec();
    assert_eq!(decoder.decode(&second[0]), None);
    let third = encoder.encode(b"zz").to_vec();
    assert_eq!(decoder.decode(&third[0]), Some(b"xy".to_vec()));
}

#[test]
fn fragment_wire_form_and_roundtrip() {
    let mut encoder = FragmentEncoder::new(40);
    let frames = encoder.encode(b"0123456789abcdefghijklmnopqrstu").to_vec();
    assert_eq!(frames.len(), 3);
    for (i, frame) in frames.iter().enumerate() {
        assert_eq!(&frame[0..8], &xxhash_rust::xxh3::xxh3_64(&frame[8..]).to_be_bytes());
        assert_eq!(&frame[8..16], &(i as u64).to_be_bytes());
        assert_eq!(&frame[16..24], &0u64.to_be_bytes());
        assert_eq!(&frame[24..28], &31u32.to_be_bytes());
        let f = Fragment::try_from(frame).ok().unwrap();
        assert_eq!(f.chunk_sequence, i as u64);
        assert_eq!(f.sequence, 0);
        assert_eq!(f.size, 31);
    }
    assert_eq!(&frames[2][28..], b"opqrstu");
}

#[test]
fn fragment_hash_mismatch_is_invalid_data() {
    let mut encoder = FragmentEncoder::new(40);
    let mut frame = encoder.encode(b"abc").to_vec().remove(0);
    frame[30] ^= 1;
    assert!(matches!(Fragment::try_from(&frame), Err(FragmentError::InvalidData)));
    assert!(Fragment::try_decode(&[0u8; 5]).is_none());
}

#[test]
fn fragment_messages_reassemble() {
    let mut encoder = FragmentEncoder::new(40);
    let mut decoder = FragmentDecoder::new();
    let mut out = Vec::new();
    for message in [&b"first message that spans fragments"[..], b"second", b"third"] {
        for frame in encoder.encode(message).to_vec() {
            let f = Fragment::try_from(&frame).ok().unwrap();
            if let Some(done) = decoder.decode(f) {
                out.push(done);
            }
        }
    }
    assert_eq!(
        out,
        vec![(0u64, b"first message that spans fragments".to_vec()), (1u64, b"second".to_vec())]
    );
}

#[test]
fn remuxer_releases_in_sequence_order() {
    let mut remuxer = Remuxer::new(10);
    assert!(remuxer.remux_at(&[0, 2, b'c'], 0).is_empty());
    assert!(remuxer.remux_at(&[0, 1, b'b'], 1).is_empty());
    assert!(remuxer.remux_at(&[0, 3, b'd'], 2).is_empty());
    assert!(remuxer.remux_at(&[0, 0, b'a'], 5).is_empty());
    let out = remuxer.remux_at(&[0, 4, b'e'], 20).to_vec();
    assert_eq!(out, vec![b"a".to_vec(), b"b".to_vec(), b"c".to_vec(), b"d".to_vec()]);
    let out = remuxer.remux_at(&[0, 5, b'f'], 40).to_vec();
    assert_eq!(out, vec![b"e".to_vec()]);
}

#[test]
fn remuxer_with_no_delay_passes_through() {
    let mut remuxer = Remuxer::new(0);
    assert_eq!(remuxer.remux(&[0, 9, 1, 2]).to_vec(), vec![vec![1u8, 2]]);
}

#[test]
fn find_loss_cases() {
    assert_eq!(find_loss(&[]), None);
    assert_eq!(find_loss(&[1, 2, 3]), None);
    assert_eq!(find_loss(&[1, 3, 4, 6, 7]), None);
    assert_eq!(find_loss(&[1, 3, 5]), Some(3..0));
    assert_eq!(find_loss(&[1, 4, 5]), None);
    assert_eq!(find_loss(&[1, 4, 6, 7]), Some(4..6));
}

#[test]
fn dequeue_holds_and_releases_in_order() {
    let mut queue = Dequeue::new(50);
    assert_eq!(queue.rtt(), 25);
    queue.push_at(3, b"c".to_vec(), 0);
    queue.push_at(1, b"a".to_vec(), 0);
    queue.push_at(1, b"dup".to_vec(), 5);
    queue.push_at(2, b"b".to_vec(), 30);
    assert_eq!(queue.pop_at(49), None);
    assert_eq!(queue.pop_at(50), Some(b"a".to_vec()));
    assert_eq!(queue.pop_at(50), None);
    assert_eq!(queue.pop_at(80), Some(b"b".to_vec()));
    assert_eq!(queue.pop_at(80), Some(b"c".to_vec()));
    assert_eq!(queue.pop_at(1000), None);
    queue.update_at(100, 60);
    assert_eq!(queue.rtt(), 40);
    queue.update_at(60, 100);
    assert_eq!(queue.rtt(), u64::MAX - 39);
}

#[test]
fn dequeue_reports_loss() {
    let mut queue = Dequeue::new(50);
    for s in [7u64, 1, 6, 4] {
        queue.push_at(s, vec![s as u8], 0);
    }
    assert_eq!(queue.loss_range(), Some(4..6));
}

#[test]
fn queue_keeps_packets_for_lookup() {
    let mut queue = Queue::new(100);
    queue.push_at(7, b"seven".to_vec(), 0);
    queue.push_at(8, b"eight".to_vec(), 10);
    assert_eq!(queue.get(7), Some(b"seven".to_vec()));
    assert_eq!(queue.get(9), None);
    queue.push_at(9, b"nine".to_vec(), 105);
    assert_eq!(queue.get(7), None);
    assert_eq!(queue.get(8), Some(b"eight".to_vec()));
}

#[test]
fn sender_numbers_datagrams_and_wraps() {
    let mut sender = Sender::new(13);
    assert!(sender.send(b"").is_empty());
    let datagrams = sender.send(b"abcdefgh");
    assert_eq!(datagrams.len(), 2);
    match Packet::try_from(&datagrams[1]) {
        Ok(Packet::Bytes { sequence, chunk }) => {
            assert_eq!(sequence, 1);
            assert_eq!(chunk, vec![0, 1, b'e', b'f', b'g', b'h']);
        }
        _ => panic!("data packet"),
    }
    let mut sender = Sender::new(1400);
    for _ in 0..65535 {
        sender.send(b"x");
    }
    let last = sender.send(b"y");
    let next = sender.send(b"z");
    assert!(matches!(Packet::try_from(&last[0]), Ok(Packet::Bytes { sequence: 65535, .. })));
    assert!(matches!(Packet::try_from(&next[0]), Ok(Packet::Bytes { sequence: 0, .. })));
}

#[test]
fn receiver_delivers_what_the_sender_sent() {
    let mut sender = Sender::new(13);
    let mut receiver = Receiver::new();
    let mut out = Vec::new();
    let mut now = 0u64;
    for payload in [&b"first payload"[..], b"second", b"third"] {
        for datagram in sender.send(payload) {
            out.extend(receiver.receive_at(&datagram, now));
            now += 60;
        }
    }
    assert_eq!(out, vec![b"first payload".to_vec(), b"second".to_vec()]);
}

#[test]
fn receiver_reorders_within_the_delay() {
    let mut sender = Sender::new(13);
    let mut receiver = Receiver::new();
    let mut datagrams = sender.send(b"abcdefgh");
    datagrams.extend(sender.send(b"next"));
    assert!(receiver.receive_at(&datagrams[1], 0).is_empty());
    assert!(receiver.receive_at(&datagrams[0], 10).is_empty());
    assert!(receiver.receive_at(&datagrams[2], 20).is_empty());
    let out = receiver.receive_at(&Packet::Pong { timestamp: 5 }.into_bytes(), 100);
    assert!(out.is_empty());
    assert_eq!(receiver.rtt(), 95);
    let late = sender.send(b"later");
    assert_eq!(receiver.receive_at(&late[0], 100), vec![b"abcdefgh".to_vec()]);
}

#[test]
fn receiver_ignores_other_packets() {
    let mut receiver = Receiver::new();
    assert!(receiver.receive_at(&Packet::Ping { timestamp: 1 }.into_bytes(), 5).is_empty());
    assert_eq!(receiver.rtt(), 25);
    assert!(receiver.receive_at(&Packet::Pong { timestamp: 9 }.into_bytes(), 5).is_empty());
    assert_eq!(receiver.rtt(), 5u64.wrapping_sub(9));
    let mut bad = bytes_packet(0, &[0, 0, 1]);
    bad[0] ^= 1;
    assert!(receiver.receive_at(&bad, 5).is_empty());
}

#[test]
fn receiver_reports_held_gaps() {
    let mut receiver = Receiver::new();
    assert_eq!(receiver.loss_range(), None);
    for sequence in [1u16, 4, 6, 7] {
        let datagram = bytes_packet(sequence, &[0, 0, 9]);
        receiver.receive_at(&datagram, 0);
    }
    assert_eq!(receiver.loss_range(), Some(4..6));
}

#[test]
fn receiver_refuses_what_it_cannot_read() {
    let mut receiver = Receiver::new();
    assert_eq!(receiver.try_receive_at(&[1, 2], 0), None);
    assert_eq!(receiver.try_receive_at(&bytes_packet(3, &[7]), 0), None);
    assert_eq!(receiver.loss_range(), None);
    assert_eq!(receiver.try_receive_at(&bytes_packet(3, &[0, 0, 7]), 0), Some(vec![]));
    assert_eq!(receiver.try_receive_at(&bytes_packet(4, &[0, 0, 8]), 60), Some(vec![]));
    let next = receiver.try_receive_at(&bytes_packet(5, &[0, 0, 9]), 120);
    assert_eq!(next, Some(vec![vec![7u8]]));
}

#[test]
fn packet_decoder_ignores_a_damaged_group() {
    let mut decoder = PacketDecoder::default();
    assert_eq!(decoder.decode(&[0, 0, 1]), None);
    assert_eq!(decoder.decode(&[0, 2, 5]), None);
    assert_eq!(decoder.decode(&[0, 0, 7]), None);
    assert_eq!(decoder.decode(&[0, 0, 8]), Some(vec![7]));
}

#[test]
fn fragment_message_with_a_lost_fragment_is_dropped() {
    let mut encoder = FragmentEncoder::new(40);
    let mut decoder = FragmentDecoder::new();
    let first = encoder.encode(b"0123456789abcdefghijklmnopqrstu").to_vec();
    let second = encoder.encode(b"next").to_vec();
    for (i, frame) in first.iter().enumerate() {
        if i != 1 {
            assert_eq!(decoder.decode(Fragment::try_from(frame).ok().unwrap()), None);
        }
    }
    assert_eq!(decoder.decode(Fragment::try_from(&second[0]).ok().unwrap()), None);
}
