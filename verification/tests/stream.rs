use hylarana::checksum::fingerprint;
use hylarana::physeter::packet::{LinearDecoder, LinearEncoder, Packet};
use hylarana::srt::fragments::{FragmentDecoder, FragmentEncoder};
use hylarana::srt::options::{Options, SocketOption, TransType};

#[test]
fn srt_fragment_wire_form() {
    let mut encoder = FragmentEncoder::new(25);
    let frames = encoder.encode(b"abcdefghijkl").to_vec();
    assert_eq!(frames.len(), 3);
    for frame in &frames {
        assert_eq!(&frame[0..8], &xxhash_rust::xxh3::xxh3_64(&frame[8..]).to_be_bytes());
        assert_eq!(&frame[8..16], &0u64.to_be_bytes());
        assert_eq!(&frame[16..20], &12u32.to_be_bytes());
    }
    assert_eq!(&frames[0][20..], b"abcde");
    assert_eq!(&frames[2][20..], b"kl");
    let next = encoder.encode(b"x").to_vec();
    assert_eq!(&next[0][8..16], &1u64.to_be_bytes());
    assert!(encoder.encode(b"").is_empty());
}

#[test]
fn srt_fragments_reassemble() {
    let mut encoder = FragmentEncoder::new(25);
    let mut decoder = FragmentDecoder::new();
    let mut out = Vec::new();
    for message in [&b"a longer message here"[..], b"short", b"end"] {
        for frame in encoder.encode(message).to_vec() {
            if let Some(done) = decoder.decode(&frame) {
                out.push(done);
            }
        }
    }
    assert_eq!(out, vec![(0u64, b"a longer message here".to_vec()), (1u64, b"short".to_vec())]);
}

#[test]
fn srt_decoder_skips_a_damaged_fragment() {
    let mut encoder = FragmentEncoder::new(25);
    let mut decoder = FragmentDecoder::new();
    let mut frames = encoder.encode(b"abcdefgh").to_vec();
    frames[1][21] ^= 1;
    assert_eq!(decoder.decode(&frames[0]), None);
    assert_eq!(decoder.decode(&frames[1]), None);
    let next = encoder.encode(b"z").to_vec();
    assert_eq!(decoder.decode(&next[0]), None);
    assert_eq!(decoder.try_decode(&[1, 2, 3]), None);
}

#[test]
fn srt_decoder_gives_out_a_complete_message_cut_to_size() {
    let mut encoder = FragmentEncoder::new(25);
    let mut decoder = FragmentDecoder::new();
    let frames = encoder.encode(b"0123456789").to_vec();
    for frame in &frames {
        assert_eq!(decoder.try_decode(frame), Some(None));
    }
    let next = encoder.encode(b"n").to_vec();
    assert_eq!(decoder.try_decode(&next[0]), Some(Some((0, b"0123456789".to_vec()))));
}

#[test]
fn srt_default_options() {
    let options = Options::default();
    assert_eq!(options.fec, "fec,layout:even,rows:20,cols:10,arq:always");
    assert_eq!(options.max_bandwidth, -1);
    assert!(options.stream_id.is_none());
    assert_eq!(options.timeout, 5000);
    assert_eq!(options.latency, 120);
    assert_eq!(options.mtu, 1400);
    assert_eq!(options.fc, 25600);
    assert_eq!(options.max_pkt_size(), 1216);
}

#[test]
fn srt_socket_options_in_order() {
    let mut options = Options::default();
    let list = options.socket_options();
    assert_eq!(list.len(), 9);
    assert!(matches!(list[0], SocketOption::TransType(TransType::Live)));
    assert!(matches!(list[1], SocketOption::TsbpdMode(1)));
    assert!(matches!(list[2], SocketOption::TlPktDrop(1)));
    assert!(matches!(list[3], SocketOption::Fc(25600)));
    assert!(matches!(list[4], SocketOption::Mss(1400)));
    assert!(matches!(list[5], SocketOption::RcvLatency(120)));
    assert!(matches!(list[6], SocketOption::MaxBw(-1)));
    assert!(matches!(list[7], SocketOption::PeerIdleTimeout(5000)));
    assert!(matches!(&list[8], SocketOption::PacketFilter(f) if f == "fec,layout:even,rows:20,cols:10,arq:always"));
    options.stream_id = Some("room".to_string());
    let list = options.socket_options();
    assert_eq!(list.len(), 10);
    assert!(matches!(&list[9], SocketOption::StreamId(s) if s == "room"));
}

#[test]
fn physeter_packet_roundtrip() {
    let wire = Packet::Payload { group: 2, sequence: 0x0304, data: b"data".to_vec() }.into_bytes();
    assert_eq!(&wire[0..4], &fingerprint(&wire[4..]).to_be_bytes());
    assert_eq!(&wire[4..], &[3, 0, 2, 3, 4, b'd', b'a', b't', b'a']);
    match Packet::try_from(&wire) {
        Ok(Packet::Payload { group, sequence, data }) => {
            assert_eq!((group, sequence), (2, 0x0304));
            assert_eq!(data, b"data".to_vec());
        }
        _ => panic!("payload"),
    }
    match Packet::try_from(&Packet::Nack { range: 1..4 }.into_bytes()) {
        Ok(Packet::Nack { range }) => assert_eq!(range, 1..4),
        _ => panic!("nack"),
    }
    let mut broken = Packet::Ping { timestamp: 1 }.into_bytes();
    broken[12] ^= 1;
    assert!(Packet::try_from(&broken).is_err());
    assert!(Packet::try_decode(&[0, 0]).is_none());
}

#[test]
fn linear_encoder_cuts_full_payloads() {
    let mut encoder = LinearEncoder::new(12);
    encoder.push(b"ab");
    assert!(encoder.pop().is_none());
    encoder.push(b"cdefg");
    match encoder.pop() {
        Some(Packet::Payload { group, sequence, data }) => {
            assert_eq!((group, sequence), (0, 0));
            assert_eq!(data, b"abc".to_vec());
        }
        _ => panic!("first payload"),
    }
    match encoder.pop() {
        Some(Packet::Payload { sequence, data, .. }) => {
            assert_eq!(sequence, 1);
            assert_eq!(data, b"def".to_vec());
        }
        _ => panic!("second payload"),
    }
    assert!(encoder.pop().is_none());
    let _decoder = LinearDecoder::new();
}

#[test]
fn srt_apply_socket_stops_at_first_failure() {
    let options = Options::default();
    let seen = std::cell::RefCell::new(Vec::new());
    let result = options.apply_socket(|o| {
        seen.borrow_mut().push(format!("{:?}", std::mem::discriminant(o)));
        !matches!(o, SocketOption::Mss(_))
    });
    assert_eq!(result, Err(4));
    assert_eq!(seen.borrow().len(), 5);
    let count = std::cell::Cell::new(0);
    let result = options.apply_socket(|_| {
        count.set(count.get() + 1);
        true
    });
    assert_eq!(result, Ok(()));
    assert_eq!(count.get(), 9);
    let mut with_id = Options::default();
    with_id.stream_id = Some("room".to_string());
    let last = std::cell::RefCell::new(String::new());
    let result = with_id.apply_socket(|o| {
        if let SocketOption::StreamId(s) = o {
            *last.borrow_mut() = s.clone();
            false
        } else {
            true
        }
    });
    assert_eq!(result, Err(9));
    assert_eq!(*last.borrow(), "room");
}
