//! The QUIC client.

use std::sync::Arc;

use corduit::crypto::x25519_public;
use corduit::net::SocketAddr;
use corduit::protocol::quic::ack::{ack_intervals, count_named, is_named, AckQueue};
use corduit::protocol::quic::config::{ClientConfig, CongestionControl};
use corduit::protocol::quic::error::QuicError;
use corduit::protocol::quic::frame::{decode_frame, encode_frames, Frame, Outgoing};
use corduit::protocol::quic::obfs::{PacketObfs, Salamander, XPlus, SALT_LEN, XPLUS_SALT_LEN};
use corduit::protocol::quic::params::{
    encode_client_tp, parse_tp, read_varint, varint, TransportParameters,
};
use corduit::protocol::quic::protect::PacketKey;
use corduit::protocol::quic::recovery::{Recovery, INITIAL_CWND, INITIAL_RTT, MIN_CWND, MSS};
use corduit::protocol::quic::space::{PnSpace, SentPacket, Space};
use corduit::protocol::quic::streams::{RecvOutcome, StreamState};
use corduit::protocol::quic::tls13::Tls13Client;
use corduit::protocol::quic::transport::{
    first_packet_len, long_pn_offset, parse_retry, ConnState,
};
use blake2::digest::{consts::U32, Digest};
use courierust::courierust_quic::frame::Frame as OutsideFrame;
use courierust::courierust_quic::packet;
use courierust::courierust_quic::protection::PacketKey as OutsideKey;
use courierust::courierust_quic::varint as outside_varint;
use corduit::protocol::tls13::codec::cert_verify_content;
use corduit::protocol::tls13::key_schedule::{HandshakeSecrets, SuiteHash};
use courierust::courierust_tls::crypto::ed25519::Sha512;
use courierust::courierust_tls::crypto::hash::Digest as HashState;
use courierust::courierust_tls::crypto::x25519::x25519;
use courierust::courierust_tls::x509::RootStore;

// -- obfuscation ----------------------------------------------------------------------

#[test]
fn roundtrip_is_identity() {
    let obfs = Salamander::new(b"secret");
    let packet = b"\x00\x01\x02QUIC packet bytes";
    let wrapped = obfs.obfuscate_packet(packet);
    assert_eq!(wrapped.len(), packet.len() + SALT_LEN);
    assert_eq!(obfs.deobfuscate_packet(&wrapped).unwrap(), packet);
}

#[test]
fn salts_are_random_per_packet() {
    let obfs = Salamander::new(b"secret");
    let packet = b"same payload";
    let a = obfs.obfuscate_packet(packet);
    let b = obfs.obfuscate_packet(packet);
    // Different salt -> different ciphertext even for identical input.
    assert_ne!(a, b);
    assert_eq!(obfs.deobfuscate_packet(&a).unwrap(), packet);
    assert_eq!(obfs.deobfuscate_packet(&b).unwrap(), packet);
}

#[test]
fn short_packets_are_discarded() {
    let obfs = Salamander::new(b"secret");
    assert!(obfs.deobfuscate_packet(&[]).is_none());
    assert!(obfs.deobfuscate_packet(&[0u8; SALT_LEN - 1]).is_none());
}

#[test]
fn different_keys_do_not_cross_decode() {
    let a = Salamander::new(b"key-a");
    let b = Salamander::new(b"key-b");
    let wrapped = a.obfuscate_packet(b"payload");
    let decoded = b.deobfuscate_packet(&wrapped).unwrap();
    assert_ne!(decoded, b"payload");
}

#[test]
fn xplus_round_trips_and_uses_the_sixteen_byte_salt() {
    let obfs = XPlus::new(b"secret");
    let packet = b"\x00\x01\x02QUIC packet bytes";
    let wrapped = obfs.obfuscate_packet(packet);
    assert_eq!(wrapped.len(), packet.len() + XPLUS_SALT_LEN);
    assert_eq!(obfs.deobfuscate_packet(&wrapped).unwrap(), packet);

    assert!(obfs.deobfuscate_packet(&[]).is_none());
    assert!(obfs.deobfuscate_packet(&[0u8; XPLUS_SALT_LEN - 1]).is_none());
    // Exactly the salt with no payload is decodable to nothing.
    assert_eq!(obfs.deobfuscate_packet(&[0u8; XPLUS_SALT_LEN]).unwrap(), Vec::<u8>::new());
}

/// The two generations are different transforms. If a config names the
/// wrong one the datagram must not decode — a silent success here would
/// mean the two constructions had converged, which they have not.
#[test]
fn the_two_obfuscators_do_not_interoperate() {
    let packet = b"datagram";
    let salamander_wrapped = Salamander::new(b"secret").obfuscate_packet(packet);
    let xplus = XPlus::new(b"secret");
    assert_ne!(xplus.deobfuscate_packet(&salamander_wrapped), Some(packet.to_vec()));

    let xplus_wrapped = xplus.obfuscate_packet(packet);
    let salamander = Salamander::new(b"secret");
    assert_ne!(salamander.deobfuscate_packet(&xplus_wrapped), Some(packet.to_vec()));

    // And the wrapped sizes differ, because the salts do.
    assert_eq!(salamander_wrapped.len(), packet.len() + SALT_LEN);
    assert_eq!(xplus_wrapped.len(), packet.len() + XPLUS_SALT_LEN);
}

#[test]
fn the_enum_dispatches_to_the_variant_it_holds() {
    let packet = b"payload";
    let via_xplus = PacketObfs::XPlus(XPlus::new(b"k"));
    assert_eq!(
        via_xplus.deobfuscate_packet(&via_xplus.obfuscate_packet(packet)).unwrap(),
        packet
    );
    let via_salamander = PacketObfs::Salamander(Salamander::new(b"k"));
    assert_eq!(
        via_salamander.deobfuscate_packet(&via_salamander.obfuscate_packet(packet)).unwrap(),
        packet
    );
}

/// BLAKE2b-256 of key and salt, over a payload of zeros.
#[test]
fn the_mask_is_a_digest_of_key_and_salt() {
    let wrapped = Salamander::new(b"key").wrap(&[1; 8], &[0; 40]);
    let mut digest = blake2::Blake2b::<U32>::new();
    digest.update(b"key");
    digest.update([1; 8]);
    let mask = digest.finalize();
    assert_eq!(wrapped[..8], [1; 8]);
    assert_eq!(wrapped[8..40], mask[..]);
    assert_eq!(wrapped[40..48], mask[..8]);
}

// -- numbers and parameters --------------------------------------------------------------

#[test]
fn variable_length_integers_round_trip() {
    for v in [0u64, 63, 64, 16383, 16384, (1 << 30) - 1, 1 << 30, (1 << 62) - 1] {
        let bytes = varint(v);
        assert_eq!(bytes, outside_varint::encode(v));
        let mut pos = 0usize;
        assert_eq!(read_varint(&bytes, &mut pos).expect("a number"), v);
        assert_eq!(pos, bytes.len());
    }
    let mut pos = 0usize;
    assert!(matches!(read_varint(&[0x40], &mut pos), Err(QuicError::Protocol(_))));
    let mut pos = 0usize;
    assert!(read_varint(&[], &mut pos).is_err());
}

#[test]
fn transport_parameters_are_written_and_read() {
    let tp: TransportParameters = parse_tp(&[]).expect("no parameters");
    assert_eq!(tp.initial_max_data, 0);
    // A parameter: its number, its length, its value. A number is a varint.
    let read = parse_tp(&[4, 2, 0x44, 0xb0, 8, 1, 7, 0x0c, 0]).expect("parameters");
    assert_eq!(read.initial_max_data, 1200);
    assert_eq!(read.initial_max_streams_bidi, 7);
    assert!(read.disable_active_migration);
    assert!(parse_tp(&[4, 9, 1]).is_err());
    assert!(parse_tp(&[4, 2, 1, 0]).is_err());
    assert!(parse_tp(&[4, 1, 0x44]).is_err());
    assert!(parse_tp(&[4, 0]).is_err());
    assert!(parse_tp(&[]).is_ok());

    // What is written is read back.
    let sent = TransportParameters {
        initial_max_data: 1_000_000,
        initial_max_stream_data_uni: 1 << 40,
        initial_max_streams_bidi: 100,
        ..TransportParameters::default()
    };
    let read = parse_tp(&encode_client_tp(&sent, &[9, 9])).expect("parameters");
    assert_eq!(read.initial_max_data, 1_000_000);
    assert_eq!(read.initial_max_stream_data_uni, 1 << 40);
    assert_eq!(read.initial_max_streams_bidi, 100);
    assert_eq!(read.max_udp_payload_size, 1200);
    assert_eq!(read.ack_delay_exponent, 3);
    assert_eq!(read.max_ack_delay, 25);
    assert_eq!(read.initial_source_connection_id, vec![9, 9]);
    assert!(read.disable_active_migration);
}

#[test]
fn algorithms_are_named() {
    assert_eq!(CongestionControl::parse_str("New_Reno"), Some(CongestionControl::NewReno));
    assert_eq!(CongestionControl::parse_str("BBR"), Some(CongestionControl::Bbr));
    assert_eq!(CongestionControl::parse_str("cubic"), Some(CongestionControl::default()));
    assert_eq!(CongestionControl::parse_str("vegas"), None);
}

#[test]
fn errors_have_words() {
    for (error, text) in [
        (QuicError::Io("x".to_string()), "QUIC I/O error: x"),
        (QuicError::Timeout, "QUIC handshake timeout"),
        (
            QuicError::ClosedByPeer { error_code: 7, reason: "bye".to_string() },
            "QUIC closed by peer (code 7): bye",
        ),
        (QuicError::StreamReset { error_code: 3 }, "QUIC stream reset by peer (code 3)"),
        (QuicError::DatagramTooLarge, "QUIC datagram exceeds packet size"),
    ] {
        assert_eq!(error.message(), text);
        assert_eq!(error.copy().message(), text);
    }
}

// -- frames -----------------------------------------------------------------------------

#[test]
fn frames_are_written_and_read() {
    let frame = Outgoing::Crypto { offset: 5, data: b"abc".to_vec() };
    assert!(frame.is_encodable());
    let bytes = frame.encode();
    match decode_frame(&bytes).expect("a frame") {
        (Frame::Crypto { offset, data }, used) => {
            assert_eq!((offset, data, used), (5, b"abc".to_vec(), bytes.len()));
        }
        other => panic!("{other:?}"),
    }
    let frame = Outgoing::Stream { stream_id: 4, offset: 9, data: b"xy".to_vec(), fin: true };
    match decode_frame(&frame.encode()).expect("a frame").0 {
        Frame::Stream { stream_id, offset, data, fin } => {
            assert_eq!((stream_id, offset, data, fin), (4, Some(9), b"xy".to_vec(), true));
        }
        other => panic!("{other:?}"),
    }
    match decode_frame(&Outgoing::Datagram(vec![1, 2]).encode()).expect("a frame").0 {
        Frame::Datagram(data) => assert_eq!(data, vec![1, 2]),
        other => panic!("{other:?}"),
    }
    match decode_frame(&Outgoing::MaxStreamData { stream_id: 1, max: 70 }.encode()).unwrap().0 {
        Frame::MaxStreamData { stream_id, max } => assert_eq!((stream_id, max), (1, 70)),
        other => panic!("{other:?}"),
    }
    let both = encode_frames(&vec![Outgoing::Ping, Outgoing::MaxData(1)]).expect("bytes");
    assert_eq!(both, [Outgoing::Ping.encode(), Outgoing::MaxData(1).encode()].concat());
    assert!(encode_frames(&vec![Outgoing::MaxData(u64::MAX)]).is_none());
    assert!(decode_frame(&[0x06, 0x40]).is_err());
}

/// Stream frames carry their length, so several can stand in one packet.
#[test]
fn frames_in_one_packet_are_told_apart() {
    let first = Outgoing::Stream { stream_id: 0, offset: 1, data: b"one".to_vec(), fin: false };
    assert_eq!(first.encode(), b"\x0e\x00\x01\x03one");
    let second = Outgoing::Stream { stream_id: 4, offset: 2, data: b"two".to_vec(), fin: true };
    let last = Outgoing::Datagram(b"end".to_vec());
    let payload = encode_frames(&vec![first, second, Outgoing::Ping, last]).expect("bytes");
    let mut at = 0;
    let mut seen = Vec::new();
    while at < payload.len() {
        let (frame, used) = OutsideFrame::decode(&payload[at..]).expect("a frame");
        at += used;
        seen.push(match frame {
            OutsideFrame::Stream { stream_id, offset, data, fin, .. } => {
                (stream_id, offset.unwrap_or(0), data, fin)
            }
            OutsideFrame::Datagram { data, .. } => (8, 0, data, false),
            _ => (9, 0, Vec::new(), false),
        });
    }
    assert_eq!(
        seen,
        vec![
            (0, 1, b"one".to_vec(), false),
            (4, 2, b"two".to_vec(), true),
            (9, 0, Vec::new(), false),
            (8, 0, b"end".to_vec(), false),
        ]
    );
}

// -- acknowledgements ---------------------------------------------------------------------

#[test]
fn an_ack_names_what_was_received() {
    let mut queue = AckQueue::new();
    assert_eq!(queue.largest(), None);
    for pn in [1u64, 2, 3, 7, 8, 20, 7] {
        queue.insert(pn);
    }
    assert_eq!(queue.largest(), Some(20));
    assert!(queue.holds(7));
    assert!(!queue.holds(9));
    let ranges = queue.build_ack_ranges();
    let intervals = ack_intervals(20, &ranges);
    for pn in 0..30u64 {
        assert_eq!(is_named(&intervals, pn), queue.holds(pn), "{pn}");
    }
    assert_eq!(count_named(&intervals), 6);
    // The gap leaves out the two numbers at its ends.
    let mut queue = AckQueue::new();
    queue.insert(1);
    queue.insert(5);
    assert_eq!(queue.build_ack_ranges(), vec![(0, 0), (2, 0)]);
    assert_eq!(ack_intervals(5, &vec![(0, 0), (2, 0)]), vec![(5, 5), (1, 1)]);
    // A receiver reads the frame as it was sent.
    let ack = Outgoing::Ack { largest: 5, ranges: queue.build_ack_ranges() };
    assert!(matches!(
        OutsideFrame::decode(&ack.encode()).expect("a frame").0,
        OutsideFrame::Ack { largest_acked: 5, ranges, .. } if ranges == vec![(0, 0), (2, 0)]
    ));
}

#[test]
fn old_numbers_are_forgotten() {
    let mut queue = AckQueue::new();
    for pn in 0..300u64 {
        queue.insert(pn);
    }
    assert!(!queue.holds(43));
    assert!(queue.holds(44));
}

// -- streams ------------------------------------------------------------------------------

fn data(outcome: RecvOutcome) -> Vec<u8> {
    match outcome {
        RecvOutcome::Data(bytes) => bytes,
        other => panic!("{other:?}"),
    }
}

#[test]
fn a_stream_is_read_in_order() {
    let mut stream = StreamState::new(0, 1000);
    assert!(matches!(stream.read(10), RecvOutcome::WouldBlock));
    stream.on_data(5, b"world", true).expect("taken");
    assert!(matches!(stream.read(10), RecvOutcome::WouldBlock));
    stream.on_data(0, b"hello", false).expect("taken");
    assert!(stream.is_readable());
    assert_eq!(data(stream.read(3)), b"hel");
    // Twice received is received once.
    stream.on_data(2, b"llo", false).expect("taken");
    assert_eq!(data(stream.read(100)), b"loworld");
    assert!(matches!(stream.read(10), RecvOutcome::Eof));
    stream.on_reset(9);
    assert!(matches!(stream.read(10), RecvOutcome::Reset(9)));
}

/// Data that reaches into what is held ahead brings all of it in order.
#[test]
fn overlapping_data_is_joined() {
    let bytes: Vec<u8> = (0..40).collect();
    let mut stream = StreamState::new(0, 1000);
    stream.on_data(10, &bytes[10..20], false).expect("taken");
    stream.on_data(25, &bytes[25..30], false).expect("taken");
    assert!(matches!(stream.read(100), RecvOutcome::WouldBlock));
    stream.on_data(0, &bytes[..15], false).expect("taken");
    assert_eq!(data(stream.read(100)), bytes[..20]);
    // Past a whole segment, too.
    stream.on_data(18, &bytes[18..40], false).expect("taken");
    assert_eq!(data(stream.read(100)), bytes[20..]);
    assert!(matches!(stream.read(100), RecvOutcome::WouldBlock));
}

#[test]
fn a_peer_that_sends_too_much_is_refused() {
    let mut stream = StreamState::new(0, 10);
    match stream.on_data(8, b"abc", false) {
        Err(QuicError::Protocol(m)) => assert_eq!(m, "stream flow-control violation"),
        other => panic!("{other:?}"),
    }
    stream.on_data(0, b"abcdef", false).expect("taken");
    assert_eq!(stream.credit(), Some(15));
    assert_eq!(stream.credit(), None);
}

fn sent(frame: Option<Outgoing>) -> (u64, Vec<u8>, bool) {
    match frame {
        Some(Outgoing::Stream { offset, data, fin, .. }) => (offset, data, fin),
        other => panic!("{other:?}"),
    }
}

#[test]
fn what_is_written_is_sent_until_it_is_acknowledged() {
    let mut stream = StreamState::new(100, 0);
    assert_eq!(stream.write(b"abcdef").expect("written"), 6);
    stream.finish();
    assert!(stream.has_send_data());
    let (frame, used) = stream.take_frame(0, 100, 100, 4);
    assert_eq!((sent(frame), used), ((0, b"abcd".to_vec(), false), 4));
    let (frame, used) = stream.take_frame(0, 100, 100, 100);
    assert_eq!((sent(frame), used), ((4, b"ef".to_vec(), true), 2));
    assert!(!stream.has_send_data());
    // What is lost is sent again, and uses no credit again.
    stream.on_lost(4, true);
    let (frame, used) = stream.take_frame(0, 100, 100, 100);
    assert_eq!((sent(frame), used), ((4, b"ef".to_vec(), true), 0));
    stream.on_acked(0, 4, false);
    assert_eq!(stream.send_buffered(), 2);
    stream.on_acked(4, 2, true);
    assert_eq!(stream.send_buffered(), 0);
    // Limits are kept.
    stream.write(b"gh").expect("written");
    assert!(stream.take_frame(0, 6, 100, 100).0.is_none());
    assert!(stream.take_frame(0, 100, 0, 100).0.is_none());
    stream.on_reset(1);
    assert!(matches!(stream.write(b"x"), Err(QuicError::StreamReset { error_code: 0 })));
}

/// A lost frame is sent again though a later one was acknowledged before.
#[test]
fn a_lost_frame_is_sent_though_a_later_one_arrived() {
    let mut stream = StreamState::new(100, 0);
    stream.write(b"abcdef").expect("written");
    assert_eq!(sent(stream.take_frame(0, 100, 6, 3).0), (0, b"abc".to_vec(), false));
    assert_eq!(sent(stream.take_frame(0, 100, 3, 3).0), (3, b"def".to_vec(), false));
    stream.on_acked(3, 3, false);
    assert!(!stream.has_send_data());
    assert_eq!(stream.send_buffered(), 6);
    stream.on_lost(0, false);
    assert!(stream.has_send_data());
    // It was paid for before.
    let (frame, used) = stream.take_frame(0, 100, 0, 3);
    assert_eq!((sent(frame), used), ((0, b"abc".to_vec(), false), 0));
    stream.on_acked(0, 3, false);
    assert_eq!(stream.send_buffered(), 0);
    assert!(!stream.has_send_data());

    // The end may be acknowledged before what it ends.
    let mut stream = StreamState::new(6, 0);
    stream.write(b"abcdef").expect("written");
    assert_eq!(sent(stream.take_frame(0, 6, 6, 3).0), (0, b"abc".to_vec(), false));
    assert_eq!(sent(stream.take_frame(0, 6, 3, 3).0), (3, b"def".to_vec(), false));
    stream.finish();
    assert_eq!(sent(stream.take_frame(0, 6, 0, 3).0), (6, Vec::new(), true));
    stream.on_lost(6, true);
    assert_eq!(sent(stream.take_frame(0, 6, 0, 3).0), (6, Vec::new(), true));
    stream.on_acked(6, 0, true);
    stream.on_acked(0, 1, false);
    stream.on_acked(2, 1, false);
    stream.on_acked(4, 2, false);
    assert_eq!(stream.send_buffered(), 5);
    stream.on_lost(0, false);
    assert_eq!(sent(stream.take_frame(0, 6, 0, 2).0), (1, b"bc".to_vec(), false));
    assert_eq!(sent(stream.take_frame(0, 6, 0, 9).0), (3, b"def".to_vec(), false));
    // One range closes the last gap, and the position moves behind all of them.
    stream.on_acked(1, 3, false);
    assert_eq!(stream.send_buffered(), 0);
    assert!(!stream.has_send_data());
}

#[test]
fn a_full_buffer_refuses_more() {
    let mut stream = StreamState::new(0, 0);
    assert_eq!(stream.write(&vec![0; 5_000_000]).expect("written"), 4_194_304);
    assert!(matches!(stream.write(b"x"), Err(QuicError::StreamLimit)));
}

// -- recovery -------------------------------------------------------------------------------

#[test]
fn the_window_grows_and_shrinks() {
    let mut recovery = Recovery::new();
    assert_eq!(recovery.cwnd, INITIAL_CWND);
    assert_eq!(recovery.smoothed_rtt, INITIAL_RTT);
    recovery.on_acks_cc(2);
    assert_eq!(recovery.cwnd, INITIAL_CWND + 2 * MSS);
    recovery.on_loss(1_000_000);
    assert_eq!(recovery.cwnd, (INITIAL_CWND + 2 * MSS) / 2);
    let after = recovery.cwnd;
    recovery.on_loss(1_000_001);
    assert_eq!(recovery.cwnd, after, "one reduction in an episode");
    for n in 2..40u64 {
        recovery.on_loss(n * 10_000_000_000);
    }
    assert!(recovery.cwnd >= MIN_CWND);
}

#[test]
fn round_trips_are_smoothed() {
    let mut recovery = Recovery::new();
    recovery.on_sent(1200, 0);
    assert_eq!(recovery.bytes_in_flight, 1200);
    assert!(recovery.pto_due.is_some());
    recovery.sample_rtt(0, 0, 100_000_000);
    assert_eq!(recovery.latest_rtt, 100_000_000);
    assert!(recovery.smoothed_rtt < INITIAL_RTT);
    let period = recovery.pto_period();
    recovery.on_probe(0);
    assert_eq!(recovery.pto_count, 1);
    assert!(recovery.pto_period() >= period);
    assert!(!recovery.is_overdue(0, 1));
    assert!(recovery.is_overdue(0, u64::MAX));
    // A delay of 1000 is 8 milliseconds, which do not count.
    recovery.sample_rtt(0, 1000, 188_000_000);
    assert_eq!(recovery.latest_rtt, 188_000_000);
    assert_eq!(recovery.smoothed_rtt, 110_000_000);
    assert_eq!(recovery.rttvar, 57_500_000);
}

// -- packet number spaces --------------------------------------------------------------------

#[test]
fn crypto_data_is_sent_and_sent_again() {
    let mut space = Space::new();
    assert!(!space.has_crypto_to_send());
    assert!(space.build_ack().is_none());
    space.queue_crypto(b"hello");
    assert!(space.has_crypto_to_send());
    match space.crypto_frame(3) {
        Some(Outgoing::Crypto { offset, data }) => assert_eq!((offset, data), (0, b"hel".to_vec())),
        other => panic!("{other:?}"),
    }
    assert_eq!(PnSpace::Initial.index(), 0);
    assert_eq!(PnSpace::Application.index(), 2);
}

/// The same for the handshake: what is lost is sent again though more arrived.
#[test]
fn lost_crypto_data_is_sent_though_more_arrived() {
    let mut space = Space::new();
    space.queue_crypto(b"hello world");
    space.crypto_sent = 11;
    space.on_crypto_acked(6, 5);
    space.on_crypto_acked(2, 1);
    assert_eq!((space.crypto_acked, space.crypto_acked_ahead.clone()), (0, vec![(2, 3), (6, 11)]));
    space.on_crypto_lost(0);
    assert!(space.has_crypto_to_send());
    match space.crypto_frame(6) {
        Some(Outgoing::Crypto { offset, data }) => {
            assert_eq!((offset, data), (0, b"hello ".to_vec()));
        }
        other => panic!("{other:?}"),
    }
    space.on_crypto_acked(0, 6);
    assert_eq!((space.crypto_acked, space.crypto_acked_ahead.len()), (11, 0));
    assert!(!space.has_crypto_to_send());
}

/// Offsets count the whole stream, whatever was consumed of it.
#[test]
fn crypto_data_is_taken_however_it_is_split() {
    let mut space = Space::new();
    space.receive_crypto(0, b"abcd").expect("taken");
    space.consumed_crypto(3);
    space.receive_crypto(4, b"ef").expect("taken");
    assert_eq!(space.crypto_recv, b"def");
    // What came before is passed over, in part or whole.
    space.receive_crypto(1, b"bcdefg").expect("taken");
    assert_eq!(space.crypto_recv, b"defg");
    space.receive_crypto(0, b"ab").expect("taken");
    assert_eq!(space.crypto_recv, b"defg");
    space.consumed_crypto(4);
    assert_eq!(space.crypto_consumed, 7);
    assert_eq!(
        space.receive_crypto(8, b"i").unwrap_err().message(),
        "QUIC protocol error: CRYPTO gap from peer"
    );
    space.receive_crypto(7, b"hi").expect("taken");
    assert_eq!(space.crypto_recv, b"hi");
}

/// Discarded keys take what was sent under them out of flight.
#[test]
fn a_discarded_space_waits_for_nothing() {
    let mut space = Space::new();
    for (pn, size, in_flight) in [(0, 1200, true), (1, 50, false), (2, 300, true)] {
        space.sent.push_back(SentPacket {
            pn,
            time: 0,
            size,
            ack_eliciting: in_flight,
            in_flight,
            frames: Vec::new(),
        });
    }
    assert_eq!(space.discard(), 1500);
    assert!(space.sent.is_empty() && space.key.is_none() && space.write_key.is_none());
    assert_eq!(space.discard(), 0);
}

// -- the connection --------------------------------------------------------------------------

fn connection() -> ConnState {
    let config =
        ClientConfig::new(SocketAddr::V4([127, 0, 0, 1], 443), "example.com".to_string());
    ConnState::start(&config, RootStore::new(), 1_800_000_000, 0)
}

#[test]
fn a_fresh_connection_waits_for_the_handshake() {
    let mut connection = connection();
    assert!(!connection.handshake_complete());
    assert!(connection.closed().is_none());
    assert_eq!(connection.smoothed_rtt(), INITIAL_RTT);
    // The peer has allowed no stream yet.
    assert!(matches!(connection.open_bi(), Err(QuicError::StreamLimit)));
    assert!(matches!(connection.open_uni(), Err(QuicError::StreamLimit)));
    assert_eq!(connection.accept_uni_ready(), None);
    assert!(connection.pop_datagram().is_none());
}

#[test]
fn streams_open_as_the_peer_allows() {
    let mut connection = connection();
    connection
        .process_frame(
            PnSpace::Application,
            Frame::MaxStreams { unidirectional: false, max: 2 },
            0,
        )
        .expect("taken");
    assert_eq!(connection.open_bi().expect("opened"), 0);
    assert_eq!(connection.open_bi().expect("opened"), 4);
    assert!(matches!(connection.open_bi(), Err(QuicError::StreamLimit)));
    assert_eq!(connection.send_data(0, b"abc").expect("queued"), 3);
    assert_eq!(connection.send_buffered(0), 3);
    connection.fin_stream(0).expect("finished");
    assert!(matches!(connection.recv_into(0, 10), RecvOutcome::WouldBlock));
}

#[test]
fn datagrams_wait_for_their_reader() {
    let mut connection = connection();
    connection
        .process_frame(PnSpace::Application, Frame::Datagram(vec![1, 2, 3]), 0)
        .expect("taken");
    assert_eq!(connection.pop_datagram(), Some(vec![1, 2, 3]));
    assert_eq!(connection.pop_datagram(), None);
    assert!(connection.send_datagram(vec![0; 1000]).is_ok());
    assert!(matches!(
        connection.send_datagram(vec![0; 1200]),
        Err(QuicError::DatagramTooLarge)
    ));
}

#[test]
fn an_opened_stream_takes_what_was_advertised() {
    let mut connection = connection();
    let more = Frame::MaxStreams { unidirectional: false, max: 2 };
    connection.process_frame(PnSpace::Application, more, 0).expect("taken");
    let id = connection.open_bi().expect("a stream");
    connection.on_stream(id, 0, b"from the server", false).expect("within the window");
    assert_eq!(data(connection.recv_into(id, 100)), b"from the server");
}

#[test]
fn a_closed_connection_stays_closed() {
    let mut connection = connection();
    let _ = connection.process_frame(
        PnSpace::Application,
        Frame::ConnectionClose { error_code: 5, reason: b"done".to_vec() },
        0,
    );
    let text = connection.closed().expect("closed").message();
    assert_eq!(text, "QUIC closed by peer (code 5): done");
    connection.close(None);
    assert_eq!(connection.closed().expect("closed").message(), text);
    assert_eq!(connection.send_datagram(vec![1]).unwrap_err().message(), text);
    assert_eq!(connection.open_bi().unwrap_err().message(), text);
}

/// The first datagram holds the `ClientHello`, in an Initial packet that the server reads.
#[test]
fn the_first_packet_goes_out() {
    let config =
        ClientConfig::new(SocketAddr::V4([127, 0, 0, 1], 443), "example.com".to_string());
    let mut connection =
        ConnState::with_ids(&config, handshake(), SCID.to_vec(), DCID.to_vec(), 0);
    let out = connection.on_quiet(1_000_000);
    assert_eq!(out.len(), 1);
    let mut bytes = out[0].clone();
    let key = OutsideKey::initial(&DCID, false).expect("key");
    let at = long_pn_offset(&bytes).expect("a long header");
    let pn_len = key.unprotect_header(&mut bytes, at, true).expect("header");
    // The length counts what stands behind it.
    let (length, used) = outside_varint::decode(&bytes[at - 2..]).expect("length");
    assert_eq!(used, 2);
    assert_eq!(length as usize, bytes.len() - at);
    let plain = key.open(0, &bytes[..at + pn_len], &bytes[at + pn_len..]).expect("opened");
    // It fills its datagram: padding, then the message.
    assert_eq!(out[0].len(), 1200);
    let (padding, used) = OutsideFrame::decode(&plain).expect("padding");
    assert!(matches!(padding, OutsideFrame::Padding(n) if n == used));
    let (frame, rest) = OutsideFrame::decode(&plain[used..]).expect("a frame");
    assert_eq!(used + rest, plain.len());
    assert!(matches!(
        frame,
        OutsideFrame::Crypto { offset: 0, data } if &data == handshake().client_hello()
    ));
    // Nothing of it waits.
    assert!(connection.on_quiet(2_000_000).is_empty());
}

/// A long `ClientHello` takes several packets, each of them full, whatever the identifiers.
#[test]
fn a_long_hello_takes_several_packets() {
    let config =
        ClientConfig::new(SocketAddr::V4([127, 0, 0, 1], 443), "example.com".to_string());
    let names: Vec<String> = (0..100).map(|i| format!("a-protocol-with-a-name-{i}")).collect();
    let tls = handshake_with(&names);
    let hello = tls.client_hello().clone();
    assert!(hello.len() > 2000);
    let dcid = [6; 20];
    let mut connection = ConnState::with_ids(&config, tls, vec![5; 20], dcid.to_vec(), 0);
    let out = connection.on_quiet(1_000_000);
    assert_eq!(out.len(), hello.len().div_ceil(1123));
    let key = OutsideKey::initial(&dcid, false).expect("key");
    let mut whole = Vec::new();
    for datagram in out {
        assert_eq!(datagram.len(), 1200);
        for frame in handshake_frames(&key, &datagram) {
            if let OutsideFrame::Crypto { offset, data } = frame {
                assert_eq!(offset as usize, whole.len());
                whole.extend(data);
            }
        }
    }
    assert_eq!(whole, hello);
}

#[test]
fn timeouts_close_the_connection() {
    let mut connection = connection();
    assert!(connection.on_quiet(1_000_000).iter().all(|d| d.len() <= 1200));
    connection.on_timer(15_000_000_001);
    assert_eq!(connection.closed().expect("closed").message(), "QUIC handshake timeout");
}

#[test]
fn noise_is_no_datagram_of_the_connection() {
    let mut connection = connection();
    let obfs = Some(Arc::new(Salamander::new(b"k")));
    assert_eq!(connection.on_quiet(0).len(), 1, "the ClientHello");
    assert!(connection.on_datagram(&[1, 2, 3], &obfs, 0).is_empty());
    let _ = connection.on_datagram(&[], &None, 0);
    assert_eq!(long_pn_offset(&[0xc0]), None);
    assert!(parse_retry(&[0xf0, 0, 0, 0, 1]).is_err());
}

// -- a connection with a server --------------------------------------------------------------

const SCID: [u8; 8] = [1; 8];
const DCID: [u8; 8] = [2; 8];
const SERVER_CID: [u8; 8] = [3; 8];

fn handshake() -> Tls13Client {
    handshake_with(&vec!["h3".to_string()])
}

fn handshake_with(alpn: &Vec<String>) -> Tls13Client {
    Tls13Client::with_entropy(
        "example.com".to_string(),
        alpn,
        true,
        RootStore::new(),
        1_800_000_000,
        &parse_tp(&[]).expect("no parameters"),
        &SCID,
        [7; 32],
        &[8; 32],
    )
}

fn message(kind: u8, body: &[u8]) -> Vec<u8> {
    let mut out = vec![kind, 0, (body.len() >> 8) as u8, body.len() as u8];
    out.extend_from_slice(body);
    out
}

/// A `ServerHello` that picks AES-128-GCM and X25519.
fn server_hello() -> Vec<u8> {
    let mut body = vec![3, 3];
    body.extend_from_slice(&[0x55; 32]);
    body.extend_from_slice(&[0, 0x13, 0x01, 0]);
    let mut share = vec![0x00, 0x33, 0, 36, 0x00, 0x1d, 0, 32];
    share.extend_from_slice(&x25519_public(&[9; 32]));
    body.extend_from_slice(&(share.len() as u16).to_be_bytes());
    body.extend_from_slice(&share);
    message(2, &body)
}

/// `EncryptedExtensions` with a protocol and with transport parameters.
fn encrypted_extensions() -> Vec<u8> {
    let exts = [
        vec![0x00, 0x10, 0, 5, 0, 3, 2, b'h', b'3'],
        vec![0x00, 0x39, 0, 11, 4, 2, 0x43, 0xe8, 8, 1, 1, 6, 2, 0x41, 0xf4],
    ]
    .concat();
    let mut body = (exts.len() as u16).to_be_bytes().to_vec();
    body.extend_from_slice(&exts);
    message(8, &body)
}

/// The base point of the curve, the public key whose private scalar is one.
const BASE_POINT: [u8; 32] = [
    0x58, 0x66, 0x66, 0x66, 0x66, 0x66, 0x66, 0x66, 0x66, 0x66, 0x66, 0x66, 0x66, 0x66, 0x66, 0x66,
    0x66, 0x66, 0x66, 0x66, 0x66, 0x66, 0x66, 0x66, 0x66, 0x66, 0x66, 0x66, 0x66, 0x66, 0x66, 0x66,
];

/// The order of the base point, lowest limb first.
const ORDER: [u64; 4] =
    [0x5812_631a_5cf5_d3ed, 0x14de_f9de_a2f7_9cd6, 0, 0x1000_0000_0000_0000];

/// Twice `n` and a bit, less the order where that goes.
fn doubled(n: [u64; 4], bit: u64) -> [u64; 4] {
    let mut out = [0u64; 4];
    let mut carry = bit;
    for i in 0..4 {
        out[i] = n[i] << 1 | carry;
        carry = n[i] >> 63;
    }
    let less = (0..4).rev().find(|&i| out[i] != ORDER[i]).is_some_and(|i| out[i] < ORDER[i]);
    if less {
        return out;
    }
    let mut borrow = false;
    for i in 0..4 {
        let (d, a) = out[i].overflowing_sub(ORDER[i]);
        let (d, b) = d.overflowing_sub(borrow as u64);
        out[i] = d;
        borrow = a || b;
    }
    out
}

/// An Ed25519 signature under the key whose private scalar is one, with a nonce of one.
fn signed(message: &[u8]) -> Vec<u8> {
    let mut hasher = Sha512::new();
    hasher.update(&BASE_POINT);
    hasher.update(&BASE_POINT);
    hasher.update(message);
    let digest = hasher.finalize();
    let mut n = [0u64; 4];
    for byte in digest.iter().rev() {
        for shift in (0..8).rev() {
            n = doubled(n, (byte >> shift & 1) as u64);
        }
    }
    // One more; the lowest limb of the order is far from the last value.
    let mut carry = 1u64;
    for limb in n.iter_mut() {
        let (sum, over) = limb.overflowing_add(carry);
        *limb = sum;
        carry = over as u64;
    }
    let mut out = BASE_POINT.to_vec();
    for limb in n {
        out.extend_from_slice(&limb.to_le_bytes());
    }
    out
}

fn tlv(tag: u8, parts: &[&[u8]]) -> Vec<u8> {
    let content = parts.concat();
    let mut out = vec![tag];
    if content.len() >= 0x80 {
        out.push(0x81);
    }
    out.push(content.len() as u8);
    out.extend_from_slice(&content);
    out
}

/// A certificate for that key.
fn certificate() -> Vec<u8> {
    let alg = tlv(0x30, &[&tlv(0x06, &[&[0x2b, 0x65, 0x70]])]);
    let name = tlv(0x30, &[]);
    let validity =
        tlv(0x30, &[&tlv(0x17, &[b"200101000000Z"]), &tlv(0x17, &[b"491231235959Z"])]);
    let key = tlv(0x30, &[&alg, &tlv(0x03, &[&[0], &BASE_POINT])]);
    let tbs = tlv(
        0x30,
        &[&tlv(0xa0, &[&tlv(2, &[&[2]])]), &tlv(2, &[&[1]]), &alg, &name, &validity, &name, &key],
    );
    tlv(0x30, &[&tbs, &alg, &tlv(0x03, &[&[0], &[7; 64]])])
}

/// `Certificate` with that certificate.
fn certificate_message() -> Vec<u8> {
    let cert = certificate();
    let mut list = vec![0, 0, cert.len() as u8];
    list.extend_from_slice(&cert);
    list.extend_from_slice(&[0, 0]);
    let mut body = vec![0, 0, (list.len() >> 8) as u8, list.len() as u8];
    body.extend_from_slice(&list);
    message(11, &body)
}

/// `CertificateVerify` over a transcript.
fn certificate_verify(transcript: &[u8]) -> Vec<u8> {
    let content = cert_verify_content(&SuiteHash::Sha256.hash(transcript), false);
    let mut body = vec![0x08, 0x07, 0, 64];
    body.extend_from_slice(&signed(&content));
    message(15, &body)
}

/// `Finished` of the server over a transcript.
fn finished(secret: &[u8], transcript: &[u8]) -> Vec<u8> {
    let hash = SuiteHash::Sha256;
    message(20, &hash.hmac(&hash.finished_key(secret), &hash.hash(transcript)))
}

fn secret(key: &Option<PacketKey>) -> Vec<u8> {
    match key {
        Some(PacketKey::Traffic { suite: 0x1301, secret }) => secret.clone(),
        other => panic!("{other:?}"),
    }
}

/// The server's packet with the given frames.
fn server_packet(kind: packet::LongType, key: &OutsideKey, pn: u64, frames: &[OutsideFrame]) -> Vec<u8> {
    let mut plain: Vec<u8> = frames.iter().flat_map(|f| f.to_bytes()).collect();
    plain.resize(plain.len().max(32), 0);
    let header = packet::encode_long(
        kind,
        &SCID,
        &SERVER_CID,
        pn,
        2,
        &[],
        (2 + plain.len() + 16) as u64,
    )
    .expect("header");
    let mut out = header.clone();
    out.extend(key.seal(pn, &header, &plain).expect("sealed"));
    key.protect_header(&mut out, header.len() - 2, true).expect("protected");
    out
}

/// The frames of a packet that the client sent with a short header.
fn client_frames(key: &OutsideKey, datagram: &[u8]) -> Vec<OutsideFrame> {
    let mut bytes = datagram.to_vec();
    assert_eq!(bytes[1..9], SERVER_CID, "it goes to the server's own identifier");
    let pn_len = key.unprotect_header(&mut bytes, 9, false).expect("header");
    let pn = bytes[9..9 + pn_len].iter().fold(0u64, |n, b| n << 8 | *b as u64);
    let plain = key.open(pn, &bytes[..9 + pn_len], &bytes[9 + pn_len..]).expect("opened");
    let mut frames = Vec::new();
    let mut at = 0;
    while at < plain.len() {
        let (frame, used) = OutsideFrame::decode(&plain[at..]).expect("a frame");
        frames.push(frame);
        at += used;
    }
    frames
}

/// The frames of a packet that the client sent in the Handshake space.
fn handshake_frames(key: &OutsideKey, datagram: &[u8]) -> Vec<OutsideFrame> {
    let mut bytes = datagram.to_vec();
    let at = long_pn_offset(&bytes).expect("a long header");
    let pn_len = key.unprotect_header(&mut bytes, at, true).expect("header");
    let pn = bytes[at..at + pn_len].iter().fold(0u64, |n, b| n << 8 | *b as u64);
    let plain = key.open(pn, &bytes[..at + pn_len], &bytes[at + pn_len..]).expect("opened");
    let mut frames = Vec::new();
    let mut at = 0;
    while at < plain.len() {
        let (frame, used) = OutsideFrame::decode(&plain[at..]).expect("a frame");
        frames.push(frame);
        at += used;
    }
    frames
}

/// A connection through its handshake, and the keys of its application packets.
fn established() -> (ConnState, OutsideKey, OutsideKey) {
    established_in(&[], false)
}

/// The same, where the server's flight comes in pieces that end at the given offsets, the
/// first of them in one datagram with the `ServerHello` where `together` says so.
fn established_in(cuts: &[usize], together: bool) -> (ConnState, OutsideKey, OutsideKey) {
    let config =
        ClientConfig::new(SocketAddr::V4([127, 0, 0, 1], 443), "example.com".to_string());
    let mut twin = handshake();
    let mut connection =
        ConnState::with_ids(&config, handshake(), SCID.to_vec(), DCID.to_vec(), 0);

    let initial = OutsideKey::initial(&DCID, true).expect("key");
    let hello = server_hello();
    twin.consume_crypto(&hello).expect("taken");
    let crypto = OutsideFrame::Crypto { offset: 0, data: hello.clone() };
    let first = server_packet(packet::LongType::Initial, &initial, 0, &[crypto]);
    assert_eq!(first_packet_len(&first), first.len());
    let mut shared = Vec::new();
    if together {
        shared = first;
    } else {
        let out = connection.on_datagram(&first, &None, 1_000_000);
        assert!(connection.closed().is_none());
        assert!(!connection.handshake_complete());
        // Nothing has to be said in the Handshake space yet.
        assert!(out.iter().all(|d| d[0] >> 4 == 0xc && d.len() == 1200));
    }

    let server_secret = secret(twin.hs_read());
    let extensions = encrypted_extensions();
    let cert = certificate_message();
    let mut transcript =
        [twin.client_hello().clone(), hello, extensions.clone(), cert.clone()].concat();
    let verify = certificate_verify(&transcript);
    transcript.extend_from_slice(&verify);
    let flight = [extensions, cert, verify, finished(&server_secret, &transcript)].concat();
    twin.consume_crypto(&flight).expect("taken");
    assert!(twin.is_complete());
    assert_eq!(twin.negotiated_alpn().as_deref(), Some(&b"h3"[..]));
    assert_eq!(twin.peer_tp().as_ref().expect("parameters").initial_max_data, 1000);

    let key = OutsideKey::from_secret(0x1301, &server_secret).expect("key");
    let mut from = 0;
    let mut out = Vec::new();
    for (pn, to) in cuts.iter().copied().chain([flight.len()]).enumerate() {
        assert!(!connection.handshake_complete());
        let crypto = OutsideFrame::Crypto { offset: from as u64, data: flight[from..to].to_vec() };
        let packet = server_packet(packet::LongType::Handshake, &key, pn as u64, &[crypto]);
        let datagram = [std::mem::take(&mut shared), packet].concat();
        out.extend(connection.on_datagram(&datagram, &None, 2_000_000));
        assert!(connection.closed().is_none());
        from = to;
    }
    assert!(connection.handshake_complete());
    // The client's Finished is all that the Handshake space carries.
    let key = OutsideKey::from_secret(0x1301, &secret(twin.hs_write())).expect("key");
    let said: Vec<(u64, Vec<u8>)> = out
        .iter()
        .filter(|d| d[0] >> 4 == 0xe)
        .flat_map(|d| handshake_frames(&key, d))
        .filter_map(|f| match f {
            OutsideFrame::Crypto { offset, data } => Some((offset, data)),
            _ => None,
        })
        .collect();
    assert_eq!(said, vec![(0, twin.take_crypto_pending()[twin.client_hello().len()..].to_vec())]);
    assert_eq!(said[0].1[..4], [20, 0, 0, 32]);
    (
        connection,
        OutsideKey::from_secret(0x1301, &secret(twin.app_write())).expect("key"),
        OutsideKey::from_secret(0x1301, &secret(twin.app_read())).expect("key"),
    )
}

#[test]
fn a_handshake_completes_and_datagrams_travel() {
    let (mut connection, write, read) = established();
    connection.send_datagram(b"to the server".to_vec()).expect("queued");
    let out = connection.on_quiet(3_000_000);
    assert_eq!(out.len(), 1);
    assert!(client_frames(&write, &out[0])
        .iter()
        .any(|f| matches!(f, OutsideFrame::Datagram { data, .. } if data == b"to the server")));

    // A packet of the server: its datagram is delivered, and it is acknowledged.
    let plain = [
        OutsideFrame::Ping.to_bytes(),
        OutsideFrame::Datagram { data: vec![6; 30], length: None }.to_bytes(),
    ]
    .concat();
    let header = packet::encode_short(&SCID, 1, 2, false).expect("header");
    let mut bytes = header.clone();
    bytes.extend(read.seal(1, &header, &plain).expect("sealed"));
    read.protect_header(&mut bytes, header.len() - 2, false).expect("protected");
    let out = connection.on_datagram(&bytes, &None, 4_000_000);
    assert_eq!(connection.pop_datagram(), Some(vec![6; 30]));
    assert_eq!(out.len(), 1);
    assert!(client_frames(&write, &out[0])
        .iter()
        .any(|f| matches!(f, OutsideFrame::Ack { largest_acked: 1, .. })));

    // The same packet again is dropped.
    let out = connection.on_datagram(&bytes, &None, 5_000_000);
    assert!(out.is_empty());
    assert_eq!(connection.pop_datagram(), None);

    // So is one whose tag is wrong.
    let header = packet::encode_short(&SCID, 2, 2, false).expect("header");
    let mut bytes = header.clone();
    bytes.extend(read.seal(2, &header, &plain).expect("sealed"));
    read.protect_header(&mut bytes, header.len() - 2, false).expect("protected");
    let last = bytes.len() - 1;
    bytes[last] ^= 1;
    connection.on_datagram(&bytes, &None, 6_000_000);
    assert_eq!(connection.pop_datagram(), None);
    assert!(connection.closed().is_none());
}

/// The server's flight may come in pieces that end anywhere.
#[test]
fn a_handshake_completes_however_its_flight_is_split() {
    established_in(&[7, 8, 60, 200, 300], false);
    established_in(&[1], false);
}

/// Several packets may share a datagram.
#[test]
fn packets_share_a_datagram() {
    established_in(&[], true);
    established_in(&[100], true);
    // A short header, and what is no packet of this version, take the rest.
    assert_eq!(first_packet_len(&[0x40, 1, 2, 3, 4, 5, 6, 7]), 8);
    assert_eq!(first_packet_len(&[0xc0, 0, 0, 0, 2, 0, 0, 0, 0, 0]), 10);
    // Version 1, no identifiers, no token, a length of 2.
    assert_eq!(first_packet_len(&[0xc0, 0, 0, 0, 1, 0, 0, 0, 2, 9, 9, 0xe0]), 11);
    assert_eq!(first_packet_len(&[]), 0);
}

/// A probe timeout brings one PING, in a packet of its own where nothing else is left.
#[test]
fn a_probe_asks_the_peer_to_answer() {
    let (mut connection, write, _) = established();
    let mut pings = |now: u64| -> usize {
        connection
            .on_quiet(now)
            .iter()
            .filter(|d| d[0] & 0x80 == 0)
            .flat_map(|d| client_frames(&write, d))
            .filter(|f| matches!(f, OutsideFrame::Ping))
            .count()
    };
    assert_eq!(pings(3_000_000), 0);
    assert_eq!(pings(5_000_000_000), 1);
    assert_eq!(pings(5_000_000_001), 0);
}

/// The server's transport parameters allow a stream, and so many bytes on it.
#[test]
fn a_stream_sends_what_the_server_allows() {
    let (mut connection, write, _) = established();
    let id = connection.open_bi().expect("one stream is allowed");
    assert!(matches!(connection.open_bi(), Err(QuicError::StreamLimit)));
    assert_eq!(connection.send_data(id, &[9; 800]).expect("buffered"), 800);
    let sent = |out: Vec<Vec<u8>>| -> Vec<(u64, usize)> {
        out.iter()
            .flat_map(|d| client_frames(&write, d))
            .filter_map(|f| match f {
                OutsideFrame::Stream { stream_id, offset, data, .. } if stream_id == id => {
                    Some((offset.unwrap_or(0), data.len()))
                }
                _ => None,
            })
            .collect()
    };
    assert_eq!(sent(connection.on_quiet(3_000_000)), vec![(0, 500)]);
    // More once the server raises the limit.
    let more = Frame::MaxStreamData { stream_id: id, max: 700 };
    connection.process_frame(PnSpace::Application, more, 4_000_000).expect("taken");
    assert_eq!(sent(connection.on_quiet(4_000_000)), vec![(500, 200)]);
}

/// An ACK frame that names a later packet makes what an earlier one carried go out again.
#[test]
fn lost_packets_are_sent_again() {
    let (mut connection, write, _) = established();
    let id = connection.open_bi().expect("a stream");
    let frames = |out: Vec<Vec<u8>>| -> Vec<OutsideFrame> {
        out.iter().flat_map(|d| client_frames(&write, d)).collect()
    };
    // Packet 0: more than half of a window is used, so the server may send more.
    let config =
        ClientConfig::new(SocketAddr::V4([127, 0, 0, 1], 443), "example.com".to_string());
    let half = vec![0; config.initial_max_stream_data as usize / 2 + 1];
    connection.on_stream(id, 0, &half, false).expect("within the window");
    connection.send_data(id, b"first").expect("buffered");
    let out = frames(connection.on_quiet(3_000_000));
    let raised = |f: &OutsideFrame| matches!(f, OutsideFrame::MaxStreamData { stream_id, .. } if *stream_id == id);
    assert_eq!(out.iter().filter(|f| raised(f)).count(), 1);
    // Packet 1.
    connection.send_data(id, b" second").expect("buffered");
    frames(connection.on_quiet(4_000_000));
    let ack = Frame::Ack { largest: 1, delay: 0, ranges: vec![(0, 0)] };
    connection.process_frame(PnSpace::Application, ack, 2_000_000_000).expect("taken");
    let out = frames(connection.on_quiet(2_000_000_001));
    assert_eq!(out.iter().filter(|f| raised(f)).count(), 1);
    assert!(out.iter().any(|f| matches!(
        f,
        OutsideFrame::Stream { offset: Some(0), data, .. } if data.starts_with(b"first")
    )));
    // All arrived: nothing is left.
    let ack = Frame::Ack { largest: 2, delay: 0, ranges: vec![(0, 2)] };
    connection.process_frame(PnSpace::Application, ack, 2_000_000_002).expect("taken");
    assert_eq!(connection.send_buffered(id), 0);
}

/// CRYPTO data is acknowledged in its own space: the server has the client's Finished, and
/// the whole `ClientHello` is sent again.
#[test]
fn an_acknowledged_finished_leaves_the_hello() {
    let (mut connection, _, _) = established();
    let ack = Frame::Ack { largest: 1, delay: 0, ranges: vec![(0, 1)] };
    connection.process_frame(PnSpace::Handshake, ack, 3_000_000).expect("taken");
    let ack = Frame::Ack { largest: 5, delay: 0, ranges: vec![(0, 0)] };
    connection.process_frame(PnSpace::Initial, ack, 3_000_000_000).expect("taken");
    let key = OutsideKey::initial(&DCID, false).expect("key");
    let said: Vec<(u64, Vec<u8>)> = connection
        .on_quiet(3_000_000_001)
        .iter()
        .filter(|d| d[0] >> 4 == 0xc)
        .flat_map(|d| handshake_frames(&key, d))
        .filter_map(|f| match f {
            OutsideFrame::Crypto { offset, data } => Some((offset, data)),
            _ => None,
        })
        .collect();
    assert_eq!(said, vec![(0, handshake().client_hello().clone())]);
}

/// Behind the handshake a ticket is passed over, and its keys do not come back.
#[test]
fn a_ticket_changes_nothing() {
    let (mut connection, _, _) = established();
    connection.process_frame(PnSpace::Application, Frame::HandshakeDone, 3_000_000).expect("taken");
    let ticket = message(4, &[7; 40]);
    let crypto = Frame::Crypto { offset: 0, data: ticket.clone() };
    connection.process_frame(PnSpace::Application, crypto, 4_000_000).expect("passed over");
    assert!(connection.closed().is_none());
    // Nothing of the handshake is sent again.
    assert!(connection.on_quiet(5_000_000_000).iter().all(|d| d[0] & 0x80 == 0));
    // Before its end it is out of place.
    assert_eq!(
        handshake().consume_crypto(&ticket).unwrap_err().message(),
        "QUIC protocol error: unexpected handshake message type 4"
    );
}

/// The secrets of a handshake follow RFC 8446 section 7.1 from the key exchange on.
#[test]
fn the_secrets_follow_the_key_schedule() {
    let (connection, _, _) = established();
    assert!(connection.handshake_complete());
    let mut client = handshake();
    let hello = server_hello();
    client.consume_crypto(&hello).expect("taken");
    let mut transcript = [client.client_hello().clone(), hello].concat();
    let shared = x25519(&[7; 32], &x25519_public(&[9; 32]));
    let secrets =
        HandshakeSecrets::new(0x1301, &shared, &SuiteHash::Sha256.hash(&transcript));
    assert_eq!(secret(client.hs_read()), secrets.server_hs_traffic);
    assert_eq!(secret(client.hs_write()), secrets.client_hs_traffic);
    for msg in [encrypted_extensions(), certificate_message()] {
        client.consume_crypto(&msg).expect("taken");
        transcript.extend_from_slice(&msg);
    }
    let verify = certificate_verify(&transcript);
    client.consume_crypto(&verify).expect("taken");
    transcript.extend_from_slice(&verify);
    let last = finished(&secrets.server_hs_traffic, &transcript);
    client.consume_crypto(&last).expect("taken");
    transcript.extend_from_slice(&last);
    let app = secrets.application(&SuiteHash::Sha256.hash(&transcript));
    assert_eq!(secret(client.app_read()), app.server_app_traffic);
    assert_eq!(secret(client.app_write()), app.client_app_traffic);
    assert!(client.is_complete());
}

#[test]
fn a_server_has_to_prove_its_key() {
    let opened = || {
        let mut client = handshake();
        let hello = server_hello();
        client.consume_crypto(&hello).expect("taken");
        let transcript = [client.client_hello().clone(), hello].concat();
        (client, transcript)
    };
    let refuse = |client: &mut Tls13Client, msgs: Vec<u8>, text: &str| {
        let e = client.consume_crypto(&msgs).expect_err("refused");
        assert_eq!(e.message(), text);
        assert!(!client.is_complete());
    };
    // Neither a certificate nor a proof.
    let (mut client, mut transcript) = opened();
    let key = secret(client.hs_read());
    transcript.extend_from_slice(&encrypted_extensions());
    refuse(
        &mut client,
        [encrypted_extensions(), finished(&key, &transcript)].concat(),
        "QUIC certificate error: server did not send a Certificate message",
    );
    // A certificate without a proof.
    let (mut client, mut transcript) = opened();
    transcript.extend_from_slice(&encrypted_extensions());
    transcript.extend_from_slice(&certificate_message());
    refuse(
        &mut client,
        [encrypted_extensions(), certificate_message(), finished(&key, &transcript)].concat(),
        "QUIC certificate error: server did not send a CertificateVerify message",
    );
    // A proof over something else.
    let (mut client, _) = opened();
    refuse(
        &mut client,
        [encrypted_extensions(), certificate_message(), certificate_verify(b"other")].concat(),
        "QUIC certificate error: CertificateVerify signature verification failed",
    );
}

#[test]
fn a_broken_server_flight_is_refused() {
    let refused = |messages: &[Vec<u8>], text: &str| {
        let mut client = handshake();
        let e = client.consume_crypto(&messages.concat()).expect_err("refused");
        assert_eq!(e.message(), text);
    };
    refused(&[message(1, &[])], "QUIC protocol error: unexpected ClientHello from server");
    refused(&[message(77, &[])], "QUIC protocol error: unexpected handshake message type 77");
    refused(&[message(2, &[3, 3])], "QUIC protocol error: truncated ServerHello");
    refused(&[server_hello(), server_hello()], "QUIC protocol error: duplicate ServerHello");
    refused(
        &[server_hello(), message(8, &[0, 0])],
        "QUIC protocol error: EncryptedExtensions missing quic_transport_parameters",
    );
    refused(
        &[server_hello(), message(20, &[0; 32])],
        "QUIC protocol error: server Finished verification failed",
    );
    refused(
        &[server_hello(), message(15, &[0, 0, 0, 0])],
        "QUIC protocol error: CertificateVerify before Certificate",
    );
    // A message that is not complete waits.
    let hello = server_hello();
    assert_eq!(handshake().consume_crypto(&hello[..20]).expect("waits"), 0);
}

#[test]
fn the_client_hello_names_the_server() {
    let client = handshake();
    let hello = client.client_hello();
    assert_eq!(hello[0], 1);
    assert_eq!(hello[6..38], [8; 32]);
    // The name stands in a list, the version in one, and so does the key share.
    let name = [&[0, 0, 0, 16, 0, 14, 0, 0, 11][..], b"example.com"].concat();
    assert!(hello.windows(name.len()).any(|w| w == name));
    assert!(hello.windows(7).any(|w| w == [0, 0x2b, 0, 3, 2, 3, 4]));
    let share =
        [&[0, 0x33, 0, 38, 0, 36, 0, 0x1d, 0, 32][..], &x25519_public(&[7; 32])].concat();
    assert!(hello.windows(share.len()).any(|w| w == share));
    // Fresh entropy gives a fresh message.
    let fresh = |_: u8| {
        Tls13Client::new(
            "example.com".to_string(),
            &vec!["h3".to_string()],
            true,
            RootStore::new(),
            0,
            &parse_tp(&[]).expect("no parameters"),
            &SCID,
        )
    };
    assert_ne!(fresh(0).client_hello(), fresh(1).client_hello());
}
