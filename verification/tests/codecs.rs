//! Addresses and QPACK header blocks.

use corduit::net::SocketAddr;
use corduit::protocol::address::{Address, AddressRef, AddressType, ReadStep};
use corduit::protocol::error::ProtocolError;
use corduit::protocol::qpack::{
    decode_block, encode_literal_fields, huffman_decode, read_int, static_entry, write_int,
    QpackError, HUFFMAN_CODES,
};

const LOCALHOST: [u8; 16] = [0, 0, 0, 0, 0, 0, 0, 0, 0, 0, 0, 0, 0, 0, 0, 1];

// -- addresses -----------------------------------------------------------------

#[test]
fn test_address_ipv4_roundtrip() {
    let addr = Address::Ipv4([192, 168, 1, 1], 8080);
    let bytes = addr.to_bytes().unwrap();
    let (parsed, len) = Address::read_from(&bytes).unwrap();
    assert_eq!(addr, parsed);
    assert_eq!(len, 7);
}

#[test]
fn test_address_ipv6_roundtrip() {
    let addr = Address::Ipv6([0x20, 0x01, 0x0d, 0xb8, 0, 0, 0, 0, 0, 0, 0, 0, 0, 0, 0, 1], 443);
    let bytes = addr.to_bytes().unwrap();
    let (parsed, len) = Address::read_from(&bytes).unwrap();
    assert_eq!(addr, parsed);
    assert_eq!(len, 19);
}

#[test]
fn test_address_domain_roundtrip() {
    let addr = Address::Domain("example.com".to_string(), 443);
    let bytes = addr.to_bytes().unwrap();
    let (parsed, len) = Address::read_from(&bytes).unwrap();
    assert_eq!(addr, parsed);
    assert_eq!(len, 4 + "example.com".len());
}

#[test]
fn test_address_display() {
    assert_eq!(Address::Ipv4([127, 0, 0, 1], 80).to_text(), "127.0.0.1:80");
    assert_eq!(Address::Ipv6(LOCALHOST, 443).to_text(), "[::1]:443");
    assert_eq!(Address::Domain("example.com".to_string(), 8080).to_text(), "example.com:8080");
}

#[test]
fn test_address_from_socket_addr() {
    let addr = Address::from_socket_addr(SocketAddr::V4([10, 0, 0, 1], 1234));
    assert!(matches!(addr, Address::Ipv4(_, 1234)));

    let addr = Address::from_socket_addr(SocketAddr::V6(LOCALHOST, 5678, 0));
    assert!(matches!(addr, Address::Ipv6(_, 5678)));
    assert_eq!(addr.to_socket_addr(), Some(SocketAddr::V6(LOCALHOST, 5678, 0)));
    assert_eq!(Address::from_domain("a".to_string(), 1).to_socket_addr(), None);
}

#[test]
fn test_address_port_and_host() {
    let addr = Address::Domain("test.local".to_string(), 9000);
    assert_eq!(addr.port(), 9000);
    assert_eq!(addr.host(), "test.local");

    let addr = Address::Ipv4([1, 2, 3, 4], 80);
    assert_eq!(addr.port(), 80);
    assert_eq!(addr.host(), "1.2.3.4");
}

/// Read an address from a stream of bytes, as many as it asks for at a time.
fn read_stream(bytes: &[u8]) -> Result<Address, ProtocolError> {
    let mut got: Vec<u8> = Vec::new();
    loop {
        match Address::read_step(&got)? {
            ReadStep::Done(address) => return Ok(address),
            ReadStep::More(n) => match bytes.get(got.len()..got.len() + n) {
                Some(more) => got.extend_from_slice(more),
                None => return Err(ProtocolError::ConnectionClosed),
            },
        }
    }
}

#[test]
fn test_address_reader_roundtrip() {
    let addr = Address::Domain("sync.test".to_string(), 12345);
    let bytes = addr.to_bytes().unwrap();
    let parsed = read_stream(&bytes).unwrap();
    assert_eq!(addr, parsed);

    // Reader path must also reject truncated wire data.
    assert!(read_stream(&[AddressType::IPv4.byte(), 1, 2]).is_err());
}

#[test]
fn test_address_parse_from_slice_cursor() {
    let addr = Address::Ipv4([10, 0, 0, 2], 53);
    let bytes = addr.to_bytes().unwrap();
    let mut buf: &[u8] = &bytes;
    let parsed = Address::parse_from_buf(&mut buf).unwrap();
    assert_eq!(addr, parsed);
    assert!(buf.is_empty());
}

#[test]
fn test_address_ref_borrows_domain() {
    let mut wire = Vec::new();
    wire.push(AddressType::Domain.byte());
    wire.push(11);
    wire.extend_from_slice(b"example.com");
    wire.extend_from_slice(&443u16.to_be_bytes());

    let (parsed, consumed) = AddressRef::parse(&wire).unwrap();
    assert_eq!(consumed, wire.len());
    assert_eq!(parsed.port(), 443);
    assert_eq!(parsed.address_type(), AddressType::Domain);

    // The borrowed domain must point into the input buffer, not a copy.
    let domain = parsed.domain().expect("domain address");
    assert_eq!(domain, "example.com");
    // Provenance check: the borrow aliases the wire region, not a heap copy.
    assert_eq!(domain.as_ptr(), wire[2..13].as_ptr());
}

#[test]
fn test_address_ref_owned_conversion_agrees() {
    let owned = Address::Domain("cn.example.com".to_string(), 8080);
    let wire = owned.to_bytes().unwrap();
    let (borrowed, _) = AddressRef::parse(&wire).unwrap();
    assert_eq!(borrowed.to_owned(), owned);

    let ipv4 = Address::Ipv4([9, 9, 9, 9], 53);
    let wire = ipv4.to_bytes().unwrap();
    let (borrowed, _) = AddressRef::parse(&wire).unwrap();
    assert_eq!(borrowed.to_owned(), ipv4);
    assert_eq!(borrowed.domain(), None);
}

#[test]
fn test_address_ref_rejects_truncated() {
    let domain = AddressType::Domain.byte();
    let ipv4 = AddressType::IPv4.byte();
    assert!(AddressRef::parse(&[domain, 5, b'a']).is_err());
    assert!(AddressRef::parse(&[domain, 5, b'a', b'b', b'c', b'd', b'e']).is_err());
    assert!(AddressRef::parse(&[ipv4, 1, 2]).is_err());
    assert!(AddressRef::parse(&[ipv4, 1, 2, 3, 4, 0, 0]).is_ok());
}

#[test]
fn addresses_that_cannot_be_written_or_read_are_refused() {
    let long = Address::Domain("a".repeat(256), 1);
    assert!(long.to_bytes().is_err());
    let longest = Address::Domain("a".repeat(255), 1);
    assert_eq!(longest.to_bytes().unwrap().len(), longest.serialized_len());
    assert!(matches!(
        Address::from_bytes(&[9, 0, 0]),
        Err(ProtocolError::UnsupportedAddressType(9))
    ));
    assert!(Address::from_bytes(&[]).is_err());
    assert!(Address::from_bytes(&[3, 1, 0xff, 0, 80]).is_err());
    assert!(AddressType::try_from(2).is_err());
    assert_eq!(
        ProtocolError::UnsupportedAddressType(9).message(),
        "Unsupported address type: 9"
    );
    // What was read is written as it stood.
    let wire = [3, 2, b'h', b'i', 1, 187, 99];
    let (address, used) = Address::read_from(&wire).unwrap();
    assert_eq!((used, address.to_bytes().unwrap()), (6, wire[..6].to_vec()));
}

// -- QPACK ------------------------------------------------------------------------

// RFC 7541 Appendix C vectors (space-separated hex groups -> bytes).
fn hd_bytes(hex: &str) -> Vec<u8> {
    let mut out = Vec::new();
    for token in hex.split_whitespace() {
        let hi = u8::from_str_radix(&token[..2], 16).unwrap();
        out.push(hi);
        if token.len() > 2 {
            let lo = u8::from_str_radix(&token[2..], 16).unwrap();
            out.push(lo);
        }
    }
    out
}

#[test]
fn huffman_rfc_c4_vectors() {
    // C.4.1 :authority: www.example.com
    assert_eq!(
        huffman_decode(&hd_bytes("f1e3 c2e5 f23a 6ba0 ab90 f4ff")).unwrap(),
        b"www.example.com"
    );
    // C.4.2 cache-control: no-cache
    assert_eq!(huffman_decode(&hd_bytes("a8eb 1064 9cbf")).unwrap(), b"no-cache");
    // C.6.1 :status: 302, cache-control: private
    assert_eq!(huffman_decode(&hd_bytes("6402")).unwrap(), b"302");
    assert_eq!(huffman_decode(&hd_bytes("aec3 771a 4b")).unwrap(), b"private");
    // C.6.3 content-encoding: gzip
    assert_eq!(huffman_decode(&hd_bytes("9bd9 ab")).unwrap(), b"gzip");
}

#[test]
fn huffman_roundtrip_covers_alphabet() {
    let alphabet: Vec<u8> = (0u8..=255).collect();
    // Encode with a straight-forward bit writer using the same table,
    // then decode and compare.
    let mut bits: Vec<u8> = Vec::new();
    for &sym in &alphabet {
        let (_, code, len) = HUFFMAN_CODES[sym as usize];
        for j in 0..len {
            bits.push(((code >> (len - 1 - j)) & 1) as u8);
        }
    }
    // Pad with EOS prefix (ones).
    while bits.len() % 8 != 0 {
        bits.push(1);
    }
    let mut data = Vec::with_capacity(bits.len() / 8);
    for chunk in bits.chunks(8) {
        let mut byte = 0u8;
        for (i, &b) in chunk.iter().enumerate() {
            byte |= b << (7 - i);
        }
        data.push(byte);
    }
    assert_eq!(huffman_decode(&data).unwrap(), alphabet);
}

#[test]
fn huffman_rejects_bad_padding() {
    // "2" is code 00010 (5 bits). Followed by a 1-bit then 0s: the 0 in
    // the padding violates the all-ones EOS-prefix rule.
    // 00010 1 0 00000 -> byte 0b00010100 = 0x14
    assert!(huffman_decode(&[0x14]).is_err());
    // >7 bits of padding: symbol 0 is 13 bits of 11111 1111 1000, then 8
    // more padding bits -> 21 bits total consumed as a partial code.
    // 11111 1111 1000 (0) + 1111 1111 -> error (padding > 7 bits).
    let data = hd_bytes("ff ff"); // first 13 bits = 0x1ff8
    assert!(huffman_decode(&data).is_err());
}

#[test]
fn integer_read_c1_vectors() {
    // C.1.1: 10 with 5-bit prefix.
    let mut pos = 0;
    assert_eq!(read_int(&[0x0a], &mut pos, 5).unwrap(), 10);
    assert_eq!(pos, 1);
    // C.1.2: 1337 with 5-bit prefix: 1f 9a 0a.
    let mut pos = 0;
    assert_eq!(read_int(&[0x1f, 0x9a, 0x0a], &mut pos, 5).unwrap(), 1337);
    assert_eq!(pos, 3);
    // C.1.3: 42 with 8-bit prefix.
    let mut pos = 0;
    assert_eq!(read_int(&[0x2a], &mut pos, 8).unwrap(), 42);
    assert_eq!(pos, 1);
}

#[test]
fn integer_roundtrip() {
    for prefix in [4u32, 5, 6, 7, 8] {
        for value in [0u64, 1, 14, 15, 16, 126, 127, 128, 255, 1024, u32::MAX as u64] {
            let mut out = Vec::new();
            write_int(&mut out, 0x00, prefix, value);
            let mut pos = 0;
            let decoded = read_int(&out, &mut pos, prefix).unwrap();
            assert_eq!(decoded, value, "prefix {prefix} value {value}");
            assert_eq!(pos, out.len());
        }
    }
}

#[test]
fn literal_fields_roundtrip() {
    let fields: Vec<(&[u8], &[u8])> = vec![
        (b":method", b"POST"),
        (b":scheme", b"https"),
        (b":authority", b"hysteria"),
        (b":path", b"/auth"),
        (b"hysteria-auth", b"sekret"),
        (b"hysteria-cc-rx", b"0"),
        (b"hysteria-padding", b"0123456789abcdef"),
    ];
    let block = encode_literal_fields(&fields);
    let decoded = decode_block(&block).unwrap();
    assert_eq!(decoded.len(), fields.len());
    for ((n, v), (dn, dv)) in fields.iter().zip(decoded.iter()) {
        assert_eq!(n, &dn.as_slice());
        assert_eq!(v, &dv.as_slice());
    }
}

#[test]
fn decode_handles_static_indexed() {
    // QPACK prefix (0,0) then indexed field line `1 1` + 6-bit index 3
    // (:method: POST): first byte 0b11000011 = 0xC3.
    let block = [0x00, 0x00, 0xC3];
    let decoded = decode_block(&block).unwrap();
    assert_eq!(decoded, vec![(b":method".to_vec(), b"POST".to_vec())]);
}

#[test]
fn decode_rejects_dynamic_references() {
    // Indexed field line with S=0 (dynamic): 0x80 | 1 = 0x81.
    let block = [0x00, 0x00, 0x81];
    assert!(matches!(decode_block(&block), Err(QpackError::DynamicTableUnsupported)));
    // Non-zero Required Insert Count.
    let block = [0x01, 0x00];
    assert!(matches!(decode_block(&block), Err(QpackError::DynamicTableUnsupported)));
}

#[test]
fn every_qpack_error_has_an_input_and_a_text() {
    let mut pos = 0;
    let error = read_int(&[0x1f], &mut pos, 5).unwrap_err();
    assert!(matches!(error, QpackError::Truncated));
    assert_eq!(error.message(), "truncated QPACK data");
    let mut pos = 0;
    // 255 and two to the power of 64: no number of 64 bits.
    let wide = [0xff, 0x80, 0x80, 0x80, 0x80, 0x80, 0x80, 0x80, 0x80, 0x80, 0x02];
    assert!(matches!(read_int(&wide, &mut pos, 8), Err(QpackError::Overflow)));
    // The largest one is read.
    let largest = [0xff, 0x80, 0xfe, 0xff, 0xff, 0xff, 0xff, 0xff, 0xff, 0xff, 0x01];
    let mut end = 0usize;
    assert_eq!(read_int(&largest, &mut end, 8).unwrap(), u64::MAX);
    assert_eq!(end, 11);
    let error = read_int(&[0xff; 12], &mut pos, 5).unwrap_err();
    assert!(matches!(error, QpackError::Overflow));
    assert_eq!(error.message(), "QPACK integer/string overflow");
    let error = static_entry(0).unwrap_err();
    assert_eq!(error.message(), "QPACK static table index 0 out of range");
    assert_eq!(static_entry(3).unwrap(), (":method", "POST"));
    assert!(static_entry(62).is_err());
    assert_eq!(
        huffman_decode(&[0x14]).unwrap_err().message(),
        "invalid HPACK Huffman encoding"
    );
    assert_eq!(
        decode_block(&[0, 0, 0x81]).unwrap_err().message(),
        "QPACK dynamic table is not supported"
    );
    assert!(decode_block(&[0x00]).is_err());
}
