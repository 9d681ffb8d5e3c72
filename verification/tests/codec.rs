use region_codec::decode::{len_prefixed_string, parse_region_info, parse_server_info};
use region_codec::region::{DecodeError, EncodeError, RegionInfo, ServerInfo};

fn encode(region: &RegionInfo) -> Vec<u8> {
    let mut out: Vec<u8> = Vec::new();
    region.serialize(&mut out).unwrap();
    out
}

fn sample_region() -> RegionInfo {
    RegionInfo {
        version: 7,
        name: "EU West".to_string(),
        to_ping: "eu.example.net".to_string(),
        servers: vec![
            ServerInfo { name: "EU-Master-1".to_string(), ip: [192, 168, 1, 42], port: 22023 },
            ServerInfo { name: "EU-Master-2".to_string(), ip: [10, 0, 0, 7], port: 22123 },
        ],
    }
}

#[test]
fn byte_level_scenario() {
    let region = RegionInfo {
        version: 0,
        name: "A".to_string(),
        to_ping: String::new(),
        servers: vec![],
    };
    let bytes = encode(&region);
    assert_eq!(bytes, vec![0x00, 0x00, 0x00, 0x00, 0x01, 0x41, 0x00, 0x00, 0x00, 0x00, 0x00]);
}

#[test]
fn mutation_scenario() {
    let mut region = RegionInfo {
        version: 1,
        name: "Foo".to_string(),
        to_ping: "1.2.3.4".to_string(),
        servers: vec![
            ServerInfo { name: "Old-1".to_string(), ip: [1, 2, 3, 4], port: 1000 },
            ServerInfo { name: "Old-2".to_string(), ip: [5, 6, 7, 8], port: 2000 },
        ],
    };
    region.set_address([10, 0, 0, 5], "Bar");
    assert_eq!(region.version, 1);
    assert_eq!(region.name, "Bar");
    assert_eq!(region.to_ping, "10.0.0.5");
    assert_eq!(
        region.servers,
        vec![ServerInfo { name: "Bar-Master-1".to_string(), ip: [10, 0, 0, 5], port: 22023 }]
    );
}

#[test]
fn round_trip_sample() {
    let region = sample_region();
    let bytes = encode(&region);
    let back = parse_region_info(&bytes).unwrap();
    assert_eq!(back, region);
}

#[test]
fn round_trip_empty_fields() {
    let region = RegionInfo {
        version: 0xdead_beef,
        name: String::new(),
        to_ping: String::new(),
        servers: vec![],
    };
    let back = parse_region_info(&encode(&region)).unwrap();
    assert_eq!(back, region);
}

#[test]
fn round_trip_unicode_names() {
    let region = RegionInfo {
        version: 3,
        name: "régiön €µ".to_string(),
        to_ping: "ping.例え.jp".to_string(),
        servers: vec![ServerInfo { name: "sérvêr-1 🚀".to_string(), ip: [8, 8, 8, 8], port: 443 }],
    };
    let back = parse_region_info(&encode(&region)).unwrap();
    assert_eq!(back, region);
}

#[test]
fn round_trip_longest_name() {
    let region = RegionInfo {
        version: 2,
        name: "x".repeat(255),
        to_ping: "y".repeat(255),
        servers: vec![ServerInfo { name: "z".repeat(255), ip: [0, 0, 0, 0], port: 0 }],
    };
    let back = parse_region_info(&encode(&region)).unwrap();
    assert_eq!(back, region);
}

#[test]
fn trailing_garbage_is_ignored() {
    let region = sample_region();
    let clean = encode(&region);
    let mut noisy = clean.clone();
    noisy.extend_from_slice(&[0xff, 0x00, 0x42, 0x99]);
    assert_eq!(parse_region_info(&noisy).unwrap(), region);
}

#[test]
fn every_truncation_is_detected() {
    let region = sample_region();
    let bytes = encode(&region);
    for cut in 0..bytes.len() {
        let prefix: Vec<u8> = bytes[..cut].to_vec();
        assert_eq!(parse_region_info(&prefix), Err(DecodeError::Truncated));
    }
}

#[test]
fn name_over_255_bytes_fails_encode() {
    let region = RegionInfo {
        version: 1,
        name: "n".repeat(256),
        to_ping: String::new(),
        servers: vec![],
    };
    let mut out: Vec<u8> = Vec::new();
    assert_eq!(region.serialize(&mut out), Err(EncodeError::ValueTooLarge));
    assert!(out.is_empty());
}

#[test]
fn to_ping_over_255_bytes_fails_encode() {
    let region = RegionInfo {
        version: 1,
        name: "ok".to_string(),
        to_ping: "p".repeat(256),
        servers: vec![],
    };
    let mut out: Vec<u8> = Vec::new();
    assert_eq!(region.serialize(&mut out), Err(EncodeError::ValueTooLarge));
    assert!(out.is_empty());
}

#[test]
fn server_name_over_255_bytes_fails_encode() {
    let region = RegionInfo {
        version: 1,
        name: "ok".to_string(),
        to_ping: "ok".to_string(),
        servers: vec![
            ServerInfo { name: "fine".to_string(), ip: [1, 1, 1, 1], port: 1 },
            ServerInfo { name: "s".repeat(256), ip: [2, 2, 2, 2], port: 2 },
        ],
    };
    let mut out: Vec<u8> = Vec::new();
    assert_eq!(region.serialize(&mut out), Err(EncodeError::ValueTooLarge));
    assert!(out.is_empty());
}

#[test]
fn multibyte_text_counts_bytes_not_chars() {
    // 128 two-byte characters: 128 chars but 256 UTF-8 bytes.
    let region = RegionInfo {
        version: 1,
        name: "é".repeat(128),
        to_ping: String::new(),
        servers: vec![],
    };
    let mut out: Vec<u8> = Vec::new();
    assert_eq!(region.serialize(&mut out), Err(EncodeError::ValueTooLarge));
    assert!(out.is_empty());
}

#[test]
fn invalid_utf8_in_name_fails_decode() {
    // version, then a one-byte name whose payload 0xff is not UTF-8.
    let bytes = vec![0, 0, 0, 0, 0x01, 0xff, 0x00, 0x00, 0x00, 0x00, 0x00];
    assert_eq!(parse_region_info(&bytes), Err(DecodeError::InvalidText));
}

#[test]
fn empty_and_short_buffers_fail_decode() {
    assert_eq!(parse_region_info(&Vec::new()), Err(DecodeError::Truncated));
    assert_eq!(parse_region_info(&vec![1, 2, 3]), Err(DecodeError::Truncated));
    assert_eq!(parse_region_info(&vec![1, 2, 3, 4]), Err(DecodeError::Truncated));
}

#[test]
fn count_larger_than_data_fails_decode() {
    // Empty name and ping, count claims 1000 servers, no data follows.
    let bytes = vec![0, 0, 0, 0, 0x00, 0x00, 0xe8, 0x03, 0x00, 0x00];
    assert_eq!(parse_region_info(&bytes), Err(DecodeError::Truncated));
}

#[test]
fn len_prefixed_string_reads_text_and_position() {
    let bytes = vec![0xaa, 0x03, b'a', b'b', b'c', 0xbb];
    let (text, end) = len_prefixed_string(&bytes, 1).unwrap();
    assert_eq!(text, "abc");
    assert_eq!(end, 5);
}

#[test]
fn len_prefixed_string_empty_text() {
    let bytes = vec![0x00];
    let (text, end) = len_prefixed_string(&bytes, 0).unwrap();
    assert_eq!(text, "");
    assert_eq!(end, 1);
}

#[test]
fn len_prefixed_string_truncated_payload() {
    let bytes = vec![0x05, b'a', b'b'];
    assert_eq!(len_prefixed_string(&bytes, 0), Err(DecodeError::Truncated));
}

#[test]
fn server_record_reserved_field_is_discarded() {
    // name "S", ip 1.2.3.4, port 0x2211 little-endian, reserved nonzero.
    let bytes = vec![0x01, b'S', 1, 2, 3, 4, 0x11, 0x22, 0xde, 0xad, 0xbe, 0xef];
    let (server, end) = parse_server_info(&bytes, 0).unwrap();
    assert_eq!(server, ServerInfo { name: "S".to_string(), ip: [1, 2, 3, 4], port: 0x2211 });
    assert_eq!(end, bytes.len());
}

#[test]
fn reencode_zeroes_reserved_field() {
    // A record whose one server carries a nonzero reserved field decodes,
    // and re-encoding writes that field back as zero: the value round-trips
    // while the bytes deliberately do not.
    let bytes = vec![
        9, 0, 0, 0, // version
        0x01, b'R', // name
        0x00, // to_ping
        0x01, 0x00, 0x00, 0x00, // one server
        0x01, b'S', 1, 2, 3, 4, 0x11, 0x22, // server up to port
        0xde, 0xad, 0xbe, 0xef, // nonzero reserved field
    ];
    let region = parse_region_info(&bytes).unwrap();
    let reencoded = encode(&region);
    assert_ne!(reencoded, bytes);
    let mut zeroed = bytes.clone();
    zeroed[19] = 0;
    zeroed[20] = 0;
    zeroed[21] = 0;
    zeroed[22] = 0;
    assert_eq!(reencoded, zeroed);
    assert_eq!(parse_region_info(&reencoded).unwrap(), region);
}

#[test]
fn port_and_version_are_little_endian() {
    let region = RegionInfo {
        version: 0x0403_0201,
        name: String::new(),
        to_ping: String::new(),
        servers: vec![ServerInfo { name: String::new(), ip: [9, 8, 7, 6], port: 0xbbaa }],
    };
    let bytes = encode(&region);
    assert_eq!(
        bytes,
        vec![
            0x01, 0x02, 0x03, 0x04, // version little-endian
            0x00, // name
            0x00, // to_ping
            0x01, 0x00, 0x00, 0x00, // count
            0x00, // server name
            9, 8, 7, 6, // ip octets in address order
            0xaa, 0xbb, // port little-endian
            0x00, 0x00, 0x00, 0x00, // reserved
        ]
    );
}
