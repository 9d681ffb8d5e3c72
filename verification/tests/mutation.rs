use region_codec::decode::parse_region_info;
use region_codec::region::{RegionInfo, ServerInfo};
use region_codec::text::ipv4_string;

#[test]
fn ipv4_rendering_edge_values() {
    assert_eq!(ipv4_string(&[0, 0, 0, 0]), "0.0.0.0");
    assert_eq!(ipv4_string(&[255, 255, 255, 255]), "255.255.255.255");
    assert_eq!(ipv4_string(&[10, 0, 100, 9]), "10.0.100.9");
    assert_eq!(ipv4_string(&[192, 168, 1, 42]), "192.168.1.42");
}

#[test]
fn set_address_keeps_version_only() {
    let mut region = RegionInfo {
        version: 42,
        name: "Old".to_string(),
        to_ping: "old.example".to_string(),
        servers: vec![],
    };
    region.set_address([127, 0, 0, 1], "Imposter");
    assert_eq!(region.version, 42);
    assert_eq!(region.name, "Imposter");
    assert_eq!(region.to_ping, "127.0.0.1");
    assert_eq!(region.servers.len(), 1);
    assert_eq!(region.servers[0].name, "Imposter-Master-1");
    assert_eq!(region.servers[0].ip, [127, 0, 0, 1]);
    assert_eq!(region.servers[0].port, 22023);
}

#[test]
fn set_address_then_round_trip() {
    let mut region = RegionInfo {
        version: 5,
        name: "Region".to_string(),
        to_ping: "ping.example".to_string(),
        servers: vec![ServerInfo { name: "A".to_string(), ip: [1, 1, 1, 1], port: 80 }],
    };
    region.set_address([203, 0, 113, 9], "Mine");
    let mut bytes: Vec<u8> = Vec::new();
    region.serialize(&mut bytes).unwrap();
    let back = parse_region_info(&bytes).unwrap();
    assert_eq!(back, region);
    assert_eq!(back.to_ping, "203.0.113.9");
}
