//! The structured value held by a region record: a version tag, two text
//! fields, and an ordered list of server entries.
use crate::text::{ipv4_string, ipv4_text};
use vstd::prelude::*;
use vstd::string::StringExecFns;
use vstd::utf8::encode_utf8;

verus! {

/// One server entry of a region record: a display name, a raw IPv4 address
/// (four octets in address order) and a port.
#[derive(Debug, Clone, PartialEq, Eq)]
pub struct ServerInfo {
    pub name: String,
    pub ip: [u8; 4],
    pub port: u16,
}

/// The mathematical value of a `ServerInfo`: the name as a sequence of
/// characters and the address as a sequence of four octets.
#[verifier::ext_equal]
pub struct ServerInfoView {
    pub name: Seq<char>,
    pub ip: Seq<u8>,
    pub port: u16,
}

impl View for ServerInfo {
    type V = ServerInfoView;

    open spec fn view(&self) -> ServerInfoView {
        ServerInfoView { name: self.name@, ip: self.ip@, port: self.port }
    }
}

/// A region record: a version tag, a region name, the address text used for
/// connectivity checks, and the ordered server list.
#[derive(Debug, Clone, PartialEq, Eq)]
pub struct RegionInfo {
    pub version: u32,
    pub name: String,
    pub to_ping: String,
    pub servers: Vec<ServerInfo>,
}

/// The mathematical value of a `RegionInfo`.
#[verifier::ext_equal]
pub struct RegionInfoView {
    pub version: u32,
    pub name: Seq<char>,
    pub to_ping: Seq<char>,
    pub servers: Seq<ServerInfoView>,
}

/// The mathematical values of a sequence of server entries, in order.
pub open spec fn server_views(servers: Seq<ServerInfo>) -> Seq<ServerInfoView> {
    servers.map_values(|s: ServerInfo| s@)
}

impl View for RegionInfo {
    type V = RegionInfoView;

    open spec fn view(&self) -> RegionInfoView {
        RegionInfoView {
            version: self.version,
            name: self.name@,
            to_ping: self.to_ping@,
            servers: server_views(self.servers@),
        }
    }
}

/// A server entry fits the binary layout: its name takes at most 255 bytes
/// in UTF-8 (the length is stored in one byte) and its address has exactly
/// four octets.
pub open spec fn server_encodable(s: ServerInfoView) -> bool {
    &&& encode_utf8(s.name).len() <= 255
    &&& s.ip.len() == 4
}

/// A region record fits the binary layout: both text fields take at most
/// 255 bytes in UTF-8, the server count fits in 32 bits, and every server
/// entry fits in turn.
pub open spec fn region_encodable(r: RegionInfoView) -> bool {
    &&& encode_utf8(r.name).len() <= 255
    &&& encode_utf8(r.to_ping).len() <= 255
    &&& r.servers.len() <= 0xffff_ffff
    &&& forall|i: int| 0 <= i < r.servers.len() ==> server_encodable(#[trigger] r.servers[i])
}

impl RegionInfo {
    /// Points the record at one replacement server: the server list is
    /// replaced by a single entry named `"{display_name}-Master-1"` at the
    /// given address and port 22023, the region name becomes
    /// `display_name`, and `to_ping` becomes the address's dotted-decimal
    /// text. The version tag is left unchanged.
    pub fn set_address(&mut self, ip: [u8; 4], display_name: &str)
        ensures
            final(self).version == old(self).version,
            final(self).name@ == display_name@,
            final(self).to_ping@ == ipv4_text(ip@),
            final(self).servers@.len() == 1,
            final(self).servers@[0].name@ == display_name@ + "-Master-1"@,
            final(self).servers@[0].ip == ip,
            final(self).servers@[0].port == 22023,
    {
        let master_name = String::from_str(display_name).concat("-Master-1");
        let mut servers: Vec<ServerInfo> = Vec::new();
        servers.push(ServerInfo { name: master_name, ip, port: 22023 });
        self.servers = servers;
        self.name = String::from_str(display_name);
        self.to_ping = ipv4_string(&ip);
    }
}

/// Why a decode failed: the buffer ended before a required field, or a
/// length-prefixed string field held bytes that are not valid UTF-8.
#[derive(Debug, Clone, Copy, PartialEq, Eq, Structural)]
pub enum DecodeError {
    Truncated,
    InvalidText,
}

/// Why an encode failed: a text field needs more than 255 bytes, or the
/// server count does not fit in 32 bits.
#[derive(Debug, Clone, Copy, PartialEq, Eq, Structural)]
pub enum EncodeError {
    ValueTooLarge,
    TooManyEntries,
}

} // verus!
