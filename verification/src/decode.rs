//! The executable decoder: reads a region record off the front of a byte
//! buffer, strictly left to right and bounds-checked at every field. Each
//! function is proved to return exactly what the corresponding reader in
//! `codec` says the bytes hold.
use crate::codec::{dec_region, dec_server, dec_servers, dec_string, Parsed};
use crate::region::{server_views, DecodeError, RegionInfo, RegionInfoView, ServerInfo};
use crate::text::string_from_utf8;
use vstd::bytes::{u16_from_le_bytes, u32_from_le_bytes};
use vstd::prelude::*;
use vstd::slice::{slice_subrange, slice_to_vec};

verus! {

/// Reads one length-prefixed string at `pos`: a length byte, then that many
/// bytes of UTF-8 text. Returns the text and the position just past it.
pub fn len_prefixed_string(input: &Vec<u8>, pos: usize) -> (r: Result<(String, usize), DecodeError>)
    requires
        pos <= input@.len(),
    ensures
        ({
            let d = dec_string(input@.skip(pos as int));
            match r {
                Ok((s, end)) => {
                    &&& d matches Parsed::Value { v, used } && v == s@ && used == end - pos
                    &&& pos < end <= input@.len()
                },
                Err(DecodeError::Truncated) => d is Truncated,
                Err(DecodeError::InvalidText) => d is BadText,
            }
        }),
{
    let ghost b = input@.skip(pos as int);
    if pos >= input.len() {
        return Err(DecodeError::Truncated);
    }
    let len = input[pos] as usize;
    assert(b[0] == input@[pos as int]);
    if input.len() - pos - 1 < len {
        return Err(DecodeError::Truncated);
    }
    let payload = slice_to_vec(slice_subrange(input.as_slice(), pos + 1, pos + 1 + len));
    proof {
        assert(payload@ =~= b.subrange(1, 1 + len as int));
    }
    match string_from_utf8(payload) {
        Some(s) => Ok((s, pos + 1 + len)),
        None => Err(DecodeError::InvalidText),
    }
}

/// Reads one server entry at `pos`: the length-prefixed name, four address
/// octets, two little-endian port bytes, and a four-byte reserved field
/// that must be present but whose value is discarded.
pub fn parse_server_info(input: &Vec<u8>, pos: usize) -> (r: Result<
    (ServerInfo, usize),
    DecodeError,
>)
    requires
        pos <= input@.len(),
    ensures
        ({
            let d = dec_server(input@.skip(pos as int));
            match r {
                Ok((s, end)) => {
                    &&& d matches Parsed::Value { v, used } && v == s@ && used == end - pos
                    &&& pos < end <= input@.len()
                },
                Err(DecodeError::Truncated) => d is Truncated,
                Err(DecodeError::InvalidText) => d is BadText,
            }
        }),
{
    let ghost b = input@.skip(pos as int);
    let (name, name_end) = match len_prefixed_string(input, pos) {
        Ok(x) => x,
        Err(e) => {
            return Err(e);
        },
    };
    let ghost name_used = name_end - pos;
    if input.len() - name_end < 10 {
        return Err(DecodeError::Truncated);
    }
    let ip = [input[name_end], input[name_end + 1], input[name_end + 2], input[name_end + 3]];
    let port_bytes = slice_subrange(input.as_slice(), name_end + 4, name_end + 6);
    let port = u16_from_le_bytes(port_bytes);
    let server = ServerInfo { name, ip, port };
    proof {
        assert(ip@ =~= b.subrange(name_used, name_used + 4));
        assert(port_bytes@ =~= b.subrange(name_used + 4, name_used + 6));
        assert(dec_server(b) matches Parsed::Value { v, used } && v =~= server@ && used == name_used
            + 10);
    }
    Ok((server, name_end + 10))
}

/// Decodes a whole region record from the front of the buffer: the version,
/// the two text fields, the server count, then exactly that many server
/// entries. Bytes after the record are deliberately ignored.
pub fn parse_region_info(input: &Vec<u8>) -> (r: Result<RegionInfo, DecodeError>)
    ensures
        ({
            let d = dec_region(input@);
            match r {
                Ok(region) => d matches Parsed::Value { v, used } && v == region@,
                Err(DecodeError::Truncated) => d is Truncated,
                Err(DecodeError::InvalidText) => d is BadText,
            }
        }),
{
    let ghost b = input@;
    if input.len() < 4 {
        return Err(DecodeError::Truncated);
    }
    let version = u32_from_le_bytes(slice_subrange(input.as_slice(), 0, 4));
    proof {
        assert(input@.subrange(0, 4) =~= b.subrange(0, 4));
    }
    let (name, name_end) = match len_prefixed_string(input, 4) {
        Ok(x) => x,
        Err(e) => {
            return Err(e);
        },
    };
    let (to_ping, ping_end) = match len_prefixed_string(input, name_end) {
        Ok(x) => x,
        Err(e) => {
            return Err(e);
        },
    };
    let ghost tail = b.skip(4 + (name_end - 4) + (ping_end - name_end));
    proof {
        assert(tail =~= b.skip(ping_end as int));
    }
    if input.len() - ping_end < 4 {
        return Err(DecodeError::Truncated);
    }
    let count = u32_from_le_bytes(slice_subrange(input.as_slice(), ping_end, ping_end + 4));
    proof {
        assert(input@.subrange(ping_end as int, ping_end + 4) =~= tail.subrange(0, 4));
    }
    let base = ping_end + 4;
    proof {
        assert(b.skip(base as int) =~= tail.skip(4));
        let whole = dec_servers(b.skip(base as int), count as nat);
        match whole {
            Parsed::Value { v, used } => {
                assert(dec_region(b) == (Parsed::Value {
                    v: RegionInfoView {
                        version: version,
                        name: name@,
                        to_ping: to_ping@,
                        servers: v,
                    },
                    used: base + used,
                }));
            },
            Parsed::Truncated => {
                assert(dec_region(b) is Truncated);
            },
            Parsed::BadText => {
                assert(dec_region(b) is BadText);
            },
        }
    }
    let mut servers: Vec<ServerInfo> = Vec::new();
    let mut pos = base;
    let mut i: u32 = 0;
    while i < count
        invariant
            i <= count,
            base <= pos <= input@.len(),
            servers@.len() == i,
            input@ == b,
            ({
                let whole = dec_servers(b.skip(base as int), count as nat);
                &&& (whole matches Parsed::Value { v, used } ==> dec_region(b) == (Parsed::Value {
                    v: RegionInfoView {
                        version: version,
                        name: name@,
                        to_ping: to_ping@,
                        servers: v,
                    },
                    used: base + used,
                }))
                &&& (whole is Truncated ==> dec_region(b) is Truncated)
                &&& (whole is BadText ==> dec_region(b) is BadText)
            }),
            ({
                let whole = dec_servers(b.skip(base as int), count as nat);
                match dec_servers(b.skip(pos as int), (count - i) as nat) {
                    Parsed::Value { v, used } => whole == (Parsed::Value {
                        v: server_views(servers@) + v,
                        used: pos - base + used,
                    }),
                    Parsed::Truncated => whole is Truncated,
                    Parsed::BadText => whole is BadText,
                }
            }),
        decreases count - i,
    {
        let ghost old_servers = servers@;
        let ghost old_pos = pos;
        let (server, server_end) = match parse_server_info(input, pos) {
            Ok(x) => x,
            Err(e) => {
                proof {
                    assert((count - i) as nat != 0);
                }
                return Err(e);
            },
        };
        servers.push(server);
        pos = server_end;
        i = i + 1;
        proof {
            let used0 = server_end - old_pos;
            assert(b.skip(old_pos as int).skip(used0) =~= b.skip(pos as int));
            assert(server_views(servers@) =~= server_views(old_servers) + seq![server@]);
            match dec_servers(b.skip(pos as int), (count - i) as nat) {
                Parsed::Value { v, used } => {
                    assert(dec_servers(b.skip(old_pos as int), (count - i + 1) as nat)
                        == (Parsed::Value { v: seq![server@] + v, used: used0 + used }));
                    assert(server_views(old_servers) + (seq![server@] + v) =~= server_views(
                        servers@,
                    ) + v);
                },
                Parsed::Truncated => {},
                Parsed::BadText => {},
            }
        }
    }
    let region = RegionInfo { version, name, to_ping, servers };
    proof {
        let whole = dec_servers(b.skip(base as int), count as nat);
        assert(server_views(region.servers@) + seq![] =~= server_views(region.servers@));
        assert(whole == (Parsed::Value { v: server_views(region.servers@), used: pos - base }));
        assert(dec_region(b) matches Parsed::Value { v, used } && v =~= region@);
    }
    Ok(region)
}

} // verus!
