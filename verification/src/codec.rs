//! The byte layout of a region record, stated as mathematical functions:
//! what the encoder emits, and what the decoder reads off the front of a
//! buffer. The executable code in `decode` and `encode` is verified
//! against these functions, and `laws` proves how they fit together.
use crate::region::{RegionInfoView, ServerInfoView};
use vstd::bytes::{
    spec_u16_from_le_bytes, spec_u16_to_le_bytes, spec_u32_from_le_bytes, spec_u32_to_le_bytes,
};
use vstd::prelude::*;
use vstd::utf8::{decode_utf8, encode_utf8, valid_utf8};

verus! {

/// Outcome of reading one field (or a whole record) from the front of a
/// byte sequence: the value together with how many bytes it consumed, or
/// the reason the read fails. Bytes past the consumed prefix are ignored.
#[verifier::ext_equal]
pub enum Parsed<T> {
    Value { v: T, used: int },
    Truncated,
    BadText,
}

/// How many bytes a successful read consumed; zero on a failed one.
pub open spec fn used_of<T>(p: Parsed<T>) -> int {
    match p {
        Parsed::Value { used, .. } => used,
        Parsed::Truncated => 0,
        Parsed::BadText => 0,
    }
}

/// A length-prefixed string: one length byte, then that many bytes of
/// UTF-8 text. Meaningful only when the text fits in 255 bytes.
pub open spec fn enc_string(s: Seq<char>) -> Seq<u8>
    recommends
        encode_utf8(s).len() <= 255,
{
    seq![encode_utf8(s).len() as u8] + encode_utf8(s)
}

/// One server entry: the length-prefixed name, four address octets, the
/// port in two little-endian bytes, and a reserved field always written
/// as four zero bytes.
pub open spec fn enc_server(s: ServerInfoView) -> Seq<u8>
    recommends
        crate::region::server_encodable(s),
{
    enc_string(s.name) + s.ip + spec_u16_to_le_bytes(s.port) + spec_u32_to_le_bytes(0)
}

/// The server entries one after another, in order.
pub open spec fn enc_servers(ss: Seq<ServerInfoView>) -> Seq<u8>
    decreases ss.len(),
{
    if ss.len() == 0 {
        seq![]
    } else {
        enc_server(ss[0]) + enc_servers(ss.drop_first())
    }
}

/// A whole region record: the version in four little-endian bytes, the two
/// length-prefixed text fields, the server count in four little-endian
/// bytes, then the server entries.
pub open spec fn enc_region(r: RegionInfoView) -> Seq<u8>
    recommends
        crate::region::region_encodable(r),
{
    spec_u32_to_le_bytes(r.version) + enc_string(r.name) + enc_string(r.to_ping)
        + spec_u32_to_le_bytes(r.servers.len() as u32) + enc_servers(r.servers)
}

/// Encoding a server list is encoding all but the last entry, then the
/// last entry.
pub proof fn lemma_enc_servers_snoc(ss: Seq<ServerInfoView>)
    requires
        ss.len() > 0,
    ensures
        enc_servers(ss) == enc_servers(ss.drop_last()) + enc_server(ss.last()),
    decreases ss.len(),
{
    assert(enc_servers(ss) == enc_server(ss[0]) + enc_servers(ss.drop_first()));
    if ss.len() == 1 {
        assert(ss.drop_first().len() == 0);
        assert(ss.drop_last().len() == 0);
        assert(enc_servers(ss.drop_first()) == Seq::<u8>::empty());
        assert(enc_servers(ss.drop_last()) == Seq::<u8>::empty());
        assert(ss.last() == ss[0]);
        assert(enc_servers(ss) =~= enc_servers(ss.drop_last()) + enc_server(ss.last()));
    } else {
        lemma_enc_servers_snoc(ss.drop_first());
        assert(ss.drop_first().drop_last() =~= ss.drop_last().drop_first());
        assert(ss.drop_first().last() == ss.last());
        assert(ss.drop_last().len() > 0);
        assert(ss.drop_last()[0] == ss[0]);
        assert(enc_servers(ss.drop_last()) == enc_server(ss.drop_last()[0]) + enc_servers(
            ss.drop_last().drop_first(),
        ));
        assert(enc_servers(ss) =~= enc_servers(ss.drop_last()) + enc_server(ss.last()));
    }
}

/// Reads a length-prefixed string: one length byte, that many payload
/// bytes, which must be valid UTF-8.
pub open spec fn dec_string(b: Seq<u8>) -> Parsed<Seq<char>> {
    if b.len() < 1 {
        Parsed::Truncated
    } else {
        let n = b[0] as int;
        if b.len() < 1 + n {
            Parsed::Truncated
        } else {
            let payload = b.subrange(1, 1 + n);
            if valid_utf8(payload) {
                Parsed::Value { v: decode_utf8(payload), used: 1 + n }
            } else {
                Parsed::BadText
            }
        }
    }
}

/// Reads one server entry: the name, then ten fixed bytes — four address
/// octets, two port bytes, and a four-byte reserved field that must be
/// present but whose value is discarded.
pub open spec fn dec_server(b: Seq<u8>) -> Parsed<ServerInfoView> {
    match dec_string(b) {
        Parsed::Value { v: name, used } => {
            if b.len() < used + 10 {
                Parsed::Truncated
            } else {
                Parsed::Value {
                    v: ServerInfoView {
                        name: name,
                        ip: b.subrange(used, used + 4),
                        port: spec_u16_from_le_bytes(b.subrange(used + 4, used + 6)),
                    },
                    used: used + 10,
                }
            }
        },
        Parsed::Truncated => Parsed::Truncated,
        Parsed::BadText => Parsed::BadText,
    }
}

/// Reads exactly `n` server entries in sequence.
pub open spec fn dec_servers(b: Seq<u8>, n: nat) -> Parsed<Seq<ServerInfoView>>
    decreases n,
{
    if n == 0 {
        Parsed::Value { v: seq![], used: 0 }
    } else {
        match dec_server(b) {
            Parsed::Value { v, used } => match dec_servers(b.skip(used), (n - 1) as nat) {
                Parsed::Value { v: rest, used: used_rest } => Parsed::Value {
                    v: seq![v] + rest,
                    used: used + used_rest,
                },
                Parsed::Truncated => Parsed::Truncated,
                Parsed::BadText => Parsed::BadText,
            },
            Parsed::Truncated => Parsed::Truncated,
            Parsed::BadText => Parsed::BadText,
        }
    }
}

/// Reads a whole region record off the front of the buffer: version, the
/// two text fields, the server count, then exactly that many server
/// entries. Trailing bytes are deliberately ignored: the record is read
/// from a prefix of the buffer.
pub open spec fn dec_region(b: Seq<u8>) -> Parsed<RegionInfoView> {
    if b.len() < 4 {
        Parsed::Truncated
    } else {
        match dec_string(b.skip(4)) {
            Parsed::Value { v: name, used: used_name } => match dec_string(
                b.skip(4 + used_name),
            ) {
                Parsed::Value { v: to_ping, used: used_ping } => {
                    let tail = b.skip(4 + used_name + used_ping);
                    if tail.len() < 4 {
                        Parsed::Truncated
                    } else {
                        let count = spec_u32_from_le_bytes(tail.subrange(0, 4));
                        match dec_servers(tail.skip(4), count as nat) {
                            Parsed::Value { v: servers, used: used_servers } => Parsed::Value {
                                v: RegionInfoView {
                                    version: spec_u32_from_le_bytes(b.subrange(0, 4)),
                                    name: name,
                                    to_ping: to_ping,
                                    servers: servers,
                                },
                                used: 4 + used_name + used_ping + 4 + used_servers,
                            },
                            Parsed::Truncated => Parsed::Truncated,
                            Parsed::BadText => Parsed::BadText,
                        }
                    }
                },
                Parsed::Truncated => Parsed::Truncated,
                Parsed::BadText => Parsed::BadText,
            },
            Parsed::Truncated => Parsed::Truncated,
            Parsed::BadText => Parsed::BadText,
        }
    }
}

} // verus!
