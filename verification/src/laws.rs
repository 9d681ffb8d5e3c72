//! The laws of the codec, proved over the byte-layout functions in
//! `codec`: encoding then decoding gives the record back, trailing bytes
//! after a record are ignored, and a record cut short anywhere always
//! decodes to a truncation error.
use crate::codec::{
    dec_region, dec_server, dec_servers, dec_string, enc_region, enc_server, enc_servers,
    enc_string, used_of, Parsed,
};
use crate::region::{region_encodable, server_encodable, RegionInfoView, ServerInfoView};
use vstd::bytes::{
    lemma_auto_spec_u16_to_from_le_bytes, lemma_auto_spec_u32_to_from_le_bytes,
    spec_u16_to_le_bytes, spec_u32_to_le_bytes,
};
use vstd::prelude::*;
use vstd::utf8::{encode_utf8, encode_utf8_decode_utf8, encode_utf8_valid_utf8};

verus! {

/// A successful string read consumes at least its length byte and at most
/// the whole buffer.
proof fn lemma_dec_string_bound(b: Seq<u8>)
    ensures
        dec_string(b) is Value ==> 1 <= used_of(dec_string(b)) <= b.len(),
{
}

/// A string read looks only at the bytes it consumes: any buffer that
/// carries the same consumed prefix reads the same.
proof fn lemma_dec_string_agree(b1: Seq<u8>, b2: Seq<u8>)
    requires
        dec_string(b1) is Value,
        used_of(dec_string(b1)) <= b2.len(),
        b2.subrange(0, used_of(dec_string(b1))) == b1.subrange(0, used_of(dec_string(b1))),
    ensures
        dec_string(b2) == dec_string(b1),
{
    let u = used_of(dec_string(b1));
    lemma_dec_string_bound(b1);
    assert(b2[0] == b2.subrange(0, u)[0]);
    assert(b1[0] == b1.subrange(0, u)[0]);
    let n = b1[0] as int;
    assert(b2.subrange(1, 1 + n) =~= b2.subrange(0, u).subrange(1, 1 + n));
    assert(b1.subrange(1, 1 + n) =~= b1.subrange(0, u).subrange(1, 1 + n));
    assert(b2.subrange(1, 1 + n) == b1.subrange(1, 1 + n));
}

/// Cutting a buffer inside the consumed part of a string field leaves a
/// truncated read.
proof fn lemma_dec_string_truncated(b: Seq<u8>, i: int)
    requires
        dec_string(b) is Value,
        0 <= i < used_of(dec_string(b)),
    ensures
        dec_string(b.take(i)) is Truncated,
{
    if i > 0 {
        assert(b.take(i)[0] == b[0]);
    }
}

/// Reading a length-prefixed string back from its encoding gives the
/// original text, whatever follows it.
proof fn lemma_dec_enc_string(s: Seq<char>, rest: Seq<u8>)
    requires
        encode_utf8(s).len() <= 255,
    ensures
        dec_string(enc_string(s) + rest) == (Parsed::Value { v: s, used: enc_string(s).len() as int
        }),
{
    let eb = encode_utf8(s);
    let b = enc_string(s) + rest;
    assert(b[0] == eb.len() as u8);
    assert(b[0] as int == eb.len());
    assert(b.len() >= 1 + eb.len());
    assert(b.subrange(1, 1 + eb.len() as int) =~= eb);
    encode_utf8_valid_utf8(s);
    encode_utf8_decode_utf8(s);
    assert(dec_string(b) == (Parsed::Value { v: s, used: 1 + eb.len() as int }));
    assert(enc_string(s).len() == 1 + eb.len());
}

/// A successful server read consumes between eleven bytes and the whole
/// buffer.
proof fn lemma_dec_server_bound(b: Seq<u8>)
    ensures
        dec_server(b) is Value ==> 1 <= used_of(dec_server(b)) <= b.len(),
{
    if dec_server(b) is Value {
        lemma_dec_string_bound(b);
    }
}

/// A server read looks only at the bytes it consumes.
proof fn lemma_dec_server_agree(b1: Seq<u8>, b2: Seq<u8>)
    requires
        dec_server(b1) is Value,
        used_of(dec_server(b1)) <= b2.len(),
        b2.subrange(0, used_of(dec_server(b1))) == b1.subrange(0, used_of(dec_server(b1))),
    ensures
        dec_server(b2) == dec_server(b1),
{
    let u = used_of(dec_server(b1));
    let u0 = used_of(dec_string(b1));
    lemma_dec_string_bound(b1);
    assert(b2.subrange(0, u0) =~= b2.subrange(0, u).subrange(0, u0));
    assert(b1.subrange(0, u0) =~= b1.subrange(0, u).subrange(0, u0));
    lemma_dec_string_agree(b1, b2);
    assert(b2.subrange(u0, u0 + 4) =~= b2.subrange(0, u).subrange(u0, u0 + 4));
    assert(b1.subrange(u0, u0 + 4) =~= b1.subrange(0, u).subrange(u0, u0 + 4));
    assert(b2.subrange(u0 + 4, u0 + 6) =~= b2.subrange(0, u).subrange(u0 + 4, u0 + 6));
    assert(b1.subrange(u0 + 4, u0 + 6) =~= b1.subrange(0, u).subrange(u0 + 4, u0 + 6));
}

/// Cutting a buffer inside the consumed part of a server entry leaves a
/// truncated read.
proof fn lemma_dec_server_truncated(b: Seq<u8>, i: int)
    requires
        dec_server(b) is Value,
        0 <= i < used_of(dec_server(b)),
    ensures
        dec_server(b.take(i)) is Truncated,
{
    let u0 = used_of(dec_string(b));
    lemma_dec_string_bound(b);
    if i < u0 {
        lemma_dec_string_truncated(b, i);
    } else {
        assert(b.take(i).subrange(0, u0) =~= b.subrange(0, u0));
        lemma_dec_string_agree(b, b.take(i));
    }
}

/// Reading a server entry back from its encoding gives the original
/// entry, whatever follows it.
proof fn lemma_dec_enc_server(s: ServerInfoView, rest: Seq<u8>)
    requires
        server_encodable(s),
    ensures
        dec_server(enc_server(s) + rest) == (Parsed::Value { v: s, used: enc_server(s).len() as int
        }),
{
    lemma_auto_spec_u16_to_from_le_bytes();
    lemma_auto_spec_u32_to_from_le_bytes();
    let after_name = s.ip + spec_u16_to_le_bytes(s.port) + spec_u32_to_le_bytes(0) + rest;
    let b = enc_server(s) + rest;
    assert(b =~= enc_string(s.name) + after_name);
    lemma_dec_enc_string(s.name, after_name);
    let u0 = enc_string(s.name).len() as int;
    assert(b.len() == u0 + 10 + rest.len());
    assert(b.subrange(u0, u0 + 4) =~= s.ip);
    assert(b.subrange(u0 + 4, u0 + 6) =~= spec_u16_to_le_bytes(s.port));
    assert(dec_server(b) matches Parsed::Value { v, used } && v =~= s && used == enc_server(
        s,
    ).len() as int);
}

/// A successful read of a server list consumes at most the whole buffer.
proof fn lemma_dec_servers_bound(b: Seq<u8>, n: nat)
    ensures
        dec_servers(b, n) is Value ==> 0 <= used_of(dec_servers(b, n)) <= b.len(),
    decreases n,
{
    if n > 0 && dec_servers(b, n) is Value {
        let u1 = used_of(dec_server(b));
        lemma_dec_server_bound(b);
        lemma_dec_servers_bound(b.skip(u1), (n - 1) as nat);
    }
}

/// A server-list read looks only at the bytes it consumes.
proof fn lemma_dec_servers_agree(b1: Seq<u8>, b2: Seq<u8>, n: nat)
    requires
        dec_servers(b1, n) is Value,
        used_of(dec_servers(b1, n)) <= b2.len(),
        b2.subrange(0, used_of(dec_servers(b1, n))) == b1.subrange(
            0,
            used_of(dec_servers(b1, n)),
        ),
    ensures
        dec_servers(b2, n) == dec_servers(b1, n),
    decreases n,
{
    let u = used_of(dec_servers(b1, n));
    if n > 0 {
        let u1 = used_of(dec_server(b1));
        lemma_dec_server_bound(b1);
        lemma_dec_servers_bound(b1.skip(u1), (n - 1) as nat);
        assert(b2.subrange(0, u1) =~= b2.subrange(0, u).subrange(0, u1));
        assert(b1.subrange(0, u1) =~= b1.subrange(0, u).subrange(0, u1));
        lemma_dec_server_agree(b1, b2);
        let r1 = b1.skip(u1);
        let r2 = b2.skip(u1);
        let ur = used_of(dec_servers(r1, (n - 1) as nat));
        assert(r2.subrange(0, ur) =~= b2.subrange(0, u).subrange(u1, u1 + ur));
        assert(r1.subrange(0, ur) =~= b1.subrange(0, u).subrange(u1, u1 + ur));
        lemma_dec_servers_agree(r1, r2, (n - 1) as nat);
    }
}

/// Cutting a buffer inside the consumed part of a server list leaves a
/// truncated read.
proof fn lemma_dec_servers_truncated(b: Seq<u8>, n: nat, i: int)
    requires
        dec_servers(b, n) is Value,
        0 <= i < used_of(dec_servers(b, n)),
    ensures
        dec_servers(b.take(i), n) is Truncated,
    decreases n,
{
    if n > 0 {
        let u1 = used_of(dec_server(b));
        lemma_dec_server_bound(b);
        lemma_dec_servers_bound(b.skip(u1), (n - 1) as nat);
        if i < u1 {
            lemma_dec_server_truncated(b, i);
        } else {
            assert(b.take(i).subrange(0, u1) =~= b.subrange(0, u1));
            lemma_dec_server_agree(b, b.take(i));
            assert(b.take(i).skip(u1) =~= b.skip(u1).take(i - u1));
            lemma_dec_servers_truncated(b.skip(u1), (n - 1) as nat, i - u1);
        }
    }
}

/// Reading a server list back from its encoding gives the original
/// entries in order, whatever follows them.
proof fn lemma_dec_enc_servers(ss: Seq<ServerInfoView>, rest: Seq<u8>)
    requires
        forall|k: int| 0 <= k < ss.len() ==> server_encodable(#[trigger] ss[k]),
    ensures
        dec_servers(enc_servers(ss) + rest, ss.len()) == (Parsed::Value {
            v: ss,
            used: enc_servers(ss).len() as int,
        }),
    decreases ss.len(),
{
    let b = enc_servers(ss) + rest;
    if ss.len() == 0 {
        assert(dec_servers(b, 0) == (Parsed::Value { v: Seq::<ServerInfoView>::empty(), used: 0
        }));
        assert(ss =~= Seq::<ServerInfoView>::empty());
    } else {
        let tail_enc = enc_servers(ss.drop_first()) + rest;
        assert(b =~= enc_server(ss[0]) + tail_enc);
        lemma_dec_enc_server(ss[0], tail_enc);
        let u1 = enc_server(ss[0]).len() as int;
        assert(b.skip(u1) =~= tail_enc);
        lemma_dec_enc_servers(ss.drop_first(), rest);
        assert(seq![ss[0]] + ss.drop_first() =~= ss);
        assert(dec_servers(b, ss.len()) matches Parsed::Value { v, used } && v =~= ss && used
            == enc_servers(ss).len() as int);
    }
}

/// A successful record read consumes at most the whole buffer.
proof fn lemma_dec_region_bound(b: Seq<u8>)
    ensures
        dec_region(b) is Value ==> 0 <= used_of(dec_region(b)) <= b.len(),
{
    if dec_region(b) is Value {
        let u1 = used_of(dec_string(b.skip(4)));
        lemma_dec_string_bound(b.skip(4));
        let u2 = used_of(dec_string(b.skip(4 + u1)));
        lemma_dec_string_bound(b.skip(4 + u1));
        let tail = b.skip(4 + u1 + u2);
        let count = vstd::bytes::spec_u32_from_le_bytes(tail.subrange(0, 4));
        lemma_dec_servers_bound(tail.skip(4), count as nat);
    }
}

/// A record read looks only at the bytes it consumes.
proof fn lemma_dec_region_agree(b1: Seq<u8>, b2: Seq<u8>)
    requires
        dec_region(b1) is Value,
        used_of(dec_region(b1)) <= b2.len(),
        b2.subrange(0, used_of(dec_region(b1))) == b1.subrange(0, used_of(dec_region(b1))),
    ensures
        dec_region(b2) == dec_region(b1),
{
    let u = used_of(dec_region(b1));
    let u1 = used_of(dec_string(b1.skip(4)));
    lemma_dec_string_bound(b1.skip(4));
    let u2 = used_of(dec_string(b1.skip(4 + u1)));
    lemma_dec_string_bound(b1.skip(4 + u1));
    let tail1 = b1.skip(4 + u1 + u2);
    let tail2 = b2.skip(4 + u1 + u2);
    let count = vstd::bytes::spec_u32_from_le_bytes(tail1.subrange(0, 4));
    let u3 = used_of(dec_servers(tail1.skip(4), count as nat));
    lemma_dec_servers_bound(tail1.skip(4), count as nat);
    assert(b2.subrange(0, 4) =~= b2.subrange(0, u).subrange(0, 4));
    assert(b1.subrange(0, 4) =~= b1.subrange(0, u).subrange(0, 4));
    assert(b2.skip(4).subrange(0, u1) =~= b2.subrange(0, u).subrange(4, 4 + u1));
    assert(b1.skip(4).subrange(0, u1) =~= b1.subrange(0, u).subrange(4, 4 + u1));
    lemma_dec_string_agree(b1.skip(4), b2.skip(4));
    assert(b2.skip(4 + u1).subrange(0, u2) =~= b2.subrange(0, u).subrange(4 + u1, 4 + u1 + u2));
    assert(b1.skip(4 + u1).subrange(0, u2) =~= b1.subrange(0, u).subrange(4 + u1, 4 + u1 + u2));
    lemma_dec_string_agree(b1.skip(4 + u1), b2.skip(4 + u1));
    assert(tail2.subrange(0, 4) =~= b2.subrange(0, u).subrange(4 + u1 + u2, 4 + u1 + u2 + 4));
    assert(tail1.subrange(0, 4) =~= b1.subrange(0, u).subrange(4 + u1 + u2, 4 + u1 + u2 + 4));
    assert(tail2.skip(4).subrange(0, u3) =~= b2.subrange(0, u).subrange(
        4 + u1 + u2 + 4,
        4 + u1 + u2 + 4 + u3,
    ));
    assert(tail1.skip(4).subrange(0, u3) =~= b1.subrange(0, u).subrange(
        4 + u1 + u2 + 4,
        4 + u1 + u2 + 4 + u3,
    ));
    lemma_dec_servers_agree(tail1.skip(4), tail2.skip(4), count as nat);
}

/// Law: a record is read off a prefix of the buffer, and bytes past that
/// prefix make no difference — decoding a buffer that extends a decodable
/// one gives the same record.
pub proof fn lemma_decode_ignores_trailing_bytes(b: Seq<u8>, extra: Seq<u8>)
    requires
        dec_region(b) is Value,
    ensures
        dec_region(b + extra) == dec_region(b),
{
    lemma_dec_region_bound(b);
    let u = used_of(dec_region(b));
    assert((b + extra).subrange(0, u) =~= b.subrange(0, u));
    lemma_dec_region_agree(b, b + extra);
}

/// Law: cutting a buffer anywhere inside the bytes a record read consumed
/// leaves a truncation error — never a wrong success and never an
/// invalid-text error.
pub proof fn lemma_decode_detects_truncation(b: Seq<u8>, i: int)
    requires
        dec_region(b) is Value,
        0 <= i < used_of(dec_region(b)),
    ensures
        dec_region(b.take(i)) is Truncated,
{
    let bt = b.take(i);
    if i < 4 {
        assert(bt.len() < 4);
    } else {
        let u1 = used_of(dec_string(b.skip(4)));
        lemma_dec_string_bound(b.skip(4));
        let u2 = used_of(dec_string(b.skip(4 + u1)));
        lemma_dec_string_bound(b.skip(4 + u1));
        let tail = b.skip(4 + u1 + u2);
        let count = vstd::bytes::spec_u32_from_le_bytes(tail.subrange(0, 4));
        let u3 = used_of(dec_servers(tail.skip(4), count as nat));
        lemma_dec_servers_bound(tail.skip(4), count as nat);
        assert(bt.skip(4) =~= b.skip(4).take(i - 4));
        if i - 4 < u1 {
            lemma_dec_string_truncated(b.skip(4), i - 4);
        } else {
            assert(b.skip(4).take(i - 4).subrange(0, u1) =~= b.skip(4).subrange(0, u1));
            lemma_dec_string_agree(b.skip(4), bt.skip(4));
            assert(bt.skip(4 + u1) =~= b.skip(4 + u1).take(i - 4 - u1));
            if i - 4 - u1 < u2 {
                lemma_dec_string_truncated(b.skip(4 + u1), i - 4 - u1);
            } else {
                assert(b.skip(4 + u1).take(i - 4 - u1).subrange(0, u2) =~= b.skip(
                    4 + u1,
                ).subrange(0, u2));
                lemma_dec_string_agree(b.skip(4 + u1), bt.skip(4 + u1));
                let j = i - 4 - u1 - u2;
                let tail_t = bt.skip(4 + u1 + u2);
                assert(tail_t =~= tail.take(j));
                if j < 4 {
                    assert(tail_t.len() < 4);
                } else {
                    assert(tail_t.subrange(0, 4) =~= tail.subrange(0, 4));
                    assert(tail_t.skip(4) =~= tail.skip(4).take(j - 4));
                    lemma_dec_servers_truncated(tail.skip(4), count as nat, j - 4);
                }
            }
        }
    }
}

/// Law: encoding an encodable record and decoding the result gives the
/// record back, with the whole buffer consumed.
pub proof fn lemma_round_trip(r: RegionInfoView)
    requires
        region_encodable(r),
    ensures
        dec_region(enc_region(r)) == (Parsed::Value { v: r, used: enc_region(r).len() as int }),
{
    lemma_auto_spec_u32_to_from_le_bytes();
    let vb = spec_u32_to_le_bytes(r.version);
    let s1 = enc_string(r.name);
    let s2 = enc_string(r.to_ping);
    let cb = spec_u32_to_le_bytes(r.servers.len() as u32);
    let sv = enc_servers(r.servers);
    let b = enc_region(r);
    let u1 = s1.len() as int;
    let u2 = s2.len() as int;
    assert(b.len() == 4 + u1 + u2 + 4 + sv.len());
    assert(b.subrange(0, 4) =~= vb);
    assert(b.skip(4) =~= s1 + (s2 + cb + sv));
    lemma_dec_enc_string(r.name, s2 + cb + sv);
    assert(b.skip(4 + u1) =~= s2 + (cb + sv));
    lemma_dec_enc_string(r.to_ping, cb + sv);
    let tail = b.skip(4 + u1 + u2);
    assert(tail =~= cb + sv);
    assert(tail.subrange(0, 4) =~= cb);
    assert(vstd::bytes::spec_u32_from_le_bytes(cb) == r.servers.len() as u32);
    assert((r.servers.len() as u32) as nat == r.servers.len());
    assert(tail.skip(4) =~= sv + Seq::<u8>::empty());
    lemma_dec_enc_servers(r.servers, Seq::<u8>::empty());
    assert(dec_region(b) matches Parsed::Value { v, used } && v =~= r && used == b.len() as int);
}

/// Law: a complete encoded record, cut short at any byte strictly before
/// its end, decodes to a truncation error.
pub proof fn lemma_truncated_encoding_fails(r: RegionInfoView, i: int)
    requires
        region_encodable(r),
        0 <= i < enc_region(r).len(),
    ensures
        dec_region(enc_region(r).take(i)) is Truncated,
{
    lemma_round_trip(r);
    lemma_decode_detects_truncation(enc_region(r), i);
}

} // verus!
