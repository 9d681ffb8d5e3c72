//! The executable encoder: appends the binary form of a record to a byte
//! vector. Each method is proved to emit exactly the bytes that the
//! corresponding writer in `codec` describes, and to leave the vector
//! untouched when a field does not fit the layout.
use crate::codec::{enc_region, enc_server, enc_string, enc_servers, lemma_enc_servers_snoc};
use crate::region::{
    region_encodable, server_encodable, server_views, EncodeError, RegionInfo, ServerInfo,
};
use vstd::bytes::{spec_u32_to_le_bytes, u16_to_le_bytes, u32_to_le_bytes};
use vstd::prelude::*;
use vstd::slice::slice_index_get;
use vstd::string::StrSliceExecFns;
use vstd::utf8::encode_utf8;

verus! {

/// The error a failed record encode reports: the text fields are checked
/// first (`ValueTooLarge`), then the server count (`TooManyEntries`), then
/// the server names in order (`ValueTooLarge` again). Meaningful only when
/// the record is not encodable.
pub open spec fn encode_error_of(r: crate::region::RegionInfoView) -> EncodeError {
    if encode_utf8(r.name).len() <= 255 && encode_utf8(r.to_ping).len() <= 255 && r.servers.len()
        > 0xffff_ffff {
        EncodeError::TooManyEntries
    } else {
        EncodeError::ValueTooLarge
    }
}

impl ServerInfo {
    /// Appends this entry's binary form to `out`: the length-prefixed name,
    /// the four address octets, the little-endian port, and a zeroed
    /// four-byte reserved field. Fails, leaving `out` untouched, exactly
    /// when the name does not fit its one-byte length field.
    pub fn serialize(&self, out: &mut Vec<u8>) -> (r: Result<(), EncodeError>)
        ensures
            match r {
                Ok(()) => server_encodable(self@) && final(out)@ == old(out)@ + enc_server(self@),
                Err(e) => {
                    &&& !server_encodable(self@)
                    &&& e == EncodeError::ValueTooLarge
                    &&& final(out)@ == old(out)@
                },
            },
    {
        let ghost start = out@;
        let name_bytes = self.name.as_str().as_bytes_vec();
        if name_bytes.len() > 255 {
            return Err(EncodeError::ValueTooLarge);
        }
        out.push(name_bytes.len() as u8);
        out.extend_from_slice(name_bytes.as_slice());
        out.push(self.ip[0]);
        out.push(self.ip[1]);
        out.push(self.ip[2]);
        out.push(self.ip[3]);
        let port_bytes = u16_to_le_bytes(self.port);
        out.extend_from_slice(port_bytes.as_slice());
        let reserved_bytes = u32_to_le_bytes(0);
        out.extend_from_slice(reserved_bytes.as_slice());
        proof {
            assert(self.ip@ =~= seq![self.ip@[0], self.ip@[1], self.ip@[2], self.ip@[3]]);
            assert(out@ =~= start + enc_server(self@));
        }
        Ok(())
    }
}

impl RegionInfo {
    /// Appends the record's binary form to `out`: the version, the two
    /// length-prefixed text fields, the server count, then every server
    /// entry in order. Fails, leaving `out` untouched, when a text field
    /// needs more than 255 bytes (`ValueTooLarge`) or the server count does
    /// not fit in 32 bits (`TooManyEntries`); the text fields are checked
    /// first, then the count, then each server name in order.
    pub fn serialize(&self, out: &mut Vec<u8>) -> (r: Result<(), EncodeError>)
        ensures
            match r {
                Ok(()) => region_encodable(self@) && final(out)@ == old(out)@ + enc_region(self@),
                Err(e) => {
                    &&& !region_encodable(self@)
                    &&& final(out)@ == old(out)@
                    &&& e == encode_error_of(self@)
                },
            },
    {
        let ghost start = out@;
        if self.name.as_str().as_bytes().len() > 255 || self.to_ping.as_str().as_bytes().len() > 255 {
            return Err(EncodeError::ValueTooLarge);
        }
        proof {
            assert(self@.servers.len() == self.servers@.len());
        }
        if self.servers.len() > 0xffff_ffff {
            return Err(EncodeError::TooManyEntries);
        }
        let mut i: usize = 0;
        while i < self.servers.len()
            invariant
                i <= self.servers@.len(),
                self@.servers.len() == self.servers@.len(),
                encode_utf8(self.name@).len() <= 255,
                encode_utf8(self.to_ping@).len() <= 255,
                self.servers@.len() <= 0xffff_ffff,
                forall|j: int| 0 <= j < i ==> server_encodable(#[trigger] self.servers@[j]@),
            decreases self.servers@.len() - i,
        {
            let server = slice_index_get(self.servers.as_slice(), i);
            if server.name.as_str().as_bytes().len() > 255 {
                proof {
                    assert(self@.servers[i as int] == self.servers@[i as int]@);
                    assert(!server_encodable(self@.servers[i as int]));
                }
                return Err(EncodeError::ValueTooLarge);
            }
            proof {
                assert(server_encodable(self.servers@[i as int]@));
            }
            i = i + 1;
        }
        proof {
            assert forall|k: int| 0 <= k < self@.servers.len() implies server_encodable(
                #[trigger] self@.servers[k],
            ) by {
                assert(self@.servers[k] == self.servers@[k]@);
            }
            assert(region_encodable(self@));
        }
        let version_bytes = u32_to_le_bytes(self.version);
        out.extend_from_slice(version_bytes.as_slice());
        let name_bytes = self.name.as_str().as_bytes_vec();
        out.push(name_bytes.len() as u8);
        out.extend_from_slice(name_bytes.as_slice());
        let ping_bytes = self.to_ping.as_str().as_bytes_vec();
        out.push(ping_bytes.len() as u8);
        out.extend_from_slice(ping_bytes.as_slice());
        let count_bytes = u32_to_le_bytes(self.servers.len() as u32);
        out.extend_from_slice(count_bytes.as_slice());
        let ghost head = out@;
        proof {
            assert(head =~= start + spec_u32_to_le_bytes(self.version) + enc_string(self.name@)
                + enc_string(self.to_ping@) + spec_u32_to_le_bytes(
                self@.servers.len() as u32,
            ));
        }
        let mut i: usize = 0;
        while i < self.servers.len()
            invariant
                i <= self.servers@.len(),
                self@.servers.len() == self.servers@.len(),
                region_encodable(self@),
                out@ == head + enc_servers(server_views(self.servers@).take(i as int)),
                head == start + spec_u32_to_le_bytes(self.version) + enc_string(self.name@)
                    + enc_string(self.to_ping@) + spec_u32_to_le_bytes(self@.servers.len() as u32),
                forall|j: int|
                    0 <= j < self.servers@.len() ==> server_encodable(
                        #[trigger] self.servers@[j]@,
                    ),
            decreases self.servers@.len() - i,
        {
            let ghost before = out@;
            let server = slice_index_get(self.servers.as_slice(), i);
            match server.serialize(out) {
                Ok(()) => {},
                Err(_) => {
                    proof {
                        assert(server_encodable(self.servers@[i as int]@));
                        assert(false);
                    }
                    return Err(EncodeError::ValueTooLarge);
                },
            }
            i = i + 1;
            proof {
                let views = server_views(self.servers@);
                assert(views.take(i as int).drop_last() =~= views.take(i as int - 1));
                assert(views.take(i as int).last() == self.servers@[i as int - 1]@);
                lemma_enc_servers_snoc(views.take(i as int));
                assert(out@ =~= head + enc_servers(views.take(i as int)));
            }
        }
        proof {
            let views = server_views(self.servers@);
            assert(views.take(self.servers@.len() as int) =~= views);
            assert(out@ =~= start + enc_region(self@));
        }
        Ok(())
    }
}

} // verus!
