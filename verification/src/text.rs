//! Text handling: the one trusted bridge from raw bytes to `String`, and
//! the dotted-decimal rendering of an IPv4 address.
use vstd::prelude::*;
use vstd::utf8::{
    decode_utf8, is_leading_byte_width_1, length_of_first_scalar, pop_first_scalar, valid_utf8,
};

verus! {

/// Relies on `String::from_utf8`: it succeeds exactly on the byte sequences
/// that are valid UTF-8, and then returns the text those bytes encode.
#[verifier::external_body]
pub(crate) fn string_from_utf8(bytes: Vec<u8>) -> (r: Option<String>)
    ensures
        r is Some <==> valid_utf8(bytes@),
        r matches Some(s) ==> s@ == decode_utf8(bytes@),
{
    String::from_utf8(bytes).ok()
}

/// The ASCII byte of the decimal digit `d`.
pub open spec fn digit_byte(d: int) -> u8
    recommends
        0 <= d <= 9,
{
    (48 + d) as u8
}

/// The ASCII bytes of `n` in decimal, most significant digit first, with no
/// leading zeros.
pub open spec fn decimal_ascii(n: u8) -> Seq<u8> {
    let v = n as int;
    if v < 10 {
        seq![digit_byte(v)]
    } else if v < 100 {
        seq![digit_byte(v / 10), digit_byte(v % 10)]
    } else {
        seq![digit_byte(v / 100), digit_byte((v / 10) % 10), digit_byte(v % 10)]
    }
}

/// The dotted-decimal ASCII bytes of an IPv4 address: the four octets in
/// decimal, joined by `.` (ASCII 46).
pub open spec fn ipv4_ascii(ip: Seq<u8>) -> Seq<u8>
    recommends
        ip.len() == 4,
{
    decimal_ascii(ip[0]) + seq![46u8] + decimal_ascii(ip[1]) + seq![46u8] + decimal_ascii(ip[2])
        + seq![46u8] + decimal_ascii(ip[3])
}

/// The dotted-decimal text of an IPv4 address: its ASCII bytes read as
/// UTF-8 (every ASCII byte is its own one-byte UTF-8 encoding).
pub open spec fn ipv4_text(ip: Seq<u8>) -> Seq<char> {
    decode_utf8(ipv4_ascii(ip))
}

/// True when every byte is in the ASCII range.
pub open spec fn all_ascii(b: Seq<u8>) -> bool {
    forall|i: int| 0 <= i < b.len() ==> b[i] < 0x80
}

/// A sequence of ASCII bytes is valid UTF-8: each byte is a one-byte
/// scalar encoding.
pub proof fn lemma_ascii_valid_utf8(b: Seq<u8>)
    requires
        all_ascii(b),
    ensures
        valid_utf8(b),
    decreases b.len(),
{
    if b.len() > 0 {
        assert(is_leading_byte_width_1(b[0]));
        assert(length_of_first_scalar(b) == 1);
        let rest = pop_first_scalar(b);
        assert(rest =~= b.skip(1));
        assert(all_ascii(rest));
        lemma_ascii_valid_utf8(rest);
    }
}

/// Every byte of a decimal rendering is an ASCII digit.
proof fn lemma_decimal_ascii_ascii(n: u8)
    ensures
        all_ascii(decimal_ascii(n)),
        1 <= decimal_ascii(n).len() <= 3,
{
}

/// The dotted-decimal bytes of an address are all ASCII.
pub proof fn lemma_ipv4_ascii_ascii(ip: Seq<u8>)
    requires
        ip.len() == 4,
    ensures
        all_ascii(ipv4_ascii(ip)),
{
    lemma_decimal_ascii_ascii(ip[0]);
    lemma_decimal_ascii_ascii(ip[1]);
    lemma_decimal_ascii_ascii(ip[2]);
    lemma_decimal_ascii_ascii(ip[3]);
}

/// Appends the decimal digits of `n` to `out`.
fn push_decimal(out: &mut Vec<u8>, n: u8)
    ensures
        final(out)@ == old(out)@ + decimal_ascii(n),
{
    let ghost start = out@;
    if n < 10 {
        out.push(48 + n);
    } else if n < 100 {
        out.push(48 + n / 10);
        out.push(48 + n % 10);
    } else {
        out.push(48 + n / 100);
        out.push(48 + (n / 10) % 10);
        out.push(48 + n % 10);
    }
    proof {
        assert(out@ =~= start + decimal_ascii(n));
    }
}

/// Renders an IPv4 address as dotted-decimal text.
pub fn ipv4_string(ip: &[u8; 4]) -> (r: String)
    ensures
        r@ == ipv4_text(ip@),
{
    let mut bytes: Vec<u8> = Vec::new();
    push_decimal(&mut bytes, ip[0]);
    bytes.push(46);
    push_decimal(&mut bytes, ip[1]);
    bytes.push(46);
    push_decimal(&mut bytes, ip[2]);
    bytes.push(46);
    push_decimal(&mut bytes, ip[3]);
    proof {
        assert(bytes@ =~= ipv4_ascii(ip@));
        lemma_ipv4_ascii_ascii(ip@);
        lemma_ascii_valid_utf8(bytes@);
    }
    match string_from_utf8(bytes) {
        Some(s) => s,
        None => {
            proof {
                assert(false);
            }
            String::new()
        },
    }
}

} // verus!
