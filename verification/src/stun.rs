//! A STUN Binding client, only as much of RFC 5389 as a keep-alive needs.
//!
//! RFC 5626 §4.4.2 makes STUN the keep-alive for UDP flows, and a better one than a SIP request:
//! the response carries the address the far end *sees*, so a UA learns that its NAT mapping
//! changed rather than only that the flow still works.
//!
//! Scope, deliberately: a Binding Request with no attributes, and a Binding Response read for its
//! mapped address. No `MESSAGE-INTEGRITY`, no `FINGERPRINT`, no long-term credentials.

use vstd::prelude::*;
use crate::addr::{IpAddress, SocketAddress};
use rand::Rng;

verus! {

/// RFC 5389 §6: the fixed cookie that distinguishes STUN from RFC 3489 and from other traffic.
pub const MAGIC_COOKIE: u32 = 0x2112_a442;

/// RFC 5389 §6: every STUN message begins with a 20-byte header.
pub const HEADER_LEN: usize = 20;

/// The 96 bits that tie a response to its request (RFC 5389 §6).
pub type TransactionId = [u8; 12];

/// The magic cookie's four bytes, most significant first.
pub open spec fn cookie_bytes() -> Seq<u8> {
    seq![0x21u8, 0x12u8, 0xa4u8, 0x42u8]
}

/// A big-endian 16-bit value.
pub open spec fn be16(hi: u8, lo: u8) -> u16 {
    (hi as u16 * 256 + lo as u16) as u16
}

/// The Binding Request RFC 5389 §6 and §7.1 specify: type `0x0001`, no attributes, the cookie,
/// then the transaction ID.
pub open spec fn binding_request_spec(id: Seq<u8>) -> Seq<u8> {
    seq![0x00u8, 0x01u8, 0x00u8, 0x00u8] + cookie_bytes() + id
}

/// RFC 5389 §7.3's test: a complete header, the top two bits zero, and the magic cookie.
pub open spec fn is_stun_spec(d: Seq<u8>) -> bool {
    &&& d.len() >= 20
    &&& d[0] & 0xc0u8 == 0
    &&& d.subrange(4, 8) == cookie_bytes()
}

/// What a datagram that is STUN turned out to say.
#[derive(Debug, Clone, PartialEq, Eq)]
pub enum Reply {
    /// A Binding Response, with the address the server saw — if it named one.
    Bound {
        /// The transaction this answers.
        id: TransactionId,
        /// The reflexive address, from `XOR-MAPPED-ADDRESS`.
        mapped: Option<SocketAddress>,
    },
    /// A Binding Error Response. RFC 5626 §4.4.2: the flow "is considered failed".
    Failed {
        /// The transaction this answers.
        id: TransactionId,
    },
}

/// The transaction a reply answers.
pub open spec fn reply_id(r: Reply) -> Seq<u8> {
    match r {
        Reply::Bound { id, .. } => id@,
        Reply::Failed { id } => id@,
    }
}

impl Reply {
    /// The transaction this reply belongs to.
    pub fn id(&self) -> (r: TransactionId)
        ensures
            r@ == reply_id(*self),
    {
        match self {
            Reply::Bound { id, .. } => *id,
            Reply::Failed { id } => *id,
        }
    }
}

/// `XOR-MAPPED-ADDRESS` decoded (RFC 5389 §15.2): the port is XORed with the cookie's top half,
/// an IPv4 address with the cookie, and an IPv6 address with the cookie followed by the
/// transaction ID. Nothing if the value is short or the family unknown.
pub open spec fn decode_xor_mapped_spec(value: Seq<u8>, id: Seq<u8>) -> Option<SocketAddress> {
    if value.len() < 4 {
        None
    } else {
        let port = (be16(value[2], value[3]) ^ 0x2112u16) as u16;
        if value[1] == 1u8 {
            if value.len() < 8 {
                None
            } else {
                Some(
                    SocketAddress {
                        ip: IpAddress::V4(
                            [
                                value[4] ^ 0x21u8,
                                value[5] ^ 0x12u8,
                                value[6] ^ 0xa4u8,
                                value[7] ^ 0x42u8,
                            ],
                        ),
                        port,
                    },
                )
            }
        } else if value[1] == 2u8 {
            if value.len() < 20 {
                None
            } else {
                Some(SocketAddress { ip: IpAddress::V6(xor_v6(value, id)), port })
            }
        } else {
            None
        }
    }
}

/// The IPv6 key is the cookie followed by the transaction ID.
pub open spec fn v6_key(id: Seq<u8>) -> Seq<u8> {
    cookie_bytes() + id
}

/// The sixteen address bytes of an IPv6 `XOR-MAPPED-ADDRESS`, un-XORed.
pub open spec fn xor_v6(value: Seq<u8>, id: Seq<u8>) -> [u8; 16] {
    let k = v6_key(id);
    [
        value[4] ^ k[0],
        value[5] ^ k[1],
        value[6] ^ k[2],
        value[7] ^ k[3],
        value[8] ^ k[4],
        value[9] ^ k[5],
        value[10] ^ k[6],
        value[11] ^ k[7],
        value[12] ^ k[8],
        value[13] ^ k[9],
        value[14] ^ k[10],
        value[15] ^ k[11],
        value[16] ^ k[12],
        value[17] ^ k[13],
        value[18] ^ k[14],
        value[19] ^ k[15],
    ]
}

/// Walk the attributes of a Binding Response body for `XOR-MAPPED-ADDRESS` (RFC 5389 §15).
///
/// Each attribute is a type, a length, and a value padded to a multiple of four bytes; the
/// padding is skipped, the stated length is not exceeded, and a truncated attribute ends the
/// walk with nothing.
pub open spec fn mapped_address_spec(body: Seq<u8>, id: Seq<u8>) -> Option<SocketAddress>
    decreases body.len(),
{
    if body.len() < 4 {
        None
    } else {
        let kind = be16(body[0], body[1]);
        let length = be16(body[2], body[3]) as int;
        if 4 + length > body.len() {
            None
        } else if kind == 0x0020u16 {
            decode_xor_mapped_spec(body.subrange(4, 4 + length), id)
        } else {
            let padded = (length + 3) / 4 * 4;
            if 4 + padded <= body.len() {
                mapped_address_spec(body.subrange(4 + padded, body.len() as int), id)
            } else {
                None
            }
        }
    }
}

/// Only `XOR-MAPPED-ADDRESS`, attribute type `0x0020`, gives the mapped address: a leading
/// attribute of any other type (`MAPPED-ADDRESS` among them) is skipped whole, its value and its
/// padding to a multiple of four bytes, and the answer is what the rest of the body gives.
pub proof fn only_xor_mapped_address_is_read(body: Seq<u8>, id: Seq<u8>)
    requires
        body.len() >= 4,
        body[0] as int * 256 + body[1] as int != 0x0020,
        4 + (body[2] as int * 256 + body[3] as int + 3) / 4 * 4 <= body.len(),
    ensures
        mapped_address_spec(body, id) == mapped_address_spec(
            body.subrange(4 + (body[2] as int * 256 + body[3] as int + 3) / 4 * 4, body.len() as int),
            id,
        ),
{
    lemma_be16(body[0], body[1]);
    lemma_be16(body[2], body[3]);
}

/// The first `XOR-MAPPED-ADDRESS` attribute, type `0x0020`, that fits in the body gives the
/// mapped address: its value, un-XORed.
pub proof fn a_leading_xor_mapped_address_is_the_answer(body: Seq<u8>, id: Seq<u8>)
    requires
        body.len() >= 4,
        body[0] as int * 256 + body[1] as int == 0x0020,
        4 + (body[2] as int * 256 + body[3] as int) <= body.len(),
    ensures
        mapped_address_spec(body, id) == decode_xor_mapped_spec(
            body.subrange(4, 4 + (body[2] as int * 256 + body[3] as int)),
            id,
        ),
{
    lemma_be16(body[0], body[1]);
    lemma_be16(body[2], body[3]);
}

proof fn lemma_be16(hi: u8, lo: u8)
    ensures
        be16(hi, lo) as int == hi as int * 256 + lo as int,
{
    assert((hi as u16 * 256 + lo as u16) as u16 as int == hi as int * 256 + lo as int) by (bit_vector);
}

/// The value of an IPv4 `XOR-MAPPED-ADDRESS` for an address and port (RFC 5389 §15.2): family 1,
/// the port XORed with `0x2112`, the address XORed with the magic cookie `0x2112A442`.
pub open spec fn xor_mapped_v4(a: [u8; 4], port: u16) -> Seq<u8> {
    seq![
        0u8,
        1u8,
        ((port / 256) as u8) ^ 0x21u8,
        ((port % 256) as u8) ^ 0x12u8,
        a[0] ^ 0x21u8,
        a[1] ^ 0x12u8,
        a[2] ^ 0xa4u8,
        a[3] ^ 0x42u8,
    ]
}

/// **The mapped address is read back exactly.** A body whose first attribute is an IPv4
/// `XOR-MAPPED-ADDRESS`, type `0x0020` and length 8, holding an address and port gives that
/// address and port, whatever follows it.
pub proof fn an_ipv4_xor_mapped_address_reads_back(a: [u8; 4], port: u16, id: Seq<u8>, rest: Seq<u8>)
    ensures
        mapped_address_spec(seq![0x00u8, 0x20u8, 0x00u8, 0x08u8] + xor_mapped_v4(a, port) + rest, id)
            == Some(SocketAddress { ip: IpAddress::V4(a), port }),
{
    let body = seq![0x00u8, 0x20u8, 0x00u8, 0x08u8] + xor_mapped_v4(a, port) + rest;
    lemma_be16(body[0], body[1]);
    lemma_be16(body[2], body[3]);
    let v = body.subrange(4, 12);
    assert(v =~= xor_mapped_v4(a, port));
    let hi = ((port / 256) as u8) ^ 0x21u8;
    let lo = ((port % 256) as u8) ^ 0x12u8;
    assert(((hi as u16 * 256 + lo as u16) as u16 ^ 0x2112u16) as u16 == port) by (bit_vector)
        requires
            hi == ((port / 256) as u8) ^ 0x21u8,
            lo == ((port % 256) as u8) ^ 0x12u8,
    ;
    let a0 = a[0];
    let a1 = a[1];
    let a2 = a[2];
    let a3 = a[3];
    assert((a0 ^ 0x21u8) ^ 0x21u8 == a0 && (a1 ^ 0x12u8) ^ 0x12u8 == a1 && (a2 ^ 0xa4u8) ^ 0xa4u8
        == a2 && (a3 ^ 0x42u8) ^ 0x42u8 == a3) by (bit_vector);
    assert([v[4] ^ 0x21u8, v[5] ^ 0x12u8, v[6] ^ 0xa4u8, v[7] ^ 0x42u8] =~= a);
}

/// Read a STUN reply, or nothing if the datagram is not one.
///
/// A Binding Error Response is a failed flow; a Binding Response is read within its stated
/// length for the mapped address. Requests and other types are not replies.
pub open spec fn parse_reply_spec(d: Seq<u8>) -> Option<Reply> {
    if !is_stun_spec(d) {
        None
    } else {
        let kind = be16(d[0], d[1]);
        let length = be16(d[2], d[3]) as int;
        let id = d.subrange(8, 20);
        if kind == 0x0111u16 {
            Some(Reply::Failed { id: seq_to_id(id) })
        } else if kind == 0x0101u16 {
            if 20 + length <= d.len() {
                Some(
                    Reply::Bound {
                        id: seq_to_id(id),
                        mapped: mapped_address_spec(d.subrange(20, 20 + length), id),
                    },
                )
            } else {
                None
            }
        } else {
            None
        }
    }
}

/// Twelve bytes as a transaction ID.
pub open spec fn seq_to_id(s: Seq<u8>) -> [u8; 12] {
    [s[0], s[1], s[2], s[3], s[4], s[5], s[6], s[7], s[8], s[9], s[10], s[11]]
}

/// Twelve bytes from `rand::rng()`, the thread-local generator that `rand` documents as
/// cryptographically secure, by `Rng::fill`. Nothing is stated of them: they are chance.
#[verifier::external_body]
fn random_transaction_id() -> [u8; 12] {
    let mut id = [0u8; 12];
    rand::rng().fill(&mut id);
    id
}

/// A fresh transaction ID.
///
/// RFC 5389 §6 requires it to be "uniformly and randomly chosen ... cryptographically random":
/// it is the only thing preventing an off-path attacker from forging a response.
pub fn new_transaction_id() -> TransactionId {
    random_transaction_id()
}

/// Encode a Binding Request with no attributes (RFC 5389 §6, §7.1).
pub fn binding_request(id: &TransactionId) -> (r: Vec<u8>)
    ensures
        r@ == binding_request_spec(id@),
{
    let mut out: Vec<u8> = Vec::new();
    out.push(0x00u8);
    out.push(0x01u8);
    out.push(0x00u8);
    out.push(0x00u8);
    out.push(0x21u8);
    out.push(0x12u8);
    out.push(0xa4u8);
    out.push(0x42u8);
    let mut i: usize = 0;
    while i < 12
        invariant
            i <= 12,
            out@ == seq![0x00u8, 0x01u8, 0x00u8, 0x00u8] + cookie_bytes() + id@.take(i as int),
        decreases 12 - i,
    {
        out.push(id[i]);
        proof {
            assert(id@.take(i + 1) =~= id@.take(i as int).push(id@[i as int]));
        }
        i = i + 1;
    }
    proof {
        assert(id@.take(12) =~= id@);
    }
    out
}

/// Whether a datagram is STUN rather than SIP (RFC 5389 §7.3).
pub fn is_stun(datagram: &[u8]) -> (r: bool)
    ensures
        r == is_stun_spec(datagram@),
{
    if datagram.len() < HEADER_LEN {
        return false;
    }
    if datagram[0] & 0xc0u8 != 0 {
        return false;
    }
    let r = datagram[4] == 0x21u8 && datagram[5] == 0x12u8 && datagram[6] == 0xa4u8 && datagram[7]
        == 0x42u8;
    proof {
        if r {
            assert(datagram@.subrange(4, 8) =~= cookie_bytes());
        } else {
            assert(datagram@.subrange(4, 8) != cookie_bytes()) by {
                if datagram@.subrange(4, 8) == cookie_bytes() {
                    assert(datagram@.subrange(4, 8)[0] == datagram@[4]);
                    assert(datagram@.subrange(4, 8)[1] == datagram@[5]);
                    assert(datagram@.subrange(4, 8)[2] == datagram@[6]);
                    assert(datagram@.subrange(4, 8)[3] == datagram@[7]);
                }
            }
        }
    }
    r
}

fn be16_exec(hi: u8, lo: u8) -> (r: u16)
    ensures
        r == be16(hi, lo),
{
    (hi as u16) * 256 + (lo as u16)
}

fn decode_xor_mapped(body: &[u8], start: usize, len: usize, id: &TransactionId) -> (r: Option<
    SocketAddress,
>)
    requires
        start + len <= body@.len(),
    ensures
        r == decode_xor_mapped_spec(body@.subrange(start as int, start + len), id@),
{
    let ghost value = body@.subrange(start as int, start + len);
    if len < 4 {
        return None;
    }
    assert(start + len <= body.len());
    assert(value[1] == body@[start + 1]);
    assert(value[2] == body@[start + 2]);
    assert(value[3] == body@[start + 3]);
    let port = be16_exec(body[start + 2], body[start + 3]) ^ 0x2112u16;
    let family = body[start + 1];
    if family == 1u8 {
        if len < 8 {
            return None;
        }
        assert(value[4] == body@[start + 4]);
        assert(value[5] == body@[start + 5]);
        assert(value[6] == body@[start + 6]);
        assert(value[7] == body@[start + 7]);
        let ip = [
            body[start + 4] ^ 0x21u8,
            body[start + 5] ^ 0x12u8,
            body[start + 6] ^ 0xa4u8,
            body[start + 7] ^ 0x42u8,
        ];
        Some(SocketAddress { ip: IpAddress::V4(ip), port })
    } else if family == 2u8 {
        if len < 20 {
            return None;
        }
        let b = start + 4;
        let ip = [
            body[b] ^ 0x21u8,
            body[b + 1] ^ 0x12u8,
            body[b + 2] ^ 0xa4u8,
            body[b + 3] ^ 0x42u8,
            body[b + 4] ^ id[0],
            body[b + 5] ^ id[1],
            body[b + 6] ^ id[2],
            body[b + 7] ^ id[3],
            body[b + 8] ^ id[4],
            body[b + 9] ^ id[5],
            body[b + 10] ^ id[6],
            body[b + 11] ^ id[7],
            body[b + 12] ^ id[8],
            body[b + 13] ^ id[9],
            body[b + 14] ^ id[10],
            body[b + 15] ^ id[11],
        ];
        proof {
            let k = v6_key(id@);
            assert(k[0] == 0x21u8 && k[1] == 0x12u8 && k[2] == 0xa4u8 && k[3] == 0x42u8);
            assert forall|i: int| 4 <= i < 16 implies #[trigger] k[i] == id@[i - 4] by {}
            assert forall|i: int| 0 <= i < 16 implies #[trigger] value[4 + i] == body@[b + i] by {}
            assert(ip@ =~= xor_v6(value, id@)@);
        }
        Some(SocketAddress { ip: IpAddress::V6(ip), port })
    } else {
        None
    }
}

/// Walk the attributes for `XOR-MAPPED-ADDRESS`.
fn mapped_address(d: &[u8], start: usize, end: usize, id: &TransactionId) -> (r: Option<
    SocketAddress,
>)
    requires
        start <= end <= d@.len(),
    ensures
        r == mapped_address_spec(d@.subrange(start as int, end as int), id@),
{
    let mut at = start;
    while end - at >= 4
        invariant
            start <= at <= end <= d@.len(),
            mapped_address_spec(d@.subrange(start as int, end as int), id@) == mapped_address_spec(
                d@.subrange(at as int, end as int),
                id@,
            ),
        decreases end - at,
    {
        let ghost body = d@.subrange(at as int, end as int);
        assert(body[0] == d@[at as int] && body[1] == d@[at + 1]);
        assert(body[2] == d@[at + 2] && body[3] == d@[at + 3]);
        let kind = be16_exec(d[at], d[at + 1]);
        let length = be16_exec(d[at + 2], d[at + 3]) as usize;
        if end - at - 4 < length {
            return None;
        }
        if kind == 0x0020u16 {
            proof {
                assert(d@.subrange(at + 4, at + 4 + length) =~= body.subrange(4, 4 + length));
            }
            return decode_xor_mapped(d, at + 4, length, id);
        }
        let padded = (length + 3) / 4 * 4;
        if end - at - 4 < padded {
            return None;
        }
        proof {
            assert(body.subrange(4 + padded, body.len() as int) =~= d@.subrange(
                at + 4 + padded,
                end as int,
            ));
        }
        at = at + 4 + padded;
    }
    None
}

/// Read a STUN reply, or `None` if the datagram is not one.
///
/// Requests are not decoded: this is a STUN *client*. A Binding Request arriving on a SIP
/// socket is something else's business, and answering it would make the endpoint a STUN server
/// by accident.
pub fn parse_reply(datagram: &[u8]) -> (r: Option<Reply>)
    ensures
        r == parse_reply_spec(datagram@),
{
    if !is_stun(datagram) {
        return None;
    }
    let kind = be16_exec(datagram[0], datagram[1]);
    let length = be16_exec(datagram[2], datagram[3]) as usize;
    let id: TransactionId = [
        datagram[8],
        datagram[9],
        datagram[10],
        datagram[11],
        datagram[12],
        datagram[13],
        datagram[14],
        datagram[15],
        datagram[16],
        datagram[17],
        datagram[18],
        datagram[19],
    ];
    proof {
        let s = datagram@.subrange(8, 20);
        assert(id@ =~= s);
        assert(seq_to_id(s)@ =~= s);
        assert(id == seq_to_id(s));
    }
    if kind == 0x0111u16 {
        Some(Reply::Failed { id })
    } else if kind == 0x0101u16 {
        if datagram.len() - 20 < length {
            return None;
        }
        let mapped = mapped_address(datagram, 20, 20 + length, &id);
        Some(Reply::Bound { id, mapped })
    } else {
        None
    }
}

/// The Binding Request this client sends passes RFC 5389 §7.3's test for STUN, and is never read
/// as a reply: the endpoint is a STUN client, and a request it received is not an answer.
pub proof fn our_request_is_stun_and_never_a_reply(id: [u8; 12])
    ensures
        is_stun_spec(binding_request_spec(id@)),
        parse_reply_spec(binding_request_spec(id@)) is None,
{
    let d = binding_request_spec(id@);
    assert(d.len() == 20);
    assert(d[0] == 0u8);
    assert(0u8 & 0xc0u8 == 0u8) by (bit_vector);
    assert(d.subrange(4, 8) =~= cookie_bytes());
    assert(be16(d[0], d[1]) == 1u16);
}

} // verus!
