//! Recording the signalling an endpoint exchanged, as pcapng, for attaching to a bug report.
//!
//! Off by default. The loop stamps each record with a sequence number and a timestamp; the
//! bytes of every block are built here, and writing them is the writer's business. Redaction of
//! the secrets a capture would otherwise carry is in [`crate::redact`].
//!
//! Every block is written least-significant byte first, with the byte-order magic in the same
//! order, so a reader knows which way round the file is.

use vstd::prelude::*;
use crate::addr::{IpAddress, SocketAddress};
use crate::target::TransportKind;
use crate::redact::{redact, redact_spec};
use crate::text::{copy_range, decimal, push_all, push_decimal};

verus! {

/// How a capture is configured.
#[derive(Debug, Clone)]
pub struct CaptureConfig {
    /// Where to write the pcapng file. Created, or truncated if it exists.
    pub path: String,
    /// Whether to strip credentials before writing. **On by default.** Never turn it off for a
    /// capture that will leave the machine.
    pub redact: bool,
    /// How many records may queue for the writer before records are dropped.
    pub queue: usize,
}

impl CaptureConfig {
    /// A redacting capture at `path`, with a queue deep enough for a burst.
    pub fn new(path: String) -> (r: CaptureConfig)
        ensures
            r.path == path,
            r.redact,
            r.queue == 1024,
    {
        CaptureConfig { path, redact: true, queue: 1024 }
    }

    /// Keep credentials in the file. Named so that it cannot be reached without saying what it
    /// does at the call site.
    pub fn without_redaction(self) -> (r: CaptureConfig)
        ensures
            r.path == self.path,
            !r.redact,
            r.queue == self.queue,
    {
        let mut c = self;
        c.redact = false;
        c
    }
}

/// Which way a message was going.
#[derive(Debug, Clone, Copy, PartialEq, Eq)]
pub enum Direction {
    /// Received by this endpoint.
    In,
    /// Sent by this endpoint.
    Out,
}

/// How a direction is written in a block comment.
pub open spec fn direction_text(d: Direction) -> Seq<u8> {
    match d {
        Direction::In => seq![105u8, 110u8],
        Direction::Out => seq![111u8, 117u8, 116u8],
    }
}

impl Direction {
    /// How this direction is written in a block comment.
    pub fn as_str(self) -> (r: &'static str)
        ensures
            r@ == (match self {
                Direction::In => seq!['i', 'n'],
                Direction::Out => seq!['o', 'u', 't'],
            }),
    {
        proof {
            reveal_strlit("in");
            reveal_strlit("out");
        }
        match self {
            Direction::In => "in",
            Direction::Out => "out",
        }
    }

    /// How this direction is written in a block comment, as bytes.
    pub fn token(self) -> (r: Vec<u8>)
        ensures
            r@ == direction_text(self),
    {
        match self {
            Direction::In => vec![105u8, 110u8],
            Direction::Out => vec![111u8, 117u8, 116u8],
        }
    }
}

/// One observed message, stamped at the point it crossed the boundary.
#[derive(Debug, Clone)]
pub struct Record {
    /// The order the loop saw it in. This, and not the write, is what makes the capture faithful.
    pub seq: u64,
    /// When, in nanoseconds since the Unix epoch.
    pub at_nanos: u64,
    /// This endpoint's address.
    pub local: SocketAddress,
    /// The far end's address.
    pub peer: SocketAddress,
    /// This endpoint's address as text, as the comment shows it.
    pub local_text: Vec<u8>,
    /// The far end's address as text, as the comment shows it.
    pub peer_text: Vec<u8>,
    /// What the message really travelled on.
    pub transport: TransportKind,
    /// Which way it went.
    pub direction: Direction,
    /// The message.
    pub bytes: Vec<u8>,
    /// Whether redaction changed anything, so the comment can say so.
    pub redacted: bool,
}

/// What a running capture keeps between messages: the last sequence number it gave, and
/// whether it strips credentials.
#[derive(Debug)]
pub struct Recorder {
    /// The sequence number of the last record; 0 before the first.
    pub seq: u64,
    /// Whether credentials are stripped before a record is written.
    pub redact: bool,
}

impl Recorder {
    /// A capture that has recorded nothing yet.
    pub fn new(redact: bool) -> (r: Recorder)
        ensures
            r.seq == 0,
            r.redact == redact,
    {
        Recorder { seq: 0, redact }
    }

    /// The record for one observed message, stamped with the next sequence number and the time
    /// the caller read; the bytes redacted where redaction is on and finds something to strip.
    ///
    /// The sequence number saturates rather than wraps, so the order the loop saw stays
    /// monotonic.
    pub fn record(
        &mut self,
        at_nanos: u64,
        local: SocketAddress,
        peer: SocketAddress,
        local_text: Vec<u8>,
        peer_text: Vec<u8>,
        transport: TransportKind,
        direction: Direction,
        bytes: &[u8],
    ) -> (r: Record)
        ensures
            final(self).redact == old(self).redact,
            final(self).seq == (if old(self).seq == u64::MAX {
                u64::MAX
            } else {
                (old(self).seq + 1) as u64
            }),
            r.seq == final(self).seq,
            r.at_nanos == at_nanos,
            r.local == local,
            r.peer == peer,
            r.local_text == local_text,
            r.peer_text == peer_text,
            r.transport == transport,
            r.direction == direction,
            r.redacted == (old(self).redact && redact_spec(bytes@) is Some),
            r.bytes@ == (if r.redacted {
                redact_spec(bytes@).unwrap()
            } else {
                bytes@
            }),
    {
        self.seq = self.seq.saturating_add(1);
        let cleaned = if self.redact {
            redact(bytes)
        } else {
            None
        };
        let (bytes, redacted) = match cleaned {
            Some(clean) => (clean, true),
            None => (copy_range(bytes, 0, bytes.len()), false),
        };
        Record {
            seq: self.seq,
            at_nanos,
            local,
            peer,
            local_text,
            peer_text,
            transport,
            direction,
            bytes,
            redacted,
        }
    }
}

/// A length rounded up to the next multiple of four, as every pcapng block requires.
pub open spec fn padded_spec(len: int) -> int {
    (len + 3) / 4 * 4
}

/// Pad a length up to the next multiple of four.
pub fn padded(len: usize) -> (r: usize)
    requires
        len + 3 <= usize::MAX,
    ensures
        r == padded_spec(len as int),
        len <= r < len + 4,
{
    (len + 3) / 4 * 4
}

/// The zero bytes that carry `len` up to the next multiple of four.
pub fn padding(len: usize) -> (r: Vec<u8>)
    requires
        len + 3 <= usize::MAX,
    ensures
        r@ == Seq::new((padded_spec(len as int) - len) as nat, |i: int| 0u8),
{
    let n = padded(len) - len;
    let mut out: Vec<u8> = Vec::new();
    let mut i: usize = 0;
    while i < n
        invariant
            i <= n,
            n == padded_spec(len as int) - len,
            out@ == Seq::new(i as nat, |k: int| 0u8),
        decreases n - i,
    {
        out.push(0u8);
        proof {
            assert(out@ =~= Seq::new((i + 1) as nat, |k: int| 0u8));
        }
        i = i + 1;
    }
    out
}

/// A 16-bit value, least significant byte first.
pub open spec fn le16(x: u16) -> Seq<u8> {
    seq![(x % 256) as u8, (x / 256) as u8]
}

/// A 32-bit value, least significant byte first.
pub open spec fn le32(x: u32) -> Seq<u8> {
    seq![(x % 256) as u8, ((x / 256) % 256) as u8, ((x / 65536) % 256) as u8, (x / 16777216) as u8]
}

/// A 16-bit value, most significant byte first.
pub open spec fn be16(x: u16) -> Seq<u8> {
    seq![(x / 256) as u8, (x % 256) as u8]
}

fn push_le16(out: &mut Vec<u8>, x: u16)
    ensures
        final(out)@ == old(out)@ + le16(x),
{
    out.push((x % 256) as u8);
    out.push((x / 256) as u8);
    proof {
        assert(final(out)@ =~= old(out)@ + le16(x));
    }
}

fn push_le32(out: &mut Vec<u8>, x: u32)
    ensures
        final(out)@ == old(out)@ + le32(x),
{
    out.push((x % 256) as u8);
    out.push(((x / 256) % 256) as u8);
    out.push(((x / 65536) % 256) as u8);
    out.push((x / 16777216) as u8);
    proof {
        assert(final(out)@ =~= old(out)@ + le32(x));
    }
}

fn push_be16(out: &mut Vec<u8>, x: u16)
    ensures
        final(out)@ == old(out)@ + be16(x),
{
    out.push((x / 256) as u8);
    out.push((x % 256) as u8);
    proof {
        assert(final(out)@ =~= old(out)@ + be16(x));
    }
}

/// `n` zero bytes.
pub open spec fn zeros(n: int) -> Seq<u8> {
    Seq::new(n as nat, |i: int| 0u8)
}

/// An option: code, length, value, padded; a value longer than a length field can say is cut to
/// the longest it can.
pub open spec fn option_bytes(code: u16, value: Seq<u8>) -> Seq<u8> {
    let len: u16 = if value.len() > u16::MAX {
        u16::MAX
    } else {
        value.len() as u16
    };
    let v = value.take(len as int);
    le16(code) + le16(len) + v + zeros(padded_spec(v.len() as int) - v.len())
}

/// Append an option: code, length, value, padded.
pub fn push_option(body: &mut Vec<u8>, code: u16, value: &[u8])
    ensures
        final(body)@ == old(body)@ + option_bytes(code, value@),
{
    push_le16(body, code);
    let len: u16 = if value.len() > 65535 {
        65535
    } else {
        value.len() as u16
    };
    push_le16(body, len);
    let mut i: usize = 0;
    let ghost before = body@;
    while i < len as usize
        invariant
            i <= len,
            len <= value@.len(),
            body@ == before + value@.take(i as int),
        decreases len - i,
    {
        body.push(value[i]);
        proof {
            assert(value@.take(i + 1) =~= value@.take(i as int).push(value@[i as int]));
        }
        i = i + 1;
    }
    let pad = padding(len as usize);
    let mut k: usize = 0;
    let ghost mid = body@;
    while k < pad.len()
        invariant
            k <= pad@.len(),
            body@ == mid + pad@.take(k as int),
        decreases pad.len() - k,
    {
        body.push(pad[k]);
        proof {
            assert(pad@.take(k + 1) =~= pad@.take(k as int).push(pad@[k as int]));
        }
        k = k + 1;
    }
    proof {
        assert(pad@.take(pad@.len() as int) =~= pad@);
        assert(value@.take(len as int).len() == len);
        assert(final(body)@ =~= old(body)@ + option_bytes(code, value@));
    }
}

/// A block: type, total length, body, padding, and the total length again, which is what makes
/// a truncated file readable backwards from the end. Nothing if the total does not fit 32 bits.
pub open spec fn block_bytes(kind: u32, body: Seq<u8>) -> Option<Seq<u8>> {
    let total = 12 + padded_spec(body.len() as int);
    if total > u32::MAX {
        None
    } else {
        Some(
            le32(kind) + le32(total as u32) + body + zeros(padded_spec(body.len() as int) - body.len())
                + le32(total as u32),
        )
    }
}

/// Build a block, or nothing if it is too large for the format.
pub fn block(kind: u32, body: &[u8]) -> (r: Option<Vec<u8>>)
    ensures
        r matches Some(v) ==> block_bytes(kind, body@) == Some(v@),
        r is None ==> block_bytes(kind, body@) is None,
{
    if body.len() > 4294967295 - 15 {
        return None;
    }
    let total_usize = 12 + padded(body.len());
    if total_usize > 4294967295 {
        return None;
    }
    let total = total_usize as u32;
    let mut out: Vec<u8> = Vec::new();
    push_le32(&mut out, kind);
    push_le32(&mut out, total);
    push_all(&mut out, body);
    let pad = padding(body.len());
    push_all(&mut out, pad.as_slice());
    push_le32(&mut out, total);
    proof {
        assert(out@ =~= block_bytes(kind, body@).unwrap());
    }
    Some(out)
}

/// `sipx signalling capture`.
pub open spec fn capture_name() -> Seq<u8> {
    seq![115u8, 105u8, 112u8, 120u8, 32u8, 115u8, 105u8, 103u8, 110u8, 97u8, 108u8, 108u8, 105u8, 110u8, 103u8, 32u8, 99u8, 97u8, 112u8, 116u8, 117u8, 114u8, 101u8]
}

/// `seq=`.
pub open spec fn seq_key() -> Seq<u8> {
    seq![115u8, 101u8, 113u8, 61u8]
}

/// ` dir=`.
pub open spec fn dir_key() -> Seq<u8> {
    seq![32u8, 100u8, 105u8, 114u8, 61u8]
}

/// ` transport=`.
pub open spec fn transport_key() -> Seq<u8> {
    seq![32u8, 116u8, 114u8, 97u8, 110u8, 115u8, 112u8, 111u8, 114u8, 116u8, 61u8]
}

/// ` local=`.
pub open spec fn local_key() -> Seq<u8> {
    seq![32u8, 108u8, 111u8, 99u8, 97u8, 108u8, 61u8]
}

/// ` peer=`.
pub open spec fn peer_key() -> Seq<u8> {
    seq![32u8, 112u8, 101u8, 101u8, 114u8, 61u8]
}

/// ` decrypted-in-process=yes`.
pub open spec fn decrypted_note() -> Seq<u8> {
    seq![32u8, 100u8, 101u8, 99u8, 114u8, 121u8, 112u8, 116u8, 101u8, 100u8, 45u8, 105u8, 110u8, 45u8, 112u8, 114u8, 111u8, 99u8, 101u8, 115u8, 115u8, 61u8, 121u8, 101u8, 115u8]
}

/// ` redacted=yes`.
pub open spec fn redacted_note() -> Seq<u8> {
    seq![32u8, 114u8, 101u8, 100u8, 97u8, 99u8, 116u8, 101u8, 100u8, 61u8, 121u8, 101u8, 115u8]
}

fn push_capture_name(out: &mut Vec<u8>)
    ensures
        final(out)@ == old(out)@ + capture_name(),
{
    let text = [115u8, 105u8, 112u8, 120u8, 32u8, 115u8, 105u8, 103u8, 110u8, 97u8, 108u8, 108u8, 105u8, 110u8, 103u8, 32u8, 99u8, 97u8, 112u8, 116u8, 117u8, 114u8, 101u8];
    push_all(out, &text);
    proof {
        assert(text@ =~= capture_name());
    }
}

fn push_seq_key(out: &mut Vec<u8>)
    ensures
        final(out)@ == old(out)@ + seq_key(),
{
    let text = [115u8, 101u8, 113u8, 61u8];
    push_all(out, &text);
    proof {
        assert(text@ =~= seq_key());
    }
}

fn push_dir_key(out: &mut Vec<u8>)
    ensures
        final(out)@ == old(out)@ + dir_key(),
{
    let text = [32u8, 100u8, 105u8, 114u8, 61u8];
    push_all(out, &text);
    proof {
        assert(text@ =~= dir_key());
    }
}

fn push_transport_key(out: &mut Vec<u8>)
    ensures
        final(out)@ == old(out)@ + transport_key(),
{
    let text = [32u8, 116u8, 114u8, 97u8, 110u8, 115u8, 112u8, 111u8, 114u8, 116u8, 61u8];
    push_all(out, &text);
    proof {
        assert(text@ =~= transport_key());
    }
}

fn push_local_key(out: &mut Vec<u8>)
    ensures
        final(out)@ == old(out)@ + local_key(),
{
    let text = [32u8, 108u8, 111u8, 99u8, 97u8, 108u8, 61u8];
    push_all(out, &text);
    proof {
        assert(text@ =~= local_key());
    }
}

fn push_peer_key(out: &mut Vec<u8>)
    ensures
        final(out)@ == old(out)@ + peer_key(),
{
    let text = [32u8, 112u8, 101u8, 101u8, 114u8, 61u8];
    push_all(out, &text);
    proof {
        assert(text@ =~= peer_key());
    }
}

fn push_decrypted_note(out: &mut Vec<u8>)
    ensures
        final(out)@ == old(out)@ + decrypted_note(),
{
    let text = [32u8, 100u8, 101u8, 99u8, 114u8, 121u8, 112u8, 116u8, 101u8, 100u8, 45u8, 105u8, 110u8, 45u8, 112u8, 114u8, 111u8, 99u8, 101u8, 115u8, 115u8, 61u8, 121u8, 101u8, 115u8];
    push_all(out, &text);
    proof {
        assert(text@ =~= decrypted_note());
    }
}

fn push_redacted_note(out: &mut Vec<u8>)
    ensures
        final(out)@ == old(out)@ + redacted_note(),
{
    let text = [32u8, 114u8, 101u8, 100u8, 97u8, 99u8, 116u8, 101u8, 100u8, 61u8, 121u8, 101u8, 115u8];
    push_all(out, &text);
    proof {
        assert(text@ =~= redacted_note());
    }
}

/// The 64-bit value -1, least significant byte first: a section of unknown length.
pub open spec fn unknown_length() -> Seq<u8> {
    seq![255u8, 255u8, 255u8, 255u8, 255u8, 255u8, 255u8, 255u8]
}

/// The Section Header Block's body: the byte-order magic, version 1.0, an unknown section
/// length, and a comment naming the capture.
pub open spec fn section_body() -> Seq<u8> {
    le32(0x1A2B3C4Du32) + le16(1u16) + le16(0u16) + unknown_length() + option_bytes(1u16, capture_name())
        + option_bytes(0u16, Seq::empty())
}

/// The one Interface Description Block's body: raw IP, no snap length, nanosecond timestamps.
pub open spec fn interface_body() -> Seq<u8> {
    le16(101u16) + le16(0u16) + le32(0u32) + option_bytes(9u16, seq![9u8]) + option_bytes(
        0u16,
        Seq::empty(),
    )
}

/// The Section Header Block and the one Interface Description Block that open every capture.
pub open spec fn section_header_spec() -> Seq<u8> {
    block_bytes(0x0A0D0D0Au32, section_body()).unwrap() + block_bytes(1u32, interface_body()).unwrap()
}

/// The bytes that open every capture file.
pub fn section_header() -> (r: Vec<u8>)
    ensures
        r@ == section_header_spec(),
{
    let mut shb: Vec<u8> = Vec::new();
    push_le32(&mut shb, 0x1A2B3C4Du32);
    push_le16(&mut shb, 1u16);
    push_le16(&mut shb, 0u16);
    let unknown = [255u8, 255u8, 255u8, 255u8, 255u8, 255u8, 255u8, 255u8];
    push_all(&mut shb, &unknown);
    let mut name: Vec<u8> = Vec::new();
    push_capture_name(&mut name);
    push_option(&mut shb, 1u16, name.as_slice());
    let nothing: [u8; 0] = [];
    push_option(&mut shb, 0u16, &nothing);
    proof {
        assert(unknown@ =~= unknown_length());
        assert(name@ =~= capture_name());
        assert(nothing@ =~= Seq::<u8>::empty());
        assert(shb@ =~= section_body());
    }
    let mut idb: Vec<u8> = Vec::new();
    push_le16(&mut idb, 101u16);
    push_le16(&mut idb, 0u16);
    push_le32(&mut idb, 0u32);
    let resolution = [9u8];
    push_option(&mut idb, 9u16, &resolution);
    push_option(&mut idb, 0u16, &nothing);
    proof {
        assert(resolution@ =~= seq![9u8]);
        assert(idb@ =~= interface_body());
    }
    let first = block(0x0A0D0D0Au32, shb.as_slice());
    let second = block(1u32, idb.as_slice());
    match (first, second) {
        (Some(mut a), Some(b)) => {
            let ghost a0 = a@;
            push_all(&mut a, b.as_slice());
            a
        },
        _ => {
            proof {
                assert(false);
            }
            Vec::new()
        },
    }
}

/// The `k`th 16-bit word of `h`, big-endian; an odd last byte is the high half of a word.
pub open spec fn word_at(h: Seq<u8>, k: int) -> u32 {
    (h[2 * k] as u32 * 256 + (if 2 * k + 1 < h.len() {
        h[2 * k + 1] as u32
    } else {
        0u32
    })) as u32
}

/// The first `n` words of `h` summed, wrapping at 32 bits.
pub open spec fn word_sum(h: Seq<u8>, n: int) -> u32
    decreases n,
{
    if n <= 0 {
        0
    } else {
        word_sum(h, n - 1).wrapping_add(word_at(h, n - 1))
    }
}

/// End-around carry: the high half added back into the low until nothing is left above 16 bits.
pub open spec fn fold16(x: u32) -> u32
    decreases x,
{
    if x / 65536 == 0 {
        x
    } else {
        fold16((x % 65536 + x / 65536) as u32)
    }
}

/// The internet checksum (RFC 1071): the one's complement of the one's-complement sum of the
/// 16-bit words.
pub open spec fn ones_complement_spec(h: Seq<u8>) -> u16 {
    (65535 - fold16(word_sum(h, (h.len() as int + 1) / 2))) as u16
}

proof fn lemma_fold16(x: u32)
    ensures
        fold16(x) < 65536,
    decreases x,
{
    if x / 65536 != 0 {
        lemma_fold16((x % 65536 + x / 65536) as u32);
    }
}

/// The internet checksum (RFC 1071) over an IPv4 header.
pub fn ones_complement(header: &[u8]) -> (r: u16)
    ensures
        r == ones_complement_spec(header@),
{
    let words = (header.len() / 2) + (header.len() % 2);
    assert(words == (header@.len() as int + 1) / 2);
    let mut sum: u32 = 0;
    let mut k: usize = 0;
    while k < words
        invariant
            k <= words,
            words == (header@.len() as int + 1) / 2,
            header@.len() == header.len(),
            sum == word_sum(header@, k as int),
        decreases words - k,
    {
        assert(2 * k < header.len());
        let high = header[2 * k] as u32;
        let low: u32 = if 2 * k + 1 < header.len() {
            header[2 * k + 1] as u32
        } else {
            0
        };
        sum = sum.wrapping_add(high * 256 + low);
        k = k + 1;
    }
    while sum / 65536 != 0
        invariant
            fold16(sum) == fold16(word_sum(header@, words as int)),
        decreases sum,
    {
        sum = (sum % 65536).wrapping_add(sum / 65536);
    }
    proof {
        lemma_fold16(sum);
    }
    (65535 - sum) as u16
}

/// The four octets of an IPv4 address, or the sixteen of an IPv6 one.
pub open spec fn octets(ip: IpAddress) -> Seq<u8> {
    match ip {
        IpAddress::V4(o) => o@,
        IpAddress::V6(o) => o@,
    }
}

/// The synthetic UDP length: the header and the payload, saturating.
pub open spec fn udp_len(payload_len: int) -> u16 {
    if 8 + payload_len > u16::MAX {
        u16::MAX
    } else {
        (8 + payload_len) as u16
    }
}

/// An IPv4 header with its checksum field still zero.
pub open spec fn ipv4_unchecked(total: u16, from: Seq<u8>, to: Seq<u8>) -> Seq<u8> {
    seq![0x45u8, 0u8] + be16(total) + be16(0u16) + be16(0u16) + seq![64u8, 17u8] + be16(0u16) + from + to
}

/// An IPv4 header with its checksum filled in.
pub open spec fn ipv4_header(total: u16, from: Seq<u8>, to: Seq<u8>) -> Seq<u8> {
    let unchecked = ipv4_unchecked(total, from, to);
    unchecked.subrange(0, 10) + be16(ones_complement_spec(unchecked)) + unchecked.subrange(12, 20)
}

/// The synthetic IP header: IPv4 with a real checksum, IPv6, or none for a mixed pair.
pub open spec fn ip_header(source: IpAddress, destination: IpAddress, udp: u16) -> Seq<u8> {
    match (source, destination) {
        (IpAddress::V4(from), IpAddress::V4(to)) => ipv4_header(
            if 20 + udp > u16::MAX {
                u16::MAX
            } else {
                (20 + udp) as u16
            },
            from@,
            to@,
        ),
        (IpAddress::V6(from), IpAddress::V6(to)) => seq![0x60u8, 0u8, 0u8, 0u8] + be16(udp) + seq![
            17u8,
            64u8,
        ] + from@ + to@,
        _ => Seq::empty(),
    }
}

/// A synthetic IP and UDP header in front of the message: the addresses and ports are real, the
/// headers are not, and the UDP checksum is zero, "not computed".
pub open spec fn synthesise_spec(record: Record) -> Seq<u8> {
    let (source, destination) = match record.direction {
        Direction::In => (record.peer, record.local),
        Direction::Out => (record.local, record.peer),
    };
    let udp = udp_len(record.bytes@.len() as int);
    ip_header(source.ip, destination.ip, udp) + be16(source.port) + be16(destination.port) + be16(udp)
        + be16(0u16) + record.bytes@
}

/// A synthesised IPv6 packet runs from the sender to the receiver: the peer sent what came in and
/// this endpoint what went out. Bytes 8 to 24 are the sender's address and 24 to 40 the
/// receiver's, the UDP ports follow in the same order, and the message comes last, whole.
pub proof fn an_ipv6_packet_runs_from_sender_to_receiver(record: Record, from: [u8; 16], to: [u8; 16])
    requires
        record.direction == Direction::In ==> record.peer.ip == IpAddress::V6(from)
            && record.local.ip == IpAddress::V6(to),
        record.direction == Direction::Out ==> record.local.ip == IpAddress::V6(from)
            && record.peer.ip == IpAddress::V6(to),
    ensures
        ({
            let p = synthesise_spec(record);
            let (from_port, to_port) = if record.direction == Direction::In {
                (record.peer.port, record.local.port)
            } else {
                (record.local.port, record.peer.port)
            };
            &&& p.len() == 48 + record.bytes@.len()
            &&& p[0] == 0x60u8
            &&& p.subrange(8, 24) == from@
            &&& p.subrange(24, 40) == to@
            &&& p[40] as int * 256 + p[41] as int == from_port as int
            &&& p[42] as int * 256 + p[43] as int == to_port as int
            &&& 8 + record.bytes@.len() <= 0xffff ==> p[4] as int * 256 + p[5] as int == 8
                + record.bytes@.len() && p[44] as int * 256 + p[45] as int == 8 + record.bytes@.len()
            &&& p.subrange(48, p.len() as int) == record.bytes@
        }),
{
    let p = synthesise_spec(record);
    let udp = udp_len(record.bytes@.len() as int);
    let h = seq![0x60u8, 0u8, 0u8, 0u8] + be16(udp) + seq![17u8, 64u8] + from@ + to@;
    let (src, dst) = match record.direction {
        Direction::In => (record.peer, record.local),
        Direction::Out => (record.local, record.peer),
    };
    assert(h.len() == 40);
    assert(p == h + be16(src.port) + be16(dst.port) + be16(udp) + be16(0u16) + record.bytes@);
    assert(p.subrange(8, 24) =~= from@);
    assert(p.subrange(24, 40) =~= to@);
    assert(p.subrange(48, p.len() as int) =~= record.bytes@);
    assert(p[40] == (src.port / 256) as u8 && p[41] == (src.port % 256) as u8);
    assert(p[42] == (dst.port / 256) as u8 && p[43] == (dst.port % 256) as u8);
    assert(p[4] == (udp / 256) as u8 && p[5] == (udp % 256) as u8);
    assert(p[44] == (udp / 256) as u8 && p[45] == (udp % 256) as u8);
}

/// A synthesised IPv4 packet runs from the sender to the receiver: bytes 12 to 16 are the
/// sender's address and 16 to 20 the receiver's, and the UDP ports follow in the same order.
pub proof fn an_ipv4_packet_runs_from_sender_to_receiver(record: Record, from: [u8; 4], to: [u8; 4])
    requires
        record.direction == Direction::In ==> record.peer.ip == IpAddress::V4(from)
            && record.local.ip == IpAddress::V4(to),
        record.direction == Direction::Out ==> record.local.ip == IpAddress::V4(from)
            && record.peer.ip == IpAddress::V4(to),
    ensures
        ({
            let p = synthesise_spec(record);
            let (from_port, to_port) = if record.direction == Direction::In {
                (record.peer.port, record.local.port)
            } else {
                (record.local.port, record.peer.port)
            };
            &&& p.len() == 28 + record.bytes@.len()
            &&& p[0] == 0x45u8
            &&& p.subrange(12, 16) == from@
            &&& p.subrange(16, 20) == to@
            &&& p[20] as int * 256 + p[21] as int == from_port as int
            &&& p[22] as int * 256 + p[23] as int == to_port as int
            &&& 28 + record.bytes@.len() <= 0xffff ==> p[2] as int * 256 + p[3] as int == 28
                + record.bytes@.len() && p[24] as int * 256 + p[25] as int == 8 + record.bytes@.len()
            &&& p.subrange(28, p.len() as int) == record.bytes@
        }),
{
    let p = synthesise_spec(record);
    let udp = udp_len(record.bytes@.len() as int);
    let total: u16 = if 20 + udp > u16::MAX {
        u16::MAX
    } else {
        (20 + udp) as u16
    };
    let u = ipv4_unchecked(total, from@, to@);
    let h = ipv4_header(total, from@, to@);
    let (src, dst) = match record.direction {
        Direction::In => (record.peer, record.local),
        Direction::Out => (record.local, record.peer),
    };
    assert(u.len() == 20);
    assert(h.len() == 20);
    assert(h.subrange(12, 16) =~= from@);
    assert(h.subrange(16, 20) =~= to@);
    assert(h[0] == 0x45u8);
    assert(p == h + be16(src.port) + be16(dst.port) + be16(udp) + be16(0u16) + record.bytes@);
    assert(p.subrange(12, 16) =~= from@);
    assert(p.subrange(16, 20) =~= to@);
    assert(p.subrange(28, p.len() as int) =~= record.bytes@);
    assert(p[20] == (src.port / 256) as u8 && p[21] == (src.port % 256) as u8);
    assert(p[22] == (dst.port / 256) as u8 && p[23] == (dst.port % 256) as u8);
    assert(h[2] == u[2] && h[3] == u[3]);
    assert(p[2] == (total / 256) as u8 && p[3] == (total % 256) as u8);
    assert(p[24] == (udp / 256) as u8 && p[25] == (udp % 256) as u8);
}

/// A synthetic IP and UDP header in front of the message.
///
/// Writing a truthful TCP header would mean inventing per-connection sequence numbers for a
/// stream that is already framed here, so the transport header is UDP for every transport and the
/// block comment carries which it really was.
pub fn synthesise(record: &Record) -> (r: Vec<u8>)
    ensures
        r@ == synthesise_spec(*record),
{
    let (source, destination) = match record.direction {
        Direction::In => (record.peer, record.local),
        Direction::Out => (record.local, record.peer),
    };
    let udp: u16 = if record.bytes.len() > 65535 - 8 {
        65535
    } else {
        (8 + record.bytes.len()) as u16
    };
    let mut packet: Vec<u8> = Vec::new();
    match (&source.ip, &destination.ip) {
        (IpAddress::V4(from), IpAddress::V4(to)) => {
            let total: u16 = if udp > 65535 - 20 {
                65535
            } else {
                20 + udp
            };
            let mut header: Vec<u8> = Vec::new();
            header.push(0x45u8);
            header.push(0u8);
            push_be16(&mut header, total);
            push_be16(&mut header, 0u16);
            push_be16(&mut header, 0u16);
            header.push(64u8);
            header.push(17u8);
            push_be16(&mut header, 0u16);
            push_all(&mut header, from);
            push_all(&mut header, to);
            proof {
                assert(header@ =~= ipv4_unchecked(total, from@, to@));
            }
            let checksum = ones_complement(header.as_slice());
            header.set(10, (checksum / 256) as u8);
            header.set(11, (checksum % 256) as u8);
            proof {
                assert(header@ =~= ipv4_header(total, from@, to@));
            }
            push_all(&mut packet, header.as_slice());
        },
        (IpAddress::V6(from), IpAddress::V6(to)) => {
            packet.push(0x60u8);
            packet.push(0u8);
            packet.push(0u8);
            packet.push(0u8);
            push_be16(&mut packet, udp);
            packet.push(17u8);
            packet.push(64u8);
            push_all(&mut packet, from);
            push_all(&mut packet, to);
        },
        _ => {},
    }
    proof {
        assert(packet@ =~= ip_header(source.ip, destination.ip, udp));
    }
    push_be16(&mut packet, source.port);
    push_be16(&mut packet, destination.port);
    push_be16(&mut packet, udp);
    push_be16(&mut packet, 0u16);
    push_all(&mut packet, record.bytes.as_slice());
    packet
}

/// What the block comment says: the sequence, the direction, the real transport and both
/// addresses, whether the bytes were decrypted in this process, and whether they were redacted.
/// **This, not the packet, is the authoritative record of the transport.**
pub open spec fn comment_spec(record: Record) -> Seq<u8> {
    seq_key() + decimal(record.seq as nat) + dir_key() + direction_text(record.direction)
        + transport_key() + crate::target::spec_token(record.transport) + local_key()
        + record.local_text@ + peer_key() + record.peer_text@ + (if record.transport is Tls
        || record.transport is Wss {
        decrypted_note()
    } else {
        Seq::empty()
    }) + (if record.redacted {
        redacted_note()
    } else {
        Seq::empty()
    })
}

/// The block comment for a record.
pub fn comment(record: &Record) -> (r: Vec<u8>)
    ensures
        r@ == comment_spec(*record),
{
    let mut out: Vec<u8> = Vec::new();
    push_seq_key(&mut out);
    push_decimal(&mut out, record.seq);
    push_dir_key(&mut out);
    let dir = record.direction.token();
    push_all(&mut out, dir.as_slice());
    push_transport_key(&mut out);
    let token = record.transport.token();
    push_all(&mut out, token.as_slice());
    push_local_key(&mut out);
    push_all(&mut out, record.local_text.as_slice());
    push_peer_key(&mut out);
    push_all(&mut out, record.peer_text.as_slice());
    let ghost base = out@;
    match record.transport {
        TransportKind::Tls | TransportKind::Wss => push_decrypted_note(&mut out),
        _ => {},
    }
    let ghost with_note = out@;
    if record.redacted {
        push_redacted_note(&mut out);
    }
    proof {
        assert(out@ =~= comment_spec(*record));
    }
    out
}

/// The Enhanced Packet Block's body: interface 0, the timestamp in two halves, the captured and
/// original lengths, the packet, padding, and the comment.
pub open spec fn packet_body(record: Record) -> Seq<u8> {
    let packet = synthesise_spec(record);
    let len = packet.len() as u32;
    le32(0u32) + le32((record.at_nanos / 4294967296) as u32) + le32((record.at_nanos % 4294967296) as u32)
        + le32(len) + le32(len) + packet + zeros(padded_spec(packet.len() as int) - packet.len())
        + option_bytes(1u16, comment_spec(record)) + option_bytes(0u16, Seq::empty())
}

/// One Enhanced Packet Block for a record, or nothing if the message is too large for the format.
pub fn packet_block(record: &Record) -> (r: Option<Vec<u8>>)
    ensures
        r matches Some(v) ==> synthesise_spec(*record).len() <= u32::MAX && block_bytes(
            6u32,
            packet_body(*record),
        ) == Some(v@),
        r is None ==> synthesise_spec(*record).len() > u32::MAX || block_bytes(
            6u32,
            packet_body(*record),
        ) is None,
{
    let packet = synthesise(record);
    if packet.len() > 4294967295 - 3 {
        return None;
    }
    let len = packet.len() as u32;
    let mut body: Vec<u8> = Vec::new();
    push_le32(&mut body, 0u32);
    push_le32(&mut body, (record.at_nanos / 4294967296) as u32);
    push_le32(&mut body, (record.at_nanos % 4294967296) as u32);
    push_le32(&mut body, len);
    push_le32(&mut body, len);
    push_all(&mut body, packet.as_slice());
    let pad = padding(packet.len());
    push_all(&mut body, pad.as_slice());
    let note = comment(record);
    push_option(&mut body, 1u16, note.as_slice());
    let nothing: [u8; 0] = [];
    push_option(&mut body, 0u16, &nothing);
    proof {
        assert(nothing@ =~= Seq::<u8>::empty());
        assert(body@ =~= packet_body(*record));
    }
    block(6u32, body.as_slice())
}

proof fn lemma_fold16_congruent(x: u32)
    requires
        x > 0,
    ensures
        1 <= fold16(x) <= 65535,
        fold16(x) as int % 65535 == x as int % 65535,
    decreases x,
{
    if x / 65536 != 0 {
        let q = x / 65536;
        let r = x % 65536;
        let y = (r + q) as u32;
        assert(x == 65536 * q + r);
        assert(y as int % 65535 == x as int % 65535) by (nonlinear_arith)
            requires
                x == 65536 * q + r,
                y == r + q,
        ;
        lemma_fold16_congruent(y);
    }
}

/// The sum of the first `n` words without wrapping, when they cannot wrap.
proof fn lemma_word_sum_small(h: Seq<u8>, n: int)
    requires
        0 <= n <= 10,
        2 * n <= h.len(),
    ensures
        word_sum(h, n) as int <= 65535 * n,
        n > 0 ==> word_sum(h, n) as int == word_sum(h, n - 1) as int + word_at(h, n - 1) as int,
    decreases n,
{
    if n > 0 {
        lemma_word_sum_small(h, n - 1);
        assert(word_at(h, n - 1) <= 65535);
    }
}

/// Two headers whose words agree except the `k`th have sums that differ by that word.
proof fn lemma_word_sum_swap(a: Seq<u8>, b: Seq<u8>, k: int, n: int)
    requires
        0 <= k < n <= 10,
        a.len() == b.len(),
        2 * n <= a.len(),
        forall|j: int| 0 <= j < n && j != k ==> word_at(a, j) == word_at(b, j),
    ensures
        word_sum(a, n) as int - word_at(a, k) as int == word_sum(b, n) as int - word_at(b, k) as int,
    decreases n,
{
    lemma_word_sum_small(a, n);
    lemma_word_sum_small(b, n);
    if n - 1 > k {
        lemma_word_sum_swap(a, b, k, n - 1);
    } else {
        lemma_word_sum_prefix_equal(a, b, k);
    }
}

proof fn lemma_word_sum_prefix_equal(a: Seq<u8>, b: Seq<u8>, m: int)
    requires
        0 <= m <= 10,
        a.len() == b.len(),
        2 * m <= a.len(),
        forall|j: int| 0 <= j < m ==> word_at(a, j) == word_at(b, j),
    ensures
        word_sum(a, m) == word_sum(b, m),
    decreases m,
{
    if m > 0 {
        lemma_word_sum_prefix_equal(a, b, m - 1);
    }
}

/// A synthesised IPv4 header carries a correct checksum: summed with it, the header's
/// one's-complement sum is all ones, so the checksum over the whole header is zero, which is the
/// standard way to check one.
pub proof fn synthesised_ipv4_checksum_verifies(total: u16, from: [u8; 4], to: [u8; 4])
    ensures
        ones_complement_spec(ipv4_header(total, from@, to@)) == 0,
{
    let u = ipv4_unchecked(total, from@, to@);
    let h = ipv4_header(total, from@, to@);
    let c = ones_complement_spec(u);
    assert(u.len() == 20);
    assert(h.len() == 20);
    assert((u.len() as int + 1) / 2 == 10);
    assert(word_at(u, 5) == 0);
    assert(word_at(h, 5) == c) by {
        assert(h[10] == (c / 256) as u8);
        assert(h[11] == (c % 256) as u8);
    }
    assert forall|j: int| 0 <= j < 10 && j != 5 implies word_at(u, j) == word_at(h, j) by {
        assert(h[2 * j] == u[2 * j]);
        assert(h[2 * j + 1] == u[2 * j + 1]);
    }
    lemma_word_sum_small(u, 10);
    lemma_word_sum_small(h, 10);
    lemma_word_sum_swap(u, h, 5, 10);
    let s = word_sum(u, 10);
    assert(word_at(u, 0) >= 0x4500);
    assert(s > 0) by {
        lemma_word_sum_small(u, 1);
        assert(word_sum(u, 1) == word_at(u, 0));
        lemma_word_sum_grows(u, 10);
    }
    lemma_fold16_congruent(s);
    let f = fold16(s);
    assert(c as int == 65535 - f);
    let s2 = word_sum(h, 10);
    assert(s2 as int == s as int + c as int);
    assert(s2 > 0);
    lemma_fold16_congruent(s2);
    assert(s2 as int % 65535 == 0) by (nonlinear_arith)
        requires
            s2 as int == s as int + 65535 - f as int,
            f as int % 65535 == s as int % 65535,
            s as int >= 0,
            f as int >= 0,
    ;
    assert(fold16(s2) == 65535);
}

proof fn lemma_word_sum_grows(h: Seq<u8>, m: int)
    requires
        1 <= m <= 10,
        2 * m <= h.len(),
    ensures
        word_sum(h, m) >= word_sum(h, 1),
    decreases m,
{
    lemma_word_sum_small(h, m);
    if m > 1 {
        lemma_word_sum_grows(h, m - 1);
    }
}

} // verus!
