//! SIP over WebSocket (RFC 7118): the subprotocol negotiation, and the sent-by of a client that
//! can never be connected back to.

use vstd::prelude::*;
use vstd::string::StringExecFns;
use crate::endpoint::random_u64;
use crate::text::{
    ascii_chars, ascii_string, copy_range, eq_ci, eq_ci_exec, first_index_of, hex_fixed,
    lemma_ascii_chars_injective, lemma_first_index_absent, lemma_hex_fixed_injective, lemma_hex_fixed_len,
    lemma_u64_fits_sixteen_digits, position_of, push_hex16, trim, trim_exec,
};

verus! {

/// What can go wrong establishing a WebSocket.
#[derive(Debug, Clone, PartialEq, Eq)]
pub enum WsError {
    /// The peer never agreed to carry SIP (RFC 7118 §4.2). Without the subprotocol there is no
    /// agreement about what the frames mean.
    Subprotocol {
        /// Who we were talking to.
        peer: String,
    },
    /// The upgrade itself failed.
    Handshake {
        /// Who we were talking to.
        peer: String,
        /// What went wrong.
        detail: String,
    },
}

/// `sip`, the subprotocol RFC 7118 registers.
pub open spec fn subprotocol() -> Seq<u8> {
    seq![115u8, 105u8, 112u8]
}

/// Whether a header value reads as text: visible ASCII and tabs only.
pub open spec fn visible_ascii(v: Seq<u8>) -> bool {
    forall|i: int| 0 <= i < v.len() ==> ((32 <= #[trigger] v[i] && v[i] < 127) || v[i] == 9)
}

/// Whether a comma-separated list names the `sip` subprotocol, ignoring case and surrounding
/// whitespace.
pub open spec fn lists_sip(v: Seq<u8>) -> bool
    decreases v.len(),
{
    match first_index_of(v, 44) {
        Some(i) => if 0 <= i < v.len() {
            eq_ci(trim(v.take(i)), subprotocol()) || lists_sip(v.skip(i + 1))
        } else {
            false
        },
        None => eq_ci(trim(v), subprotocol()),
    }
}

/// Whether any of the values of the `Sec-WebSocket-Protocol` headers offers `sip`. A peer may
/// offer several, comma-separated or in repeated headers (RFC 6455 §4.1); a value that is not
/// text is skipped.
pub open spec fn offers_sip_spec(values: Seq<Vec<u8>>) -> bool {
    exists|k: int| 0 <= k < values.len() && visible_ascii((#[trigger] values[k])@) && lists_sip(values[k]@)
}

fn visible_ascii_exec(v: &[u8]) -> (r: bool)
    ensures
        r == visible_ascii(v@),
{
    let mut i: usize = 0;
    while i < v.len()
        invariant
            i <= v@.len(),
            forall|j: int| 0 <= j < i ==> ((32 <= #[trigger] v@[j] && v@[j] < 127) || v@[j] == 9),
        decreases v.len() - i,
    {
        let b = v[i];
        if !((32u8 <= b && b < 127u8) || b == 9u8) {
            return false;
        }
        i = i + 1;
    }
    true
}

fn lists_sip_exec(v: &[u8]) -> (r: bool)
    ensures
        r == lists_sip(v@),
    decreases v@.len(),
{
    let sip = [115u8, 105u8, 112u8];
    proof {
        assert(sip@ =~= subprotocol());
        lemma_first_index_absent(v@, 44);
    }
    match position_of(v, 44) {
        Some(i) => {
            assert(i < v.len());
            let head = copy_range(v, 0, i);
            let token = trim_exec(head.as_slice());
            proof {
                assert(head@ =~= v@.take(i as int));
            }
            if eq_ci_exec(token.as_slice(), &sip) {
                return true;
            }
            let rest = copy_range(v, i + 1, v.len());
            proof {
                assert(rest@ =~= v@.skip(i + 1));
            }
            lists_sip_exec(rest.as_slice())
        },
        None => {
            let token = trim_exec(v);
            eq_ci_exec(token.as_slice(), &sip)
        },
    }
}

/// Whether these `Sec-WebSocket-Protocol` header values name the `sip` subprotocol.
pub fn offers_sip(values: &Vec<Vec<u8>>) -> (r: bool)
    ensures
        r == offers_sip_spec(values@),
{
    let mut k: usize = 0;
    while k < values.len()
        invariant
            k <= values@.len(),
            forall|j: int|
                0 <= j < k ==> !(visible_ascii((#[trigger] values@[j])@) && lists_sip(values@[j]@)),
        decreases values.len() - k,
    {
        if visible_ascii_exec(values[k].as_slice()) && lists_sip_exec(values[k].as_slice()) {
            proof {
                assert(visible_ascii(values@[k as int]@) && lists_sip(values@[k as int]@));
            }
            return true;
        }
        k = k + 1;
    }
    false
}

/// `.invalid`, the top-level domain RFC 2606 reserves so that it never resolves.
pub open spec fn invalid_suffix() -> Seq<u8> {
    seq![46u8, 105u8, 110u8, 118u8, 97u8, 108u8, 105u8, 100u8]
}

/// An invented sent-by: sixteen lowercase hex digits of a value, then `.invalid`.
pub open spec fn invented_sent_by_spec(value: u64) -> Seq<char> {
    ascii_chars(hex_fixed(value as nat, 16) + invalid_suffix())
}

/// The invented sent-by for a value.
pub fn invented_sent_by_for(value: u64) -> (r: String)
    ensures
        r@ == invented_sent_by_spec(value),
{
    let mut bytes: Vec<u8> = Vec::new();
    push_hex16(&mut bytes, value);
    let suffix = [46u8, 105u8, 110u8, 118u8, 97u8, 108u8, 105u8, 100u8];
    let ghost digits = bytes@;
    let mut i: usize = 0;
    while i < 8
        invariant
            i <= 8,
            bytes@ == digits + suffix@.take(i as int),
        decreases 8 - i,
    {
        bytes.push(suffix[i]);
        proof {
            assert(suffix@.take(i + 1) =~= suffix@.take(i as int).push(suffix@[i as int]));
        }
        i = i + 1;
    }
    proof {
        assert(suffix@ =~= invalid_suffix());
        assert(suffix@.take(8) =~= suffix@);
    }
    ascii_string(bytes.as_slice())
}

/// A `Via` sent-by for an endpoint that can never be connected back to (RFC 7118 §5.2).
///
/// `.invalid` is reserved by RFC 2606 and guaranteed never to resolve, which is the point:
/// nothing must ever try to open a connection to it. Random, so that two clients behind one
/// proxy stay distinguishable.
pub fn invented_sent_by() -> (r: String)
    ensures
        exists|v: u64| r@ == invented_sent_by_spec(v),
{
    invented_sent_by_for(random_u64())
}

/// An invented sent-by is a name under `.invalid`, which RFC 6761 reserves so that it never
/// resolves, and two values never invent the same one.
pub proof fn an_invented_sent_by_is_unresolvable_and_distinct(a: u64, b: u64)
    ensures
        invented_sent_by_spec(a).len() == 24,
        invented_sent_by_spec(a).skip(16) == ascii_chars(invalid_suffix()),
        a != b ==> invented_sent_by_spec(a) != invented_sent_by_spec(b),
{
    let ha = hex_fixed(a as nat, 16);
    let hb = hex_fixed(b as nat, 16);
    lemma_hex_fixed_len(a as nat, 16);
    lemma_hex_fixed_len(b as nat, 16);
    assert(ascii_chars(ha + invalid_suffix()).skip(16) =~= ascii_chars(invalid_suffix()));
    if invented_sent_by_spec(a) == invented_sent_by_spec(b) {
        lemma_ascii_chars_injective(ha + invalid_suffix(), hb + invalid_suffix());
        assert(ha =~= (ha + invalid_suffix()).take(16));
        assert(hb =~= (hb + invalid_suffix()).take(16));
        lemma_u64_fits_sixteen_digits(a);
        lemma_u64_fits_sixteen_digits(b);
        lemma_hex_fixed_injective(a as nat, b as nat, 16);
    }
}

/// How a SIP message goes into a WebSocket frame.
#[derive(Debug, Clone, Copy, PartialEq, Eq)]
pub enum FrameKind {
    /// A text frame.
    Text,
    /// A binary frame.
    Binary,
}

/// Whether `b` continues a UTF-8 sequence: `10xxxxxx`.
pub open spec fn continuation(b: u8) -> bool {
    0x80 <= b <= 0xbf
}

/// How long the well-formed UTF-8 sequence starting at `i` is, or 0 where none starts there
/// (Unicode's table of well-formed byte sequences, RFC 3629 §4): no overlong form, no
/// surrogate, nothing past U+10FFFF.
pub open spec fn utf8_sequence_at(s: Seq<u8>, i: int) -> int {
    let n = s.len() - i;
    let b = s[i];
    if b <= 0x7f {
        1
    } else if 0xc2 <= b <= 0xdf && n >= 2 && continuation(s[i + 1]) {
        2
    } else if n >= 3 && continuation(s[i + 2]) && (
        (b == 0xe0 && 0xa0 <= s[i + 1] <= 0xbf)
        || ((0xe1 <= b <= 0xec || b == 0xee || b == 0xef) && continuation(s[i + 1]))
        || (b == 0xed && 0x80 <= s[i + 1] <= 0x9f)) {
        3
    } else if n >= 4 && continuation(s[i + 2]) && continuation(s[i + 3]) && (
        (b == 0xf0 && 0x90 <= s[i + 1] <= 0xbf)
        || (0xf1 <= b <= 0xf3 && continuation(s[i + 1]))
        || (b == 0xf4 && 0x80 <= s[i + 1] <= 0x8f)) {
        4
    } else {
        0
    }
}

/// Whether the bytes from `i` on are well-formed UTF-8.
pub open spec fn utf8_from(s: Seq<u8>, i: int) -> bool
    decreases s.len() - i,
{
    if i < 0 || i >= s.len() {
        true
    } else {
        let n = utf8_sequence_at(s, i);
        n > 0 && utf8_from(s, i + n)
    }
}

/// Whether bytes are well-formed UTF-8: the condition RFC 6455 §5.6 puts on a text frame.
pub open spec fn text_frame_ok(bytes: Seq<u8>) -> bool {
    utf8_from(bytes, 0)
}

/// Calls `tungstenite::Utf8Bytes::try_from` on a copy of the bytes and reports whether it
/// succeeded. The crate checks with `str::from_utf8`, which accepts exactly well-formed
/// UTF-8; the contract claims that.
#[verifier::external_body]
fn accepted_as_text(bytes: &[u8]) -> (r: bool)
    ensures
        r == text_frame_ok(bytes@),
{
    tokio_tungstenite::tungstenite::Utf8Bytes::try_from(bytes.to_vec()).is_ok()
}

/// The frame a SIP message travels in: text when the message is valid UTF-8, binary otherwise,
/// since a peer must fail the connection on a text frame that is not.
pub fn frame_kind(message: &[u8]) -> (r: FrameKind)
    ensures
        (r == FrameKind::Text) == text_frame_ok(message@),
{
    if accepted_as_text(message) {
        FrameKind::Text
    } else {
        FrameKind::Binary
    }
}

/// The request-target of the upgrade: the scheme, the authority, and the resource exactly as
/// the caller named it, query and all. RFC 7118 §5 fixes no path, so where a server serves SIP is
/// the server's business and the caller's to know.
pub open spec fn upgrade_target_spec(authority: Seq<char>, path: Seq<char>, secure: bool) -> Seq<char> {
    (if secure {
        seq!['w', 's', 's', ':', '/', '/']
    } else {
        seq!['w', 's', ':', '/', '/']
    }) + authority + path
}

/// The request-target of the upgrade; see [`upgrade_target_spec`].
pub fn upgrade_target(authority: &str, path: &str, secure: bool) -> (r: String)
    ensures
        r@ == upgrade_target_spec(authority@, path@, secure),
{
    proof {
        reveal_strlit("wss://");
        reveal_strlit("ws://");
    }
    let scheme = if secure {
        "wss://"
    } else {
        "ws://"
    };
    let mut out = scheme.to_owned();
    out.append(authority);
    out.append(path);
    out
}

} // verus!
