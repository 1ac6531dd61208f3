//! Framing for the SIP-over-QUIC mapping: each request gets one bidirectional stream, and
//! responses return on that same stream.
//!
//! `Content-Length` makes a provisional response deliverable before the stream ends; without it,
//! the end of the stream is the body delimiter. What is decided here is where a response ends.

use vstd::prelude::*;
use vstd::string::StrSliceExecFns;
use crate::text::{
    copy_range, eq_ci, eq_ci_exec, find_exact, find_exact_exec, first_index_of, is_ascii_ws,
    lemma_first_index_absent, parse_usize, parse_usize_spec, position_of, push_all, trim, trim_exec,
};

verus! {

/// What failed while establishing or using a QUIC connection.
#[derive(Debug, Clone, PartialEq, Eq)]
pub enum QuicError {
    /// The certificate did not cover the URI host.
    WrongHost {
        /// Peer being authenticated.
        peer: String,
        /// Verification detail without certificate material.
        detail: String,
    },
    /// No configured trust anchor vouched for the certificate.
    UnknownIssuer {
        /// Peer being authenticated.
        peer: String,
        /// Verification detail without certificate material.
        detail: String,
    },
    /// The peer did not negotiate the required `sip/2` application protocol.
    WrongAlpn {
        /// Peer being authenticated.
        peer: String,
        /// Negotiation detail.
        detail: String,
    },
    /// The authenticated connection closed.
    ConnectionClosed {
        /// Peer whose connection closed.
        peer: String,
        /// Close code and reason.
        detail: String,
    },
    /// Another handshake failure.
    Handshake {
        /// Peer being authenticated.
        peer: String,
        /// Backend detail.
        detail: String,
    },
}

/// A character's code after ASCII lower-casing.
pub open spec fn lower_code(c: char) -> u32 {
    if 65 <= (c as u32) <= 90 {
        (c as u32 + 32) as u32
    } else {
        c as u32
    }
}

/// Whether `needle` occurs in `hay` at `at`, ignoring ASCII case in `hay`.
pub open spec fn occurs_folded_at(hay: Seq<char>, needle: Seq<char>, at: int) -> bool {
    0 <= at && at + needle.len() <= hay.len() && forall|k: int|
        0 <= k < needle.len() ==> lower_code(#[trigger] hay[at + k]) == needle[k] as u32
}

/// Whether `needle` occurs anywhere in `hay`, ignoring ASCII case in `hay`.
pub open spec fn contains_folded(hay: Seq<char>, needle: Seq<char>) -> bool {
    exists|at: int| occurs_folded_at(hay, needle, at)
}

/// How a handshake failure is classified by what its detail says.
pub open spec fn handshake_kind(detail: Seq<char>) -> int {
    if contains_folded(detail, "notvalidforname"@) || contains_folded(detail, "not valid for"@) {
        0
    } else if contains_folded(detail, "unknownissuer"@) || contains_folded(detail, "unknown issuer"@) {
        1
    } else if contains_folded(detail, "application protocol"@) || contains_folded(
        detail,
        "known protocol"@,
    ) || contains_folded(detail, "alpn"@) {
        2
    } else {
        3
    }
}

fn occurs_folded_at_exec(hay: &str, needle: &str, at: usize) -> (r: bool)
    requires
        at + needle@.len() <= hay@.len(),
    ensures
        r == occurs_folded_at(hay@, needle@, at as int),
{
    let n = needle.unicode_len();
    let h = hay.unicode_len();
    let mut k: usize = 0;
    while k < n
        invariant
            n == needle@.len(),
            h == hay@.len(),
            at + n <= hay@.len(),
            k <= n,
            forall|j: int| 0 <= j < k ==> lower_code(#[trigger] hay@[at + j]) == needle@[j] as u32,
        decreases n - k,
    {
        let c = hay.get_char(at + k) as u32;
        let folded = if 65 <= c && c <= 90 {
            c + 32
        } else {
            c
        };
        if folded != needle.get_char(k) as u32 {
            return false;
        }
        k = k + 1;
    }
    true
}

fn contains_folded_exec(hay: &str, needle: &str) -> (r: bool)
    ensures
        r == contains_folded(hay@, needle@),
{
    let h = hay.unicode_len();
    let n = needle.unicode_len();
    if n > h {
        return false;
    }
    let mut at: usize = 0;
    while at <= h - n
        invariant
            h == hay@.len(),
            n == needle@.len(),
            n <= h,
            forall|j: int| 0 <= j < at ==> !occurs_folded_at(hay@, needle@, j),
        decreases h - n + 1 - at,
    {
        if occurs_folded_at_exec(hay, needle, at) {
            return true;
        }
        at = at + 1;
    }
    false
}

impl QuicError {
    /// Classify a handshake failure by what its detail says, ignoring ASCII case: a certificate
    /// for the wrong host, an unknown issuer, a wrong application protocol, or anything else.
    pub fn handshake(peer: String, detail: String) -> (r: QuicError)
        ensures
            r == (if handshake_kind(detail@) == 0 {
                QuicError::WrongHost { peer, detail }
            } else if handshake_kind(detail@) == 1 {
                QuicError::UnknownIssuer { peer, detail }
            } else if handshake_kind(detail@) == 2 {
                QuicError::WrongAlpn { peer, detail }
            } else {
                QuicError::Handshake { peer, detail }
            }),
    {
        proof {
            reveal_strlit("notvalidforname");
            reveal_strlit("not valid for");
            reveal_strlit("unknownissuer");
            reveal_strlit("unknown issuer");
            reveal_strlit("application protocol");
            reveal_strlit("known protocol");
            reveal_strlit("alpn");
        }
        let d = detail.as_str();
        let wrong_host = contains_folded_exec(d, "notvalidforname") || contains_folded_exec(
            d,
            "not valid for",
        );
        if wrong_host {
            return QuicError::WrongHost { peer, detail };
        }
        let unknown = contains_folded_exec(d, "unknownissuer") || contains_folded_exec(
            d,
            "unknown issuer",
        );
        if unknown {
            return QuicError::UnknownIssuer { peer, detail };
        }
        let alpn = contains_folded_exec(d, "application protocol") || contains_folded_exec(
            d,
            "known protocol",
        ) || contains_folded_exec(d, "alpn");
        if alpn {
            return QuicError::WrongAlpn { peer, detail };
        }
        QuicError::Handshake { peer, detail }
    }
}

/// Why a `Content-Length` could not be read from a header section.
#[derive(Debug, Clone, Copy, PartialEq, Eq)]
pub enum LengthError {
    /// The header appeared twice.
    Repeated,
    /// A continuation line followed a header with no value.
    MissingValue,
    /// The value is not a length.
    Invalid,
}

/// `content-length`.
pub open spec fn content_length_name() -> Seq<u8> {
    seq![99u8, 111u8, 110u8, 116u8, 101u8, 110u8, 116u8, 45u8, 108u8, 101u8, 110u8, 103u8, 116u8, 104u8]
}

/// `l`, the compact form.
pub open spec fn compact_length_name() -> Seq<u8> {
    seq![108u8]
}

/// The bytes an optional buffer holds.
pub open spec fn opt_view(o: Option<Vec<u8>>) -> Option<Seq<u8>> {
    match o {
        Some(v) => Some(v@),
        None => None,
    }
}

/// A line without its trailing carriage return.
pub open spec fn strip_cr(line: Seq<u8>) -> Seq<u8> {
    if line.len() > 0 && line.last() == 13 {
        line.drop_last()
    } else {
        line
    }
}

/// One header line's effect on the scan for `Content-Length`: a folded continuation extends the
/// value when it continues that header; a `Content-Length` or `l` header sets it, once.
pub open spec fn length_step(line: Seq<u8>, value: Option<Seq<u8>>, continuing: bool) -> Result<
    (Option<Seq<u8>>, bool),
    LengthError,
> {
    if line.len() > 0 && is_ascii_ws(line[0]) {
        if continuing {
            match value {
                Some(v) => Ok((Some(v + seq![32u8] + trim(line)), true)),
                None => Err(LengthError::MissingValue),
            }
        } else {
            Ok((value, continuing))
        }
    } else {
        match first_index_of(line, 58) {
            None => Ok((value, false)),
            Some(c) => {
                let name = trim(line.take(c));
                if eq_ci(name, content_length_name()) || eq_ci(name, compact_length_name()) {
                    if value.is_some() {
                        Err(LengthError::Repeated)
                    } else {
                        Ok((Some(trim(line.skip(c + 1))), true))
                    }
                } else {
                    Ok((value, false))
                }
            },
        }
    }
}

/// The line at the start of `s` and what follows its line feed, if it has one.
pub open spec fn next_line(s: Seq<u8>) -> (Seq<u8>, Option<Seq<u8>>) {
    match first_index_of(s, 10) {
        Some(i) => if 0 <= i < s.len() {
            (s.take(i), Some(s.skip(i + 1)))
        } else {
            (s, None)
        },
        None => (s, None),
    }
}

/// The `Content-Length` value found in the header lines of `s`, scanning in order.
pub open spec fn scan_lengths(s: Seq<u8>, value: Option<Seq<u8>>, continuing: bool) -> Result<
    Option<Seq<u8>>,
    LengthError,
>
    decreases s.len(),
{
    let (line, rest) = next_line(s);
    match length_step(strip_cr(line), value, continuing) {
        Err(e) => Err(e),
        Ok((v, c)) => match rest {
            None => Ok(v),
            Some(r) => if r.len() < s.len() {
                scan_lengths(r, v, c)
            } else {
                Ok(v)
            },
        },
    }
}

/// The `Content-Length` a header section declares, if any: the start line is skipped, a
/// repeated header is an error, and the value must read as a length.
pub open spec fn declared_content_length_spec(head: Seq<u8>) -> Result<Option<usize>, LengthError> {
    let found = match next_line(head).1 {
        None => Ok(None),
        Some(r) => scan_lengths(r, None, false),
    };
    match found {
        Err(e) => Err(e),
        Ok(None) => Ok(None),
        Ok(Some(v)) => match parse_usize_spec(v) {
            Some(n) => Ok(Some(n)),
            None => Err(LengthError::Invalid),
        },
    }
}

fn next_line_exec(s: &[u8], from: usize) -> (r: (usize, Option<usize>))
    requires
        from <= s@.len(),
    ensures
        r.0 <= s@.len(),
        from <= r.0,
        next_line(s@.skip(from as int)).0 == s@.subrange(from as int, r.0 as int),
        match next_line(s@.skip(from as int)).1 {
            None => r.1 is None,
            Some(rest) => r.1 matches Some(n) && n == r.0 + 1 && n <= s@.len() && rest == s@.skip(
                n as int,
            ),
        },
{
    let tail = copy_range(s, from, s.len());
    let ghost t = s@.skip(from as int);
    proof {
        assert(tail@ =~= t);
        lemma_first_index_absent(t, 10);
    }
    match position_of(tail.as_slice(), 10) {
        Some(i) => {
            proof {
                assert(t.take(i as int) =~= s@.subrange(from as int, from + i));
                assert(t.skip(i + 1) =~= s@.skip(from + i + 1));
            }
            (from + i, Some(from + i + 1))
        },
        None => {
            proof {
                assert(t =~= s@.subrange(from as int, s@.len() as int));
            }
            (s.len(), None)
        },
    }
}

fn strip_cr_exec(s: &[u8], from: usize, to: usize) -> (r: Vec<u8>)
    requires
        from <= to <= s@.len(),
    ensures
        r@ == strip_cr(s@.subrange(from as int, to as int)),
{
    if to > from && s[to - 1] == 13u8 {
        let r = copy_range(s, from, to - 1);
        proof {
            assert(r@ =~= s@.subrange(from as int, to as int).drop_last());
        }
        r
    } else {
        copy_range(s, from, to)
    }
}

fn length_step_exec(line: &[u8], value: Option<Vec<u8>>, continuing: bool) -> (r: Result<
    (Option<Vec<u8>>, bool),
    LengthError,
>)
    ensures
        match length_step(line@, opt_view(value), continuing) {
            Ok((v, c)) => r matches Ok((rv, rc)) && opt_view(rv) == v && rc == c,
            Err(e) => r == Err::<(Option<Vec<u8>>, bool), LengthError>(e),
        },
{
    if line.len() > 0 && (line[0] == 32 || line[0] == 9 || line[0] == 10 || line[0] == 12 || line[0]
        == 13) {
        if continuing {
            match value {
                Some(mut v) => {
                    let ghost v0 = v@;
                    v.push(32u8);
                    let t = trim_exec(line);
                    push_all(&mut v, t.as_slice());
                    proof {
                        assert(v@ =~= v0 + seq![32u8] + trim(line@));
                    }
                    return Ok((Some(v), true));
                },
                None => {
                    return Err(LengthError::MissingValue);
                },
            }
        } else {
            return Ok((value, continuing));
        }
    }
    proof {
        lemma_first_index_absent(line@, 58);
    }
    match position_of(line, 58) {
        None => Ok((value, false)),
        Some(c) => {
            let head = copy_range(line, 0, c);
            let name = trim_exec(head.as_slice());
            let long = [99u8, 111u8, 110u8, 116u8, 101u8, 110u8, 116u8, 45u8, 108u8, 101u8, 110u8, 103u8, 116u8, 104u8];
            let short = [108u8];
            proof {
                assert(head@ =~= line@.take(c as int));
                assert(long@ =~= content_length_name());
                assert(short@ =~= compact_length_name());
            }
            if eq_ci_exec(name.as_slice(), &long) || eq_ci_exec(name.as_slice(), &short) {
                if value.is_some() {
                    Err(LengthError::Repeated)
                } else {
                    let raw = copy_range(line, c + 1, line.len());
                    let v = trim_exec(raw.as_slice());
                    proof {
                        assert(raw@ =~= line@.skip(c + 1));
                    }
                    Ok((Some(v), true))
                }
            } else {
                Ok((value, false))
            }
        },
    }
}

/// The `Content-Length` a response's header section declares, if any.
///
/// The start line is skipped; header names compare ignoring ASCII case and may be the compact
/// `l`; a folded continuation of the header extends its value; the header appearing twice is an
/// error, and so is a value that is not a length.
pub fn declared_content_length(head: &[u8]) -> (r: Result<Option<usize>, LengthError>)
    ensures
        r == declared_content_length_spec(head@),
{
    let (_, first_rest) = next_line_exec(head, 0);
    proof {
        assert(head@.skip(0) =~= head@);
    }
    let mut value: Option<Vec<u8>> = None;
    let mut continuing = false;
    let found: Result<Option<Vec<u8>>, LengthError> = match first_rest {
        None => Ok(None),
        Some(start) => {
            let mut at = start;
            let mut error: Option<LengthError> = None;
            let ghost target = scan_lengths(head@.skip(start as int), None, false);
            loop
                invariant_except_break
                    error is None,
                    target == scan_lengths(head@.skip(at as int), opt_view(value), continuing),
                invariant
                    at <= head@.len(),
                ensures
                    match target {
                        Ok(v) => error is None && opt_view(value) == v,
                        Err(e) => error == Some(e),
                    },
                decreases head@.len() - at,
            {
                let (line_end, rest) = next_line_exec(head, at);
                let line = strip_cr_exec(head, at, line_end);
                let step = length_step_exec(line.as_slice(), value, continuing);
                match step {
                    Err(e) => {
                        error = Some(e);
                        value = None;
                        break;
                    },
                    Ok((v, c)) => {
                        value = v;
                        continuing = c;
                        match rest {
                            None => {
                                break;
                            },
                            Some(n) => {
                                at = n;
                            },
                        }
                    },
                }
            }
            match error {
                Some(e) => Err(e),
                None => Ok(value),
            }
        },
    };
    match found {
        Err(e) => Err(e),
        Ok(None) => Ok(None),
        Ok(Some(v)) => match parse_usize(v.as_slice()) {
            Some(n) => Ok(Some(n)),
            None => Err(LengthError::Invalid),
        },
    }
}

/// Why a response stream cannot be framed.
#[derive(Debug, Clone, Copy, PartialEq, Eq)]
pub enum FramingError {
    /// The stream holds no complete header section, and never will.
    NoHeader,
    /// A length would not fit in memory.
    Overflow,
    /// The response exceeds the configured message limit.
    TooLarge,
    /// The stream ended before the declared body did.
    Truncated,
    /// The `Content-Length` could not be read.
    Length(LengthError),
}

/// The end of the header section: `CRLFCRLF`.
pub open spec fn header_end() -> Seq<u8> {
    seq![13u8, 10u8, 13u8, 10u8]
}

/// How many bytes of `pending` make up the next response, if that is knowable now.
///
/// With a `Content-Length` the response ends after its declared body, so a provisional response
/// is deliverable before the stream ends; without one, the end of the stream is the delimiter.
/// Nothing yet means "wait for more".
pub open spec fn response_frame(pending: Seq<u8>, end: bool, max: usize) -> Result<
    Option<usize>,
    FramingError,
> {
    match find_exact(pending, header_end(), 0) {
        None => if pending.len() > max || (end && pending.len() > 0) {
            Err(FramingError::NoHeader)
        } else {
            Ok(None)
        },
        Some(head_end) => {
            let body_start = head_end + 4;
            match declared_content_length_spec(pending.take(head_end)) {
                Err(e) => Err(FramingError::Length(e)),
                Ok(declared) => {
                    let frame: Option<int> = match declared {
                        Some(d) => Some(body_start + d),
                        None => if end {
                            Some(pending.len() as int)
                        } else {
                            None
                        },
                    };
                    match frame {
                        None => if pending.len() > max {
                            Err(FramingError::TooLarge)
                        } else {
                            Ok(None)
                        },
                        Some(f) => if f > usize::MAX {
                            Err(FramingError::Overflow)
                        } else if f > max {
                            Err(FramingError::TooLarge)
                        } else if pending.len() < f {
                            if end {
                                Err(FramingError::Truncated)
                            } else {
                                Ok(None)
                            }
                        } else {
                            Ok(Some(f as usize))
                        },
                    }
                },
            }
        },
    }
}

proof fn lemma_find_exact_bound(h: Seq<u8>, n: Seq<u8>, from: int)
    ensures
        find_exact(h, n, from) matches Some(p) ==> from <= p && p + n.len() <= h.len(),
    decreases h.len() - from,
{
    if !(n.len() == 0 || from < 0 || from + n.len() > h.len()) && !crate::text::matches_at(
        h,
        n,
        from,
    ) {
        lemma_find_exact_bound(h, n, from + 1);
    }
}

/// How many bytes of `pending` make up the next response on a QUIC stream, if that is knowable
/// now; `end` says the stream has finished.
pub fn take_response(pending: &[u8], end: bool, max_message_bytes: usize) -> (r: Result<
    Option<usize>,
    FramingError,
>)
    ensures
        r == response_frame(pending@, end, max_message_bytes),
{
    let marker = [13u8, 10u8, 13u8, 10u8];
    proof {
        assert(marker@ =~= header_end());
        lemma_find_exact_bound(pending@, header_end(), 0);
    }
    let head_end = match find_exact_exec(pending, &marker, 0) {
        None => {
            if pending.len() > max_message_bytes || (end && pending.len() > 0) {
                return Err(FramingError::NoHeader);
            }
            return Ok(None);
        },
        Some(h) => h,
    };
    assert(head_end + 4 <= pending.len());
    let body_start = head_end + 4;
    let header = copy_range(pending, 0, head_end);
    proof {
        assert(header@ =~= pending@.take(head_end as int));
    }
    let declared = match declared_content_length(header.as_slice()) {
        Err(e) => {
            return Err(FramingError::Length(e));
        },
        Ok(d) => d,
    };
    let frame_len = match declared {
        Some(d) => match body_start.checked_add(d) {
            Some(f) => f,
            None => {
                return Err(FramingError::Overflow);
            },
        },
        None => {
            if end {
                pending.len()
            } else {
                if pending.len() > max_message_bytes {
                    return Err(FramingError::TooLarge);
                }
                return Ok(None);
            }
        },
    };
    if frame_len > max_message_bytes {
        return Err(FramingError::TooLarge);
    }
    if pending.len() < frame_len {
        if end {
            return Err(FramingError::Truncated);
        }
        return Ok(None);
    }
    Ok(Some(frame_len))
}

} // verus!
