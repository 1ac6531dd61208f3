//! `received` and `rport`: what makes SIP work through a NAT (RFC 3261 §18.2.1, RFC 3581).
//!
//! A client behind a NAT puts its private address in the `Via` sent-by, because that is all it
//! knows. The server therefore records where the request *actually* came from. The edits here
//! are surgical: only the topmost hop is touched, and within it only the two parameters in
//! question. The hops below belong to other elements and go back out exactly as they arrived.

use vstd::prelude::*;
use crate::addr_text::{ip_text, ip_text_spec};
use crate::addr::{SocketAddress, ip_eq};
use crate::sip::{Host, ViaHop};
use crate::text::{decimal, eq_ci, eq_ci_exec, push_all, push_decimal, push_range};

verus! {

/// The end of a quoted string that opens at `at`: one past the closing quote, where a backslash
/// escapes the byte after it. Nothing if the quote never closes.
pub open spec fn quoted_end_from(s: Seq<u8>, i: int) -> Option<int>
    decreases s.len() - i,
{
    if i < 0 || i >= s.len() {
        None
    } else if s[i] == 92 && i + 1 < s.len() {
        quoted_end_from(s, i + 2)
    } else if s[i] == 34 {
        Some(i + 1)
    } else {
        quoted_end_from(s, i + 1)
    }
}

/// The end of the quoted string whose opening quote is at `at`.
pub open spec fn quoted_end_spec(s: Seq<u8>, at: int) -> Option<int> {
    quoted_end_from(s, at + 1)
}

/// The first index at or after `i` that is not a space or tab.
pub open spec fn skip_wsp(s: Seq<u8>, i: int) -> int
    decreases s.len() - i,
{
    if 0 <= i < s.len() && (s[i] == 32 || s[i] == 9) {
        skip_wsp(s, i + 1)
    } else {
        i
    }
}

/// The end of a parameter name: the first `;`, `=`, space or tab at or after `i`.
pub open spec fn name_end(s: Seq<u8>, i: int) -> int
    decreases s.len() - i,
{
    if 0 <= i < s.len() && !(s[i] == 59 || s[i] == 61 || s[i] == 32 || s[i] == 9) {
        name_end(s, i + 1)
    } else {
        i
    }
}

/// The end of an unquoted value: the first `;` at or after `i`.
pub open spec fn value_end(s: Seq<u8>, i: int) -> int
    decreases s.len() - i,
{
    if 0 <= i < s.len() && s[i] != 59 {
        value_end(s, i + 1)
    } else {
        i
    }
}

/// Where the parameter that starts with the `;` at `i` ends: after its name, and after an
/// `=value` when there is one, quoted or not. Nothing if a quoted value never closes.
pub open spec fn param_end(s: Seq<u8>, i: int) -> Option<int> {
    let e0 = skip_wsp(s, name_end(s, skip_wsp(s, i + 1)));
    if 0 <= e0 < s.len() && s[e0] == 61 {
        let v = skip_wsp(s, e0 + 1);
        if 0 <= v < s.len() && s[v] == 34 {
            quoted_end_spec(s, v)
        } else {
            Some(value_end(s, v))
        }
    } else {
        Some(e0)
    }
}

/// The name of the parameter that starts with the `;` at `i`.
pub open spec fn param_name(s: Seq<u8>, i: int) -> Seq<u8> {
    let j = skip_wsp(s, i + 1);
    s.subrange(j, name_end(s, j))
}

/// The span of `;name` or `;name=value` in one via-parm, searched from `i`: quoted strings are
/// skipped whole, names compare ignoring ASCII case, and an unterminated quote ends the search
/// with nothing.
pub open spec fn span_from(s: Seq<u8>, name: Seq<u8>, i: int) -> Option<(int, int)>
    decreases s.len() - i,
{
    if i < 0 || i >= s.len() {
        None
    } else if s[i] == 34 {
        match quoted_end_spec(s, i) {
            None => None,
            Some(e) => if i < e <= s.len() {
                span_from(s, name, e)
            } else {
                None
            },
        }
    } else if s[i] == 59 {
        match param_end(s, i) {
            None => None,
            Some(end) => if eq_ci(param_name(s, i), name) {
                Some((i, end))
            } else if i < end <= s.len() {
                span_from(s, name, end)
            } else {
                None
            },
        }
    } else {
        span_from(s, name, i + 1)
    }
}

/// The span of `;name` or `;name=value` within one via-parm, quote-aware.
pub open spec fn param_span_spec(hop: Seq<u8>, name: Seq<u8>) -> Option<(int, int)> {
    span_from(hop, name, 0)
}

proof fn lemma_quoted_end_from(s: Seq<u8>, i: int)
    ensures
        quoted_end_from(s, i) matches Some(e) ==> i < e <= s.len(),
    decreases s.len() - i,
{
    if 0 <= i < s.len() {
        if s[i] == 92 && i + 1 < s.len() {
            lemma_quoted_end_from(s, i + 2);
        } else if s[i] != 34 {
            lemma_quoted_end_from(s, i + 1);
        }
    }
}

proof fn lemma_skip_wsp(s: Seq<u8>, i: int)
    requires
        0 <= i <= s.len(),
    ensures
        i <= skip_wsp(s, i) <= s.len(),
    decreases s.len() - i,
{
    if i < s.len() && (s[i] == 32 || s[i] == 9) {
        lemma_skip_wsp(s, i + 1);
    }
}

proof fn lemma_name_end(s: Seq<u8>, i: int)
    requires
        0 <= i <= s.len(),
    ensures
        i <= name_end(s, i) <= s.len(),
    decreases s.len() - i,
{
    if i < s.len() && !(s[i] == 59 || s[i] == 61 || s[i] == 32 || s[i] == 9) {
        lemma_name_end(s, i + 1);
    }
}

proof fn lemma_value_end(s: Seq<u8>, i: int)
    requires
        0 <= i <= s.len(),
    ensures
        i <= value_end(s, i) <= s.len(),
    decreases s.len() - i,
{
    if i < s.len() && s[i] != 59 {
        lemma_value_end(s, i + 1);
    }
}

proof fn lemma_param_end(s: Seq<u8>, i: int)
    requires
        0 <= i < s.len(),
    ensures
        param_end(s, i) matches Some(e) ==> i < e <= s.len(),
{
    lemma_skip_wsp(s, i + 1);
    let j = skip_wsp(s, i + 1);
    lemma_name_end(s, j);
    lemma_skip_wsp(s, name_end(s, j));
    let e0 = skip_wsp(s, name_end(s, j));
    if 0 <= e0 < s.len() && s[e0] == 61 {
        lemma_skip_wsp(s, e0 + 1);
        let v = skip_wsp(s, e0 + 1);
        if 0 <= v < s.len() && s[v] == 34 {
            lemma_quoted_end_from(s, v + 1);
        } else {
            lemma_value_end(s, v);
        }
    }
}

proof fn lemma_span_from(s: Seq<u8>, name: Seq<u8>, i: int)
    requires
        0 <= i,
    ensures
        span_from(s, name, i) matches Some((a, b)) ==> i <= a < b <= s.len(),
    decreases s.len() - i,
{
    if i < s.len() {
        if s[i] == 34 {
            match quoted_end_spec(s, i) {
                Some(e) => {
                    if i < e <= s.len() {
                        lemma_span_from(s, name, e);
                    }
                },
                None => {},
            }
        } else if s[i] == 59 {
            lemma_param_end(s, i);
            match param_end(s, i) {
                Some(end) => {
                    if !eq_ci(param_name(s, i), name) && i < end <= s.len() {
                        lemma_span_from(s, name, end);
                    }
                },
                None => {},
            }
        } else {
            lemma_span_from(s, name, i + 1);
        }
    }
}

/// The end of the quoted string whose opening quote is at `at`.
fn quoted_end(input: &[u8], at: usize) -> (r: Option<usize>)
    requires
        at < input@.len(),
    ensures
        match quoted_end_spec(input@, at as int) {
            Some(e) => r == Some(e as usize) && at < e <= input@.len(),
            None => r is None,
        },
{
    proof {
        lemma_quoted_end_from(input@, at + 1);
    }
    assert(at < input.len());
    let mut i = at + 1;
    while i < input.len()
        invariant
            at < i <= input@.len() + 1,
            i <= input@.len() ==> quoted_end_spec(input@, at as int) == quoted_end_from(input@, i as int),
            i > input@.len() ==> quoted_end_spec(input@, at as int) is None,
        decreases input@.len() + 1 - i,
    {
        let b = input[i];
        if b == 92u8 && i + 1 < input.len() {
            i = i + 2;
        } else if b == 34u8 {
            return Some(i + 1);
        } else {
            i = i + 1;
        }
    }
    None
}

fn skip_wsp_exec(s: &[u8], from: usize) -> (r: usize)
    requires
        from <= s@.len(),
    ensures
        r == skip_wsp(s@, from as int),
        from <= r <= s@.len(),
{
    proof {
        lemma_skip_wsp(s@, from as int);
    }
    let mut i = from;
    while i < s.len() && (s[i] == 32u8 || s[i] == 9u8)
        invariant
            from <= i <= s@.len(),
            skip_wsp(s@, from as int) == skip_wsp(s@, i as int),
        decreases s.len() - i,
    {
        i = i + 1;
    }
    i
}

fn name_end_exec(s: &[u8], from: usize) -> (r: usize)
    requires
        from <= s@.len(),
    ensures
        r == name_end(s@, from as int),
        from <= r <= s@.len(),
{
    proof {
        lemma_name_end(s@, from as int);
    }
    let mut i = from;
    while i < s.len() && !(s[i] == 59u8 || s[i] == 61u8 || s[i] == 32u8 || s[i] == 9u8)
        invariant
            from <= i <= s@.len(),
            name_end(s@, from as int) == name_end(s@, i as int),
        decreases s.len() - i,
    {
        i = i + 1;
    }
    i
}

fn value_end_exec(s: &[u8], from: usize) -> (r: usize)
    requires
        from <= s@.len(),
    ensures
        r == value_end(s@, from as int),
        from <= r <= s@.len(),
{
    proof {
        lemma_value_end(s@, from as int);
    }
    let mut i = from;
    while i < s.len() && s[i] != 59u8
        invariant
            from <= i <= s@.len(),
            value_end(s@, from as int) == value_end(s@, i as int),
        decreases s.len() - i,
    {
        i = i + 1;
    }
    i
}

/// The span of `;name` or `;name=value` within one via-parm, quote-aware.
///
/// A quoted string anywhere is skipped whole, so a `;` inside one is not a parameter; names
/// compare ignoring ASCII case; an `=value` may itself be quoted. An unterminated quote ends the
/// search with nothing.
pub fn param_span(hop: &[u8], name: &[u8]) -> (r: Option<(usize, usize)>)
    ensures
        match param_span_spec(hop@, name@) {
            Some((a, b)) => r == Some((a as usize, b as usize)) && 0 <= a < b <= hop@.len(),
            None => r is None,
        },
{
    proof {
        lemma_span_from(hop@, name@, 0);
    }
    let mut i: usize = 0;
    while i < hop.len()
        invariant
            i <= hop@.len(),
            param_span_spec(hop@, name@) == span_from(hop@, name@, i as int),
        decreases hop.len() - i,
    {
        if hop[i] == 34u8 {
            match quoted_end(hop, i) {
                Some(e) => {
                    i = e;
                },
                None => {
                    return None;
                },
            }
        } else if hop[i] == 59u8 {
            let start = i;
            let end = match param_end_exec(hop, i) {
                Some(end) => end,
                None => {
                    return None;
                },
            };
            let j = skip_wsp_exec(hop, i + 1);
            let ne = name_end_exec(hop, j);
            let found_matches = name_matches(hop, j, ne, name);
            if found_matches {
                return Some((start, end));
            }
            i = end;
        } else {
            i = i + 1;
        }
    }
    None
}

/// Where the parameter that starts with the `;` at `i` ends.
fn param_end_exec(hop: &[u8], i: usize) -> (r: Option<usize>)
    requires
        i < hop@.len(),
    ensures
        match param_end(hop@, i as int) {
            Some(e) => r == Some(e as usize) && i < e <= hop@.len(),
            None => r is None,
        },
{
    assert(i < hop.len());
    let j = skip_wsp_exec(hop, i + 1);
    let ne = name_end_exec(hop, j);
    let end = skip_wsp_exec(hop, ne);
    if end < hop.len() && hop[end] == 61u8 {
        let v = skip_wsp_exec(hop, end + 1);
        if v < hop.len() && hop[v] == 34u8 {
            quoted_end(hop, v)
        } else {
            Some(value_end_exec(hop, v))
        }
    } else {
        Some(end)
    }
}

/// Whether `s[from..to]` is `name`, ignoring ASCII case.
fn name_matches(s: &[u8], from: usize, to: usize, name: &[u8]) -> (r: bool)
    requires
        from <= to <= s@.len(),
    ensures
        r == eq_ci(s@.subrange(from as int, to as int), name@),
{
    let mut found: Vec<u8> = Vec::new();
    push_range(&mut found, s, from, to);
    proof {
        assert(found@ =~= s@.subrange(from as int, to as int));
    }
    eq_ci_exec(found.as_slice(), name)
}

/// Where the first hop of a `Via` value ends, searched from `i`: at the first comma outside a
/// quoted string, or at the end of the value. A quote that never closes runs to the end.
pub open spec fn hop_end_from(s: Seq<u8>, i: int) -> int
    decreases s.len() - i,
{
    if i < 0 || i >= s.len() {
        s.len() as int
    } else if s[i] == 44 {
        i
    } else if s[i] == 34 {
        match quoted_end_spec(s, i) {
            Some(e) => if i < e <= s.len() {
                hop_end_from(s, e)
            } else {
                s.len() as int
            },
            None => s.len() as int,
        }
    } else {
        hop_end_from(s, i + 1)
    }
}

/// Where the topmost hop of a `Via` value ends.
pub open spec fn first_hop_end_spec(value: Seq<u8>) -> int {
    hop_end_from(value, 0)
}

proof fn lemma_hop_end_from(s: Seq<u8>, i: int)
    requires
        0 <= i,
    ensures
        hop_end_from(s, i) <= s.len(),
        i <= s.len() ==> i <= hop_end_from(s, i),
    decreases s.len() - i,
{
    if i < s.len() && s[i] != 44 {
        if s[i] == 34 {
            lemma_quoted_end_from(s, i + 1);
            if let Some(e) = quoted_end_spec(s, i) {
                if i < e <= s.len() {
                    lemma_hop_end_from(s, e);
                }
            }
        } else {
            lemma_hop_end_from(s, i + 1);
        }
    }
}

/// Where the topmost hop of a `Via` value ends: at the first comma outside a quoted string, or
/// at the end of the value.
pub fn first_hop_end(value: &[u8]) -> (r: usize)
    ensures
        r == first_hop_end_spec(value@),
        r <= value@.len(),
{
    proof {
        lemma_hop_end_from(value@, 0);
    }
    let mut i: usize = 0;
    while i < value.len()
        invariant
            i <= value@.len(),
            hop_end_from(value@, 0) == hop_end_from(value@, i as int),
        decreases value@.len() - i,
    {
        let b = value[i];
        if b == 44u8 {
            return i;
        }
        if b == 34u8 {
            match quoted_end(value, i) {
                Some(e) => {
                    i = e;
                },
                None => {
                    return value.len();
                },
            }
        } else {
            i = i + 1;
        }
    }
    value.len()
}

/// `rport`.
pub open spec fn rport_name() -> Seq<u8> {
    seq![114u8, 112u8, 111u8, 114u8, 116u8]
}

/// `branch`.
pub open spec fn branch_name() -> Seq<u8> {
    seq![98u8, 114u8, 97u8, 110u8, 99u8, 104u8]
}

/// `;rport=`.
pub open spec fn rport_prefix() -> Seq<u8> {
    seq![59u8, 114u8, 112u8, 111u8, 114u8, 116u8, 61u8]
}

/// `;received=`.
pub open spec fn received_prefix() -> Seq<u8> {
    seq![59u8, 114u8, 101u8, 99u8, 101u8, 105u8, 118u8, 101u8, 100u8, 61u8]
}

/// Whether the sender asked, with an empty `rport`, which port the request came from.
pub open spec fn asked_for_rport(via: ViaHop) -> bool {
    via.rport == Some(None::<Vec<u8>>)
}

/// Whether the sent-by is the address the request came from. A hostname always counts as
/// differing: comparing it would mean resolving it, and the sender may be wrong about where it is.
pub open spec fn sent_by_matches(via: ViaHop, source: SocketAddress) -> bool {
    match via.host {
        Host::Ip(ip) => ip == source.ip,
        Host::Name(_) => false,
    }
}

/// RFC 3581: an empty `rport` is answered in place with the port the request came from, so a
/// reader taking the first occurrence learns the answer. Also whether anything changed.
pub open spec fn answer_rport(hop: Seq<u8>, via: ViaHop, port: u16) -> (Seq<u8>, bool) {
    if asked_for_rport(via) {
        match param_span_spec(hop, rport_name()) {
            Some((start, end)) => (
                hop.subrange(0, start) + rport_prefix() + decimal(port as nat) + hop.subrange(
                    end,
                    hop.len() as int,
                ),
                true,
            ),
            None => (hop, false),
        }
    } else {
        (hop, false)
    }
}

/// RFC 3261 §18.2.1 and RFC 3581 §4: `received` is recorded when the source differs from the
/// sent-by, or whenever `rport` was asked for, unless the hop already has one; it goes before
/// `branch`, else at the end. Also whether anything changed.
pub open spec fn add_received(hop: Seq<u8>, via: ViaHop, source: SocketAddress, ip_text: Seq<u8>) -> (
    Seq<u8>,
    bool,
) {
    if (asked_for_rport(via) || !sent_by_matches(via, source)) && via.received.is_none() {
        let at = match param_span_spec(hop, branch_name()) {
            Some((start, _)) => start,
            None => hop.len() as int,
        };
        (hop.subrange(0, at) + received_prefix() + ip_text + hop.subrange(at, hop.len() as int), true)
    } else {
        (hop, false)
    }
}

/// The `Via` header value with its topmost hop rewritten, or nothing if nothing needed to change.
/// The hops after the first go back out exactly as they arrived.
pub open spec fn rewritten_via(
    value: Seq<u8>,
    hop_end: int,
    via: ViaHop,
    source: SocketAddress,
) -> Option<Seq<u8>> {
    let (h1, c1) = answer_rport(value.subrange(0, hop_end), via, source.port);
    let (h2, c2) = add_received(h1, via, source, ip_text_spec(source.ip));
    if c1 || c2 {
        Some(h2 + value.subrange(hop_end, value.len() as int))
    } else {
        None
    }
}

/// Add `received` and, if asked, `rport` to the topmost hop of a received request's `Via`.
///
/// `value` is the whole `Via` header value, `via` what its topmost hop says, and `source` where
/// the request came from; `received` carries the source address as text. The topmost hop ends at
/// the first comma outside a quoted string. Returns the new header value, or `None` when nothing
/// changed.
pub fn apply_received_and_rport(value: &[u8], via: &ViaHop, source: SocketAddress) -> (r: Option<
    Vec<u8>,
>)
    ensures
        r matches Some(v) ==> rewritten_via(value@, first_hop_end_spec(value@), *via, source)
            == Some(v@),
        r is None ==> rewritten_via(value@, first_hop_end_spec(value@), *via, source) is None,
{
    let hop_end = first_hop_end(value);
    rewrite_top_hop(value, hop_end, via, source)
}

/// The rewrite of [`apply_received_and_rport`] for a value whose topmost hop ends at `hop_end`.
pub fn rewrite_top_hop(
    value: &[u8],
    hop_end: usize,
    via: &ViaHop,
    source: SocketAddress,
) -> (r: Option<Vec<u8>>)
    requires
        hop_end <= value@.len(),
    ensures
        r matches Some(v) ==> rewritten_via(value@, hop_end as int, *via, source)
            == Some(v@),
        r is None ==> rewritten_via(value@, hop_end as int, *via, source) is None,
{
    let text = ip_text(&source.ip);
    let source_ip_text = text.as_slice();
    let ghost hop0 = value@.subrange(0, hop_end as int);
    let mut hop: Vec<u8> = Vec::new();
    push_range(&mut hop, value, 0, hop_end);
    let asked = match &via.rport {
        Some(None) => true,
        _ => false,
    };
    let mut changed = false;
    if asked {
        let rport = [114u8, 112u8, 111u8, 114u8, 116u8];
        proof {
            assert(rport@ =~= rport_name());
        }
        match param_span(hop.as_slice(), &rport) {
            Some((start, end)) => {
                let mut next: Vec<u8> = Vec::new();
                push_range(&mut next, hop.as_slice(), 0, start);
                let prefix = [59u8, 114u8, 112u8, 111u8, 114u8, 116u8, 61u8];
                push_all(&mut next, &prefix);
                push_decimal(&mut next, source.port as u64);
                push_range(&mut next, hop.as_slice(), end, hop.len());
                proof {
                    assert(prefix@ =~= rport_prefix());
                    assert(next@ =~= answer_rport(hop0, *via, source.port).0);
                }
                hop = next;
                changed = true;
            },
            None => {},
        }
    }
    proof {
        assert(hop@ =~= answer_rport(hop0, *via, source.port).0);
        assert(changed == answer_rport(hop0, *via, source.port).1);
    }
    let ghost hop1 = hop@;
    let matches = match &via.host {
        Host::Ip(ip) => ip_eq(ip, &source.ip),
        Host::Name(_) => false,
    };
    let mut added = false;
    if (asked || !matches) && via.received.is_none() {
        let branch = [98u8, 114u8, 97u8, 110u8, 99u8, 104u8];
        proof {
            assert(branch@ =~= branch_name());
        }
        let at = match param_span(hop.as_slice(), &branch) {
            Some((start, _)) => start,
            None => hop.len(),
        };
        let mut next: Vec<u8> = Vec::new();
        push_range(&mut next, hop.as_slice(), 0, at);
        let prefix = [59u8, 114u8, 101u8, 99u8, 101u8, 105u8, 118u8, 101u8, 100u8, 61u8];
        push_all(&mut next, &prefix);
        push_all(&mut next, source_ip_text);
        push_range(&mut next, hop.as_slice(), at, hop.len());
        proof {
            assert(prefix@ =~= received_prefix());
            assert(next@ =~= add_received(hop1, *via, source, source_ip_text@).0);
        }
        hop = next;
        added = true;
    }
    proof {
        assert(hop@ =~= add_received(hop1, *via, source, source_ip_text@).0);
        assert(added == add_received(hop1, *via, source, source_ip_text@).1);
    }
    if !changed && !added {
        return None;
    }
    let ghost h2 = hop@;
    push_range(&mut hop, value, hop_end, value.len());
    proof {
        assert(hop@ =~= h2 + value@.subrange(hop_end as int, value@.len() as int));
    }
    Some(hop)
}

/// Only the topmost hop is touched: everything after it goes back out exactly as it arrived.
pub proof fn only_the_topmost_hop_changes(
    value: Seq<u8>,
    hop_end: int,
    via: ViaHop,
    source: SocketAddress,
)
    requires
        0 <= hop_end <= value.len(),
    ensures
        rewritten_via(value, hop_end, via, source) matches Some(v) ==> v.len() >= value.len()
            - hop_end && v.skip(v.len() - (value.len() - hop_end)) == value.skip(hop_end),
{
    if let Some(v) = rewritten_via(value, hop_end, via, source) {
        let (h1, c1) = answer_rport(value.subrange(0, hop_end), via, source.port);
        let (h2, c2) = add_received(h1, via, source, ip_text_spec(source.ip));
        let tail = value.subrange(hop_end, value.len() as int);
        assert(v == h2 + tail);
        assert((h2 + tail).skip(h2.len() as int) =~= tail);
        assert(tail =~= value.skip(hop_end));
    }
}

} // verus!
