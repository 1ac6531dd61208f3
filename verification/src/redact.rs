//! Removing the secrets from a captured SIP message.
//!
//! A capture is written to be handed to someone outside the trust boundary it was recorded in,
//! so redaction removes the secrets that would still be valid in another person's hands: digest
//! responses, SRTP master keys, push tokens, instance URNs. It keeps identity — `To`, `From`, the
//! SDP addresses — which is what makes a capture diagnosable.
//!
//! Redaction reads bytes rather than a parsed message, because a datagram is captured before it
//! is parsed and a credential turns up exactly where the parser would refuse. So:
//!
//! 1. Lines are split on CRLF, bare LF or bare CR.
//! 2. A header and its continuation lines are unfolded into one logical header first.
//! 3. A header's name is the bytes before its first colon, trailing whitespace trimmed.
//! 4. A line whose name cannot be determined is redacted conservatively rather than skipped.
//!
//! Header values shrink or grow as they are rewritten; body lines keep their exact length,
//! because `Content-Length` counts them.

use vstd::prelude::*;
use crate::text::{
    bytes_eq, copy_range, find_ci, find_ci_exec, find_exact, find_exact_exec, first_index_of,
    is_ascii_ws, is_wsp, lower, matches_ci_at_exec,
    lemma_first_index_absent, lemma_first_index_of, lower_seq, lowercase, matches_at, matches_ci_at, position_of,
    push_all, push_range, skip_ascii_ws, skip_ascii_ws_exec, trim_end, trim_start,
    trimmed_end_len,
};

verus! {

// ---------------------------------------------------------------------------------------------
// The names and tokens redaction looks for
// ---------------------------------------------------------------------------------------------

/// `REDACTED`, what a removed value is replaced with.
pub open spec fn redaction() -> Seq<u8> {
    seq![82u8, 69u8, 68u8, 65u8, 67u8, 84u8, 69u8, 68u8]
}

/// Header parameters whose values are live credentials, in the order they are removed.
///
/// RFC 7616 §3.4's digest `response`, §3.5's `nextnonce` and `rspauth`, RFC 8599's push
/// `pn-prid` and `pn-param`, and RFC 5626's `+sip.instance`.
pub open spec fn redacted_param(i: int) -> Seq<u8> {
    if i == 0 {
        seq![114u8, 101u8, 115u8, 112u8, 111u8, 110u8, 115u8, 101u8]
    } else if i == 1 {
        seq![110u8, 101u8, 120u8, 116u8, 110u8, 111u8, 110u8, 99u8, 101u8]
    } else if i == 2 {
        seq![114u8, 115u8, 112u8, 97u8, 117u8, 116u8, 104u8]
    } else if i == 3 {
        seq![112u8, 110u8, 45u8, 112u8, 114u8, 105u8, 100u8]
    } else if i == 4 {
        seq![112u8, 110u8, 45u8, 112u8, 97u8, 114u8, 97u8, 109u8]
    } else {
        seq![43u8, 115u8, 105u8, 112u8, 46u8, 105u8, 110u8, 115u8, 116u8, 97u8, 110u8, 99u8, 101u8]
    }
}

/// How many credential parameters there are.
pub open spec fn redacted_param_count() -> int {
    6
}

/// Headers whose value is an authentication credential (lowercase).
pub open spec fn is_auth_header(name: Seq<u8>) -> bool {
    ||| name == seq![97u8, 117u8, 116u8, 104u8, 111u8, 114u8, 105u8, 122u8, 97u8, 116u8, 105u8, 111u8, 110u8]
    ||| name == seq![
        112u8,
        114u8,
        111u8,
        120u8,
        121u8,
        45u8,
        97u8,
        117u8,
        116u8,
        104u8,
        111u8,
        114u8,
        105u8,
        122u8,
        97u8,
        116u8,
        105u8,
        111u8,
        110u8,
    ]
    ||| name == seq![
        97u8,
        117u8,
        116u8,
        104u8,
        101u8,
        110u8,
        116u8,
        105u8,
        99u8,
        97u8,
        116u8,
        105u8,
        111u8,
        110u8,
        45u8,
        105u8,
        110u8,
        102u8,
        111u8,
    ]
    ||| name == seq![
        112u8,
        114u8,
        111u8,
        120u8,
        121u8,
        45u8,
        97u8,
        117u8,
        116u8,
        104u8,
        101u8,
        110u8,
        116u8,
        105u8,
        99u8,
        97u8,
        116u8,
        101u8,
    ]
    ||| name == seq![
        119u8,
        119u8,
        119u8,
        45u8,
        97u8,
        117u8,
        116u8,
        104u8,
        101u8,
        110u8,
        116u8,
        105u8,
        99u8,
        97u8,
        116u8,
        101u8,
    ]
}

/// Headers that carry credential parameters without a scheme; `m` is `Contact`'s compact form.
pub open spec fn is_contact_header(name: Seq<u8>) -> bool {
    name == seq![99u8, 111u8, 110u8, 116u8, 97u8, 99u8, 116u8] || name == seq![109u8]
}

/// Schemes whose credential is one opaque token (RFC 8898 `Bearer`, and `Basic`).
pub open spec fn is_opaque_scheme(scheme: Seq<u8>) -> bool {
    scheme == seq![98u8, 101u8, 97u8, 114u8, 101u8, 114u8] || scheme == seq![98u8, 97u8, 115u8, 105u8, 99u8]
}

fn redaction_bytes() -> (r: Vec<u8>)
    ensures
        r@ == redaction(),
{
    let r = vec![82u8, 69u8, 68u8, 65u8, 67u8, 84u8, 69u8, 68u8];
    assert(r@ =~= redaction());
    r
}

fn redacted_param_bytes(i: usize) -> (r: Vec<u8>)
    requires
        i < 6,
    ensures
        r@ == redacted_param(i as int),
{
    let r = if i == 0 {
        vec![114u8, 101u8, 115u8, 112u8, 111u8, 110u8, 115u8, 101u8]
    } else if i == 1 {
        vec![110u8, 101u8, 120u8, 116u8, 110u8, 111u8, 110u8, 99u8, 101u8]
    } else if i == 2 {
        vec![114u8, 115u8, 112u8, 97u8, 117u8, 116u8, 104u8]
    } else if i == 3 {
        vec![112u8, 110u8, 45u8, 112u8, 114u8, 105u8, 100u8]
    } else if i == 4 {
        vec![112u8, 110u8, 45u8, 112u8, 97u8, 114u8, 97u8, 109u8]
    } else {
        vec![43u8, 115u8, 105u8, 112u8, 46u8, 105u8, 110u8, 115u8, 116u8, 97u8, 110u8, 99u8, 101u8]
    };
    assert(r@ =~= redacted_param(i as int));
    r
}

fn is_auth_header_exec(name: &[u8]) -> (r: bool)
    ensures
        r == is_auth_header(name@),
{
    let a = vec![97u8, 117u8, 116u8, 104u8, 111u8, 114u8, 105u8, 122u8, 97u8, 116u8, 105u8, 111u8, 110u8];
    let b = vec![
        112u8,
        114u8,
        111u8,
        120u8,
        121u8,
        45u8,
        97u8,
        117u8,
        116u8,
        104u8,
        111u8,
        114u8,
        105u8,
        122u8,
        97u8,
        116u8,
        105u8,
        111u8,
        110u8,
    ];
    let c = vec![
        97u8,
        117u8,
        116u8,
        104u8,
        101u8,
        110u8,
        116u8,
        105u8,
        99u8,
        97u8,
        116u8,
        105u8,
        111u8,
        110u8,
        45u8,
        105u8,
        110u8,
        102u8,
        111u8,
    ];
    let d = vec![
        112u8,
        114u8,
        111u8,
        120u8,
        121u8,
        45u8,
        97u8,
        117u8,
        116u8,
        104u8,
        101u8,
        110u8,
        116u8,
        105u8,
        99u8,
        97u8,
        116u8,
        101u8,
    ];
    let e = vec![
        119u8,
        119u8,
        119u8,
        45u8,
        97u8,
        117u8,
        116u8,
        104u8,
        101u8,
        110u8,
        116u8,
        105u8,
        99u8,
        97u8,
        116u8,
        101u8,
    ];
    proof {
        assert(a@ =~= seq![97u8, 117u8, 116u8, 104u8, 111u8, 114u8, 105u8, 122u8, 97u8, 116u8, 105u8, 111u8, 110u8]);
        assert(b@ =~= seq![
            112u8,
            114u8,
            111u8,
            120u8,
            121u8,
            45u8,
            97u8,
            117u8,
            116u8,
            104u8,
            111u8,
            114u8,
            105u8,
            122u8,
            97u8,
            116u8,
            105u8,
            111u8,
            110u8,
        ]);
        assert(c@ =~= seq![
            97u8,
            117u8,
            116u8,
            104u8,
            101u8,
            110u8,
            116u8,
            105u8,
            99u8,
            97u8,
            116u8,
            105u8,
            111u8,
            110u8,
            45u8,
            105u8,
            110u8,
            102u8,
            111u8,
        ]);
        assert(d@ =~= seq![
            112u8,
            114u8,
            111u8,
            120u8,
            121u8,
            45u8,
            97u8,
            117u8,
            116u8,
            104u8,
            101u8,
            110u8,
            116u8,
            105u8,
            99u8,
            97u8,
            116u8,
            101u8,
        ]);
        assert(e@ =~= seq![
            119u8,
            119u8,
            119u8,
            45u8,
            97u8,
            117u8,
            116u8,
            104u8,
            101u8,
            110u8,
            116u8,
            105u8,
            99u8,
            97u8,
            116u8,
            101u8,
        ]);
    }
    bytes_eq(name, a.as_slice()) || bytes_eq(name, b.as_slice()) || bytes_eq(name, c.as_slice())
        || bytes_eq(name, d.as_slice()) || bytes_eq(name, e.as_slice())
}

fn is_contact_header_exec(name: &[u8]) -> (r: bool)
    ensures
        r == is_contact_header(name@),
{
    let a = vec![99u8, 111u8, 110u8, 116u8, 97u8, 99u8, 116u8];
    let b = vec![109u8];
    assert(a@ =~= seq![99u8, 111u8, 110u8, 116u8, 97u8, 99u8, 116u8]);
    assert(b@ =~= seq![109u8]);
    bytes_eq(name, a.as_slice()) || bytes_eq(name, b.as_slice())
}

fn is_opaque_scheme_exec(scheme: &[u8]) -> (r: bool)
    ensures
        r == is_opaque_scheme(scheme@),
{
    let a = vec![98u8, 101u8, 97u8, 114u8, 101u8, 114u8];
    let b = vec![98u8, 97u8, 115u8, 105u8, 99u8];
    assert(a@ =~= seq![98u8, 101u8, 97u8, 114u8, 101u8, 114u8]);
    assert(b@ =~= seq![98u8, 97u8, 115u8, 105u8, 99u8]);
    bytes_eq(scheme, a.as_slice()) || bytes_eq(scheme, b.as_slice())
}

// ---------------------------------------------------------------------------------------------
// Replacing one parameter value
// ---------------------------------------------------------------------------------------------

/// What a redacted value of `width` bytes becomes. In a header it is `REDACTED`; where the
/// length must be kept it is `REDACTED` cut or padded with `X` to exactly `width` bytes.
pub open spec fn replacement(width: nat, preserve_len: bool) -> Seq<u8> {
    if !preserve_len {
        redaction()
    } else if width <= 8 {
        redaction().take(width as int)
    } else {
        redaction() + Seq::new((width - 8) as nat, |_i: int| 88u8)
    }
}

/// A length-preserving replacement has exactly the width it replaces.
pub proof fn lemma_replacement_len(width: nat)
    ensures
        replacement(width, true).len() == width,
{
}

fn replacement_exec(width: usize, preserve_len: bool) -> (r: Vec<u8>)
    ensures
        r@ == replacement(width as nat, preserve_len),
{
    let red = redaction_bytes();
    if !preserve_len {
        return red;
    }
    let mut out: Vec<u8> = Vec::new();
    let k = if width < 8 {
        width
    } else {
        8
    };
    push_range(&mut out, red.as_slice(), 0, k);
    while out.len() < width
        invariant
            k <= width,
            k <= out@.len() <= width,
            out@.subrange(0, k as int) == redaction().take(k as int),
            forall|i: int| k <= i < out@.len() ==> out@[i] == 88u8,
        decreases width - out.len(),
    {
        let ghost before = out@;
        out.push(88u8);
        proof {
            assert(out@.subrange(0, k as int) =~= before.subrange(0, k as int));
        }
    }
    proof {
        if width <= 8 {
            assert(out@ =~= redaction().take(width as int));
        } else {
            let want = redaction() + Seq::new((width - 8) as nat, |_i: int| 88u8);
            assert forall|i: int| 0 <= i < out@.len() implies out@[i] == want[i] by {
                if i < 8 {
                    assert(out@[i] == out@.subrange(0, 8)[i]);
                }
            }
            assert(out@ =~= want);
        }
    }
    out
}

/// A byte that may precede a parameter name: a separator, whitespace, a quote or `=`.
pub open spec fn may_precede_param(b: u8) -> bool {
    b == 44u8 || b == 59u8 || b == 32u8 || b == 9u8 || b == 34u8 || b == 61u8
}

/// A byte that ends an unquoted parameter value.
pub open spec fn ends_token(b: u8) -> bool {
    b == 44u8 || b == 59u8 || b == 32u8 || b == 9u8
}

/// Where a value starting at `end` stops: at the closing quote of a quoted value (a
/// backslash escapes the byte after it), at a separator or whitespace for an unquoted one, or
/// at the end of the line.
pub open spec fn value_end(line: Seq<u8>, end: int, quoted: bool) -> int
    decreases line.len() - end,
{
    if end < 0 || end >= line.len() {
        end
    } else if quoted {
        if line[end] == 92u8 && end + 1 < line.len() {
            value_end(line, end + 2, quoted)
        } else if line[end] == 34u8 {
            end
        } else {
            value_end(line, end + 1, quoted)
        }
    } else if ends_token(line[end]) {
        end
    } else {
        value_end(line, end + 1, quoted)
    }
}

/// A value never ends before it starts, nor past the line.
pub proof fn lemma_value_end(line: Seq<u8>, end: int, quoted: bool)
    requires
        0 <= end <= line.len(),
    ensures
        end <= value_end(line, end, quoted) <= line.len(),
    decreases line.len() - end,
{
    if end < line.len() {
        if quoted {
            if line[end] == 92u8 && end + 1 < line.len() {
                lemma_value_end(line, end + 2, quoted);
            } else if line[end] != 34u8 {
                lemma_value_end(line, end + 1, quoted);
            }
        } else if !ends_token(line[end]) {
            lemma_value_end(line, end + 1, quoted);
        }
    }
}

/// Whitespace skipping never moves backwards nor past the line.
pub proof fn lemma_skip_ascii_ws(s: Seq<u8>, from: int)
    requires
        0 <= from <= s.len(),
    ensures
        from <= skip_ascii_ws(s, from) <= s.len(),
        forall|i: int| from <= i < skip_ascii_ws(s, from) ==> is_ascii_ws(#[trigger] s[i]),
        skip_ascii_ws(s, from) < s.len() ==> !is_ascii_ws(s[skip_ascii_ws(s, from)]),
    decreases s.len() - from,
{
    if from < s.len() && is_ascii_ws(s[from]) {
        lemma_skip_ascii_ws(s, from + 1);
    }
}

/// A case-insensitive search finds nothing before where it starts, and a match that fits.
pub proof fn lemma_find_ci(h: Seq<u8>, n: Seq<u8>, from: int)
    ensures
        find_ci(h, n, from) matches Some(at) ==> from <= at && matches_ci_at(h, n, at) && n.len()
            > 0,
    decreases h.len() - from,
{
    if !(n.len() == 0 || from < 0 || from + n.len() > h.len()) && !matches_ci_at(h, n, from) {
        lemma_find_ci(h, n, from + 1);
    }
}

/// An exact search finds nothing before where it starts, and a match that fits.
pub proof fn lemma_find_exact(h: Seq<u8>, n: Seq<u8>, from: int)
    ensures
        find_exact(h, n, from) matches Some(at) ==> from <= at && matches_at(h, n, at) && n.len()
            > 0,
    decreases h.len() - from,
{
    if !(n.len() == 0 || from < 0 || from + n.len() > h.len()) && !matches_at(h, n, from) {
        lemma_find_exact(h, n, from + 1);
    }
}

/// Every credential parameter named `name` on `line` at or after `from`, in order, has its value
/// replaced; a value that is empty or already a replacement is left alone. Returns the line and
/// whether anything was replaced.
///
/// One left-to-right pass: a replacement never creates or removes an earlier match, so rescanning
/// from the start after each replacement would find the same ones.
pub open spec fn param_pass(line: Seq<u8>, name: Seq<u8>, preserve_len: bool, from: int) -> (
    Seq<u8>,
    bool,
)
    decreases line.len() - from,
{
    match find_ci(line, name, from) {
        None => (line, false),
        Some(at) => {
            proof {
                lemma_find_ci(line, name, from);
            }
            let before_ok = at == 0 || may_precede_param(line[at - 1]);
            let c1 = skip_ascii_ws(line, at + name.len());
            if !before_ok || !(c1 < line.len() && line[c1] == 61u8) {
                param_pass(line, name, preserve_len, at + 1)
            } else {
                proof {
                    lemma_skip_ascii_ws(line, at + name.len());
                    lemma_skip_ascii_ws(line, c1 + 1);
                }
                let c2 = skip_ascii_ws(line, c1 + 1);
                let quoted = c2 < line.len() && line[c2] == 34u8;
                let vs = if quoted {
                    c2 + 1
                } else {
                    c2
                };
                proof {
                    lemma_value_end(line, vs, quoted);
                }
                let ve = value_end(line, vs, quoted);
                let value = line.subrange(vs, ve);
                if value.len() == 0 || value == replacement(value.len(), preserve_len) {
                    param_pass(
                        line,
                        name,
                        preserve_len,
                        if ve > at + 1 {
                            ve
                        } else {
                            at + 1
                        },
                    )
                } else {
                    let r = replacement(value.len(), preserve_len);
                    let next = line.subrange(0, vs) + r + line.subrange(ve, line.len() as int);
                    (param_pass(next, name, preserve_len, vs + r.len()).0, true)
                }
            }
        },
    }
}

/// Every credential parameter, each name in turn, from the `i`th.
pub open spec fn params_from(line: Seq<u8>, preserve_len: bool, i: int) -> (Seq<u8>, bool)
    decreases redacted_param_count() - i,
{
    if i >= redacted_param_count() || i < 0 {
        (line, false)
    } else {
        let (once, changed) = param_pass(line, redacted_param(i), preserve_len, 0);
        let (rest, more) = params_from(once, preserve_len, i + 1);
        (rest, changed || more)
    }
}

/// The line with every credential parameter replaced, or nothing if there was none.
pub open spec fn redact_params_spec(line: Seq<u8>, preserve_len: bool) -> Option<Seq<u8>> {
    let (out, changed) = params_from(line, preserve_len, 0);
    if changed {
        Some(out)
    } else {
        None
    }
}

/// A length-preserving pass keeps the line's length.
pub proof fn lemma_param_pass_len(line: Seq<u8>, name: Seq<u8>, from: int)
    ensures
        param_pass(line, name, true, from).0.len() == line.len(),
    decreases line.len() - from,
{
    match find_ci(line, name, from) {
        None => {},
        Some(at) => {
            lemma_find_ci(line, name, from);
            let before_ok = at == 0 || may_precede_param(line[at - 1]);
            let c1 = skip_ascii_ws(line, at + name.len());
            if !before_ok || !(c1 < line.len() && line[c1] == 61u8) {
                lemma_param_pass_len(line, name, at + 1);
            } else {
                lemma_skip_ascii_ws(line, at + name.len());
                lemma_skip_ascii_ws(line, c1 + 1);
                let c2 = skip_ascii_ws(line, c1 + 1);
                let quoted = c2 < line.len() && line[c2] == 34u8;
                let vs = if quoted {
                    c2 + 1
                } else {
                    c2
                };
                lemma_value_end(line, vs, quoted);
                let ve = value_end(line, vs, quoted);
                let value = line.subrange(vs, ve);
                if value.len() == 0 || value == replacement(value.len(), true) {
                    lemma_param_pass_len(
                        line,
                        name,
                        if ve > at + 1 {
                            ve
                        } else {
                            at + 1
                        },
                    );
                } else {
                    let r = replacement(value.len(), true);
                    lemma_replacement_len(value.len());
                    let next = line.subrange(0, vs) + r + line.subrange(ve, line.len() as int);
                    lemma_param_pass_len(next, name, vs + r.len());
                }
            }
        },
    }
}

/// A length-preserving redaction of every parameter keeps the line's length.
pub proof fn lemma_params_from_len(line: Seq<u8>, i: int)
    ensures
        params_from(line, true, i).0.len() == line.len(),
    decreases redacted_param_count() - i,
{
    if !(i >= redacted_param_count() || i < 0) {
        lemma_param_pass_len(line, redacted_param(i), 0);
        let (once, _) = param_pass(line, redacted_param(i), true, 0);
        lemma_params_from_len(once, i + 1);
    }
}

/// The bytes at or after `from` that are ASCII whitespace, skipped.
fn skip_ws_vec(line: &Vec<u8>, from: usize) -> (r: usize)
    requires
        from <= line@.len(),
    ensures
        r == skip_ascii_ws(line@, from as int),
        from <= r <= line@.len(),
{
    skip_ascii_ws_exec(line.as_slice(), from)
}

fn value_end_exec(line: &Vec<u8>, start: usize, quoted: bool) -> (r: usize)
    requires
        start <= line@.len(),
    ensures
        r == value_end(line@, start as int, quoted),
        start <= r <= line@.len(),
{
    let mut end = start;
    let mut done = false;
    proof {
        lemma_value_end(line@, start as int, quoted);
    }
    while !done && end < line.len()
        invariant
            start <= end <= line@.len(),
            value_end(line@, start as int, quoted) == value_end(line@, end as int, quoted),
            done ==> value_end(line@, end as int, quoted) == end,
        decreases line.len() - end, (if done { 0int } else { 1int }),
    {
        let byte = line[end];
        if quoted {
            if byte == 92u8 && end + 1 < line.len() {
                end = end + 2;
            } else if byte == 34u8 {
                done = true;
            } else {
                end = end + 1;
            }
        } else if byte == 44u8 || byte == 59u8 || byte == 32u8 || byte == 9u8 {
            done = true;
        } else {
            end = end + 1;
        }
    }
    end
}

/// One pass of [`param_pass`] over `line` for `name`.
fn redact_param_pass(input: Vec<u8>, name: &[u8], preserve_len: bool) -> (r: (Vec<u8>, bool))
    ensures
        (r.0@, r.1) == param_pass(input@, name@, preserve_len, 0),
{
    let ghost goal = param_pass(input@, name@, preserve_len, 0);
    let mut line = input;
    let mut from: usize = 0;
    let mut changed = false;
    loop
        invariant
            from <= line@.len() + 1,
            goal == param_pass(input@, name@, preserve_len, 0),
            goal == (param_pass(line@, name@, preserve_len, from as int).0, changed
                || param_pass(line@, name@, preserve_len, from as int).1),
        decreases line@.len() + 1 - from,
    {
        let found = find_ci_exec(line.as_slice(), name, from);
        proof {
            lemma_find_ci(line@, name@, from as int);
        }
        match found {
            None => {
                assert(param_pass(line@, name@, preserve_len, from as int) == (line@, false));
                assert(goal == (line@, changed));
                return (line, changed);
            },
            Some(at) => {
                assert(at + name@.len() <= line.len());
                let before_ok = at == 0 || {
                    let b = line[at - 1];
                    b == 44u8 || b == 59u8 || b == 32u8 || b == 9u8 || b == 34u8 || b == 61u8
                };
                let c1 = skip_ws_vec(&line, at + name.len());
                if !before_ok || !(c1 < line.len() && line[c1] == 61u8) {
                    from = at + 1;
                    continue;
                }
                let c2 = skip_ws_vec(&line, c1 + 1);
                let quoted = c2 < line.len() && line[c2] == 34u8;
                let vs = if quoted {
                    c2 + 1
                } else {
                    c2
                };
                let ve = value_end_exec(&line, vs, quoted);
                let value = copy_range(line.as_slice(), vs, ve);
                let width = ve - vs;
                let r = replacement_exec(width, preserve_len);
                if width == 0 || bytes_eq(value.as_slice(), r.as_slice()) {
                    from = if ve > at + 1 {
                        ve
                    } else {
                        at + 1
                    };
                    continue;
                }
                let mut next: Vec<u8> = Vec::new();
                push_range(&mut next, line.as_slice(), 0, vs);
                push_all(&mut next, r.as_slice());
                push_range(&mut next, line.as_slice(), ve, line.len());
                proof {
                    assert(next@ =~= line@.subrange(0, vs as int) + r@ + line@.subrange(
                        ve as int,
                        line@.len() as int,
                    ));
                }
                let rl = r.len();
                assert(vs + rl <= next.len());
                from = vs + rl;
                line = next;
                changed = true;
            },
        }
    }
}

/// Replace every credential parameter on a line.
///
/// `preserve_len` keeps each replacement the same width as what it replaced, which a body line
/// needs and a header does not.
fn redact_params(line: &[u8], preserve_len: bool) -> (r: Option<Vec<u8>>)
    ensures
        r matches Some(v) ==> redact_params_spec(line@, preserve_len) == Some(v@),
        r is None ==> redact_params_spec(line@, preserve_len) is None,
{
    let mut out = copy_range(line, 0, line.len());
    proof {
        assert(line@.subrange(0, line@.len() as int) == line@);
    }
    let mut changed = false;
    let mut i: usize = 0;
    while i < 6
        invariant
            i <= 6,
            params_from(line@, preserve_len, 0) == (params_from(out@, preserve_len, i as int).0,
            changed || params_from(out@, preserve_len, i as int).1),
        decreases 6 - i,
    {
        let name = redacted_param_bytes(i);
        let (next, did) = redact_param_pass(out, name.as_slice(), preserve_len);
        out = next;
        changed = changed || did;
        i = i + 1;
    }
    if changed {
        Some(out)
    } else {
        None
    }
}

// ---------------------------------------------------------------------------------------------
// Header lines
// ---------------------------------------------------------------------------------------------

/// A header's name, lowercased: the bytes before its first colon with trailing whitespace
/// trimmed. Nothing when there is no colon.
pub open spec fn header_name(line: Seq<u8>) -> Option<Seq<u8>> {
    match first_index_of(line, 58u8) {
        None => None,
        Some(at) => Some(lower_seq(trim_end(line.take(at)))),
    }
}

/// The first index at or after `from` that is not a space or tab, or the line's length.
pub open spec fn skip_wsp(s: Seq<u8>, from: int) -> int
    decreases s.len() - from,
{
    if from < 0 || from >= s.len() {
        from
    } else if is_wsp(s[from]) {
        skip_wsp(s, from + 1)
    } else {
        from
    }
}

/// The first index at or after `from` that is a space or tab, or the line's length.
pub open spec fn find_wsp(s: Seq<u8>, from: int) -> int
    decreases s.len() - from,
{
    if from < 0 || from >= s.len() {
        from
    } else if is_wsp(s[from]) {
        from
    } else {
        find_wsp(s, from + 1)
    }
}

/// Whether any byte of `s` is not ASCII whitespace.
pub open spec fn has_non_ws(s: Seq<u8>) -> bool {
    exists|i: int| 0 <= i < s.len() && !is_ascii_ws(#[trigger] s[i])
}

/// Redact an authentication header, whichever shape its scheme gives it.
///
/// The scheme is the first token of the value. For `Bearer`, `Basic`, or any scheme whose
/// credential carries no `=`, the credential is one opaque token and everything after the scheme
/// becomes ` REDACTED`; otherwise the credential parameters are replaced.
pub open spec fn redact_auth_header_spec(line: Seq<u8>) -> Option<Seq<u8>> {
    match first_index_of(line, 58u8) {
        None => None,
        Some(colon) => {
            let lead = skip_wsp(line, colon + 1);
            let rest_at = find_wsp(line, lead);
            let scheme = lower_seq(line.subrange(lead, rest_at));
            let rest = line.subrange(rest_at, line.len() as int);
            let opaque = is_opaque_scheme(scheme) || (scheme.len() > 0 && has_non_ws(rest)
                && !rest.contains(61u8));
            if opaque {
                Some(line.take(rest_at) + seq![32u8] + redaction())
            } else {
                redact_params_spec(line, false)
            }
        },
    }
}

/// Redact one logical header line, if it is one that can carry a secret. A line with no colon
/// has no name to go on and is redacted conservatively.
pub open spec fn redact_header_spec(line: Seq<u8>) -> Option<Seq<u8>> {
    match header_name(line) {
        Some(name) => if is_auth_header(name) {
            redact_auth_header_spec(line)
        } else if is_contact_header(name) {
            redact_params_spec(line, false)
        } else {
            None
        },
        None => redact_params_spec(line, false),
    }
}

proof fn lemma_skip_wsp(s: Seq<u8>, from: int)
    requires
        0 <= from <= s.len(),
    ensures
        from <= skip_wsp(s, from) <= s.len(),
    decreases s.len() - from,
{
    if from < s.len() && is_wsp(s[from]) {
        lemma_skip_wsp(s, from + 1);
    }
}

proof fn lemma_find_wsp(s: Seq<u8>, from: int)
    requires
        0 <= from <= s.len(),
    ensures
        from <= find_wsp(s, from) <= s.len(),
    decreases s.len() - from,
{
    if from < s.len() && !is_wsp(s[from]) {
        lemma_find_wsp(s, from + 1);
    }
}

fn skip_wsp_exec(s: &[u8], from: usize) -> (r: usize)
    requires
        from <= s@.len(),
    ensures
        r == skip_wsp(s@, from as int),
        from <= r <= s@.len(),
{
    let mut i = from;
    while i < s.len() && (s[i] == 32u8 || s[i] == 9u8)
        invariant
            from <= i <= s@.len(),
            skip_wsp(s@, from as int) == skip_wsp(s@, i as int),
        decreases s.len() - i,
    {
        i = i + 1;
    }
    i
}

fn find_wsp_exec(s: &[u8], from: usize) -> (r: usize)
    requires
        from <= s@.len(),
    ensures
        r == find_wsp(s@, from as int),
        from <= r <= s@.len(),
{
    let mut i = from;
    while i < s.len() && !(s[i] == 32u8 || s[i] == 9u8)
        invariant
            from <= i <= s@.len(),
            find_wsp(s@, from as int) == find_wsp(s@, i as int),
        decreases s.len() - i,
    {
        i = i + 1;
    }
    i
}

fn has_non_ws_exec(s: &[u8], from: usize) -> (r: bool)
    requires
        from <= s@.len(),
    ensures
        r == has_non_ws(s@.subrange(from as int, s@.len() as int)),
{
    let ghost rest = s@.subrange(from as int, s@.len() as int);
    let mut i = from;
    while i < s.len()
        invariant
            from <= i <= s@.len(),
            rest == s@.subrange(from as int, s@.len() as int),
            forall|j: int| from <= j < i ==> is_ascii_ws(s@[j]),
        decreases s.len() - i,
    {
        let b = s[i];
        if !(b == 32u8 || b == 9u8 || b == 10u8 || b == 12u8 || b == 13u8) {
            assert(!is_ascii_ws(rest[i - from]));
            return true;
        }
        i = i + 1;
    }
    assert forall|j: int| 0 <= j < rest.len() implies is_ascii_ws(#[trigger] rest[j]) by {
        assert(rest[j] == s@[j + from]);
    }
    false
}

fn contains_from(s: &[u8], from: usize, b: u8) -> (r: bool)
    requires
        from <= s@.len(),
    ensures
        r == s@.subrange(from as int, s@.len() as int).contains(b),
{
    let ghost rest = s@.subrange(from as int, s@.len() as int);
    let mut i = from;
    while i < s.len()
        invariant
            from <= i <= s@.len(),
            rest == s@.subrange(from as int, s@.len() as int),
            forall|j: int| from <= j < i ==> s@[j] != b,
        decreases s.len() - i,
    {
        if s[i] == b {
            assert(rest[i - from] == b);
            return true;
        }
        i = i + 1;
    }
    assert forall|j: int| 0 <= j < rest.len() implies rest[j] != b by {
        assert(rest[j] == s@[j + from]);
    }
    false
}

/// The length of `s[..at]` once trailing whitespace is trimmed.
fn trimmed_end_len_exec(s: &[u8], at: usize) -> (r: usize)
    requires
        at <= s@.len(),
    ensures
        r == trimmed_end_len(s@.take(at as int)),
        r <= at,
{
    let mut n = at;
    while n > 0 && (s[n - 1] == 32u8 || s[n - 1] == 9u8 || s[n - 1] == 10u8 || s[n - 1] == 12u8
        || s[n - 1] == 13u8)
        invariant
            n <= at <= s@.len(),
            trimmed_end_len(s@.take(at as int)) == trimmed_end_len(s@.take(n as int)),
        decreases n,
    {
        proof {
            assert(s@.take(n as int).drop_last() =~= s@.take(n - 1));
        }
        n = n - 1;
    }
    proof {
        if n > 0 {
            assert(s@.take(n as int).last() == s@[n - 1]);
        }
    }
    n
}

/// A header's name, lowercased, if the line has a colon.
fn header_name_exec(line: &[u8]) -> (r: Option<Vec<u8>>)
    ensures
        r matches Some(v) ==> header_name(line@) == Some(v@),
        r is None ==> header_name(line@) is None,
{
    match position_of(line, 58u8) {
        None => None,
        Some(at) => {
            proof {
                lemma_first_index_absent(line@, 58u8);
            }
            let n = trimmed_end_len_exec(line, at);
            let name = copy_range(line, 0, n);
            proof {
                assert(name@ =~= trim_end(line@.take(at as int)));
            }
            Some(lowercase(name.as_slice()))
        },
    }
}

/// Redact an authentication header.
fn redact_auth_header(line: &[u8]) -> (r: Option<Vec<u8>>)
    ensures
        r matches Some(v) ==> redact_auth_header_spec(line@) == Some(v@),
        r is None ==> redact_auth_header_spec(line@) is None,
{
    let colon = match position_of(line, 58u8) {
        None => {
            return None;
        },
        Some(c) => c,
    };
    proof {
        lemma_first_index_absent(line@, 58u8);
    }
    assert(colon < line.len());
    let lead = skip_wsp_exec(line, colon + 1);
    let rest_at = find_wsp_exec(line, lead);
    let token = copy_range(line, lead, rest_at);
    let scheme = lowercase(token.as_slice());
    let opaque = is_opaque_scheme_exec(scheme.as_slice()) || (scheme.len() > 0 && has_non_ws_exec(
        line,
        rest_at,
    ) && !contains_from(line, rest_at, 61u8));
    if opaque {
        let mut out = copy_range(line, 0, rest_at);
        out.push(32u8);
        let red = redaction_bytes();
        push_all(&mut out, red.as_slice());
        proof {
            assert(out@ =~= line@.take(rest_at as int) + seq![32u8] + redaction());
        }
        Some(out)
    } else {
        redact_params(line, false)
    }
}

/// Redact one logical header line, if it is one that can carry a secret.
fn redact_header(line: &[u8]) -> (r: Option<Vec<u8>>)
    ensures
        r matches Some(v) ==> redact_header_spec(line@) == Some(v@),
        r is None ==> redact_header_spec(line@) is None,
{
    match header_name_exec(line) {
        Some(name) => {
            if is_auth_header_exec(name.as_slice()) {
                redact_auth_header(line)
            } else if is_contact_header_exec(name.as_slice()) {
                redact_params(line, false)
            } else {
                None
            }
        },
        None => redact_params(line, false),
    }
}

// ---------------------------------------------------------------------------------------------
// Body lines, which keep their length
// ---------------------------------------------------------------------------------------------

/// `a=crypto:`, the SDES attribute (RFC 4568).
pub open spec fn crypto_prefix() -> Seq<u8> {
    seq![97u8, 61u8, 99u8, 114u8, 121u8, 112u8, 116u8, 111u8, 58u8]
}

/// `k=`, SDP's key field (RFC 4566 §5.12).
pub open spec fn key_prefix() -> Seq<u8> {
    seq![107u8, 61u8]
}

/// `inline:`, which introduces an SDES master key.
pub open spec fn inline_marker() -> Seq<u8> {
    seq![105u8, 110u8, 108u8, 105u8, 110u8, 101u8, 58u8]
}

/// A byte that ends an inline key: the `|` before its lifetime or MKI, whitespace, or `;`.
pub open spec fn ends_inline_key(b: u8) -> bool {
    b == 124u8 || b == 32u8 || b == 9u8 || b == 59u8
}

/// Where an inline key starting at `i` ends.
pub open spec fn inline_end(line: Seq<u8>, i: int) -> int
    decreases line.len() - i,
{
    if i < 0 || i >= line.len() {
        i
    } else if ends_inline_key(line[i]) {
        i
    } else {
        inline_end(line, i + 1)
    }
}

pub proof fn lemma_inline_end(line: Seq<u8>, i: int)
    requires
        0 <= i <= line.len(),
    ensures
        i <= inline_end(line, i) <= line.len(),
    decreases line.len() - i,
{
    if i < line.len() && !ends_inline_key(line[i]) {
        lemma_inline_end(line, i + 1);
    }
}

/// The rest of a crypto line from `cursor`, every inline key replaced by a same-width
/// replacement, and whether any was.
pub open spec fn inline_from(line: Seq<u8>, cursor: int) -> (Seq<u8>, bool)
    decreases line.len() - cursor,
{
    match find_exact(line, inline_marker(), cursor) {
        None => (line.subrange(cursor, line.len() as int), false),
        Some(found) => {
            proof {
                lemma_find_exact(line, inline_marker(), cursor);
                lemma_inline_end(line, found + 7);
            }
            let start = found + 7;
            let end = inline_end(line, start);
            let width = end - start;
            let (rest, more) = inline_from(line, end);
            (
                line.subrange(cursor, start) + (if width > 0 {
                    replacement(width as nat, true)
                } else {
                    Seq::empty()
                }) + rest,
                width > 0 || more,
            )
        },
    }
}

/// Every inline key on an `a=crypto` line replaced, or nothing if the line held none.
pub open spec fn redact_inline_keys_spec(line: Seq<u8>) -> Option<Seq<u8>> {
    let (out, changed) = inline_from(line, 0);
    if changed {
        Some(out)
    } else {
        None
    }
}

/// A `k=<method>:<key>` line with its key replaced; `k=prompt` carries none.
pub open spec fn redact_sdp_key_spec(line: Seq<u8>) -> Option<Seq<u8>> {
    match first_index_of(line, 58u8) {
        None => None,
        Some(colon) => {
            let width = line.len() - (colon + 1);
            if width == 0 {
                None
            } else {
                Some(line.take(colon + 1) + replacement(width as nat, true))
            }
        },
    }
}

/// Redact a line of a message body: SDES keys, SDP keys, and the credential parameters of a SIP
/// header nested in a body (a `message/sipfrag`, a multipart part).
pub open spec fn redact_body_line_spec(line: Seq<u8>) -> Option<Seq<u8>> {
    if matches_ci_at(line, crypto_prefix(), 0) {
        redact_inline_keys_spec(line)
    } else if matches_ci_at(line, key_prefix(), 0) {
        redact_sdp_key_spec(line)
    } else {
        match header_name(line) {
            Some(name) => if is_auth_header(name) || is_contact_header(name) {
                redact_params_spec(line, true)
            } else {
                None
            },
            None => None,
        }
    }
}

proof fn lemma_inline_from_len(line: Seq<u8>, cursor: int)
    requires
        0 <= cursor <= line.len(),
    ensures
        inline_from(line, cursor).0.len() == line.len() - cursor,
    decreases line.len() - cursor,
{
    match find_exact(line, inline_marker(), cursor) {
        None => {},
        Some(found) => {
            lemma_find_exact(line, inline_marker(), cursor);
            lemma_inline_end(line, found + 7);
            let end = inline_end(line, found + 7);
            lemma_inline_from_len(line, end);
            lemma_replacement_len((end - (found + 7)) as nat);
        },
    }
}

/// **Body redaction preserves length.** `Content-Length` counts a body's bytes, so whatever a
/// body line becomes, it is exactly as long as it was.
pub proof fn body_redaction_preserves_length(line: Seq<u8>)
    ensures
        redact_body_line_spec(line) matches Some(out) ==> out.len() == line.len(),
{
    if matches_ci_at(line, crypto_prefix(), 0) {
        lemma_inline_from_len(line, 0);
    } else if matches_ci_at(line, key_prefix(), 0) {
        lemma_first_index_absent(line, 58u8);
        if let Some(colon) = first_index_of(line, 58u8) {
            lemma_replacement_len((line.len() - (colon + 1)) as nat);
        }
    } else {
        lemma_params_from_len(line, 0);
    }
}

fn crypto_prefix_bytes() -> (r: Vec<u8>)
    ensures
        r@ == crypto_prefix(),
{
    let r = vec![97u8, 61u8, 99u8, 114u8, 121u8, 112u8, 116u8, 111u8, 58u8];
    assert(r@ =~= crypto_prefix());
    r
}

fn key_prefix_bytes() -> (r: Vec<u8>)
    ensures
        r@ == key_prefix(),
{
    let r = vec![107u8, 61u8];
    assert(r@ =~= key_prefix());
    r
}

fn inline_marker_bytes() -> (r: Vec<u8>)
    ensures
        r@ == inline_marker(),
{
    let r = vec![105u8, 110u8, 108u8, 105u8, 110u8, 101u8, 58u8];
    assert(r@ =~= inline_marker());
    r
}

/// Redact every `inline:` key on an `a=crypto` line (RFC 4568 §6.1) — every one, because
/// `key-params` permits more than one.
fn redact_inline_keys(line: &[u8]) -> (r: Option<Vec<u8>>)
    ensures
        r matches Some(v) ==> redact_inline_keys_spec(line@) == Some(v@),
        r is None ==> redact_inline_keys_spec(line@) is None,
{
    let marker = inline_marker_bytes();
    let ghost goal = inline_from(line@, 0);
    let mut out: Vec<u8> = Vec::new();
    let mut cursor: usize = 0;
    let mut changed = false;
    loop
        invariant_except_break
            goal == (out@ + inline_from(line@, cursor as int).0, changed || inline_from(
                line@,
                cursor as int,
            ).1),
        invariant
            cursor <= line@.len(),
            marker@ == inline_marker(),
            goal == inline_from(line@, 0),
        ensures
            goal == (out@, changed),
        decreases line@.len() - cursor,
    {
        let found = find_exact_exec(line, marker.as_slice(), cursor);
        proof {
            lemma_find_exact(line@, inline_marker(), cursor as int);
        }
        match found {
            None => {
                push_range(&mut out, line, cursor, line.len());
                assert(goal == (out@, changed));
                break ;
            },
            Some(at) => {
                assert(at + 7 <= line.len());
                let start = at + 7;
                let mut end = start;
                proof {
                    lemma_inline_end(line@, start as int);
                }
                while end < line.len() && !(line[end] == 124u8 || line[end] == 32u8 || line[end]
                    == 9u8 || line[end] == 59u8)
                    invariant
                        start <= end <= line@.len(),
                        inline_end(line@, start as int) == inline_end(line@, end as int),
                    decreases line.len() - end,
                {
                    end = end + 1;
                }
                let ghost before = out@;
                push_range(&mut out, line, cursor, start);
                if end > start {
                    let r = replacement_exec(end - start, true);
                    push_all(&mut out, r.as_slice());
                    changed = true;
                }
                proof {
                    let (rest, more) = inline_from(line@, end as int);
                    let mid: Seq<u8> = if end > start {
                        replacement((end - start) as nat, true)
                    } else {
                        Seq::empty()
                    };
                    assert(inline_from(line@, cursor as int) == (line@.subrange(
                        cursor as int,
                        start as int,
                    ) + mid + rest, end > start || more));
                    assert(out@ =~= before + line@.subrange(cursor as int, start as int) + mid);
                    assert(before + (line@.subrange(cursor as int, start as int) + mid + rest)
                        =~= out@ + rest);
                }
                cursor = end;
            },
        }
    }
    if changed {
        Some(out)
    } else {
        None
    }
}

/// Redact an SDP `k=` key, keeping the method.
fn redact_sdp_key(line: &[u8]) -> (r: Option<Vec<u8>>)
    ensures
        r matches Some(v) ==> redact_sdp_key_spec(line@) == Some(v@),
        r is None ==> redact_sdp_key_spec(line@) is None,
{
    let colon = match position_of(line, 58u8) {
        None => {
            return None;
        },
        Some(c) => c,
    };
    proof {
        lemma_first_index_absent(line@, 58u8);
    }
    assert(colon < line.len());
    let start = colon + 1;
    let width = line.len() - start;
    if width == 0 {
        return None;
    }
    let mut out = copy_range(line, 0, start);
    let r = replacement_exec(width, true);
    push_all(&mut out, r.as_slice());
    proof {
        assert(out@ =~= line@.take(start as int) + replacement(width as nat, true));
    }
    Some(out)
}

/// Redact a line of a message body, keeping its length.
fn redact_body_line(line: &[u8]) -> (r: Option<Vec<u8>>)
    ensures
        r matches Some(v) ==> redact_body_line_spec(line@) == Some(v@) && v@.len() == line@.len(),
        r is None ==> redact_body_line_spec(line@) is None,
{
    proof {
        body_redaction_preserves_length(line@);
    }
    let crypto = crypto_prefix_bytes();
    let key = key_prefix_bytes();
    if matches_ci_at_exec(line, crypto.as_slice(), 0) {
        return redact_inline_keys(line);
    }
    if matches_ci_at_exec(line, key.as_slice(), 0) {
        return redact_sdp_key(line);
    }
    match header_name_exec(line) {
        Some(name) => {
            if is_auth_header_exec(name.as_slice()) || is_contact_header_exec(name.as_slice()) {
                redact_params(line, true)
            } else {
                None
            }
        },
        None => None,
    }
}

// ---------------------------------------------------------------------------------------------
// The whole message
// ---------------------------------------------------------------------------------------------

/// How many bytes of line terminator start at `at`: CRLF, or a bare CR or LF.
pub open spec fn break_width(m: Seq<u8>, at: int) -> int {
    if m[at] == 13u8 && at + 1 < m.len() && m[at + 1] == 10u8 {
        2
    } else if m[at] == 13u8 || m[at] == 10u8 {
        1
    } else {
        0
    }
}

/// The physical lines of `m` from a line starting at `start`, scanning from `at`: each is its
/// start, the end of its text and the end of its terminator. A last line with no terminator
/// still counts.
pub open spec fn lines_from(m: Seq<u8>, start: int, at: int) -> Seq<(int, int, int)>
    decreases m.len() - at,
{
    if at < 0 || at >= m.len() {
        if 0 <= start < m.len() {
            seq![(start, m.len() as int, m.len() as int)]
        } else {
            Seq::empty()
        }
    } else if break_width(m, at) == 0 {
        lines_from(m, start, at + 1)
    } else {
        seq![(start, at, at + break_width(m, at))] + lines_from(
            m,
            at + break_width(m, at),
            at + break_width(m, at),
        )
    }
}

/// The physical lines of `m`.
pub open spec fn physical_lines(m: Seq<u8>) -> Seq<(int, int, int)> {
    lines_from(m, 0, 0)
}

/// Every line lies within the message, its text before its terminator.
pub open spec fn lines_in(m: Seq<u8>, lines: Seq<(int, int, int)>) -> bool {
    forall|i: int|
        0 <= i < lines.len() ==> 0 <= (#[trigger] lines[i]).0 <= lines[i].1 <= lines[i].2 <= m.len()
}

proof fn lemma_lines_from_in(m: Seq<u8>, start: int, at: int)
    requires
        0 <= start <= at <= m.len(),
    ensures
        lines_in(m, lines_from(m, start, at)),
    decreases m.len() - at,
{
    if at < m.len() {
        if break_width(m, at) == 0 {
            lemma_lines_from_in(m, start, at + 1);
        } else {
            let w = break_width(m, at);
            lemma_lines_from_in(m, at + w, at + w);
            let tail = lines_from(m, at + w, at + w);
            let all = seq![(start, at, at + w)] + tail;
            assert forall|i: int| 0 <= i < all.len() implies 0 <= (#[trigger] all[i]).0 <= all[i].1
                <= all[i].2 <= m.len() by {
                if i > 0 {
                    assert(all[i] == tail[i - 1]);
                }
            }
        }
    }
}

/// The text of a line.
pub open spec fn text_of(m: Seq<u8>, l: (int, int, int)) -> Seq<u8> {
    m.subrange(l.0, l.1)
}

/// The terminator of a line.
pub open spec fn terminator_of(m: Seq<u8>, l: (int, int, int)) -> Seq<u8> {
    m.subrange(l.1, l.2)
}

/// Whether a line continues the header above it (RFC 3261 §7.3.1).
pub open spec fn is_continuation(text: Seq<u8>) -> bool {
    text.len() > 0 && is_wsp(text[0])
}

/// The end of the header whose continuation lines start at `end`.
pub open spec fn continuation_end(m: Seq<u8>, lines: Seq<(int, int, int)>, end: int) -> int
    decreases lines.len() - end,
{
    if 0 <= end < lines.len() && is_continuation(text_of(m, lines[end])) {
        continuation_end(m, lines, end + 1)
    } else {
        end
    }
}

pub proof fn lemma_continuation_end(m: Seq<u8>, lines: Seq<(int, int, int)>, end: int)
    requires
        0 <= end <= lines.len(),
    ensures
        end <= continuation_end(m, lines, end) <= lines.len(),
    decreases lines.len() - end,
{
    if end < lines.len() && is_continuation(text_of(m, lines[end])) {
        lemma_continuation_end(m, lines, end + 1);
    }
}

/// A header and its continuation lines as one logical line: the first line's text, then for
/// each continuation `separator` and its text without leading whitespace.
pub open spec fn unfold(
    m: Seq<u8>,
    lines: Seq<(int, int, int)>,
    from: int,
    to: int,
    separator: Seq<u8>,
) -> Seq<u8>
    decreases to - from,
{
    if to <= from {
        Seq::empty()
    } else if to == from + 1 {
        text_of(m, lines[from])
    } else {
        unfold(m, lines, from, to - 1, separator) + separator + trim_start(
            text_of(m, lines[to - 1]),
        )
    }
}

/// The physical lines `from..to` exactly as they arrived, terminators and all.
pub open spec fn original_span(m: Seq<u8>, lines: Seq<(int, int, int)>, from: int, to: int) -> Seq<
    u8,
>
    decreases to - from,
{
    if to <= from {
        Seq::empty()
    } else {
        original_span(m, lines, from, to - 1) + text_of(m, lines[to - 1]) + terminator_of(
            m,
            lines[to - 1],
        )
    }
}

/// CRLF, which a rewritten header ends with.
pub open spec fn crlf() -> Seq<u8> {
    seq![13u8, 10u8]
}

/// One logical header redacted: first with each fold read as a single space, as a parser reads
/// it; if that finds nothing and the header was folded, again with the folds removed entirely,
/// since a fold can fall inside a parameter name.
pub open spec fn redact_logical_header(
    m: Seq<u8>,
    lines: Seq<(int, int, int)>,
    from: int,
    to: int,
) -> Option<Seq<u8>> {
    match redact_header_spec(unfold(m, lines, from, to, seq![32u8])) {
        Some(r) => Some(r),
        None => if to - from > 1 {
            redact_header_spec(unfold(m, lines, from, to, Seq::empty()))
        } else {
            None
        },
    }
}

/// The redacted message from physical line `index` on, and whether anything changed.
///
/// Header lines are redacted as logical headers and a rewritten one is emitted unfolded with a
/// CRLF; untouched headers go through byte for byte. The empty line ends the headers; body lines
/// keep their terminators and their length.
#[verifier::opaque]
pub open spec fn redact_from(m: Seq<u8>, lines: Seq<(int, int, int)>, index: int, in_body: bool) -> (
    Seq<u8>,
    bool,
)
    decreases lines.len() - index, 0int,
{
    if index < 0 || index >= lines.len() {
        (Seq::empty(), false)
    } else {
        let line = lines[index];
        let text = text_of(m, line);
        let terminator = terminator_of(m, line);
        if in_body {
            let (rest, more) = redact_from(m, lines, index + 1, true);
            match redact_body_line_spec(text) {
                Some(r) => (r + terminator + rest, true),
                None => (text + terminator + rest, more),
            }
        } else if text.len() == 0 {
            let (rest, more) = redact_from(m, lines, index + 1, true);
            (terminator + rest, more)
        } else {
            proof {
                lemma_continuation_end(m, lines, index + 1);
            }
            let end = continuation_end(m, lines, index + 1);
            let (rest, more) = redact_from(m, lines, end, false);
            match redact_logical_header(m, lines, index, end) {
                Some(r) => (r + crlf() + rest, true),
                None => (original_span(m, lines, index, end) + rest, more),
            }
        }
    }
}

/// The message with every secret removed, or nothing when it held none.
pub open spec fn redact_spec(m: Seq<u8>) -> Option<Seq<u8>> {
    let (out, changed) = redact_from(m, physical_lines(m), 0, false);
    if changed {
        Some(out)
    } else {
        None
    }
}

/// One body line of [`redact_from`].
pub proof fn lemma_redact_from_body(m: Seq<u8>, lines: Seq<(int, int, int)>, index: int)
    requires
        0 <= index < lines.len(),
    ensures
        redact_from(m, lines, index, true) == ({
            let text = text_of(m, lines[index]);
            let terminator = terminator_of(m, lines[index]);
            let (rest, more) = redact_from(m, lines, index + 1, true);
            match redact_body_line_spec(text) {
                Some(r) => (r + terminator + rest, true),
                None => (text + terminator + rest, more),
            }
        }),
{
    reveal(redact_from);
}

/// The empty line that ends the headers, in [`redact_from`].
pub proof fn lemma_redact_from_separator(m: Seq<u8>, lines: Seq<(int, int, int)>, index: int)
    requires
        0 <= index < lines.len(),
        text_of(m, lines[index]).len() == 0,
    ensures
        redact_from(m, lines, index, false) == ({
            let (rest, more) = redact_from(m, lines, index + 1, true);
            (terminator_of(m, lines[index]) + rest, more)
        }),
{
    reveal(redact_from);
}

/// One logical header of [`redact_from`].
pub proof fn lemma_redact_from_header(m: Seq<u8>, lines: Seq<(int, int, int)>, index: int)
    requires
        0 <= index < lines.len(),
        text_of(m, lines[index]).len() != 0,
    ensures
        redact_from(m, lines, index, false) == ({
            let end = continuation_end(m, lines, index + 1);
            let (rest, more) = redact_from(m, lines, end, false);
            match redact_logical_header(m, lines, index, end) {
                Some(r) => (r + crlf() + rest, true),
                None => (original_span(m, lines, index, end) + rest, more),
            }
        }),
{
    reveal(redact_from);
}

/// Past the last line, [`redact_from`] is empty.
pub proof fn lemma_redact_from_end(m: Seq<u8>, lines: Seq<(int, int, int)>, index: int, in_body: bool)
    requires
        index >= lines.len(),
    ensures
        redact_from(m, lines, index, in_body) == (Seq::<u8>::empty(), false),
{
    reveal(redact_from);
}

/// How many bytes physical lines `from` on take up, terminators included.
pub open spec fn span_len(m: Seq<u8>, lines: Seq<(int, int, int)>, from: int) -> int
    decreases lines.len() - from,
{
    if from < 0 || from >= lines.len() {
        0
    } else {
        text_of(m, lines[from]).len() + terminator_of(m, lines[from]).len() + span_len(m, lines, from + 1)
    }
}

/// **A redacted body keeps its length.** From any body line on, the redacted message is exactly
/// as long as the original lines it came from, terminators included: `Content-Length` still
/// counts it.
pub proof fn a_redacted_body_keeps_its_length(m: Seq<u8>, lines: Seq<(int, int, int)>, index: int)
    requires
        0 <= index,
    ensures
        redact_from(m, lines, index, true).0.len() == span_len(m, lines, index),
    decreases lines.len() - index,
{
    if index >= lines.len() {
        lemma_redact_from_end(m, lines, index, true);
    } else {
        lemma_redact_from_body(m, lines, index);
        a_redacted_body_keeps_its_length(m, lines, index + 1);
        body_redaction_preserves_length(text_of(m, lines[index]));
    }
}

/// Consecutive spans of lines join into one.
pub proof fn lemma_original_span_join(m: Seq<u8>, lines: Seq<(int, int, int)>, from: int, mid: int, to: int)
    requires
        from <= mid <= to,
    ensures
        original_span(m, lines, from, mid) + original_span(m, lines, mid, to) == original_span(
            m,
            lines,
            from,
            to,
        ),
    decreases to - mid,
{
    if to > mid {
        lemma_original_span_join(m, lines, from, mid, to - 1);
        assert(original_span(m, lines, from, mid) + original_span(m, lines, mid, to) =~= (
        original_span(m, lines, from, mid) + original_span(m, lines, mid, to - 1)) + text_of(
            m,
            lines[to - 1],
        ) + terminator_of(m, lines[to - 1]));
    } else {
        assert(original_span(m, lines, from, mid) + original_span(m, lines, mid, to) =~= original_span(
            m,
            lines,
            from,
            to,
        ));
    }
}

/// **What redaction leaves alone goes through byte for byte.** Where nothing from a line on
/// is redacted, what comes out from that line on is the original bytes exactly, every header,
/// fold, terminator and body line as it arrived.
pub proof fn what_is_not_redacted_is_byte_exact(
    m: Seq<u8>,
    lines: Seq<(int, int, int)>,
    index: int,
    in_body: bool,
)
    requires
        0 <= index <= lines.len(),
    ensures
        !redact_from(m, lines, index, in_body).1 ==> redact_from(m, lines, index, in_body).0
            == original_span(m, lines, index, lines.len() as int),
    decreases lines.len() - index,
{
    if index == lines.len() {
        lemma_redact_from_end(m, lines, index, in_body);
    } else if in_body {
        lemma_redact_from_body(m, lines, index);
        what_is_not_redacted_is_byte_exact(m, lines, index + 1, true);
        lemma_original_span_join(m, lines, index, index + 1, lines.len() as int);
        assert(original_span(m, lines, index, index) == Seq::<u8>::empty());
        assert(original_span(m, lines, index, index + 1) =~= text_of(m, lines[index]) + terminator_of(
            m,
            lines[index],
        ));
    } else if text_of(m, lines[index]).len() == 0 {
        lemma_redact_from_separator(m, lines, index);
        what_is_not_redacted_is_byte_exact(m, lines, index + 1, true);
        lemma_original_span_join(m, lines, index, index + 1, lines.len() as int);
        assert(original_span(m, lines, index, index) == Seq::<u8>::empty());
        assert(text_of(m, lines[index]) =~= Seq::<u8>::empty());
        assert(original_span(m, lines, index, index + 1) =~= terminator_of(m, lines[index]));
    } else {
        lemma_redact_from_header(m, lines, index);
        lemma_continuation_end(m, lines, index + 1);
        let end = continuation_end(m, lines, index + 1);
        what_is_not_redacted_is_byte_exact(m, lines, end, false);
        lemma_original_span_join(m, lines, index, end, lines.len() as int);
    }
}

/// Split a message into physical lines on CRLF, bare LF or bare CR.
fn lines(message: &[u8]) -> (r: Vec<(usize, usize, usize)>)
    ensures
        r@.map_values(|l: (usize, usize, usize)| (l.0 as int, l.1 as int, l.2 as int))
            == physical_lines(message@),
        lines_in(message@, physical_lines(message@)),
{
    let ghost m = message@;
    let mut out: Vec<(usize, usize, usize)> = Vec::new();
    let mut start: usize = 0;
    let mut at: usize = 0;
    proof {
        lemma_lines_from_in(m, 0, 0);
    }
    while at < message.len()
        invariant
            m == message@,
            start <= at <= m.len(),
            out@.map_values(|l: (usize, usize, usize)| (l.0 as int, l.1 as int, l.2 as int))
                + lines_from(m, start as int, at as int) == physical_lines(m),
        decreases m.len() - at,
    {
        let b = message[at];
        let width: usize = if b == 13u8 && at + 1 < message.len() && message[at + 1] == 10u8 {
            2
        } else if b == 13u8 || b == 10u8 {
            1
        } else {
            0
        };
        assert(width == break_width(m, at as int));
        if width == 0 {
            at = at + 1;
        } else {
            let end = at + width;
            let ghost before = out@;
            out.push((start, at, end));
            proof {
                let f = |l: (usize, usize, usize)| (l.0 as int, l.1 as int, l.2 as int);
                assert(out@.map_values(f) =~= before.map_values(f).push(
                    (start as int, at as int, end as int),
                ));
                assert(lines_from(m, start as int, at as int) == seq![
                    (start as int, at as int, end as int),
                ] + lines_from(m, end as int, end as int));
                assert(before.map_values(f).push((start as int, at as int, end as int))
                    + lines_from(m, end as int, end as int) =~= before.map_values(f) + (seq![
                    (start as int, at as int, end as int),
                ] + lines_from(m, end as int, end as int)));
            }
            at = end;
            start = end;
        }
    }
    if start < message.len() {
        let ghost before = out@;
        out.push((start, message.len(), message.len()));
        proof {
            let f = |l: (usize, usize, usize)| (l.0 as int, l.1 as int, l.2 as int);
            assert(out@.map_values(f) =~= before.map_values(f).push(
                (start as int, m.len() as int, m.len() as int),
            ));
        }
    } else {
        proof {
            let f = |l: (usize, usize, usize)| (l.0 as int, l.1 as int, l.2 as int);
            assert(out@.map_values(f) + Seq::<(int, int, int)>::empty() =~= out@.map_values(f));
        }
    }
    out
}

/// Line positions as integers.
pub open spec fn int_lines(v: Seq<(usize, usize, usize)>) -> Seq<(int, int, int)> {
    v.map_values(|l: (usize, usize, usize)| (l.0 as int, l.1 as int, l.2 as int))
}

fn unfold_exec(
    message: &[u8],
    physical: &Vec<(usize, usize, usize)>,
    from: usize,
    to: usize,
    separator: &[u8],
) -> (r: Vec<u8>)
    requires
        from < to <= physical@.len(),
        lines_in(message@, int_lines(physical@)),
    ensures
        r@ == unfold(message@, int_lines(physical@), from as int, to as int, separator@),
{
    let ghost lines = int_lines(physical@);
    let first = physical[from];
    assert(lines[from as int] == (first.0 as int, first.1 as int, first.2 as int));
    let mut out = copy_range(message, first.0, first.1);
    let mut index = from + 1;
    while index < to
        invariant
            from < index <= to <= physical@.len(),
            lines == int_lines(physical@),
            lines_in(message@, lines),
            out@ == unfold(message@, lines, from as int, index as int, separator@),
        decreases to - index,
    {
        let l = physical[index];
        assert(lines[index as int] == (l.0 as int, l.1 as int, l.2 as int));
        let text = copy_range(message, l.0, l.1);
        let lead = skip_ascii_ws_exec(text.as_slice(), 0);
        let ghost before = out@;
        push_all(&mut out, separator);
        push_range(&mut out, text.as_slice(), lead, text.len());
        proof {
            assert(text@.subrange(lead as int, text@.len() as int) =~= trim_start(text@));
            assert(out@ =~= before + separator@ + trim_start(text_of(message@, lines[index as int])));
        }
        index = index + 1;
    }
    out
}

fn push_original_span(
    out: &mut Vec<u8>,
    message: &[u8],
    physical: &Vec<(usize, usize, usize)>,
    from: usize,
    to: usize,
)
    requires
        from <= to <= physical@.len(),
        lines_in(message@, int_lines(physical@)),
    ensures
        final(out)@ == old(out)@ + original_span(message@, int_lines(physical@), from as int, to as int),
{
    let ghost lines = int_lines(physical@);
    let mut index = from;
    while index < to
        invariant
            from <= index <= to <= physical@.len(),
            lines == int_lines(physical@),
            lines_in(message@, lines),
            out@ == old(out)@ + original_span(message@, lines, from as int, index as int),
        decreases to - index,
    {
        let l = physical[index];
        assert(lines[index as int] == (l.0 as int, l.1 as int, l.2 as int));
        let ghost before = out@;
        push_range(out, message, l.0, l.1);
        push_range(out, message, l.1, l.2);
        proof {
            assert(out@ =~= old(out)@ + original_span(message@, lines, from as int, index + 1));
        }
        index = index + 1;
    }
}

fn continues(message: &[u8], physical: &Vec<(usize, usize, usize)>, at: usize) -> (r: bool)
    requires
        at < physical@.len(),
        lines_in(message@, int_lines(physical@)),
    ensures
        r == is_continuation(text_of(message@, int_lines(physical@)[at as int])),
{
    let l = physical[at];
    assert(int_lines(physical@)[at as int] == (l.0 as int, l.1 as int, l.2 as int));
    if l.1 > l.0 {
        assert(text_of(message@, int_lines(physical@)[at as int])[0] == message@[l.0 as int]);
        message[l.0] == 32u8 || message[l.0] == 9u8
    } else {
        false
    }
}

/// Redact one body line onto `out`.
fn body_step(
    out: &mut Vec<u8>,
    changed: &mut bool,
    message: &[u8],
    physical: &Vec<(usize, usize, usize)>,
    index: usize,
)
    requires
        index < physical@.len(),
        lines_in(message@, int_lines(physical@)),
    ensures
        ({
            let (now, now_more) = redact_from(message@, int_lines(physical@), index as int, true);
            let (rest, more) = redact_from(message@, int_lines(physical@), index + 1, true);
            &&& final(out)@ + rest == old(out)@ + now
            &&& (*final(changed) || more) == (*old(changed) || now_more)
        }),
{
    let ghost m = message@;
    let ghost all = int_lines(physical@);
    let l = physical[index];
    assert(all[index as int] == (l.0 as int, l.1 as int, l.2 as int));
    let text = copy_range(message, l.0, l.1);
    let ghost (rest, more) = redact_from(m, all, index + 1, true);
    let ghost before = out@;
    match redact_body_line(text.as_slice()) {
        Some(r) => {
            push_all(out, r.as_slice());
            *changed = true;
        },
        None => {
            push_all(out, text.as_slice());
        },
    }
    push_range(out, message, l.1, l.2);
    proof {
        lemma_redact_from_body(m, all, index as int);
        let t = terminator_of(m, all[index as int]);
        match redact_body_line_spec(text@) {
            Some(r) => {
                assert(before + (r + t + rest) =~= out@ + rest);
            },
            None => {
                assert(before + (text@ + t + rest) =~= out@ + rest);
            },
        }
    }
}

/// Redact the logical header made of physical lines `index..end`.
fn redact_logical(
    message: &[u8],
    physical: &Vec<(usize, usize, usize)>,
    index: usize,
    end: usize,
) -> (r: Option<Vec<u8>>)
    requires
        index < end <= physical@.len(),
        lines_in(message@, int_lines(physical@)),
    ensures
        r matches Some(v) ==> redact_logical_header(
            message@,
            int_lines(physical@),
            index as int,
            end as int,
        ) == Some(v@),
        r is None ==> redact_logical_header(
            message@,
            int_lines(physical@),
            index as int,
            end as int,
        ) is None,
{
    let space: [u8; 1] = [32u8];
    proof {
        assert(space@ =~= seq![32u8]);
    }
    let folded = unfold_exec(message, physical, index, end, space.as_slice());
    match redact_header(folded.as_slice()) {
        Some(r) => Some(r),
        None => {
            if end - index > 1 {
                let nothing: [u8; 0] = [];
                proof {
                    assert(nothing@ =~= Seq::<u8>::empty());
                }
                let joined = unfold_exec(message, physical, index, end, nothing.as_slice());
                redact_header(joined.as_slice())
            } else {
                None
            }
        },
    }
}

/// Redact one logical header onto `out`, returning the line after it.
fn header_step(
    out: &mut Vec<u8>,
    changed: &mut bool,
    message: &[u8],
    physical: &Vec<(usize, usize, usize)>,
    index: usize,
) -> (end: usize)
    requires
        index < physical@.len(),
        lines_in(message@, int_lines(physical@)),
        text_of(message@, int_lines(physical@)[index as int]).len() != 0,
    ensures
        index < end <= physical@.len(),
        ({
            let (now, now_more) = redact_from(message@, int_lines(physical@), index as int, false);
            let (rest, more) = redact_from(message@, int_lines(physical@), end as int, false);
            &&& final(out)@ + rest == old(out)@ + now
            &&& (*final(changed) || more) == (*old(changed) || now_more)
        }),
{
    let ghost m = message@;
    let ghost all = int_lines(physical@);
    assert(index < physical.len());
    let mut end = index + 1;
    proof {
        lemma_continuation_end(m, all, index + 1);
    }
    while end < physical.len() && continues(message, physical, end)
        invariant
            index < end <= physical@.len(),
            all == int_lines(physical@),
            lines_in(m, all),
            m == message@,
            continuation_end(m, all, index + 1) == continuation_end(m, all, end as int),
        decreases physical@.len() - end,
    {
        end = end + 1;
    }
    let red = redact_logical(message, physical, index, end);
    proof {
        lemma_redact_from_header(m, all, index as int);
    }
    let ghost (rest, more) = redact_from(m, all, end as int, false);
    let ghost before = out@;
    match red {
        Some(r) => {
            push_all(out, r.as_slice());
            out.push(13u8);
            out.push(10u8);
            *changed = true;
            proof {
                assert(before + (r@ + crlf() + rest) =~= out@ + rest);
            }
        },
        None => {
            push_original_span(out, message, physical, index, end);
            proof {
                assert(before + (original_span(m, all, index as int, end as int) + rest) =~= out@
                    + rest);
            }
        },
    }
    end
}

/// Strip the secrets from a captured message.
///
/// Returns nothing when nothing was found, so an unredacted message is never copied.
pub fn redact(message: &[u8]) -> (r: Option<Vec<u8>>)
    ensures
        r matches Some(v) ==> redact_spec(message@) == Some(v@),
        r is None ==> redact_spec(message@) is None,
{
    let physical = lines(message);
    let ghost m = message@;
    let ghost all = int_lines(physical@);
    let ghost goal = redact_from(m, all, 0, false);
    let mut out: Vec<u8> = Vec::new();
    let mut changed = false;
    let mut in_body = false;
    let mut index: usize = 0;
    while index < physical.len()
        invariant
            m == message@,
            all == int_lines(physical@),
            all == physical_lines(m),
            lines_in(m, all),
            index <= physical@.len(),
            goal == redact_from(m, all, 0, false),
            goal == (out@ + redact_from(m, all, index as int, in_body).0, changed || redact_from(
                m,
                all,
                index as int,
                in_body,
            ).1),
        decreases physical@.len() - index,
    {
        let ghost before = out@;
        let ghost was = changed;
        if in_body {
            body_step(&mut out, &mut changed, message, &physical, index);
            proof {
                let (rest, more) = redact_from(m, all, index + 1, true);
                assert(before + redact_from(m, all, index as int, true).0 == out@ + rest);
                assert((before + redact_from(m, all, index as int, true).0) =~= (out@ + rest));
            }
            index = index + 1;
        } else {
            let l = physical[index];
            assert(all[index as int] == (l.0 as int, l.1 as int, l.2 as int));
            if l.0 == l.1 {
                push_range(&mut out, message, l.1, l.2);
                proof {
                    let (rest, more) = redact_from(m, all, index + 1, true);
                    assert(text_of(m, all[index as int]).len() == 0);
                    lemma_redact_from_separator(m, all, index as int);
                    assert(before + (terminator_of(m, all[index as int]) + rest) =~= out@ + rest);
                }
                in_body = true;
                index = index + 1;
            } else {
                index = header_step(&mut out, &mut changed, message, &physical, index);
            }
        }
    }
    proof {
        lemma_redact_from_end(m, all, index as int, in_body);
        assert(out@ + Seq::<u8>::empty() =~= out@);
    }
    if changed {
        Some(out)
    } else {
        None
    }
}


// ---------------------------------------------------------------------------------------------
// What redaction guarantees of an authentication header
// ---------------------------------------------------------------------------------------------

/// `response`, the digest credential parameter.
pub open spec fn response_name() -> Seq<u8> {
    seq![114u8, 101u8, 115u8, 112u8, 111u8, 110u8, 115u8, 101u8]
}

/// `REDACTED`, spelled out.
pub open spec fn marker() -> Seq<u8> {
    seq![82u8, 69u8, 68u8, 65u8, 67u8, 84u8, 69u8, 68u8]
}

/// No credential parameter name occurs in `s`, in any case.
pub open spec fn free_of_credential_names(s: Seq<u8>) -> bool {
    forall|i: int, p: int| 0 <= i < 6 ==> !#[trigger] matches_ci_at(s, redacted_param(i), p)
}

proof fn lemma_find_ci_none(s: Seq<u8>, n: Seq<u8>, from: int)
    requires
        forall|p: int| from <= p ==> !#[trigger] matches_ci_at(s, n, p),
    ensures
        find_ci(s, n, from) is None,
    decreases s.len() - from,
{
    if !(n.len() == 0 || from < 0 || from + n.len() > s.len()) {
        lemma_find_ci_none(s, n, from + 1);
    }
}

proof fn lemma_find_ci_at(s: Seq<u8>, n: Seq<u8>, from: int, at: int)
    requires
        0 <= from <= at,
        n.len() > 0,
        matches_ci_at(s, n, at),
        forall|p: int| from <= p < at ==> !#[trigger] matches_ci_at(s, n, p),
    ensures
        find_ci(s, n, from) == Some(at),
    decreases at - from,
{
    if from < at {
        lemma_find_ci_at(s, n, from + 1, at);
    }
}

/// A match that lies wholly inside one part of a concatenation is a match in that part.
proof fn lemma_match_in_part(x: Seq<u8>, y: Seq<u8>, n: Seq<u8>, p: int)
    ensures
        p + n.len() <= x.len() ==> (matches_ci_at(x + y, n, p) == matches_ci_at(x, n, p)),
        p >= x.len() ==> (matches_ci_at(x + y, n, p) == matches_ci_at(y, n, p - x.len())),
{
    if 0 <= p && p + n.len() <= x.len() {
        assert((x + y).subrange(p, p + n.len()) =~= x.subrange(p, p + n.len()));
    }
    if p >= x.len() && p + n.len() <= x.len() + y.len() {
        assert((x + y).subrange(p, p + n.len()) =~= y.subrange(p - x.len(), p - x.len() + n.len()));
    }
}


/// `response="REDACTED"`, what a redacted digest response reads.
pub open spec fn redacted_response() -> Seq<u8> {
    response_name() + seq![61u8, 34u8] + marker() + seq![34u8]
}

/// No credential parameter other than `response` can be read across or inside a redacted digest
/// response.
proof fn lemma_no_name_touches_redacted(x: Seq<u8>, y: Seq<u8>, i: int, p: int)
    requires
        1 <= i < 6,
        x.len() - redacted_param(i).len() < p < x.len() + 19,
    ensures
        !matches_ci_at(x + redacted_response() + y, redacted_param(i), p),
{
    let s = x + redacted_response() + y;
    let n = redacted_param(i);
    let lit = redacted_response();
    assert(lit.len() == 19);
    if matches_ci_at(s, n, p) {
        let w = s.subrange(p, p + n.len());
        let k0 = if p < x.len() {
            x.len() - p
        } else {
            0
        };
        assert(0 <= k0 < n.len());
        assert(w[k0] == lit[p + k0 - x.len()]);
        assert(lower(w[k0]) == lower(n[k0]));
        if k0 + 1 < n.len() && p + k0 + 1 < x.len() + 19 {
            assert(w[k0 + 1] == lit[p + k0 + 1 - x.len()]);
            assert(lower(w[k0 + 1]) == lower(n[k0 + 1]));
        }
        if k0 + 2 < n.len() && p + k0 + 2 < x.len() + 19 {
            assert(w[k0 + 2] == lit[p + k0 + 2 - x.len()]);
            assert(lower(w[k0 + 2]) == lower(n[k0 + 2]));
        }
    }
}


/// A quoted value with no quote or backslash in it ends at the quote that follows it.
proof fn lemma_plain_quoted_end(line: Seq<u8>, start: int, k: int, len: int)
    requires
        0 <= start,
        0 <= k <= len,
        start + len < line.len(),
        line[start + len] == 34u8,
        forall|j: int| start <= j < start + len ==> line[j] != 34u8 && line[j] != 92u8,
    ensures
        value_end(line, start + k, true) == start + len,
    decreases len - k,
{
    if k < len {
        lemma_plain_quoted_end(line, start, k + 1, len);
    }
}

/// Nothing before `x`'s end and nothing inside `y` names a credential, so the credential names
/// other than `response` occur nowhere in `x`, a redacted digest response, then `y`.
proof fn lemma_no_other_name(x: Seq<u8>, y: Seq<u8>, i: int)
    requires
        1 <= i < 6,
        free_of_credential_names(x),
        free_of_credential_names(y),
    ensures
        find_ci(x + redacted_response() + y, redacted_param(i), 0) is None,
{
    let s = x + redacted_response() + y;
    let n = redacted_param(i);
    assert(s == x + (redacted_response() + y));
    assert forall|p: int| 0 <= p implies !#[trigger] matches_ci_at(s, n, p) by {
        if p + n.len() <= x.len() {
            lemma_match_in_part(x, redacted_response() + y, n, p);
            assert(!matches_ci_at(x, redacted_param(i), p));
        } else if p < x.len() + 19 {
            lemma_no_name_touches_redacted(x, y, i, p);
        } else {
            lemma_match_in_part(x + redacted_response(), y, n, p);
            assert(!matches_ci_at(y, redacted_param(i), p - x.len() - 19));
        }
    }
    lemma_find_ci_none(s, n, 0);
}

/// With no credential name left to find, the remaining passes change nothing.
proof fn lemma_rest_of_passes(s: Seq<u8>, i: int)
    requires
        1 <= i <= 6,
        forall|j: int| i <= j < 6 ==> find_ci(s, #[trigger] redacted_param(j), 0) is None,
    ensures
        params_from(s, false, i) == (s, false),
    decreases 6 - i,
{
    if i < 6 {
        lemma_rest_of_passes(s, i + 1);
        assert(find_ci(s, redacted_param(i), 0) is None);
    }
}

/// The `response` pass over a line holding one live digest response.
proof fn lemma_response_pass(x: Seq<u8>, v: Seq<u8>, y: Seq<u8>)
    requires
        x.len() > 0,
        may_precede_param(x.last()),
        free_of_credential_names(x),
        free_of_credential_names(y),
        v.len() > 0,
        v != marker(),
        forall|j: int| 0 <= j < v.len() ==> v[j] != 34u8 && v[j] != 92u8,
    ensures
        param_pass(x + response_name() + seq![61u8, 34u8] + v + seq![34u8] + y, response_name(), false, 0)
            == (x + redacted_response() + y, true),
{
    let line = x + response_name() + seq![61u8, 34u8] + v + seq![34u8] + y;
    let n = response_name();
    let at = x.len() as int;
    assert(n == redacted_param(0));
    assert(line.subrange(at, at + 8) =~= n);
    assert forall|p: int| 0 <= p < at implies !#[trigger] matches_ci_at(line, n, p) by {
        if p + 8 <= at {
            lemma_match_in_part(x, line.skip(at), n, p);
            assert(line =~= x + line.skip(at));
            assert(!matches_ci_at(x, redacted_param(0), p));
        } else if matches_ci_at(line, n, p) {
            let w = line.subrange(p, p + 8);
            assert(w[at - p] == line[at]);
            assert(lower(w[at - p]) == lower(n[at - p]));
        }
    }
    lemma_find_ci_at(line, n, 0, at);
    assert(line[at - 1] == x.last());
    assert(line[at + 8] == 61u8);
    assert(skip_ascii_ws(line, at + 8) == at + 8);
    assert(line[at + 9] == 34u8);
    assert(skip_ascii_ws(line, at + 9) == at + 9);
    let vs = at + 10;
    let ve = vs + v.len();
    assert forall|j: int| vs <= j < ve implies line[j] != 34u8 && line[j] != 92u8 by {
        assert(line[j] == v[j - vs]);
    }
    assert(line[ve] == 34u8);
    lemma_plain_quoted_end(line, vs, 0, v.len() as int);
    assert(line.subrange(vs, ve) =~= v);
    assert(marker() == redaction());
    let r = replacement(v.len(), false);
    assert(r == redaction());
    let next = line.subrange(0, vs) + r + line.subrange(ve, line.len() as int);
    let want = x + redacted_response() + y;
    assert(next =~= want);
    assert(want == x + (redacted_response() + y));
    assert forall|p: int| vs + 8 <= p implies !#[trigger] matches_ci_at(want, n, p) by {
        if p < at + 19 {
            if matches_ci_at(want, n, p) {
                let w = want.subrange(p, p + 8);
                assert(w[0] == want[at + 18]);
                assert(lower(w[0]) == lower(n[0]));
            }
        } else {
            lemma_match_in_part(x + redacted_response(), y, n, p);
            assert(!matches_ci_at(y, redacted_param(0), p - at - 19));
        }
    }
    lemma_find_ci_none(want, n, vs + 8);
    assert(param_pass(want, n, false, vs + 8) == (want, false));
    assert(value_end(line, vs, true) == ve);
    assert(find_ci(line, n, 0) == Some(at));
    assert(vs + r.len() == vs + 8);
    assert(param_pass(next, n, false, vs + r.len()).0 == want);
}


/// `: Digest `, what follows the name of a digest authentication header.
pub open spec fn digest_lead() -> Seq<u8> {
    seq![58u8, 32u8, 68u8, 105u8, 103u8, 101u8, 115u8, 116u8, 32u8]
}

/// The five authentication headers, by their lowercase names: `Authorization`,
/// `Proxy-Authorization`, `Authentication-Info`, `Proxy-Authenticate` and `WWW-Authenticate`.
pub open spec fn names_an_auth_header(lowercase: Seq<u8>) -> bool {
    ||| lowercase == seq![97u8, 117u8, 116u8, 104u8, 111u8, 114u8, 105u8, 122u8, 97u8, 116u8, 105u8, 111u8, 110u8]
    ||| lowercase == seq![112u8, 114u8, 111u8, 120u8, 121u8, 45u8, 97u8, 117u8, 116u8, 104u8, 111u8, 114u8, 105u8, 122u8, 97u8, 116u8, 105u8, 111u8, 110u8]
    ||| lowercase == seq![97u8, 117u8, 116u8, 104u8, 101u8, 110u8, 116u8, 105u8, 99u8, 97u8, 116u8, 105u8, 111u8, 110u8, 45u8, 105u8, 110u8, 102u8, 111u8]
    ||| lowercase == seq![112u8, 114u8, 111u8, 120u8, 121u8, 45u8, 97u8, 117u8, 116u8, 104u8, 101u8, 110u8, 116u8, 105u8, 99u8, 97u8, 116u8, 101u8]
    ||| lowercase == seq![119u8, 119u8, 119u8, 45u8, 97u8, 117u8, 116u8, 104u8, 101u8, 110u8, 116u8, 105u8, 99u8, 97u8, 116u8, 101u8]
}

/// The name of an authentication header, in whatever case, is one the redaction recognises.
proof fn lemma_auth_name(name: Seq<u8>)
    requires
        names_an_auth_header(lower_seq(name)),
    ensures
        trim_end(name) == name,
        is_auth_header(lower_seq(name)),
        name.len() > 0,
        !is_wsp(name[0]),
{
    let low = lower_seq(name);
    assert(low.len() == name.len());
    assert(name.len() > 0);
    assert(low[0] == lower(name[0]));
    assert(low[0] == 97u8 || low[0] == 112u8 || low[0] == 119u8);
    let k = name.len() - 1;
    assert(low[k] == lower(name[k]));
    assert(low[k] == 110u8 || low[k] == 111u8 || low[k] == 101u8);
    assert(!is_ascii_ws(name.last()));
    assert(name.drop_last().push(name.last()) =~= name);
    assert(trimmed_end_len(name) == name.len());
    assert(trim_end(name) =~= name);
}

/// A `Digest` credential, one that carries an `=`, is redacted parameter by parameter.
proof fn lemma_digest_scheme(line: Seq<u8>, c: int, eq: int)
    requires
        0 <= c,
        c + 8 <= eq < line.len(),
        first_index_of(line, 58u8) == Some(c),
        line.subrange(c, c + 9) == digest_lead(),
        line[eq] == 61u8,
    ensures
        redact_auth_header_spec(line) == redact_params_spec(line, false),
{
    assert(line[c + 1] == line.subrange(c, c + 9)[1]);
    assert(line[c + 2] == line.subrange(c, c + 9)[2]);
    assert(line[c + 3] == line.subrange(c, c + 9)[3]);
    assert(line[c + 4] == line.subrange(c, c + 9)[4]);
    assert(line[c + 5] == line.subrange(c, c + 9)[5]);
    assert(line[c + 6] == line.subrange(c, c + 9)[6]);
    assert(line[c + 7] == line.subrange(c, c + 9)[7]);
    assert(line[c + 8] == line.subrange(c, c + 9)[8]);
    assert(skip_wsp(line, c + 2) == c + 2);
    assert(skip_wsp(line, c + 1) == c + 2);
    assert(find_wsp(line, c + 8) == c + 8);
    assert(find_wsp(line, c + 7) == c + 8);
    assert(find_wsp(line, c + 6) == c + 8);
    assert(find_wsp(line, c + 5) == c + 8);
    assert(find_wsp(line, c + 4) == c + 8);
    assert(find_wsp(line, c + 3) == c + 8);
    assert(find_wsp(line, c + 2) == c + 8);
    let scheme = lower_seq(line.subrange(c + 2, c + 8));
    assert(scheme[0] == lower(line[c + 2]));
    assert(scheme[0] == 100u8);
    assert(!is_opaque_scheme(scheme));
    let rest = line.subrange(c + 8, line.len() as int);
    assert(rest[eq - (c + 8)] == 61u8);
    assert(rest.contains(61u8));
}

/// The credential parameters of a line holding one live digest response and no other
/// credential parameter: only that response changes.
#[verifier::rlimit(30)]
proof fn lemma_params_of_digest_line(name: Seq<u8>, params: Seq<u8>, value: Seq<u8>, after: Seq<u8>)
    requires
        params.len() == 0 || params.last() == 32u8 || params.last() == 44u8 || params.last() == 59u8,
        free_of_credential_names(name + digest_lead() + params),
        free_of_credential_names(after),
        value.len() > 0,
        value != marker(),
        forall|j: int| 0 <= j < value.len() ==> value[j] != 34u8 && value[j] != 92u8,
    ensures
        redact_params_spec(
            name + digest_lead() + params + response_name() + seq![61u8, 34u8] + value + seq![34u8]
                + after,
            false,
        ) == Some(name + digest_lead() + params + redacted_response() + after),
{
    let x = name + digest_lead() + params;
    let line = x + response_name() + seq![61u8, 34u8] + value + seq![34u8] + after;
    assert(x.last() == 32u8 || x.last() == 44u8 || x.last() == 59u8) by {
        if params.len() == 0 {
            assert(x.last() == digest_lead().last());
        } else {
            assert(x.last() == params.last());
        }
    }
    lemma_response_pass(x, value, after);
    let next = x + redacted_response() + after;
    assert forall|j: int| 1 <= j < 6 implies find_ci(next, #[trigger] redacted_param(j), 0) is None by {
        lemma_no_other_name(x, after, j);
    }
    lemma_rest_of_passes(next, 1);
    assert(params_from(line, false, 0) == (next, true));
}

/// **A digest response never survives redaction.** In any of the five authentication headers,
/// whatever the case of its name, a `Digest` credential whose `response` is a non-empty quoted
/// value comes out with that value replaced by `REDACTED` and every other byte of the header as
/// it was, when no other credential parameter is on the line.
#[verifier::rlimit(30)]
pub proof fn a_digest_response_is_replaced_by_the_marker(
    name: Seq<u8>,
    params: Seq<u8>,
    value: Seq<u8>,
    after: Seq<u8>,
)
    requires
        forall|j: int| 0 <= j < name.len() ==> name[j] != 58u8,
        names_an_auth_header(lower_seq(name)),
        params.len() == 0 || params.last() == 32u8 || params.last() == 44u8 || params.last() == 59u8,
        free_of_credential_names(name + digest_lead() + params),
        free_of_credential_names(after),
        value.len() > 0,
        value != marker(),
        forall|j: int| 0 <= j < value.len() ==> value[j] != 34u8 && value[j] != 92u8,
    ensures
        redact_header_spec(
            name + digest_lead() + params + response_name() + seq![61u8, 34u8] + value + seq![34u8]
                + after,
        ) == Some(name + digest_lead() + params + redacted_response() + after),
{
    let x = name + digest_lead() + params;
    let line = x + response_name() + seq![61u8, 34u8] + value + seq![34u8] + after;
    let c = name.len() as int;
    let next = x + redacted_response() + after;
    lemma_params_of_digest_line(name, params, value, after);
    assert forall|j: int| 0 <= j < c implies line[j] != 58u8 by {
        assert(line[j] == name[j]);
    }
    assert(line[c] == 58u8);
    lemma_first_index_of(line, 58u8, c);
    assert(line.take(c) =~= name);
    lemma_auth_name(name);
    assert(header_name(line) == Some(lower_seq(name)));
    assert(line.subrange(c, c + 9) =~= digest_lead());
    assert(line[x.len() + 8int] == 61u8);
    lemma_digest_scheme(line, c, x.len() + 8int);
    assert(redact_auth_header_spec(line) == Some(next));
}


/// A line with no line break in it, ended by CRLF, is the next physical line.
proof fn lemma_line_through(m: Seq<u8>, start: int, at: int, k: int)
    requires
        0 <= start <= at <= k,
        k + 1 < m.len(),
        forall|j: int| at <= j < k ==> m[j] != 13u8 && m[j] != 10u8,
        m[k] == 13u8,
        m[k + 1] == 10u8,
    ensures
        lines_from(m, start, at) == seq![(start, k, k + 2)] + lines_from(m, k + 2, k + 2),
    decreases k - at,
{
    if at < k {
        lemma_line_through(m, start, at + 1, k);
    }
}

/// The lines from `start` on begin with one that starts there.
proof fn lemma_first_line_starts(m: Seq<u8>, start: int, at: int)
    requires
        0 <= start <= at,
        start < m.len(),
    ensures
        lines_from(m, start, at).len() > 0,
        lines_from(m, start, at)[0].0 == start,
    decreases m.len() - at,
{
    if at < m.len() && break_width(m, at) == 0 {
        lemma_first_line_starts(m, start, at + 1);
    }
}

/// A message whose first two lines end in CRLF, the second starting a header of its own that
/// nothing continues: its first two physical lines, and the second is one logical header.
proof fn lemma_two_lines(first: Seq<u8>, header: Seq<u8>, rest: Seq<u8>)
    requires
        first.len() > 0,
        forall|j: int| 0 <= j < first.len() ==> first[j] != 13u8 && first[j] != 10u8,
        header.len() > 0,
        !is_wsp(header[0]),
        forall|j: int| 0 <= j < header.len() ==> header[j] != 13u8 && header[j] != 10u8,
        rest.len() == 0 || !is_wsp(rest[0]),
    ensures
        ({
            let m = first + crlf() + header + crlf() + rest;
            let lines = physical_lines(m);
            &&& lines.len() >= 2
            &&& text_of(m, lines[0]) == first
            &&& text_of(m, lines[1]) == header
            &&& terminator_of(m, lines[1]) == crlf()
            &&& continuation_end(m, lines, 1) == 1
            &&& continuation_end(m, lines, 2) == 2
        }),
{
    let m = first + crlf() + header + crlf() + rest;
    let f = first.len() as int;
    let p = f + 2;
    let q = p + header.len();
    assert forall|j: int| 0 <= j < f implies m[j] != 13u8 && m[j] != 10u8 by {
        assert(m[j] == first[j]);
    }
    assert(m[f] == 13u8 && m[f + 1] == 10u8);
    lemma_line_through(m, 0, 0, f);
    assert forall|j: int| p <= j < q implies m[j] != 13u8 && m[j] != 10u8 by {
        assert(m[j] == header[j - p]);
    }
    assert(m[q] == 13u8 && m[q + 1] == 10u8);
    lemma_line_through(m, p, p, q);
    let tail = lines_from(m, q + 2, q + 2);
    let lines = physical_lines(m);
    assert(lines == seq![(0int, f, f + 2)] + (seq![(p, q, q + 2)] + tail));
    assert(lines[0] == (0int, f, f + 2));
    assert(lines[1] == (p, q, q + 2));
    assert(text_of(m, lines[0]) =~= first);
    assert(text_of(m, lines[1]) =~= header);
    assert(terminator_of(m, lines[1]) =~= crlf());
    assert(text_of(m, lines[1])[0] == header[0]);
    assert(continuation_end(m, lines, 1) == 1);
    if q + 2 < m.len() {
        lemma_first_line_starts(m, q + 2, q + 2);
        lemma_lines_from_in(m, q + 2, q + 2);
        assert(lines[2] == tail[0]);
        assert(m[q + 2] == rest[0]);
        let t = text_of(m, lines[2]);
        if t.len() > 0 {
            assert(t[0] == m[q + 2]);
        }
    } else {
        assert(tail.len() == 0);
    }
    assert(continuation_end(m, lines, 2) == 2);
}

/// A name and parameters with no line break, around `: Digest `, have none.
proof fn lemma_lead_on_one_line(name: Seq<u8>, params: Seq<u8>)
    requires
        forall|j: int| 0 <= j < name.len() ==> name[j] != 13u8 && name[j] != 10u8,
        forall|j: int| 0 <= j < params.len() ==> params[j] != 13u8 && params[j] != 10u8,
    ensures
        ({
            let x = name + digest_lead() + params;
            forall|j: int| 0 <= j < x.len() ==> x[j] != 13u8 && x[j] != 10u8
        }),
{
    let x = name + digest_lead() + params;
    assert forall|j: int| 0 <= j < x.len() implies x[j] != 13u8 && x[j] != 10u8 by {
        if j < name.len() {
            assert(x[j] == name[j]);
        } else if j < name.len() + 9 {
            assert(x[j] == digest_lead()[j - name.len()]);
        } else {
            assert(x[j] == params[j - name.len() - 9]);
        }
    }
}

/// Neither CR nor LF in any part, none in the header.
proof fn lemma_header_on_one_line(x: Seq<u8>, value: Seq<u8>, after: Seq<u8>)
    requires
        forall|j: int| 0 <= j < x.len() ==> x[j] != 13u8 && x[j] != 10u8,
        forall|j: int| 0 <= j < value.len() ==> value[j] != 13u8 && value[j] != 10u8,
        forall|j: int| 0 <= j < after.len() ==> after[j] != 13u8 && after[j] != 10u8,
    ensures
        ({
            let header = x + response_name() + seq![61u8, 34u8] + value + seq![34u8] + after;
            forall|j: int| 0 <= j < header.len() ==> header[j] != 13u8 && header[j] != 10u8
        }),
{
    let header = x + response_name() + seq![61u8, 34u8] + value + seq![34u8] + after;
    assert forall|j: int| 0 <= j < header.len() implies header[j] != 13u8 && header[j] != 10u8 by {
        let a = x.len() as int;
        if j < a {
            assert(header[j] == x[j]);
        } else if j < a + 10 {
        } else if j < a + 10 + value.len() {
            assert(header[j] == value[j - a - 10]);
        } else if j == a + 10 + value.len() {
        } else {
            assert(header[j] == after[j - a - 11 - value.len()]);
        }
    }
}

/// **A digest response never survives redaction, in a whole message.** A message whose second
/// line is one of the five authentication headers carrying a `Digest` credential with a
/// non-empty quoted `response` is redacted, and the redacted message holds that header with the
/// value replaced by `REDACTED` and every other byte of it as it was, ended by CRLF.
#[verifier::rlimit(50)]
pub proof fn a_message_with_a_digest_response_is_redacted(
    first: Seq<u8>,
    name: Seq<u8>,
    params: Seq<u8>,
    value: Seq<u8>,
    after: Seq<u8>,
    rest: Seq<u8>,
)
    requires
        first.len() > 0,
        forall|j: int| 0 <= j < first.len() ==> first[j] != 13u8 && first[j] != 10u8,
        forall|j: int| 0 <= j < name.len() ==> name[j] != 58u8 && name[j] != 13u8 && name[j] != 10u8,
        names_an_auth_header(lower_seq(name)),
        params.len() == 0 || params.last() == 32u8 || params.last() == 44u8 || params.last() == 59u8,
        forall|j: int| 0 <= j < params.len() ==> params[j] != 13u8 && params[j] != 10u8,
        free_of_credential_names(name + digest_lead() + params),
        free_of_credential_names(after),
        forall|j: int| 0 <= j < after.len() ==> after[j] != 13u8 && after[j] != 10u8,
        value.len() > 0,
        value != marker(),
        forall|j: int|
            0 <= j < value.len() ==> value[j] != 34u8 && value[j] != 92u8 && value[j] != 13u8
                && value[j] != 10u8,
        rest.len() == 0 || !is_wsp(rest[0]),
    ensures
        ({
            let header = name + digest_lead() + params + response_name() + seq![61u8, 34u8] + value
                + seq![34u8] + after;
            let m = first + crlf() + header + crlf() + rest;
            redact_spec(m) matches Some(out) && exists|before: Seq<u8>, later: Seq<u8>|
                out == before + (name + digest_lead() + params + redacted_response() + after) + crlf()
                    + later
        }),
{
    let x = name + digest_lead() + params;
    let header = x + response_name() + seq![61u8, 34u8] + value + seq![34u8] + after;
    let m = first + crlf() + header + crlf() + rest;
    a_digest_response_is_replaced_by_the_marker(name, params, value, after);
    let red = x + redacted_response() + after;
    lemma_auth_name(name);
    assert(forall|j: int| 0 <= j < x.len() ==> x[j] != 13u8 && x[j] != 10u8) by {
        lemma_lead_on_one_line(name, params);
    }
    lemma_header_on_one_line(x, value, after);
    assert(header[0] == name[0]);
    lemma_two_lines(first, header, rest);
    let lines = physical_lines(m);
    assert(unfold(m, lines, 1, 2, seq![32u8]) == header);
    assert(redact_logical_header(m, lines, 1, 2) == Some(red));
    lemma_redact_from_header(m, lines, 1);
    let (rest1, more1) = redact_from(m, lines, 2, false);
    assert(redact_from(m, lines, 1, false) == (red + crlf() + rest1, true));
    lemma_redact_from_header(m, lines, 0);
    let out = redact_from(m, lines, 0, false).0;
    match redact_logical_header(m, lines, 0, 1) {
        Some(r) => {
            assert(out == (r + crlf()) + red + crlf() + rest1);
        },
        None => {
            assert(out == original_span(m, lines, 0, 1) + red + crlf() + rest1);
        },
    }
}


/// Scanning a run of bytes that are not spaces or tabs stops at the blank that ends it.
proof fn lemma_find_wsp_through(s: Seq<u8>, from: int, to: int)
    requires
        0 <= from <= to < s.len(),
        forall|j: int| from <= j < to ==> !is_wsp(#[trigger] s[j]),
        is_wsp(s[to]),
    ensures
        find_wsp(s, from) == to,
    decreases to - from,
{
    if from < to {
        lemma_find_wsp_through(s, from + 1, to);
    }
}

/// **An opaque credential never survives redaction.** In any of the five authentication
/// headers, whatever the case of its name, a `Bearer` or `Basic` credential is replaced whole:
/// everything after the scheme becomes ` REDACTED`.
#[verifier::rlimit(30)]
pub proof fn an_opaque_credential_is_replaced_whole(name: Seq<u8>, scheme: Seq<u8>, token: Seq<u8>)
    requires
        forall|j: int| 0 <= j < name.len() ==> name[j] != 58u8,
        names_an_auth_header(lower_seq(name)),
        lower_seq(scheme) == seq![98u8, 101u8, 97u8, 114u8, 101u8, 114u8] || lower_seq(scheme) == seq![
            98u8,
            97u8,
            115u8,
            105u8,
            99u8,
        ],
    ensures
        redact_header_spec(name + seq![58u8, 32u8] + scheme + seq![32u8] + token) == Some(
            name + seq![58u8, 32u8] + scheme + seq![32u8] + marker(),
        ),
{
    let line = name + seq![58u8, 32u8] + scheme + seq![32u8] + token;
    let c = name.len() as int;
    let low = lower_seq(scheme);
    assert(low.len() == scheme.len());
    assert forall|j: int| 0 <= j < c implies line[j] != 58u8 by {
        assert(line[j] == name[j]);
    }
    assert(line[c] == 58u8);
    lemma_first_index_of(line, 58u8, c);
    assert(line.take(c) =~= name);
    lemma_auth_name(name);
    assert(header_name(line) == Some(lower_seq(name)));
    assert(line[c + 1] == 32u8);
    assert forall|j: int| c + 2 <= j < c + 2 + scheme.len() implies !is_wsp(#[trigger] line[j]) by {
        assert(line[j] == scheme[j - c - 2]);
        assert(low[j - c - 2] == lower(scheme[j - c - 2]));
    }
    assert(!is_wsp(line[c + 2])) by {
        assert(line[c + 2] == scheme[0]);
        assert(low[0] == lower(scheme[0]));
    }
    assert(skip_wsp(line, c + 2) == c + 2);
    assert(skip_wsp(line, c + 1) == c + 2);
    let e = c + 2 + scheme.len();
    assert(line[e] == 32u8);
    lemma_find_wsp_through(line, c + 2, e);
    assert(line.subrange(c + 2, e) =~= scheme);
    assert(is_opaque_scheme(low));
    assert(line.take(e) =~= name + seq![58u8, 32u8] + scheme);
    assert(marker() == redaction());
    assert(line.take(e) + seq![32u8] + redaction() =~= name + seq![58u8, 32u8] + scheme + seq![32u8]
        + marker());
}

} // verus!
