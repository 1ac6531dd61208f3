//! Byte-level text helpers shared by the parsers: ASCII case folding, whitespace, searching.

use vstd::prelude::*;

verus! {

/// ASCII lowercase of one byte; every other byte is unchanged.
pub open spec fn lower(b: u8) -> u8 {
    if 65 <= b <= 90 {
        (b + 32) as u8
    } else {
        b
    }
}

/// ASCII lowercase of a byte string.
pub open spec fn lower_seq(s: Seq<u8>) -> Seq<u8> {
    s.map_values(|b: u8| lower(b))
}

/// Whether two byte strings are equal ignoring ASCII case.
pub open spec fn eq_ci(a: Seq<u8>, b: Seq<u8>) -> bool {
    a.len() == b.len() && forall|i: int| 0 <= i < a.len() ==> lower(#[trigger] a[i]) == lower(b[i])
}

/// A space or a horizontal tab.
pub open spec fn is_wsp(b: u8) -> bool {
    b == 32 || b == 9
}

/// What `u8::is_ascii_whitespace` accepts: space, tab, line feed, form feed, carriage return.
pub open spec fn is_ascii_ws(b: u8) -> bool {
    b == 32 || b == 9 || b == 10 || b == 12 || b == 13
}

/// The index of the first byte of `s` at or after `from` that is not ASCII whitespace, or
/// `s.len()`.
pub open spec fn skip_ascii_ws(s: Seq<u8>, from: int) -> int
    decreases s.len() - from,
{
    if from < 0 || from >= s.len() {
        from
    } else if is_ascii_ws(s[from]) {
        skip_ascii_ws(s, from + 1)
    } else {
        from
    }
}

/// `s` without leading ASCII whitespace.
pub open spec fn trim_start(s: Seq<u8>) -> Seq<u8> {
    s.skip(skip_ascii_ws(s, 0))
}

/// How many bytes of `s` remain after trailing ASCII whitespace is removed.
pub open spec fn trimmed_end_len(s: Seq<u8>) -> int
    decreases s.len(),
{
    if s.len() == 0 {
        0
    } else if is_ascii_ws(s.last()) {
        trimmed_end_len(s.drop_last())
    } else {
        s.len() as int
    }
}

/// `s` without trailing ASCII whitespace.
pub open spec fn trim_end(s: Seq<u8>) -> Seq<u8> {
    s.take(trimmed_end_len(s))
}

/// `s` without leading or trailing ASCII whitespace.
pub open spec fn trim(s: Seq<u8>) -> Seq<u8> {
    trim_end(trim_start(s))
}

/// The first index of `b` in `s`, if it occurs.
pub open spec fn first_index_of(s: Seq<u8>, b: u8) -> Option<int>
    decreases s.len(),
{
    if s.len() == 0 {
        None
    } else if s.last() == b && first_index_of(s.drop_last(), b) is None {
        Some(s.len() - 1)
    } else {
        first_index_of(s.drop_last(), b)
    }
}

/// Whether `n` occurs in `h` at `at`, ignoring ASCII case.
pub open spec fn matches_ci_at(h: Seq<u8>, n: Seq<u8>, at: int) -> bool {
    0 <= at && at + n.len() <= h.len() && eq_ci(h.subrange(at, at + n.len()), n)
}

/// Whether `n` occurs in `h` at `at`, exactly.
pub open spec fn matches_at(h: Seq<u8>, n: Seq<u8>, at: int) -> bool {
    0 <= at && at + n.len() <= h.len() && h.subrange(at, at + n.len()) == n
}

/// The first position at or after `from` where `n` occurs in `h` ignoring case; nothing for an
/// empty needle.
pub open spec fn find_ci(h: Seq<u8>, n: Seq<u8>, from: int) -> Option<int>
    decreases h.len() - from,
{
    if n.len() == 0 || from < 0 || from + n.len() > h.len() {
        None
    } else if matches_ci_at(h, n, from) {
        Some(from)
    } else {
        find_ci(h, n, from + 1)
    }
}

/// The first position at or after `from` where `n` occurs in `h` exactly; nothing for an empty
/// needle.
pub open spec fn find_exact(h: Seq<u8>, n: Seq<u8>, from: int) -> Option<int>
    decreases h.len() - from,
{
    if n.len() == 0 || from < 0 || from + n.len() > h.len() {
        None
    } else if matches_at(h, n, from) {
        Some(from)
    } else {
        find_exact(h, n, from + 1)
    }
}

/// ASCII lowercase of one byte.
pub fn to_lower(b: u8) -> (r: u8)
    ensures
        r == lower(b),
{
    if 65 <= b && b <= 90 {
        b + 32
    } else {
        b
    }
}

/// Append `src[from..to]` to `out`.
pub fn push_range(out: &mut Vec<u8>, src: &[u8], from: usize, to: usize)
    requires
        from <= to <= src@.len(),
    ensures
        final(out)@ == old(out)@ + src@.subrange(from as int, to as int),
{
    let mut i = from;
    while i < to
        invariant
            from <= i <= to <= src@.len(),
            out@ == old(out)@ + src@.subrange(from as int, i as int),
        decreases to - i,
    {
        out.push(src[i]);
        proof {
            assert(src@.subrange(from as int, i + 1) == src@.subrange(from as int, i as int).push(
                src@[i as int],
            ));
        }
        i = i + 1;
    }
}

/// Append all of `src` to `out`.
pub fn push_all(out: &mut Vec<u8>, src: &[u8])
    ensures
        final(out)@ == old(out)@ + src@,
{
    push_range(out, src, 0, src.len());
    proof {
        assert(src@.subrange(0, src@.len() as int) == src@);
    }
}

/// A copy of `src[from..to]`.
pub fn copy_range(src: &[u8], from: usize, to: usize) -> (r: Vec<u8>)
    requires
        from <= to <= src@.len(),
    ensures
        r@ == src@.subrange(from as int, to as int),
{
    let mut out: Vec<u8> = Vec::new();
    push_range(&mut out, src, from, to);
    proof {
        assert(Seq::<u8>::empty() + src@.subrange(from as int, to as int) == src@.subrange(
            from as int,
            to as int,
        ));
    }
    out
}

/// Whether `a` and `b` hold the same bytes.
pub fn bytes_eq(a: &[u8], b: &[u8]) -> (r: bool)
    ensures
        r == (a@ == b@),
{
    if a.len() != b.len() {
        return false;
    }
    let mut i: usize = 0;
    while i < a.len()
        invariant
            a@.len() == b@.len(),
            i <= a@.len(),
            forall|j: int| 0 <= j < i ==> a@[j] == b@[j],
        decreases a.len() - i,
    {
        if a[i] != b[i] {
            return false;
        }
        i = i + 1;
    }
    proof {
        assert(a@ =~= b@);
    }
    true
}

/// Whether `a` and `b` are equal ignoring ASCII case.
pub fn eq_ci_exec(a: &[u8], b: &[u8]) -> (r: bool)
    ensures
        r == eq_ci(a@, b@),
{
    if a.len() != b.len() {
        return false;
    }
    let r = matches_ci_at_exec(a, b, 0);
    proof {
        assert(a@.subrange(0, b@.len() as int) =~= a@);
    }
    r
}

/// Whether `n` occurs in `h` at `at`, ignoring ASCII case.
pub fn matches_ci_at_exec(h: &[u8], n: &[u8], at: usize) -> (r: bool)
    ensures
        r == matches_ci_at(h@, n@, at as int),
{
    if at > h.len() || n.len() > h.len() - at {
        return false;
    }
    let mut i: usize = 0;
    while i < n.len()
        invariant
            at + n@.len() <= h.len(),
            i <= n@.len(),
            forall|j: int| 0 <= j < i ==> lower(h@[at + j]) == lower(n@[j]),
        decreases n.len() - i,
    {
        if to_lower(h[at + i]) != to_lower(n[i]) {
            proof {
                let w = h@.subrange(at as int, at + n@.len());
                assert(lower(w[i as int]) != lower(n@[i as int]));
            }
            return false;
        }
        i = i + 1;
    }
    proof {
        let w = h@.subrange(at as int, at + n@.len());
        assert forall|j: int| 0 <= j < w.len() implies lower(#[trigger] w[j]) == lower(n@[j]) by {
            assert(w[j] == h@[at + j]);
        }
    }
    true
}

/// Whether `n` occurs in `h` at `at`, exactly.
pub fn matches_at_exec(h: &[u8], n: &[u8], at: usize) -> (r: bool)
    ensures
        r == matches_at(h@, n@, at as int),
{
    if at > h.len() || n.len() > h.len() - at {
        return false;
    }
    let mut i: usize = 0;
    while i < n.len()
        invariant
            at + n@.len() <= h.len(),
            i <= n@.len(),
            forall|j: int| 0 <= j < i ==> h@[at + j] == n@[j],
        decreases n.len() - i,
    {
        if h[at + i] != n[i] {
            proof {
                let w = h@.subrange(at as int, at + n@.len());
                assert(w[i as int] != n@[i as int]);
            }
            return false;
        }
        i = i + 1;
    }
    proof {
        assert(h@.subrange(at as int, at + n@.len()) =~= n@);
    }
    true
}

/// The first position at or after `from` where `n` occurs in `h`, ignoring ASCII case.
pub fn find_ci_exec(h: &[u8], n: &[u8], from: usize) -> (r: Option<usize>)
    ensures
        r matches Some(p) ==> find_ci(h@, n@, from as int) == Some(p as int),
        r is None ==> find_ci(h@, n@, from as int) is None,
{
    if n.len() == 0 {
        return None;
    }
    let mut at = from;
    while at <= h.len() && n.len() <= h.len() - at
        invariant
            n@.len() > 0,
            from <= at,
            find_ci(h@, n@, from as int) == find_ci(h@, n@, at as int),
        decreases h.len() - at,
    {
        if matches_ci_at_exec(h, n, at) {
            return Some(at);
        }
        at = at + 1;
    }
    None
}

/// The first position at or after `from` where `n` occurs in `h`, exactly.
pub fn find_exact_exec(h: &[u8], n: &[u8], from: usize) -> (r: Option<usize>)
    ensures
        r matches Some(p) ==> find_exact(h@, n@, from as int) == Some(p as int),
        r is None ==> find_exact(h@, n@, from as int) is None,
{
    if n.len() == 0 {
        return None;
    }
    let mut at = from;
    while at <= h.len() && n.len() <= h.len() - at
        invariant
            n@.len() > 0,
            from <= at,
            find_exact(h@, n@, from as int) == find_exact(h@, n@, at as int),
        decreases h.len() - at,
    {
        if matches_at_exec(h, n, at) {
            return Some(at);
        }
        at = at + 1;
    }
    None
}

/// A lowercase copy of `s`.
pub fn lowercase(s: &[u8]) -> (r: Vec<u8>)
    ensures
        r@ == lower_seq(s@),
{
    let mut out: Vec<u8> = Vec::new();
    let mut i: usize = 0;
    while i < s.len()
        invariant
            i <= s@.len(),
            out@ == lower_seq(s@.take(i as int)),
        decreases s.len() - i,
    {
        out.push(to_lower(s[i]));
        proof {
            assert(lower_seq(s@.take(i + 1)) =~= lower_seq(s@.take(i as int)).push(lower(s@[i as int])));
        }
        i = i + 1;
    }
    proof {
        assert(s@.take(s@.len() as int) =~= s@);
    }
    out
}

/// The first index at or after `from` that is not ASCII whitespace, or `s.len()`.
pub fn skip_ascii_ws_exec(s: &[u8], from: usize) -> (r: usize)
    requires
        from <= s@.len(),
    ensures
        r == skip_ascii_ws(s@, from as int),
        from <= r <= s@.len(),
{
    let mut i = from;
    while i < s.len() && (s[i] == 32 || s[i] == 9 || s[i] == 10 || s[i] == 12 || s[i] == 13)
        invariant
            from <= i <= s@.len(),
            skip_ascii_ws(s@, from as int) == skip_ascii_ws(s@, i as int),
        decreases s.len() - i,
    {
        i = i + 1;
    }
    i
}

/// The first index of `b` in `s`.
pub fn position_of(s: &[u8], b: u8) -> (r: Option<usize>)
    ensures
        r matches Some(p) ==> first_index_of(s@, b) == Some(p as int),
        r is None ==> first_index_of(s@, b) is None,
{
    let mut i: usize = 0;
    while i < s.len()
        invariant
            i <= s@.len(),
            forall|j: int| 0 <= j < i ==> s@[j] != b,
        decreases s.len() - i,
    {
        if s[i] == b {
            proof {
                lemma_first_index_of(s@, b, i as int);
            }
            return Some(i);
        }
        i = i + 1;
    }
    proof {
        lemma_first_index_absent(s@, b);
    }
    None
}

/// The first occurrence is the earliest index holding `b`.
pub proof fn lemma_first_index_of(s: Seq<u8>, b: u8, i: int)
    requires
        0 <= i < s.len(),
        s[i] == b,
        forall|j: int| 0 <= j < i ==> s[j] != b,
    ensures
        first_index_of(s, b) == Some(i),
    decreases s.len(),
{
    if i == s.len() - 1 {
        lemma_first_index_absent(s.drop_last(), b);
    } else {
        lemma_first_index_of(s.drop_last(), b, i);
    }
}

/// With no occurrence there is no first one, and with a first one it is an occurrence.
pub proof fn lemma_first_index_absent(s: Seq<u8>, b: u8)
    ensures
        (forall|j: int| 0 <= j < s.len() ==> s[j] != b) <==> first_index_of(s, b) is None,
        first_index_of(s, b) matches Some(p) ==> 0 <= p < s.len() && s[p] == b && forall|j: int|
            0 <= j < p ==> s[j] != b,
    decreases s.len(),
{
    if s.len() > 0 {
        let r = s.drop_last();
        lemma_first_index_absent(r, b);
        assert forall|j: int| 0 <= j < r.len() implies r[j] == s[j] by {}
        if first_index_of(s, b) is None {
            assert forall|j: int| 0 <= j < s.len() implies s[j] != b by {
                if j < r.len() {
                    assert(r[j] == s[j]);
                }
            }
        }
        if exists|j: int| 0 <= j < s.len() && s[j] == b {
            let j = choose|j: int| 0 <= j < s.len() && s[j] == b;
            if j < r.len() {
                assert(r[j] == b);
            }
        }
    }
}

/// The decimal digits of `n`, most significant first, with no leading zeros.
pub open spec fn decimal(n: nat) -> Seq<u8>
    decreases n,
{
    if n < 10 {
        seq![(48 + n) as u8]
    } else {
        decimal(n / 10).push((48 + n % 10) as u8)
    }
}

/// Append the decimal digits of `n` to `out`.
pub fn push_decimal(out: &mut Vec<u8>, n: u64)
    ensures
        final(out)@ == old(out)@ + decimal(n as nat),
    decreases n,
{
    if n >= 10 {
        push_decimal(out, n / 10);
    }
    let ghost before = out@;
    out.push(48u8 + (n % 10) as u8);
    proof {
        if n >= 10 {
            assert(before + decimal(n as nat) =~= (before + decimal((n / 10) as nat)).push(
                (48 + n % 10) as u8,
            ));
        } else {
            assert(before + decimal(n as nat) =~= before.push((48 + n % 10) as u8));
        }
    }
}

/// Whether a byte is an ASCII digit.
pub open spec fn is_digit(b: u8) -> bool {
    48 <= b <= 57
}

/// Whether every byte is an ASCII digit.
pub open spec fn all_digits(s: Seq<u8>) -> bool {
    forall|i: int| 0 <= i < s.len() ==> is_digit(#[trigger] s[i])
}

/// The value of a string of decimal digits.
pub open spec fn digits_value(s: Seq<u8>) -> nat
    decreases s.len(),
{
    if s.len() == 0 {
        0
    } else {
        digits_value(s.drop_last()) * 10 + (s.last() - 48) as nat
    }
}

/// What `u16::from_str` accepts: an optional `+`, then one or more ASCII digits whose value fits.
pub open spec fn parse_u16_spec(s: Seq<u8>) -> Option<u16> {
    let digits = if s.len() > 0 && s[0] == 43 {
        s.drop_first()
    } else {
        s
    };
    if digits.len() > 0 && all_digits(digits) && digits_value(digits) <= u16::MAX {
        Some(digits_value(digits) as u16)
    } else {
        None
    }
}

proof fn lemma_digits_value_grows(s: Seq<u8>, n: int)
    requires
        0 <= n <= s.len(),
        forall|i: int| 0 <= i < s.len() ==> is_digit(#[trigger] s[i]),
    ensures
        digits_value(s.take(n)) <= digits_value(s),
    decreases s.len() - n,
{
    if n < s.len() {
        lemma_digits_value_grows(s, n + 1);
        assert(s.take(n + 1).drop_last() =~= s.take(n));
    } else {
        assert(s.take(n) =~= s);
    }
}

/// A port number or other 16-bit value written in decimal, as `u16::from_str` reads it.
pub fn parse_u16(s: &[u8]) -> (r: Option<u16>)
    ensures
        r == parse_u16_spec(s@),
{
    let start: usize = if s.len() > 0 && s[0] == 43u8 {
        1
    } else {
        0
    };
    let ghost digits = if s@.len() > 0 && s@[0] == 43 {
        s@.drop_first()
    } else {
        s@
    };
    proof {
        assert(digits =~= s@.skip(start as int));
    }
    if start >= s.len() {
        return None;
    }
    let mut value: u32 = 0;
    let mut i = start;
    while i < s.len()
        invariant
            start <= i <= s@.len(),
            start < s@.len(),
            digits == s@.skip(start as int),
            digits == (if s@.len() > 0 && s@[0] == 43 {
                s@.drop_first()
            } else {
                s@
            }),
            forall|j: int| 0 <= j < i - start ==> is_digit(#[trigger] digits[j]),
            value == digits_value(digits.take(i - start)),
            value <= u16::MAX,
        decreases s.len() - i,
    {
        let b = s[i];
        if b < 48u8 || b > 57u8 {
            proof {
                assert(digits[i - start] == b);
                assert(!is_digit(digits[i - start]));
                assert(!all_digits(digits));
            }
            return None;
        }
        proof {
            assert(digits.take(i - start + 1).drop_last() =~= digits.take(i - start));
            assert(digits.take(i - start + 1).last() == b);
        }
        let next = value * 10 + (b - 48u8) as u32;
        proof {
            assert(digits[i - start] == b);
            assert(digits_value(digits.take(i - start + 1)) == next);
        }
        if next > 65535 {
            proof {
                assert forall|j: int| 0 <= j < i - start + 1 implies is_digit(
                    #[trigger] digits.take(i - start + 1)[j],
                ) by {}
                if all_digits(digits) {
                    lemma_digits_value_grows(digits, i - start + 1);
                }
            }
            return None;
        }
        value = next;
        i = i + 1;
    }
    proof {
        assert(digits.take(i - start) =~= digits);
    }
    Some(value as u16)
}

/// `s` without leading or trailing ASCII whitespace.
pub fn trim_exec(s: &[u8]) -> (r: Vec<u8>)
    ensures
        r@ == trim(s@),
{
    let start = skip_ascii_ws_exec(s, 0);
    let mut end = s.len();
    let ghost t = s@.skip(start as int);
    proof {
        assert(trim_start(s@) == t);
        assert(t.take(end - start) =~= t);
    }
    while end > start && (s[end - 1] == 32 || s[end - 1] == 9 || s[end - 1] == 10 || s[end - 1] == 12
        || s[end - 1] == 13)
        invariant
            start <= end <= s@.len(),
            start == skip_ascii_ws(s@, 0),
            t == s@.skip(start as int),
            trimmed_end_len(t) == trimmed_end_len(t.take(end - start)),
        decreases end,
    {
        proof {
            assert(t.take(end - start).drop_last() =~= t.take(end - start - 1));
            assert(t.take(end - start).last() == s@[end - 1]);
        }
        end = end - 1;
    }
    proof {
        if end > start {
            assert(t.take(end - start).last() == s@[end - 1]);
        }
        assert(t.take(t.len() as int) =~= t);
    }
    let r = copy_range(s, start, end);
    proof {
        assert(trimmed_end_len(t) == end - start);
        assert(r@ =~= t.take(end - start));
    }
    r
}

/// What `usize::from_str` accepts: an optional `+`, then one or more ASCII digits whose value fits.
pub open spec fn parse_usize_spec(s: Seq<u8>) -> Option<usize> {
    let digits = if s.len() > 0 && s[0] == 43 {
        s.drop_first()
    } else {
        s
    };
    if digits.len() > 0 && all_digits(digits) && digits_value(digits) <= usize::MAX {
        Some(digits_value(digits) as usize)
    } else {
        None
    }
}

/// A length written in decimal, as `usize::from_str` reads it.
pub fn parse_usize(s: &[u8]) -> (r: Option<usize>)
    ensures
        r == parse_usize_spec(s@),
{
    let start: usize = if s.len() > 0 && s[0] == 43u8 {
        1
    } else {
        0
    };
    let ghost digits = if s@.len() > 0 && s@[0] == 43 {
        s@.drop_first()
    } else {
        s@
    };
    proof {
        assert(digits =~= s@.skip(start as int));
    }
    if start >= s.len() {
        return None;
    }
    let mut value: usize = 0;
    let mut i = start;
    while i < s.len()
        invariant
            start <= i <= s@.len(),
            start < s@.len(),
            digits == s@.skip(start as int),
            digits == (if s@.len() > 0 && s@[0] == 43 {
                s@.drop_first()
            } else {
                s@
            }),
            forall|j: int| 0 <= j < i - start ==> is_digit(#[trigger] digits[j]),
            value == digits_value(digits.take(i - start)),
        decreases s.len() - i,
    {
        let b = s[i];
        if b < 48u8 || b > 57u8 {
            proof {
                assert(digits[i - start] == b);
                assert(!is_digit(digits[i - start]));
                assert(!all_digits(digits));
            }
            return None;
        }
        proof {
            assert(digits.take(i - start + 1).drop_last() =~= digits.take(i - start));
            assert(digits.take(i - start + 1).last() == b);
            assert(digits[i - start] == b);
        }
        let next = match value.checked_mul(10) {
            Some(t) => t.checked_add((b - 48u8) as usize),
            None => None,
        };
        match next {
            Some(n) => {
                value = n;
            },
            None => {
                proof {
                    assert(digits_value(digits.take(i - start + 1)) > usize::MAX);
                    if all_digits(digits) {
                        lemma_digits_value_grows(digits, i - start + 1);
                    }
                }
                return None;
            },
        }
        i = i + 1;
    }
    proof {
        assert(digits.take(i - start) =~= digits);
    }
    Some(value)
}

/// One character appended to a string, by `String::push`.
#[verifier::external_body]
pub(crate) fn push_char(s: &mut String, c: char)
    ensures
        final(s)@ == old(s)@.push(c),
{
    s.push(c);
}

/// Bytes read as characters one for one, as ASCII text is.
pub open spec fn ascii_chars(bytes: Seq<u8>) -> Seq<char> {
    bytes.map_values(|b: u8| b as char)
}

/// A string holding these bytes as characters, one for one.
pub fn ascii_string(bytes: &[u8]) -> (r: String)
    ensures
        r@ == ascii_chars(bytes@),
{
    let mut out = String::new();
    let mut i: usize = 0;
    while i < bytes.len()
        invariant
            i <= bytes@.len(),
            out@ == ascii_chars(bytes@.take(i as int)),
        decreases bytes.len() - i,
    {
        push_char(&mut out, bytes[i] as char);
        proof {
            assert(ascii_chars(bytes@.take(i + 1)) =~= ascii_chars(bytes@.take(i as int)).push(
                bytes@[i as int] as char,
            ));
        }
        i = i + 1;
    }
    proof {
        assert(bytes@.take(i as int) =~= bytes@);
    }
    out
}

/// A lowercase hexadecimal digit.
pub open spec fn hex_digit(d: int) -> u8 {
    if d < 10 {
        (48 + d) as u8
    } else {
        (87 + d) as u8
    }
}

/// The last `n` hexadecimal digits of `v`, most significant first, zero-padded.
pub open spec fn hex_fixed(v: nat, n: nat) -> Seq<u8>
    decreases n,
{
    if n == 0 {
        Seq::empty()
    } else {
        hex_fixed(v / 16, (n - 1) as nat).push(hex_digit((v % 16) as int))
    }
}

/// A 64-bit value as sixteen lowercase hexadecimal digits, as `{:016x}` writes it.
pub fn push_hex16(out: &mut Vec<u8>, v: u64)
    ensures
        final(out)@ == old(out)@ + hex_fixed(v as nat, 16),
{
    let mut digits: [u8; 16] = [0u8; 16];
    let mut rest = v;
    let mut k: usize = 16;
    proof {
        assert(digits@.skip(16) =~= Seq::<u8>::empty());
        assert(hex_fixed(v as nat, 16) =~= hex_fixed(v as nat, 16) + Seq::<u8>::empty());
    }
    while k > 0
        invariant
            k <= 16,
            hex_fixed(v as nat, 16) == hex_fixed(rest as nat, k as nat) + digits@.skip(k as int),
        decreases k,
    {
        let d = rest % 16;
        let c: u8 = if d < 10 {
            48 + d as u8
        } else {
            87 + d as u8
        };
        let ghost old_digits = digits@;
        digits[k - 1] = c;
        proof {
            assert(c == hex_digit((rest % 16) as int));
            assert(digits@.skip(k - 1) =~= seq![c] + old_digits.skip(k as int));
            assert(hex_fixed(rest as nat, k as nat) == hex_fixed((rest / 16) as nat, (k - 1) as nat).push(c));
            assert(hex_fixed((rest / 16) as nat, (k - 1) as nat).push(c) + old_digits.skip(k as int)
                =~= hex_fixed((rest / 16) as nat, (k - 1) as nat) + (seq![c] + old_digits.skip(k as int)));
        }
        rest = rest / 16;
        k = k - 1;
    }
    proof {
        assert(digits@.skip(0) =~= digits@);
        assert(hex_fixed(rest as nat, 0) =~= Seq::<u8>::empty());
        assert(hex_fixed(v as nat, 16) =~= digits@);
    }
    push_all(out, &digits);
}

/// Sixteen to the `n`.
pub open spec fn pow16(n: nat) -> nat
    decreases n,
{
    if n == 0 {
        1
    } else {
        16 * pow16((n - 1) as nat)
    }
}

/// Two values below `16^n` written in `n` hexadecimal digits are written differently.
pub proof fn lemma_hex_fixed_injective(v: nat, w: nat, n: nat)
    requires
        v < pow16(n),
        w < pow16(n),
        hex_fixed(v, n) == hex_fixed(w, n),
    ensures
        v == w,
    decreases n,
{
    if n > 0 {
        let a = hex_fixed(v, n);
        let b = hex_fixed(w, n);
        assert(a.drop_last() =~= hex_fixed(v / 16, (n - 1) as nat));
        assert(b.drop_last() =~= hex_fixed(w / 16, (n - 1) as nat));
        assert(a.last() == hex_digit((v % 16) as int));
        assert(b.last() == hex_digit((w % 16) as int));
        assert(v % 16 == w % 16);
        let p = pow16((n - 1) as nat);
        assert(v / 16 < p) by (nonlinear_arith)
            requires
                v < 16 * p,
        ;
        assert(w / 16 < p) by (nonlinear_arith)
            requires
                w < 16 * p,
        ;
        lemma_hex_fixed_injective(v / 16, w / 16, (n - 1) as nat);
        assert(v == 16 * (v / 16) + v % 16) by (nonlinear_arith);
        assert(w == 16 * (w / 16) + w % 16) by (nonlinear_arith);
    }
}

/// `n` digits are `n` long.
pub proof fn lemma_hex_fixed_len(v: nat, n: nat)
    ensures
        hex_fixed(v, n).len() == n,
    decreases n,
{
    if n > 0 {
        lemma_hex_fixed_len(v / 16, (n - 1) as nat);
    }
}

/// Every 64-bit value fits in sixteen hexadecimal digits.
pub proof fn lemma_u64_fits_sixteen_digits(v: u64)
    ensures
        (v as nat) < pow16(16),
{
    reveal_with_fuel(pow16, 17);
    assert(pow16(16) == 0x1_0000_0000_0000_0000);
}

/// Bytes read as characters one for one keep their differences.
pub proof fn lemma_ascii_chars_injective(a: Seq<u8>, b: Seq<u8>)
    requires
        ascii_chars(a) == ascii_chars(b),
    ensures
        a == b,
{
    assert(a.len() == ascii_chars(a).len());
    assert(b.len() == ascii_chars(b).len());
    assert forall|i: int| 0 <= i < a.len() implies a[i] == b[i] by {
        assert(ascii_chars(a)[i] == ascii_chars(b)[i]);
        assert(ascii_chars(a)[i] == a[i] as char);
        assert(ascii_chars(b)[i] == b[i] as char);
        assert((a[i] as char) as int == a[i] as int);
        assert((b[i] as char) as int == b[i] as int);
    }
    assert(a =~= b);
}

} // verus!
