//! Addresses written as text, the way a `received` parameter, a capture comment and a
//! certificate check for an address write them.
//!
//! IPv4 is dotted decimal. IPv6 is sixteen-bit groups in lowercase hexadecimal without leading
//! zeros, separated by colons, with the longest run of two or more zero groups (the first, on a
//! tie) written as `::`; an IPv4-mapped address is written `::ffff:` and the dotted IPv4 form.

use vstd::prelude::*;
use crate::addr::{IpAddress, SocketAddress};
use crate::text::{decimal, push_decimal};

verus! {

/// A hexadecimal digit, lowercase.
pub open spec fn hex_digit(d: nat) -> u8 {
    if d < 10 {
        (48 + d) as u8
    } else {
        (87 + d) as u8
    }
}

/// A value in lowercase hexadecimal, without leading zeros.
pub open spec fn hex_text(v: nat) -> Seq<u8>
    decreases v,
{
    if v < 16 {
        seq![hex_digit(v)]
    } else {
        hex_text(v / 16).push(hex_digit(v % 16))
    }
}

/// Groups in hexadecimal, separated by colons.
pub open spec fn groups_text(s: Seq<u16>) -> Seq<u8>
    decreases s.len(),
{
    if s.len() == 0 {
        Seq::empty()
    } else if s.len() == 1 {
        hex_text(s[0] as nat)
    } else {
        groups_text(s.drop_last()).push(58u8) + hex_text(s.last() as nat)
    }
}

/// The eight sixteen-bit groups of an IPv6 address.
pub open spec fn groups_of(o: [u8; 16]) -> Seq<u16> {
    Seq::new(8, |i: int| (o[2 * i] as int * 256 + o[2 * i + 1] as int) as u16)
}

/// The longest run of zero groups from `i` on, given the run in progress (`cs`, `cl`) and the
/// longest so far (`bs`, `bl`); a later run replaces the longest only when it is longer.
pub open spec fn zero_span(s: Seq<u16>, i: int, cs: int, cl: int, bs: int, bl: int) -> (int, int)
    decreases s.len() - i,
{
    if i >= s.len() {
        (bs, bl)
    } else if s[i] == 0 {
        let start = if cl == 0 {
            i
        } else {
            cs
        };
        if cl + 1 > bl {
            zero_span(s, i + 1, start, cl + 1, start, cl + 1)
        } else {
            zero_span(s, i + 1, start, cl + 1, bs, bl)
        }
    } else {
        zero_span(s, i + 1, 0, 0, bs, bl)
    }
}

/// Dotted decimal.
pub open spec fn ipv4_text(o: [u8; 4]) -> Seq<u8> {
    decimal(o[0] as nat).push(46u8) + decimal(o[1] as nat).push(46u8) + decimal(o[2] as nat).push(
        46u8,
    ) + decimal(o[3] as nat)
}

/// Whether an IPv6 address is IPv4-mapped: eighty zero bits, then sixteen ones.
pub open spec fn ipv4_mapped(o: [u8; 16]) -> bool {
    &&& forall|i: int| 0 <= i < 10 ==> o[i] == 0
    &&& o[10] == 0xff
    &&& o[11] == 0xff
}

/// The text of an IPv6 address.
pub open spec fn ipv6_text(o: [u8; 16]) -> Seq<u8> {
    if ipv4_mapped(o) {
        seq![58u8, 58u8, 102u8, 102u8, 102u8, 102u8, 58u8] + ipv4_text([o[12], o[13], o[14], o[15]])
    } else {
        let g = groups_of(o);
        let (start, len) = zero_span(g, 0, 0, 0, 0, 0);
        if len > 1 {
            groups_text(g.subrange(0, start)) + seq![58u8, 58u8] + groups_text(
                g.subrange(start + len, 8),
            )
        } else {
            groups_text(g)
        }
    }
}

/// The text of an address.
pub open spec fn ip_text_spec(ip: IpAddress) -> Seq<u8> {
    match ip {
        IpAddress::V4(o) => ipv4_text(o),
        IpAddress::V6(o) => ipv6_text(o),
    }
}

proof fn lemma_zero_span_bounds(s: Seq<u16>, i: int, cs: int, cl: int, bs: int, bl: int)
    requires
        0 <= i <= s.len(),
        0 <= bl,
        0 <= bs,
        bs + bl <= i,
        0 <= cl,
        cl > 0 ==> cs + cl == i && cs >= 0,
    ensures
        0 <= zero_span(s, i, cs, cl, bs, bl).0,
        0 <= zero_span(s, i, cs, cl, bs, bl).1,
        zero_span(s, i, cs, cl, bs, bl).0 + zero_span(s, i, cs, cl, bs, bl).1 <= s.len(),
    decreases s.len() - i,
{
    if i < s.len() {
        if s[i] == 0 {
            let start = if cl == 0 {
                i
            } else {
                cs
            };
            if cl + 1 > bl {
                lemma_zero_span_bounds(s, i + 1, start, cl + 1, start, cl + 1);
            } else {
                lemma_zero_span_bounds(s, i + 1, start, cl + 1, bs, bl);
            }
        } else {
            lemma_zero_span_bounds(s, i + 1, 0, 0, bs, bl);
        }
    }
}

/// Append a value in lowercase hexadecimal.
fn push_hex(out: &mut Vec<u8>, v: u16)
    ensures
        final(out)@ == old(out)@ + hex_text(v as nat),
    decreases v,
{
    if v >= 16 {
        push_hex(out, v / 16);
    }
    let ghost before = out@;
    let d = (v % 16) as u8;
    let c = if d < 10 {
        48u8 + d
    } else {
        87u8 + d
    };
    out.push(c);
    proof {
        if v >= 16 {
            assert(before + hex_text(v as nat) =~= (before + hex_text((v / 16) as nat)).push(c));
        } else {
            assert(before + hex_text(v as nat) =~= before.push(c));
        }
    }
}

/// Append groups `from..to` in hexadecimal, separated by colons.
fn push_groups(out: &mut Vec<u8>, g: &Vec<u16>, from: usize, to: usize)
    requires
        from <= to <= g@.len(),
    ensures
        final(out)@ == old(out)@ + groups_text(g@.subrange(from as int, to as int)),
{
    let ghost before = out@;
    let mut i = from;
    proof {
        assert(g@.subrange(from as int, from as int) =~= Seq::<u16>::empty());
    }
    while i < to
        invariant
            from <= i <= to <= g@.len(),
            out@ == before + groups_text(g@.subrange(from as int, i as int)),
        decreases to - i,
    {
        let ghost prev = out@;
        if i > from {
            out.push(58u8);
        }
        push_hex(out, g[i]);
        proof {
            let s = g@.subrange(from as int, i + 1);
            assert(s.drop_last() =~= g@.subrange(from as int, i as int));
            if i > from {
                assert(out@ =~= before + groups_text(s));
            } else {
                assert(s =~= seq![g@[i as int]]);
                assert(out@ =~= before + groups_text(s));
            }
        }
        i = i + 1;
    }
}

/// Append dotted decimal.
fn push_ipv4(out: &mut Vec<u8>, o: [u8; 4])
    ensures
        final(out)@ == old(out)@ + ipv4_text(o),
{
    let ghost before = out@;
    push_decimal(out, o[0] as u64);
    out.push(46u8);
    push_decimal(out, o[1] as u64);
    out.push(46u8);
    push_decimal(out, o[2] as u64);
    out.push(46u8);
    push_decimal(out, o[3] as u64);
    proof {
        assert(out@ =~= before + ipv4_text(o));
    }
}

/// An address as text.
pub fn ip_text(ip: &IpAddress) -> (r: Vec<u8>)
    ensures
        r@ == ip_text_spec(*ip),
{
    let mut out: Vec<u8> = Vec::new();
    match ip {
        IpAddress::V4(o) => {
            push_ipv4(&mut out, *o);
            proof {
                assert(out@ =~= ipv4_text(*o));
            }
        },
        IpAddress::V6(o) => {
            let mut mapped = o[10] == 0xff && o[11] == 0xff;
            let mut k: usize = 0;
            while k < 10
                invariant
                    k <= 10,
                    mapped == ((forall|i: int| 0 <= i < k ==> o[i] == 0) && o[10] == 0xff && o[11]
                        == 0xff),
                decreases 10 - k,
            {
                if o[k] != 0 {
                    mapped = false;
                }
                k = k + 1;
            }
            if mapped {
                out.push(58u8);
                out.push(58u8);
                out.push(102u8);
                out.push(102u8);
                out.push(102u8);
                out.push(102u8);
                out.push(58u8);
                push_ipv4(&mut out, [o[12], o[13], o[14], o[15]]);
                proof {
                    assert(out@ =~= ipv6_text(*o));
                }
                return out;
            }
            let mut g: Vec<u16> = Vec::new();
            let mut j: usize = 0;
            while j < 8
                invariant
                    j <= 8,
                    g@.len() == j,
                    forall|i: int| 0 <= i < j ==> g@[i] == groups_of(*o)[i],
                decreases 8 - j,
            {
                g.push((o[2 * j] as u16) * 256 + o[2 * j + 1] as u16);
                j = j + 1;
            }
            proof {
                assert(g@ =~= groups_of(*o));
            }
            let mut cs: usize = 0;
            let mut cl: usize = 0;
            let mut bs: usize = 0;
            let mut bl: usize = 0;
            let mut i: usize = 0;
            while i < 8
                invariant
                    i <= 8,
                    g@.len() == 8,
                    bs + bl <= i,
                    cl > 0 ==> cs + cl == i,
                    cl <= i,
                    zero_span(g@, i as int, cs as int, cl as int, bs as int, bl as int) == zero_span(
                        g@,
                        0,
                        0,
                        0,
                        0,
                        0,
                    ),
                decreases 8 - i,
            {
                if g[i] == 0 {
                    if cl == 0 {
                        cs = i;
                    }
                    cl = cl + 1;
                    if cl > bl {
                        bs = cs;
                        bl = cl;
                    }
                } else {
                    cs = 0;
                    cl = 0;
                }
                i = i + 1;
            }
            proof {
                lemma_zero_span_bounds(g@, 0, 0, 0, 0, 0);
            }
            if bl > 1 {
                push_groups(&mut out, &g, 0, bs);
                out.push(58u8);
                out.push(58u8);
                push_groups(&mut out, &g, bs + bl, 8);
                proof {
                    assert(out@ =~= ipv6_text(*o));
                }
            } else {
                push_groups(&mut out, &g, 0, 8);
                proof {
                    assert(g@.subrange(0, 8) =~= g@);
                    assert(out@ =~= ipv6_text(*o));
                }
            }
        },
    }
    out
}

/// A socket address as text: the address, bracketed for IPv6, a colon, and the port.
pub open spec fn socket_text_spec(addr: SocketAddress) -> Seq<u8> {
    match addr.ip {
        IpAddress::V4(_) => ip_text_spec(addr.ip).push(58u8) + decimal(addr.port as nat),
        IpAddress::V6(_) => (seq![91u8] + ip_text_spec(addr.ip) + seq![93u8, 58u8]) + decimal(
            addr.port as nat,
        ),
    }
}

/// A socket address as text.
pub fn socket_text(addr: &SocketAddress) -> (r: Vec<u8>)
    ensures
        r@ == socket_text_spec(*addr),
{
    let ip = ip_text(&addr.ip);
    let mut out: Vec<u8> = Vec::new();
    let v4 = addr.ip.is_ipv4();
    if !v4 {
        out.push(91u8);
    }
    let mut i: usize = 0;
    while i < ip.len()
        invariant
            i <= ip@.len(),
            out@ == (if v4 {
                Seq::<u8>::empty()
            } else {
                seq![91u8]
            }) + ip@.subrange(0, i as int),
        decreases ip.len() - i,
    {
        out.push(ip[i]);
        i = i + 1;
        proof {
            assert(ip@.subrange(0, i as int) =~= ip@.subrange(0, i - 1).push(ip@[i - 1]));
        }
    }
    if !v4 {
        out.push(93u8);
    }
    out.push(58u8);
    let ghost before = out@;
    push_decimal(&mut out, addr.port as u64);
    proof {
        assert(ip@.subrange(0, ip@.len() as int) =~= ip@);
        assert(out@ =~= socket_text_spec(*addr));
    }
    out
}

} // verus!
