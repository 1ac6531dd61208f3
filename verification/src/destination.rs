//! Bounded outbound destination resolution: the budget a resolution runs under, the identity a
//! secure candidate is verified against, and whose a failure is.
//!
//! **Every resolver states its budget**: a caller holding a short attempt deadline must not start
//! a longer resolution beside it. **The name outlives the address**: every secure candidate is
//! verified against the host the caller named, even when an explicit next hop sends the request
//! elsewhere. **A failure says whose it is**: a zone with no answer, a resolver that never
//! replied, and input refused before any lookup are kept apart.

use vstd::prelude::*;
use crate::addr_text::{ip_text, ip_text_spec};
use crate::dns::{Prefetched, ResolutionError, ResolutionPolicy};
use crate::resolve::{lemma_selected_within, select, selected, sips_never_downgrades, spec_explicit_transport, Rng};
use crate::sip::{Host, SipUri};
use crate::target::{spec_is_secure, spec_parse, spec_token, Target, TransportKind};
use crate::text::{ascii_chars, ascii_string, copy_range, eq_ci, lower};

verus! {

/// The finite serial connection-attempt budget over one resolved candidate list.
pub const MAX_ATTEMPTS: usize = 16;

/// Why no candidate list was produced.
#[derive(Debug, Clone, PartialEq, Eq)]
pub enum Error {
    /// The caller's URI, next hop or transport policy was refused before any lookup.
    Input {
        /// What was wrong with it.
        message: String,
    },
    /// No nameserver client could be built at all.
    Setup {
        /// Why not.
        message: String,
    },
    /// Resolution itself did not produce candidates.
    Resolution(ResolutionError),
}

/// What kind of failure a resolution error is, for a caller that classifies rather than matches.
///
/// A zone with no answer is final; a deadline says nothing about the name at all, and retrying
/// is right.
#[derive(Debug, Clone, Copy, PartialEq, Eq, Hash)]
pub enum Kind {
    /// The caller asked for something impossible, and no lookup was made.
    Input,
    /// No nameserver client could be built, so nothing was asked.
    Setup,
    /// The questions were asked and produced no usable answer.
    Resolution,
    /// A deadline fired first. Not a statement about the name.
    Timeout,
}

/// Which kind of failure an error is.
pub open spec fn kind_of(e: Error) -> Kind {
    match e {
        Error::Input { .. } => Kind::Input,
        Error::Setup { .. } => Kind::Setup,
        Error::Resolution(r) => match r {
            ResolutionError::InvalidTimeout { .. } => Kind::Input,
            ResolutionError::LookupTimeout { .. } | ResolutionError::ResolutionTimeout => Kind::Timeout,
            _ => Kind::Resolution,
        },
    }
}

impl Error {
    /// Which of the four conditions this is.
    pub fn kind(&self) -> (r: Kind)
        ensures
            r == kind_of(*self),
    {
        match self {
            Error::Input { .. } => Kind::Input,
            Error::Setup { .. } => Kind::Setup,
            Error::Resolution(error) => match error {
                ResolutionError::InvalidTimeout { .. } => Kind::Input,
                ResolutionError::LookupTimeout { .. } | ResolutionError::ResolutionTimeout => {
                    Kind::Timeout
                },
                _ => Kind::Resolution,
            },
        }
    }
}

/// A policy narrowed to an attempt's budget: neither deadline may exceed what the attempt has
/// left, never less than a millisecond, and the per-question deadline never exceeds the whole.
pub open spec fn narrowed_spec(policy: ResolutionPolicy, budget: Option<u64>) -> ResolutionPolicy {
    match budget {
        None => policy,
        Some(b) => {
            let ceiling: u64 = if b < 1_000_000 {
                1_000_000
            } else {
                b
            };
            let whole: u64 = if policy.resolution_timeout_nanos < ceiling {
                policy.resolution_timeout_nanos
            } else {
                ceiling
            };
            let each: u64 = if policy.lookup_timeout_nanos < whole {
                policy.lookup_timeout_nanos
            } else {
                whole
            };
            ResolutionPolicy { limits: policy.limits, lookup_timeout_nanos: each, resolution_timeout_nanos: whole }
        },
    }
}

/// The same policy under one attempt's budget, in nanoseconds; `None` states no deadline.
///
/// The budget is pushed down into the policy rather than raced against it, so the deadline
/// that fires is always the resolution's own.
pub fn narrowed(policy: ResolutionPolicy, budget: Option<u64>) -> (r: ResolutionPolicy)
    ensures
        r == narrowed_spec(policy, budget),
        budget matches Some(b) ==> r.resolution_timeout_nanos <= (if b < 1_000_000 {
            1_000_000
        } else {
            b
        }),
        r.lookup_timeout_nanos <= policy.lookup_timeout_nanos,
        budget is Some ==> r.lookup_timeout_nanos <= r.resolution_timeout_nanos,
{
    match budget {
        None => policy,
        Some(b) => {
            let ceiling: u64 = if b < 1_000_000 {
                1_000_000
            } else {
                b
            };
            let whole = if policy.resolution_timeout_nanos < ceiling {
                policy.resolution_timeout_nanos
            } else {
                ceiling
            };
            let each = if policy.lookup_timeout_nanos < whole {
                policy.lookup_timeout_nanos
            } else {
                whole
            };
            ResolutionPolicy { limits: policy.limits, lookup_timeout_nanos: each, resolution_timeout_nanos: whole }
        },
    }
}

/// The URI to resolve for an explicit next hop: the request URI's scheme and transport policy
/// with the next hop's host, and its port where it names one, else the URI's.
pub fn route_uri(uri: &SipUri, host: Host, port: Option<u16>) -> (r: SipUri)
    ensures
        r.secure == uri.secure,
        r.host == Some(host),
        r.port == (if port.is_some() {
            port
        } else {
            uri.port
        }),
        match uri.transport {
            Some(t) => r.transport matches Some(u) && u@ == t@,
            None => r.transport is None,
        },
{
    let port = match port {
        Some(p) => Some(p),
        None => uri.port,
    };
    let transport = match &uri.transport {
        Some(t) => Some(copy_range(t.as_slice(), 0, t.len())),
        None => None,
    };
    SipUri { secure: uri.secure, host: Some(host), port, transport }
}

/// Every secure candidate verified against the host the caller named; the others unchanged.
pub open spec fn with_identity_spec(candidates: Seq<Target>, identity: Seq<char>, out: Seq<Target>) -> bool {
    &&& out.len() == candidates.len()
    &&& forall|i: int|
        0 <= i < candidates.len() ==> {
            &&& (#[trigger] out[i]).addr == candidates[i].addr
            &&& out[i].transport == candidates[i].transport
            &&& spec_is_secure(candidates[i].transport) ==> (out[i].verify_as matches Some(n) && n@
                == identity)
            &&& !spec_is_secure(candidates[i].transport) ==> out[i] == candidates[i]
        }
}

/// Attach the verification identity to every secure candidate.
///
/// The identity is the host the *URI* named, including when a next hop sends the request
/// elsewhere; nothing here derives an identity from a resolved address.
pub fn with_identity(candidates: Vec<Target>, identity: &str) -> (r: Vec<Target>)
    ensures
        with_identity_spec(candidates@, identity@, r@),
{
    let ghost orig = candidates@;
    let mut rest = candidates;
    let mut out: Vec<Target> = Vec::new();
    let ghost mut i: int = 0;
    while rest.len() > 0
        invariant
            0 <= i <= orig.len(),
            rest@ == orig.skip(i),
            out@.len() == i,
            forall|k: int|
                0 <= k < i ==> {
                    &&& (#[trigger] out@[k]).addr == orig[k].addr
                    &&& out@[k].transport == orig[k].transport
                    &&& spec_is_secure(orig[k].transport) ==> (out@[k].verify_as matches Some(n)
                        && n@ == identity@)
                    &&& !spec_is_secure(orig[k].transport) ==> out@[k] == orig[k]
                },
        decreases rest@.len(),
    {
        let target = rest.remove(0);
        proof {
            assert(orig.skip(i).remove(0) =~= orig.skip(i + 1));
            assert(target == orig[i]);
        }
        if target.transport.is_secure() {
            out.push(target.verifying(identity));
        } else {
            out.push(target);
        }
        proof {
            i = i + 1;
        }
    }
    out
}

/// The first candidate, which decides preflight and local-address policy; attempts retain the
/// tail. No candidates at all is the caller's input problem.
pub fn first(candidates: &[Target]) -> (r: Result<&Target, Error>)
    ensures
        candidates@.len() > 0 ==> (r matches Ok(t) && *t == candidates@[0]),
        candidates@.len() == 0 ==> r matches Err(Error::Input { .. }),
{
    if candidates.len() == 0 {
        return Err(Error::Input { message: "target resolution returned no candidates".to_owned() });
    }
    Ok(&candidates[0])
}

/// The identity a URI's candidates are verified against: the host it names, as text; nothing
/// for a URI without a host.
pub open spec fn uri_identity(uri: SipUri) -> Seq<char> {
    match uri.host {
        Some(Host::Name(n)) => n@,
        Some(Host::Ip(ip)) => ascii_chars(ip_text_spec(ip)),
        None => Seq::empty(),
    }
}

/// The identity a URI's candidates are verified against.
fn identity_of(uri: &SipUri) -> (r: String)
    ensures
        r@ == uri_identity(*uri),
{
    match &uri.host {
        Some(Host::Name(n)) => n.clone(),
        Some(Host::Ip(ip)) => {
            let text = ip_text(ip);
            ascii_string(text.as_slice())
        },
        None => String::new(),
    }
}

/// A URI's `transport=` parameter, as bytes.
pub open spec fn transport_view(uri: SipUri) -> Option<Seq<u8>> {
    match uri.transport {
        Some(t) => Some(t@),
        None => None,
    }
}

/// Whether a transport the caller requires contradicts the one the URI names.
pub open spec fn requested_conflicts(uri: SipUri, requested: Option<TransportKind>) -> bool {
    requested matches Some(t) && uri.transport is Some && spec_explicit_transport(uri) != Some(t)
}

/// A copy of a URI.
fn copy_uri(uri: &SipUri) -> (r: SipUri)
    ensures
        r.secure == uri.secure,
        r.host == uri.host,
        r.port == uri.port,
        transport_view(r) == transport_view(*uri),
{
    let host = match &uri.host {
        Some(Host::Ip(ip)) => Some(Host::Ip(*ip)),
        Some(Host::Name(n)) => Some(Host::Name(n.clone())),
        None => None,
    };
    let transport = match &uri.transport {
        Some(t) => Some(copy_range(t.as_slice(), 0, t.len())),
        None => None,
    };
    proof {
        if uri.transport is Some {
            assert(uri.transport.unwrap()@.subrange(0, uri.transport.unwrap()@.len() as int)
                =~= uri.transport.unwrap()@);
        }
    }
    SipUri { secure: uri.secure, host, port: uri.port, transport }
}

/// A URI restricted to the transport a caller requires, which then is what discovery asks
/// about, rather than a filter on the results of a wider search. A URI that names another
/// transport cannot be restricted, and is refused as input.
pub fn with_requested_transport(uri: SipUri, requested: Option<TransportKind>) -> (r: Result<
    SipUri,
    Error,
>)
    ensures
        r is Err <==> requested_conflicts(uri, requested),
        r matches Err(e) ==> e is Input,
        r matches Ok(v) ==> {
            &&& v.secure == uri.secure
            &&& v.host == uri.host
            &&& v.port == uri.port
            &&& transport_view(v) == (match requested {
                Some(t) => Some(spec_token(t)),
                None => transport_view(uri),
            })
            &&& (requested matches Some(t) ==> spec_explicit_transport(v) == Some(t))
        },
{
    match requested {
        None => Ok(uri),
        Some(t) => {
            if let Some(named) = &uri.transport {
                match TransportKind::parse(named.as_slice()) {
                    Some(u) if u == t => {},
                    _ => {
                        return Err(
                            Error::Input {
                                message: "the requested transport contradicts the URI's transport parameter"
                                    .to_owned(),
                            },
                        );
                    },
                }
            }
            let token = t.token();
            proof {
                lemma_token_parses(t);
            }
            Ok(SipUri { secure: uri.secure, host: uri.host, port: uri.port, transport: Some(token) })
        },
    }
}

/// Every transport's token reads back as that transport.
proof fn lemma_token_parses(t: TransportKind)
    ensures
        spec_parse(spec_token(t)) == Some(t),
{
    assert(eq_ci(spec_token(t), spec_token(t)));
    let u = spec_token(TransportKind::Udp);
    let c = spec_token(TransportKind::Tcp);
    let l = spec_token(TransportKind::Tls);
    let w = spec_token(TransportKind::Ws);
    let x = spec_token(TransportKind::Wss);
    assert(!eq_ci(c, u) && !eq_ci(l, u) && !eq_ci(w, u) && !eq_ci(x, u)) by {
        assert(lower(c[0]) != lower(u[0]));
        assert(lower(l[0]) != lower(u[0]));
        assert(lower(w[0]) != lower(u[0]));
        assert(lower(x[0]) != lower(u[0]));
    }
    assert(!eq_ci(l, c) && !eq_ci(w, c) && !eq_ci(x, c)) by {
        assert(lower(l[1]) != lower(c[1]));
    }
    assert(!eq_ci(w, l) && !eq_ci(x, l)) by {
        assert(lower(w[0]) != lower(l[0]));
        assert(lower(x[0]) != lower(l[0]));
    }
    assert(!eq_ci(x, w));
}

/// The candidates for a URI, or for an explicit next hop it must travel through, over answers
/// already in hand (RFC 3263).
///
/// The candidates are the RFC 3263 selection ([`select`]) for the route: the URI itself, or the
/// URI with the next hop's host, and its port where it names one, restricted to the transport
/// the caller requires where it names one. A required transport the URI contradicts is refused
/// as input. The next hop changes neither the scheme nor the identity: every secure candidate
/// is verified as the host the *URI* named, even when the request goes elsewhere, and a `sips:`
/// URI yields no cleartext candidate. Nothing derives an identity from a resolved address.
pub fn route_candidates<G: Rng + ?Sized>(
    uri: &SipUri,
    next_hop: Option<(Host, Option<u16>)>,
    requested: Option<TransportKind>,
    answers: &Prefetched,
    rng: &mut G,
) -> (r: Result<Vec<Target>, Error>)
    ensures
        r is Err <==> requested_conflicts(*uri, requested),
        r matches Err(e) ==> e is Input,
        r matches Ok(v) ==> exists|route: SipUri, base: Seq<Target>|
            {
                &&& route.secure == uri.secure
                &&& route.host == (match next_hop {
                    Some((h, _)) => Some(h),
                    None => uri.host,
                })
                &&& route.port == (match next_hop {
                    Some((_, Some(p))) => Some(p),
                    _ => uri.port,
                })
                &&& transport_view(route) == (match requested {
                    Some(t) => Some(spec_token(t)),
                    None => transport_view(*uri),
                })
                &&& #[trigger] selected(route, *answers, base)
                &&& #[trigger] with_identity_spec(base, uri_identity(*uri), v@)
            },
        uri.secure ==> (r matches Ok(v) ==> forall|i: int|
            0 <= i < v@.len() ==> spec_is_secure(#[trigger] v@[i].transport) && (v@[i].verify_as matches Some(
                n,
            ) && n@ == uri_identity(*uri))),
{
    let identity = identity_of(uri);
    let route = match next_hop {
        Some((host, port)) => route_uri(uri, host, port),
        None => copy_uri(uri),
    };
    proof {
        if uri.transport is Some {
            assert(transport_view(route) == transport_view(*uri));
        }
    }
    let route = match with_requested_transport(route, requested) {
        Ok(r) => r,
        Err(e) => {
            return Err(e);
        },
    };
    let base = select(&route, answers, rng);
    proof {
        lemma_selected_within(route, *answers, base@);
        if uri.secure {
            sips_never_downgrades(route, base@);
        }
    }
    let ghost b = base@;
    let r = with_identity(base, identity.as_str());
    proof {
        if uri.secure {
            assert forall|i: int| 0 <= i < r@.len() implies spec_is_secure(#[trigger] r@[i].transport)
                && (r@[i].verify_as matches Some(n) && n@ == uri_identity(*uri)) by {
                assert(r@[i].transport == b[i].transport);
                assert(spec_is_secure(b[i].transport));
            }
        }
    }
    Ok(r)
}

} // verus!
