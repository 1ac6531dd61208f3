//! Budgeted DNS resolution for one URI, as a state machine the caller drives.
//!
//! **Every resolution states its budget.** A zero deadline is refused before any question is
//! asked; every question is claimed against the lookup limit before it is asked; every answer is
//! held to its record limit; and once the whole resolution's deadline has passed, nothing more is
//! asked and the resolution fails with [`ResolutionError::ResolutionTimeout`].
//!
//! The caller asks each [`Question`] the machine hands out, waiting at most
//! [`Resolution::wait_for`], and hands back the [`Reply`]. When the machine says
//! [`Step::Done`], [`Resolution::answers`] holds everything selection needs.

use vstd::prelude::*;
use crate::addr::IpAddress;
use crate::dns::{
    claim_lookups, hosts_to_resolve, host_wanted, names_contain, names_distinct, sorted_names, uri_srv_queries,
    uri_srv_wanted, Prefetched, ResolutionError, ResolutionPolicy,
};
use crate::resolve::{concat, spec_explicit_transport, spec_srv_prefix, srv_name, Naptr, Srv};
use crate::sip::{Host, SipUri};

verus! {

/// One DNS question.
#[derive(Debug, PartialEq, Eq)]
pub enum Question {
    /// The NAPTR records of a domain.
    Naptr(String),
    /// The SRV records of a name.
    Srv(String),
    /// The A and AAAA records of a host, asked together.
    Addresses(String),
}

impl Clone for Question {
    fn clone(&self) -> (r: Question)
        ensures
            r == *self,
    {
        match self {
            Question::Naptr(n) => Question::Naptr(n.clone()),
            Question::Srv(n) => Question::Srv(n.clone()),
            Question::Addresses(h) => Question::Addresses(h.clone()),
        }
    }
}

/// What came back for the outstanding question.
#[derive(Debug, Clone, PartialEq, Eq)]
pub enum Reply {
    /// NAPTR records.
    Naptr(Vec<Naptr>),
    /// SRV records.
    Srv(Vec<Srv>),
    /// Addresses.
    Addresses(Vec<IpAddress>),
    /// The question could not be answered.
    Unavailable,
    /// The question's own deadline passed first.
    TimedOut,
}

/// What the caller does next.
#[derive(Debug, Clone, PartialEq, Eq)]
pub enum Step {
    /// Ask this question, and hand back the reply.
    Ask(Question),
    /// Every question is answered: the answers are in [`Resolution::answers`].
    Done,
    /// The resolution failed, and nothing more is to be asked.
    Fail(ResolutionError),
}

/// One resolution in progress.
#[derive(Debug)]
pub struct Resolution {
    /// The bounds it runs under.
    pub policy: ResolutionPolicy,
    /// Whether the URI is `sips:`.
    pub secure: bool,
    /// The name being resolved.
    pub domain: String,
    /// When it started, in the caller's nanoseconds.
    pub started_nanos: u64,
    /// Questions claimed so far; an address question counts twice, for A and AAAA.
    pub lookups: usize,
    /// The question awaiting its reply, if any.
    pub asking: Option<Question>,
    /// What has been answered so far.
    pub answers: Prefetched,
    /// SRV names still to ask, in order.
    pub srv_names: Vec<String>,
    /// Hosts still to ask about, in order, once they are known.
    pub hosts: Vec<String>,
    /// Whether the hosts to ask about are known.
    pub hosts_ready: bool,
}

/// The text a failed question is reported with: the name, and for addresses `A/AAAA` before it.
pub open spec fn query_of(q: Question) -> Seq<char> {
    match q {
        Question::Naptr(n) => n@,
        Question::Srv(n) => n@,
        Question::Addresses(h) => seq!['A', '/', 'A', 'A', 'A', 'A', ' '] + h@,
    }
}

/// A count raised by `amount`, saturating.
pub open spec fn claimed(lookups: usize, amount: int) -> int {
    if lookups + amount > usize::MAX {
        usize::MAX as int
    } else {
        lookups + amount
    }
}

/// Whether the whole resolution's deadline has passed at `now`.
pub open spec fn expired(r: Resolution, now: u64) -> bool {
    now >= r.started_nanos && now - r.started_nanos >= r.policy.resolution_timeout_nanos
}

/// The fields a step never changes.
pub open spec fn same_run(a: Resolution, b: Resolution) -> bool {
    &&& a.policy == b.policy
    &&& a.secure == b.secure
    &&& a.domain@ == b.domain@
    &&& a.started_nanos == b.started_nanos
}

/// `b` is `a`, as far as anything a caller reads goes.
pub open spec fn unchanged(a: Resolution, b: Resolution) -> bool {
    &&& same_run(a, b)
    &&& b.lookups == a.lookups
    &&& b.asking == a.asking
    &&& b.answers.naptr@ == a.answers.naptr@
    &&& b.answers.srv@ == a.answers.srv@
    &&& b.answers.addresses@ == a.answers.addresses@
    &&& b.srv_names@ == a.srv_names@
    &&& b.hosts@ == a.hosts@
    &&& b.hosts_ready == a.hosts_ready
}

/// Taking a reply into `old`, giving `new`, or the error it fails with.
///
/// A reply that is unavailable, or of another kind than the question, fails with
/// `LookupUnavailable`; a timed-out one with `LookupTimeout`, each naming the question; an answer
/// over its record limit fails with `LimitExceeded`. Those leave the state as it was. Otherwise
/// the answer is recorded and nothing is outstanding; a NAPTR answer also fixes the SRV names to
/// ask, each once and in sorted order: those it points at and the conventional ones the scheme
/// permits.
pub open spec fn recorded(old: Resolution, reply: Reply, new: Resolution, e: Option<ResolutionError>) -> bool {
    let q = old.asking.unwrap();
    let lim = old.policy.limits;
    let unavailable = unchanged(old, new) && (e matches Some(ResolutionError::LookupUnavailable { query })
        && query@ == query_of(q));
    match reply {
        Reply::TimedOut => unchanged(old, new) && (e matches Some(ResolutionError::LookupTimeout { query })
            && query@ == query_of(q)),
        Reply::Unavailable => unavailable,
        Reply::Naptr(records) => if !(q is Naptr) {
            unavailable
        } else if records@.len() > lim.max_naptr_records {
            unchanged(old, new) && e == Some(ResolutionError::LimitExceeded {
                limit: "NAPTR records",
                maximum: lim.max_naptr_records,
                observed: records@.len() as usize,
            })
        } else {
            &&& e is None
            &&& same_run(old, new)
            &&& new.lookups == old.lookups
            &&& new.asking is None
            &&& new.answers.naptr@ == records@
            &&& new.answers.srv@ == old.answers.srv@
            &&& new.answers.addresses@ == old.answers.addresses@
            &&& sorted_names(new.srv_names@)
            &&& names_distinct(new.srv_names@)
            &&& forall|n: Seq<char>| #[trigger] names_contain(new.srv_names@, n) <==> uri_srv_wanted(
                records@,
                old.domain@,
                old.secure,
                n,
            )
            &&& new.hosts@ == old.hosts@
            &&& new.hosts_ready == old.hosts_ready
        },
        Reply::Srv(records) => if !(q is Srv) {
            unavailable
        } else if records@.len() > lim.max_srv_records {
            unchanged(old, new) && e == Some(ResolutionError::LimitExceeded {
                limit: "SRV records",
                maximum: lim.max_srv_records,
                observed: records@.len() as usize,
            })
        } else {
            &&& e is None
            &&& same_run(old, new)
            &&& new.lookups == old.lookups
            &&& new.asking is None
            &&& new.answers.naptr@ == old.answers.naptr@
            &&& new.answers.srv@ == old.answers.srv@.push((q->Srv_0, records))
            &&& new.answers.addresses@ == old.answers.addresses@
            &&& new.srv_names@ == old.srv_names@
            &&& new.hosts@ == old.hosts@
            &&& new.hosts_ready == old.hosts_ready
        },
        Reply::Addresses(ips) => if !(q is Addresses) {
            unavailable
        } else if ips@.len() > lim.max_addresses {
            unchanged(old, new) && e == Some(ResolutionError::LimitExceeded {
                limit: "addresses",
                maximum: lim.max_addresses,
                observed: ips@.len() as usize,
            })
        } else {
            &&& e is None
            &&& same_run(old, new)
            &&& new.lookups == old.lookups
            &&& new.asking is None
            &&& new.answers.naptr@ == old.answers.naptr@
            &&& new.answers.srv@ == old.answers.srv@
            &&& new.answers.addresses@ == old.answers.addresses@.push((q->Addresses_0, ips))
            &&& new.srv_names@ == old.srv_names@
            &&& new.hosts@ == old.hosts@
            &&& new.hosts_ready == old.hosts_ready
        },
    }
}

/// Moving on from `old`, with nothing outstanding, to `new`, doing `step`.
///
/// The next SRV name is asked first, claimed as one question; once none is left, the hosts to
/// ask about become known (each once, in sorted order: the domain, and every target an SRV answer
/// names, unless they were fixed already), and the next is asked, claimed as two. A claim past the lookup
/// limit fails with `LimitExceeded`. With nothing left to ask, the resolution is done.
pub open spec fn advanced(old: Resolution, new: Resolution, step: Step) -> bool {
    let max = old.policy.limits.max_lookups;
    &&& same_run(old, new)
    &&& new.answers.naptr@ == old.answers.naptr@
    &&& new.answers.srv@ == old.answers.srv@
    &&& new.answers.addresses@ == old.answers.addresses@
    &&& if old.srv_names@.len() > 0 {
        &&& new.lookups == claimed(old.lookups, 1)
        &&& new.hosts@ == old.hosts@
        &&& new.hosts_ready == old.hosts_ready
        &&& if claimed(old.lookups, 1) > max {
            step == Step::Fail(ResolutionError::LimitExceeded {
                limit: "lookups",
                maximum: max,
                observed: claimed(old.lookups, 1) as usize,
            })
        } else {
            &&& step == Step::Ask(Question::Srv(old.srv_names@[0]))
            &&& new.asking == Some(Question::Srv(old.srv_names@[0]))
            &&& new.srv_names@ == old.srv_names@.drop_first()
        }
    } else {
        &&& new.hosts_ready
        &&& new.srv_names@.len() == 0
        &&& (!old.hosts_ready ==> hosts_fixed(old, new, step))
        &&& (old.hosts_ready ==> hosts_taken(old.hosts@, old.lookups, max, new, step))
    }
}

/// The hosts, once fixed as `all`, and what asking the next of them does.
pub open spec fn hosts_taken(all: Seq<String>, lookups: usize, max: usize, new: Resolution, step: Step) -> bool {
    if all.len() > 0 {
        &&& new.lookups == claimed(lookups, 2)
        &&& if claimed(lookups, 2) > max {
            step == Step::Fail(ResolutionError::LimitExceeded {
                limit: "lookups",
                maximum: max,
                observed: claimed(lookups, 2) as usize,
            })
        } else {
            &&& step == Step::Ask(Question::Addresses(all[0]))
            &&& new.asking == Some(Question::Addresses(all[0]))
            &&& new.hosts@ == all.drop_first()
        }
    } else {
        &&& new.lookups == lookups
        &&& step == Step::Done
        &&& new.hosts@.len() == 0
    }
}

/// Fixing the hosts to ask about from the SRV answers, then taking the first.
pub open spec fn hosts_fixed(old: Resolution, new: Resolution, step: Step) -> bool {
    exists|all: Seq<String>|
        {
            &&& sorted_names(all)
            &&& names_distinct(all)
            &&& forall|n: Seq<char>| #[trigger] names_contain(all, n) <==> host_wanted(
                old.domain@,
                old.answers.srv@,
                n,
            )
            &&& #[trigger] hosts_taken(all, old.lookups, old.policy.limits.max_lookups, new, step)
        }
}

impl Resolution {
    /// Begin resolving a URI under a policy, at `now_nanos`.
    ///
    /// A zero lookup timeout, then a zero resolution timeout, is refused with the field it names,
    /// before any question. A URI without a name needs no question. A URI with a port asks only
    /// for the name's addresses; one naming a transport skips NAPTR and asks that transport's
    /// SRV name; any other asks for the name's NAPTR records first.
    pub fn start(uri: &SipUri, policy: ResolutionPolicy, now_nanos: u64) -> (r: (Resolution, Step))
        ensures
            r.0.policy == policy,
            r.0.secure == uri.secure,
            r.0.started_nanos == now_nanos,
            r.0.answers.naptr@.len() == 0,
            r.0.answers.srv@.len() == 0,
            r.0.answers.addresses@.len() == 0,
            policy.lookup_timeout_nanos == 0 ==> (r.1 matches Step::Fail(
                ResolutionError::InvalidTimeout { field },
            ) && field@ == "lookup_timeout"@ && r.0.lookups == 0 && r.0.asking is None),
            policy.lookup_timeout_nanos != 0 && policy.resolution_timeout_nanos == 0 ==> (r.1 matches Step::Fail(
                ResolutionError::InvalidTimeout { field },
            ) && field@ == "resolution_timeout"@ && r.0.lookups == 0 && r.0.asking is None),
            policy.lookup_timeout_nanos != 0 && policy.resolution_timeout_nanos != 0 ==> match uri.host {
                Some(Host::Name(d)) => {
                    &&& r.0.domain@ == d@
                    &&& if uri.port is Some {
                        hosts_taken(seq![d], 0, policy.limits.max_lookups, r.0, r.1) && r.0.hosts_ready
                            && r.0.srv_names@.len() == 0
                    } else if spec_explicit_transport(*uri) is Some {
                        let t = spec_explicit_transport(*uri).unwrap();
                        &&& r.0.lookups == claimed(0, 1)
                        &&& !r.0.hosts_ready
                        &&& r.0.hosts@.len() == 0
                        &&& r.0.srv_names@.len() == 0
                        &&& if claimed(0, 1) > policy.limits.max_lookups {
                            r.1 == Step::Fail(ResolutionError::LimitExceeded {
                                limit: "lookups",
                                maximum: policy.limits.max_lookups,
                                observed: 1,
                            })
                        } else {
                            r.1 matches Step::Ask(Question::Srv(n)) && n@ == spec_srv_prefix(t) + d@
                                && r.0.asking == Some(Question::Srv(n))
                        }
                    } else {
                        &&& r.0.lookups == 1
                        &&& !r.0.hosts_ready
                        &&& r.0.hosts@.len() == 0
                        &&& r.0.srv_names@.len() == 0
                        &&& if 1 > policy.limits.max_lookups {
                            r.1 == Step::Fail(ResolutionError::LimitExceeded {
                                limit: "lookups",
                                maximum: policy.limits.max_lookups,
                                observed: 1,
                            })
                        } else {
                            r.1 == Step::Ask(Question::Naptr(r.0.domain)) && r.0.asking == Some(
                                Question::Naptr(r.0.domain),
                            )
                        }
                    }
                },
                _ => r.1 == Step::Done && r.0.lookups == 0 && r.0.asking is None,
            },
    {
        let mut state = Resolution {
            policy,
            secure: uri.secure,
            domain: String::new(),
            started_nanos: now_nanos,
            lookups: 0,
            asking: None,
            answers: Prefetched::new(),
            srv_names: Vec::new(),
            hosts: Vec::new(),
            hosts_ready: false,
        };
        if let Err(e) = policy.validate() {
            return (state, Step::Fail(e));
        }
        let name: &String = match &uri.host {
            Some(Host::Name(n)) => n,
            _ => {
                return (state, Step::Done);
            },
        };
        state.domain = name.clone();
        if uri.port.is_some() {
            state.hosts.push(name.clone());
            state.hosts_ready = true;
            proof {
                assert(state.hosts@ =~= seq![*name]);
            }
            let step = state.take_host();
            return (state, step);
        }
        match crate::resolve::explicit_transport(uri) {
            Some(t) => {
                let query = srv_name(t, name.as_str());
                if claim_lookups(&mut state.lookups, 1, policy.limits).is_err() {
                    return (
                        state,
                        Step::Fail(
                            ResolutionError::LimitExceeded {
                                limit: "lookups",
                                maximum: policy.limits.max_lookups,
                                observed: 1,
                            },
                        ),
                    );
                }
                state.asking = Some(Question::Srv(query.clone()));
                (state, Step::Ask(Question::Srv(query)))
            },
            None => {
                if claim_lookups(&mut state.lookups, 1, policy.limits).is_err() {
                    return (
                        state,
                        Step::Fail(
                            ResolutionError::LimitExceeded {
                                limit: "lookups",
                                maximum: policy.limits.max_lookups,
                                observed: 1,
                            },
                        ),
                    );
                }
                let ask = Question::Naptr(state.domain.clone());
                state.asking = Some(ask.clone());
                (state, Step::Ask(ask))
            },
        }
    }

    /// How long the caller may wait for the outstanding question at `now_nanos`: the lookup
    /// timeout, or what is left of the resolution's deadline if that is shorter.
    pub fn wait_for(&self, now_nanos: u64) -> (r: u64)
        ensures
            r == (if now_nanos < self.started_nanos {
                if self.policy.lookup_timeout_nanos < self.policy.resolution_timeout_nanos {
                    self.policy.lookup_timeout_nanos
                } else {
                    self.policy.resolution_timeout_nanos
                }
            } else if now_nanos - self.started_nanos >= self.policy.resolution_timeout_nanos {
                0
            } else if self.policy.lookup_timeout_nanos < self.policy.resolution_timeout_nanos - (
            now_nanos - self.started_nanos) {
                self.policy.lookup_timeout_nanos
            } else {
                (self.policy.resolution_timeout_nanos - (now_nanos - self.started_nanos)) as u64
            }),
    {
        let elapsed = if now_nanos < self.started_nanos {
            0
        } else {
            now_nanos - self.started_nanos
        };
        if elapsed >= self.policy.resolution_timeout_nanos {
            return 0;
        }
        let left = self.policy.resolution_timeout_nanos - elapsed;
        if self.policy.lookup_timeout_nanos < left {
            self.policy.lookup_timeout_nanos
        } else {
            left
        }
    }

    /// Take the reply to the outstanding question into the answers; see [`recorded`].
    pub fn record(&mut self, reply: Reply) -> (e: Option<ResolutionError>)
        requires
            old(self).asking is Some,
        ensures
            recorded(*old(self), reply, *final(self), e),
    {
        let q = match &self.asking {
            Some(q) => q.clone(),
            None => {
                return None;
            },
        };
        let lim = self.policy.limits;
        match reply {
            Reply::TimedOut => Some(ResolutionError::LookupTimeout { query: query_text(&q) }),
            Reply::Naptr(records) => {
                if !matches!(q, Question::Naptr(_)) {
                    return Some(ResolutionError::LookupUnavailable { query: query_text(&q) });
                }
                if records.len() > lim.max_naptr_records {
                    return Some(
                        ResolutionError::LimitExceeded {
                            limit: "NAPTR records",
                            maximum: lim.max_naptr_records,
                            observed: records.len(),
                        },
                    );
                }
                self.srv_names = uri_srv_queries(records.as_slice(), self.domain.as_str(), self.secure);
                self.answers.naptr = records;
                self.asking = None;
                None
            },
            Reply::Srv(records) => {
                let name = match q {
                    Question::Srv(n) => n,
                    _ => {
                        return Some(ResolutionError::LookupUnavailable { query: query_text(&q) });
                    },
                };
                if records.len() > lim.max_srv_records {
                    return Some(
                        ResolutionError::LimitExceeded {
                            limit: "SRV records",
                            maximum: lim.max_srv_records,
                            observed: records.len(),
                        },
                    );
                }
                self.answers.srv.push((name, records));
                self.asking = None;
                None
            },
            Reply::Addresses(ips) => {
                let host = match q {
                    Question::Addresses(h) => h,
                    _ => {
                        return Some(ResolutionError::LookupUnavailable { query: query_text(&q) });
                    },
                };
                if ips.len() > lim.max_addresses {
                    return Some(
                        ResolutionError::LimitExceeded {
                            limit: "addresses",
                            maximum: lim.max_addresses,
                            observed: ips.len(),
                        },
                    );
                }
                self.answers.addresses.push((host, ips));
                self.asking = None;
                None
            },
            Reply::Unavailable => Some(ResolutionError::LookupUnavailable { query: query_text(&q) }),
        }
    }

    /// Ask the next address question, the hosts being fixed.
    fn take_host(&mut self) -> (step: Step)
        requires
            old(self).hosts_ready,
        ensures
            same_run(*old(self), *final(self)),
            final(self).answers.naptr@ == old(self).answers.naptr@,
            final(self).answers.srv@ == old(self).answers.srv@,
            final(self).answers.addresses@ == old(self).answers.addresses@,
            final(self).srv_names@ == old(self).srv_names@,
            final(self).hosts_ready,
            hosts_taken(old(self).hosts@, old(self).lookups, old(self).policy.limits.max_lookups, *final(self), step),
    {
        if self.hosts.len() == 0 {
            return Step::Done;
        }
        let ghost before = self.lookups;
        if claim_lookups(&mut self.lookups, 2, self.policy.limits).is_err() {
            return Step::Fail(
                ResolutionError::LimitExceeded {
                    limit: "lookups",
                    maximum: self.policy.limits.max_lookups,
                    observed: self.lookups,
                },
            );
        }
        let host = self.hosts.remove(0);
        self.asking = Some(Question::Addresses(host.clone()));
        Step::Ask(Question::Addresses(host))
    }

    /// Move on, with nothing outstanding; see [`advanced`].
    pub fn advance(&mut self) -> (step: Step)
        requires
            old(self).asking is None,
        ensures
            advanced(*old(self), *final(self), step),
    {
        if self.srv_names.len() > 0 {
            if claim_lookups(&mut self.lookups, 1, self.policy.limits).is_err() {
                return Step::Fail(
                    ResolutionError::LimitExceeded {
                        limit: "lookups",
                        maximum: self.policy.limits.max_lookups,
                        observed: self.lookups,
                    },
                );
            }
            let name = self.srv_names.remove(0);
            self.asking = Some(Question::Srv(name.clone()));
            return Step::Ask(Question::Srv(name));
        }
        if !self.hosts_ready {
            self.hosts = hosts_to_resolve(self.domain.as_str(), &self.answers.srv);
            self.hosts_ready = true;
        }
        self.take_host()
    }

    /// One step: the reply to the outstanding question, at `now_nanos`.
    ///
    /// Past the resolution's deadline nothing is recorded or asked, and the resolution fails
    /// with `ResolutionTimeout`. Otherwise the reply is recorded ([`recorded`]); a failure there
    /// is the step's, and else the machine moves on ([`advanced`]).
    pub fn step(&mut self, now_nanos: u64, reply: Reply) -> (r: Step)
        requires
            old(self).asking is Some,
        ensures
            expired(*old(self), now_nanos) ==> r == Step::Fail(ResolutionError::ResolutionTimeout)
                && unchanged(*old(self), *final(self)),
            !expired(*old(self), now_nanos) ==> exists|mid: Resolution, e: Option<ResolutionError>|
                #[trigger] recorded(*old(self), reply, mid, e) && match e {
                    Some(err) => r == Step::Fail(err) && unchanged(mid, *final(self)),
                    None => advanced(mid, *final(self), r),
                },
    {
        if now_nanos >= self.started_nanos && now_nanos - self.started_nanos
            >= self.policy.resolution_timeout_nanos {
            return Step::Fail(ResolutionError::ResolutionTimeout);
        }
        match self.record(reply) {
            Some(err) => Step::Fail(err),
            None => self.advance(),
        }
    }
}

/// The text a question is reported with.
fn query_text(q: &Question) -> (r: String)
    ensures
        r@ == query_of(*q),
{
    match q {
        Question::Naptr(n) => n.clone(),
        Question::Srv(n) => n.clone(),
        Question::Addresses(h) => {
            proof {
                reveal_strlit("A/AAAA ");
            }
            concat("A/AAAA ", h.as_str())
        },
    }
}

} // verus!
