//! Live source admission by IP prefix, and the observation vocabulary of an endpoint.

use vstd::prelude::*;
use crate::addr::IpAddress;
use crate::error::Error;
use crate::target::ConnectionKey;

verus! {

/// One exact IP network used by live source admission.
#[derive(Debug, Clone, Copy, PartialEq, Eq, Hash)]
pub struct SourcePrefix {
    network: IpAddress,
    bits: u8,
}

/// The widest prefix an address family allows.
pub open spec fn family_width(ip: IpAddress) -> u8 {
    match ip {
        IpAddress::V4(_) => 32,
        IpAddress::V6(_) => 128,
    }
}

/// Bytes read as a big-endian number.
pub open spec fn be_value(s: Seq<u8>) -> u128
    decreases s.len(),
{
    if s.len() == 0 {
        0
    } else {
        be_value(s.drop_last()).wrapping_mul(256u128).wrapping_add(s.last() as u128)
    }
}

/// An address as the number it is.
pub open spec fn ip_value(ip: IpAddress) -> u128 {
    match ip {
        IpAddress::V4(o) => be_value(o@),
        IpAddress::V6(o) => be_value(o@),
    }
}

/// Whether the top `bits` of two `width`-bit numbers agree; every number matches a prefix of
/// no bits.
pub open spec fn prefix_matches_spec(network: u128, candidate: u128, bits: u8, width: u8) -> bool {
    bits == 0 || {
        let shift: u32 = if width >= bits {
            (width - bits) as u32
        } else {
            0
        };
        (network >> shift) == (candidate >> shift)
    }
}

/// Whether the top `bits` of two `width`-bit numbers agree.
pub fn prefix_matches(network: u128, candidate: u128, bits: u8, width: u8) -> (r: bool)
    requires
        width <= 128,
    ensures
        r == prefix_matches_spec(network, candidate, bits, width),
{
    if bits == 0 {
        return true;
    }
    let shift = width.saturating_sub(bits) as u32;
    (network >> shift) == (candidate >> shift)
}

fn value_of(bytes: &[u8]) -> (r: u128)
    ensures
        r == be_value(bytes@),
{
    let mut acc: u128 = 0;
    let mut i: usize = 0;
    while i < bytes.len()
        invariant
            i <= bytes@.len(),
            acc == be_value(bytes@.take(i as int)),
        decreases bytes.len() - i,
    {
        proof {
            assert(bytes@.take(i + 1).drop_last() =~= bytes@.take(i as int));
            assert(bytes@.take(i + 1).last() == bytes@[i as int]);
        }
        acc = acc.wrapping_mul(256).wrapping_add(bytes[i] as u128);
        i = i + 1;
    }
    proof {
        assert(bytes@.take(i as int) =~= bytes@);
    }
    acc
}

impl SourcePrefix {
    /// The network address.
    pub closed spec fn network_spec(self) -> IpAddress {
        self.network
    }

    /// The prefix width, in bits.
    pub closed spec fn bits_spec(self) -> u8 {
        self.bits
    }

    /// Build a prefix, rejecting a width outside its address family.
    pub fn new(network: IpAddress, bits: u8) -> (r: Option<SourcePrefix>)
        ensures
            bits <= family_width(network) ==> (r matches Some(p) && p.network_spec() == network
                && p.bits_spec() == bits),
            bits > family_width(network) ==> r is None,
    {
        let max: u8 = if network.is_ipv4() {
            32
        } else {
            128
        };
        if bits <= max {
            Some(SourcePrefix { network, bits })
        } else {
            None
        }
    }

    /// One address, expressed as its narrowest prefix.
    pub fn address(address: IpAddress) -> (r: SourcePrefix)
        ensures
            r.network_spec() == address,
            r.bits_spec() == family_width(address),
    {
        let bits: u8 = if address.is_ipv4() {
            32
        } else {
            128
        };
        SourcePrefix { network: address, bits }
    }

    /// Whether `candidate` belongs to this network: the same family, and the prefix's top bits
    /// agree.
    pub open spec fn contains_spec(self, candidate: IpAddress) -> bool {
        match (self.network_spec(), candidate) {
            (IpAddress::V4(_), IpAddress::V4(_)) => prefix_matches_spec(
                ip_value(self.network_spec()),
                ip_value(candidate),
                self.bits_spec(),
                32,
            ),
            (IpAddress::V6(_), IpAddress::V6(_)) => prefix_matches_spec(
                ip_value(self.network_spec()),
                ip_value(candidate),
                self.bits_spec(),
                128,
            ),
            _ => false,
        }
    }

    /// Whether `candidate` belongs to this network.
    pub fn contains(self, candidate: IpAddress) -> (r: bool)
        ensures
            r == self.contains_spec(candidate),
    {
        match (&self.network, &candidate) {
            (IpAddress::V4(n), IpAddress::V4(c)) => prefix_matches(
                value_of(n),
                value_of(c),
                self.bits,
                32,
            ),
            (IpAddress::V6(n), IpAddress::V6(c)) => prefix_matches(
                value_of(n),
                value_of(c),
                self.bits,
                128,
            ),
            _ => false,
        }
    }
}

/// The admission generation that decides which sources are accepted, replaced whole.
///
/// A generation is published complete: an admission decision is made against one generation,
/// whose number it reports, and never against a half-replaced list.
#[derive(Debug)]
pub struct SourceAdmission {
    number: u64,
    prefixes: Option<Vec<SourcePrefix>>,
    limit: usize,
}

/// The number the next generation is published under: one more, wrapping, and never zero.
pub open spec fn next_generation(n: u64) -> u64 {
    let next = n.wrapping_add(1u64);
    if next > 1 {
        next
    } else {
        1
    }
}

/// Whether some prefix contains an address.
pub open spec fn any_contains(prefixes: Seq<SourcePrefix>, address: IpAddress) -> bool {
    exists|i: int| 0 <= i < prefixes.len() && (#[trigger] prefixes[i]).contains_spec(address)
}

impl SourceAdmission {
    /// The generation now published.
    pub closed spec fn generation(&self) -> u64 {
        self.number
    }

    /// The prefixes of the published generation; `None` admits every source.
    pub closed spec fn prefixes_spec(&self) -> Option<Seq<SourcePrefix>> {
        match self.prefixes {
            Some(v) => Some(v@),
            None => None,
        }
    }

    /// The most prefixes one generation may hold.
    pub closed spec fn limit_spec(&self) -> usize {
        self.limit
    }

    /// Generation zero, admitting every source, with at most `limit` prefixes per generation.
    pub fn new(limit: usize) -> (r: SourceAdmission)
        ensures
            r.generation() == 0,
            r.prefixes_spec().is_none(),
            r.limit_spec() == limit,
    {
        SourceAdmission { number: 0, prefixes: None, limit }
    }

    /// Decide whether an address is admitted, returning the generation that decided it; `None`
    /// refuses it.
    pub fn decide(&self, address: IpAddress) -> (r: Option<u64>)
        ensures
            match self.prefixes_spec() {
                None => r == Some(self.generation()),
                Some(p) => if any_contains(p, address) {
                    r == Some(self.generation())
                } else {
                    r is None
                },
            },
    {
        match &self.prefixes {
            None => Some(self.number),
            Some(prefixes) => {
                let mut i: usize = 0;
                while i < prefixes.len()
                    invariant
                        i <= prefixes@.len(),
                        self.prefixes_spec() == Some(prefixes@),
                        forall|j: int| 0 <= j < i ==> !(#[trigger] prefixes@[j]).contains_spec(address),
                    decreases prefixes.len() - i,
                {
                    if prefixes[i].contains(address) {
                        proof {
                            assert(prefixes@[i as int].contains_spec(address));
                        }
                        return Some(self.number);
                    }
                    i = i + 1;
                }
                None
            },
        }
    }

    fn publish(&mut self, prefixes: Option<Vec<SourcePrefix>>) -> (r: u64)
        ensures
            r == next_generation(old(self).generation()),
            final(self).generation() == r,
            final(self).limit_spec() == old(self).limit_spec(),
            final(self).prefixes_spec() == (match prefixes {
                Some(v) => Some(v@),
                None => None::<Seq<SourcePrefix>>,
            }),
    {
        let next = self.number.wrapping_add(1);
        self.number = if next > 1 {
            next
        } else {
            1
        };
        self.prefixes = prefixes;
        self.number
    }

    /// Publish a new generation of prefixes, or refuse one larger than the limit and keep the
    /// old generation.
    pub fn replace(&mut self, prefixes: Vec<SourcePrefix>) -> (r: Result<u64, Error>)
        ensures
            prefixes@.len() > old(self).limit_spec() ==> {
                &&& r matches Err(Error::SourceAdmissionCapacity { max, attempted })
                &&& max == old(self).limit_spec() && attempted == prefixes@.len()
                &&& final(self).generation() == old(self).generation()
                &&& final(self).prefixes_spec() == old(self).prefixes_spec()
            },
            prefixes@.len() <= old(self).limit_spec() ==> {
                &&& r == Ok::<u64, Error>(next_generation(old(self).generation()))
                &&& final(self).generation() == next_generation(old(self).generation())
                &&& final(self).prefixes_spec() == Some(prefixes@)
            },
            final(self).limit_spec() == old(self).limit_spec(),
    {
        if prefixes.len() > self.limit {
            return Err(Error::SourceAdmissionCapacity { max: self.limit, attempted: prefixes.len() });
        }
        Ok(self.publish(Some(prefixes)))
    }

    /// Publish a generation that admits every source.
    pub fn clear(&mut self) -> (r: u64)
        ensures
            r == next_generation(old(self).generation()),
            final(self).generation() == r,
            final(self).prefixes_spec().is_none(),
            final(self).limit_spec() == old(self).limit_spec(),
    {
        self.publish(None)
    }
}

impl Default for SourceAdmission {
    fn default() -> (r: SourceAdmission)
        ensures
            r.generation() == 0,
            r.prefixes_spec().is_none(),
            r.limit_spec() == 1024,
    {
        SourceAdmission::new(1024)
    }
}

/// Which side of the endpoint boundary a message crossed.
#[derive(Debug, Clone, Copy, PartialEq, Eq)]
pub enum MessageDirection {
    /// Parsed network input.
    Inbound,
    /// Finalized network output.
    Outbound,
}

/// How the transaction layer classified an observed message.
#[derive(Debug, Clone, Copy, PartialEq, Eq)]
pub enum TransactionClass {
    /// A new server transaction.
    ServerCreated,
    /// A message matched an existing transaction.
    Matched,
    /// No transaction matched.
    Unmatched,
    /// A new client transaction.
    ClientCreated,
    /// A request deliberately sent without a transaction.
    Direct,
}

/// Stable identity of one pooled connection incarnation.
#[derive(Debug, Clone, PartialEq, Eq, Hash)]
pub struct ConnectionId {
    /// Pool key, including the verified identity when present.
    pub key: ConnectionKey,
    /// Pool incarnation; a replacement receives another value.
    pub generation: u64,
    /// Source-admission generation retained by an inbound connection.
    pub admission_generation: Option<u64>,
}

/// A connection lifecycle transition.
#[derive(Debug, Clone, Copy, PartialEq, Eq)]
pub enum ConnectionState {
    /// An inbound socket was accepted into the pool.
    Accepted,
    /// An outbound or inbound stream became usable.
    Opened,
    /// A secure transport authenticated its peer.
    Authenticated,
    /// The connection joined the bounded pool.
    Pooled,
    /// An existing pooled transport carried another send.
    Reused,
    /// Opening, authentication or framing failed.
    Failed,
    /// The incarnation closed.
    Closed,
}

/// One connection transition.
#[derive(Debug, Clone)]
pub struct ConnectionObservation {
    /// Stable connection incarnation.
    pub connection: ConnectionId,
    /// Transition.
    pub state: ConnectionState,
}

/// A connection transition as an observation.
pub fn connection_event(
    key: ConnectionKey,
    generation: u64,
    admission_generation: Option<u64>,
    state: ConnectionState,
) -> (r: ConnectionObservation)
    ensures
        r.connection.key == key,
        r.connection.generation == generation,
        r.connection.admission_generation == admission_generation,
        r.state == state,
{
    ConnectionObservation { connection: ConnectionId { key, generation, admission_generation }, state }
}

} // verus!
