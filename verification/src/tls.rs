//! What can go wrong with TLS, kept apart by cause, and the name a certificate is checked
//! against.

use vstd::prelude::*;
use crate::resolve::concat;

verus! {

/// What can go wrong with TLS.
///
/// Expired, wrong-host and unknown-issuer are three different operational problems with three
/// different fixes, so they are not collapsed into "handshake failed".
#[derive(Debug, Clone, PartialEq, Eq)]
pub enum TlsError {
    /// The name to verify against is not a valid DNS name.
    UnusableName(String),
    /// A certificate or key could not be read.
    Material {
        /// Which file or blob.
        what: String,
        /// What was wrong with it.
        detail: String,
    },
    /// The configuration itself is invalid.
    Config(String),
    /// The handshake failed, including every verification failure.
    Handshake {
        /// Who we were talking to.
        peer: String,
        /// What went wrong, as reported by the TLS library.
        detail: String,
    },
}

/// How an error reads.
pub open spec fn tls_error_text(e: TlsError) -> Seq<char> {
    match e {
        TlsError::UnusableName(n) => n@ + " is not a name a certificate can be checked against"@,
        TlsError::Material { what, detail } => "reading "@ + what@ + ": "@ + detail@,
        TlsError::Config(c) => "tls configuration: "@ + c@,
        TlsError::Handshake { peer, detail } => "tls handshake with "@ + peer@ + ": "@ + detail@,
    }
}

impl TlsError {
    /// How this error reads.
    pub fn message(&self) -> (r: String)
        ensures
            r@ == tls_error_text(*self),
    {
        match self {
            TlsError::UnusableName(n) => concat(n.as_str(), " is not a name a certificate can be checked against"),
            TlsError::Material { what, detail } => {
                let a = concat("reading ", what.as_str());
                let b = concat(a.as_str(), ": ");
                concat(b.as_str(), detail.as_str())
            },
            TlsError::Config(c) => concat("tls configuration: ", c.as_str()),
            TlsError::Handshake { peer, detail } => {
                let a = concat("tls handshake with ", peer.as_str());
                let b = concat(a.as_str(), ": ");
                concat(b.as_str(), detail.as_str())
            },
        }
    }
}

/// Whether `rustls_pki_types::ServerName::try_from` accepts a text: a syntactically valid DNS
/// name, or else an IP address. The grammar and the address parsers are the crate's, so the
/// answer is named rather than spelled out.
pub uninterp spec fn accepted_server_name(name: Seq<char>) -> bool;

/// Calls `rustls_pki_types::ServerName::try_from(&str)` and reports whether it succeeded. The
/// contract claims only that the answer is the crate's verdict on this text, and on nothing else.
#[verifier::external_body]
fn server_name_accepted(name: &str) -> (r: bool)
    ensures
        r == accepted_server_name(name@),
{
    rustls_pki_types::ServerName::try_from(name).is_ok()
}

/// The name a certificate must be valid for: the URI's host, if TLS can check a certificate
/// against it. An IP address is accepted too; what a URI naming one means for identity is the
/// caller's decision.
pub fn verification_name(uri_host: &str) -> (r: Result<String, TlsError>)
    ensures
        accepted_server_name(uri_host@) ==> (r matches Ok(n) && n@ == uri_host@),
        !accepted_server_name(uri_host@) ==> (r matches Err(TlsError::UnusableName(n)) && n@
            == uri_host@),
{
    if server_name_accepted(uri_host) {
        Ok(uri_host.to_owned())
    } else {
        Err(TlsError::UnusableName(uri_host.to_owned()))
    }
}

/// What `rustls_pki_types::CertificateDer::pem_slice_iter` reads from PEM bytes: the DER bytes
/// of every certificate section, in order, or the text of the first error it meets. Parsing PEM
/// is the crate's, so the result is named rather than spelled out.
pub uninterp spec fn pem_certificates(pem: Seq<u8>) -> Result<Seq<Seq<u8>>, Seq<char>>;

/// What `rustls_pki_types::PrivateKeyDer::from_pem_slice` reads from PEM bytes: the DER bytes of
/// the first private-key section, or the text of its error, "no items found" among them.
pub uninterp spec fn pem_private_key(pem: Seq<u8>) -> Result<Seq<u8>, Seq<char>>;

/// Calls `CertificateDer::pem_slice_iter` and collects it, stopping at the first error; each
/// certificate is handed back as its DER bytes, an error as its text. The contract claims only
/// that this is the crate's reading of these bytes.
#[verifier::external_body]
fn read_certificates(pem: &[u8]) -> (r: Result<Vec<Vec<u8>>, String>)
    ensures
        r matches Ok(v) ==> pem_certificates(pem@) matches Ok(c) && v@.map_values(|d: Vec<u8>| d@) == c,
        r matches Err(e) ==> pem_certificates(pem@) matches Err(t) && e@ == t,
{
    <rustls_pki_types::CertificateDer<'static> as rustls_pki_types::pem::PemObject>::pem_slice_iter(pem)
        .map(|item| item.map(|der| der.to_vec()))
        .collect::<Result<Vec<Vec<u8>>, rustls_pki_types::pem::Error>>()
        .map_err(|error| error.to_string())
}

/// Calls `PrivateKeyDer::from_pem_slice`; the key is handed back as its DER bytes, an error as
/// its text. The contract claims only that this is the crate's reading of these bytes.
#[verifier::external_body]
fn read_private_key(pem: &[u8]) -> (r: Result<Vec<u8>, String>)
    ensures
        r matches Ok(k) ==> pem_private_key(pem@) matches Ok(d) && k@ == d,
        r matches Err(e) ==> pem_private_key(pem@) matches Err(t) && e@ == t,
{
    <rustls_pki_types::PrivateKeyDer<'static> as rustls_pki_types::pem::PemObject>::from_pem_slice(pem)
        .map(|key| key.secret_der().to_vec())
        .map_err(|error| error.to_string())
}

/// The views of some DER blobs.
pub open spec fn der_views(v: Seq<Vec<u8>>) -> Seq<Seq<u8>> {
    v.map_values(|d: Vec<u8>| d@)
}

/// Which certificates to trust.
#[derive(Clone, Default)]
pub struct TrustAnchors {
    /// Additional roots, on top of or instead of the system's, as DER.
    extra: Vec<Vec<u8>>,
    /// Whether to include the platform's own roots.
    system: bool,
}

impl TrustAnchors {
    /// The roots added here, as DER, in order.
    pub closed spec fn anchors(&self) -> Seq<Seq<u8>> {
        der_views(self.extra@)
    }

    /// Whether the platform's own roots are trusted too.
    pub closed spec fn system_spec(&self) -> bool {
        self.system
    }

    /// Whatever the platform trusts: its store, not a copy of one vendor's list.
    pub fn system() -> (r: TrustAnchors)
        ensures
            r.anchors().len() == 0,
            r.system_spec(),
    {
        TrustAnchors { extra: Vec::new(), system: true }
    }

    /// Trust only what is added here: a mistake then fails a handshake rather than accepting it.
    pub fn only() -> (r: TrustAnchors)
        ensures
            r.anchors().len() == 0,
            !r.system_spec(),
    {
        TrustAnchors { extra: Vec::new(), system: false }
    }

    /// Whether the platform's roots are trusted too.
    pub fn includes_system(&self) -> (r: bool)
        ensures
            r == self.system_spec(),
    {
        self.system
    }

    /// The roots added here, as DER.
    pub fn extra(&self) -> (r: &Vec<Vec<u8>>)
        ensures
            der_views(r@) == self.anchors(),
    {
        &self.extra
    }

    /// Add every certificate in some PEM as a trust anchor. PEM that cannot be read, or that
    /// holds no certificate, is refused and adds nothing.
    pub fn add_pem(&mut self, pem: &[u8]) -> (r: Result<(), TlsError>)
        ensures
            final(self).system_spec() == old(self).system_spec(),
            r is Ok <==> (pem_certificates(pem@) matches Ok(c) && c.len() > 0),
            r is Ok ==> final(self).anchors() == old(self).anchors() + pem_certificates(pem@)->Ok_0,
            r is Err ==> final(self).anchors() == old(self).anchors(),
            pem_certificates(pem@) matches Err(t) ==> (r matches Err(TlsError::Material { what, detail })
                && what@ == "trust anchor"@ && detail@ == t),
            pem_certificates(pem@) matches Ok(c) && c.len() == 0 ==> (r matches Err(
                TlsError::Material { what, detail },
            ) && what@ == "trust anchor"@ && detail@ == "no certificate found in the PEM data"@),
    {
        let certs = match read_certificates(pem) {
            Ok(c) => c,
            Err(detail) => {
                return Err(TlsError::Material { what: "trust anchor".to_owned(), detail });
            },
        };
        if certs.len() == 0 {
            return Err(
                TlsError::Material {
                    what: "trust anchor".to_owned(),
                    detail: "no certificate found in the PEM data".to_owned(),
                },
            );
        }
        let ghost before = self.extra@;
        let mut i: usize = 0;
        while i < certs.len()
            invariant
                i <= certs@.len(),
                self.system == old(self).system,
                der_views(self.extra@) == der_views(before) + der_views(certs@.subrange(0, i as int)),
            decreases certs.len() - i,
        {
            let ghost prev = self.extra@;
            self.extra.push(certs[i].clone());
            proof {
                assert(der_views(self.extra@) =~= der_views(prev).push(certs@[i as int]@));
                assert(der_views(certs@.subrange(0, i + 1)) =~= der_views(certs@.subrange(0, i as int)).push(
                    certs@[i as int]@,
                ));
            }
            i = i + 1;
        }
        proof {
            assert(certs@.subrange(0, certs@.len() as int) =~= certs@);
        }
        Ok(())
    }
}

/// A certificate chain and the private key to present with it.
pub struct Identity {
    chain: Vec<Vec<u8>>,
    key: Vec<u8>,
}

impl Identity {
    /// The chain, leaf first, as DER.
    pub closed spec fn chain_view(&self) -> Seq<Seq<u8>> {
        der_views(self.chain@)
    }

    /// The private key, as DER.
    pub closed spec fn key_view(&self) -> Seq<u8> {
        self.key@
    }

    /// The chain, leaf first, as DER.
    pub fn chain(&self) -> (r: &Vec<Vec<u8>>)
        ensures
            der_views(r@) == self.chain_view(),
    {
        &self.chain
    }

    /// The private key, as DER.
    pub fn key(&self) -> (r: &Vec<u8>)
        ensures
            r@ == self.key_view(),
    {
        &self.key
    }

    /// Read a certificate chain and a key from PEM.
    ///
    /// A chain that cannot be read, or that holds no certificate, is refused as the
    /// certificate; then a key that cannot be read, or that is not there, as the private key.
    pub fn from_pem(cert_pem: &[u8], key_pem: &[u8]) -> (r: Result<Identity, TlsError>)
        ensures
            r is Ok <==> (pem_certificates(cert_pem@) matches Ok(c) && c.len() > 0 && pem_private_key(
                key_pem@,
            ) is Ok),
            r matches Ok(id) ==> id.chain_view() == pem_certificates(cert_pem@)->Ok_0 && id.key_view()
                == pem_private_key(key_pem@)->Ok_0,
            pem_certificates(cert_pem@) matches Err(t) ==> (r matches Err(TlsError::Material { what, detail })
                && what@ == "certificate"@ && detail@ == t),
            pem_certificates(cert_pem@) matches Ok(c) && c.len() == 0 ==> (r matches Err(
                TlsError::Material { what, detail },
            ) && what@ == "certificate"@ && detail@ == "no certificate found in the PEM data"@),
            pem_certificates(cert_pem@) matches Ok(c) && c.len() > 0 ==> (pem_private_key(key_pem@) matches Err(t)
                ==> (r matches Err(TlsError::Material { what, detail }) && what@ == "private key"@
                && detail@ == t)),
    {
        let chain = match read_certificates(cert_pem) {
            Ok(c) => c,
            Err(detail) => {
                return Err(TlsError::Material { what: "certificate".to_owned(), detail });
            },
        };
        if chain.len() == 0 {
            return Err(
                TlsError::Material {
                    what: "certificate".to_owned(),
                    detail: "no certificate found in the PEM data".to_owned(),
                },
            );
        }
        let key = match read_private_key(key_pem) {
            Ok(k) => k,
            Err(detail) => {
                return Err(TlsError::Material { what: "private key".to_owned(), detail });
            },
        };
        Ok(Identity { chain, key })
    }
}

} // verus!
