//! Names and credentials for mutual TLS.
//!
//! A node presents one leaf certificate, whose Subject CN is its node id, and
//! trusts one private CA. The sessions themselves are not handled here.

use crate::shown::quote;
use crate::text::{count, find, same, strip_prefix};
use rustls_pki_types::pem::PemObject;
use rustls_pki_types::{CertificateDer, CertificateRevocationListDer, PrivateKeyDer, ServerName};
use std::path::PathBuf;
use vstd::prelude::*;
use vstd::string::*;
use x509_parser::prelude::FromDer;

verus! {

// ---------------------------------------------------------------------------
// Configuration
// ---------------------------------------------------------------------------

/// A path in the file system.
#[verifier::external_type_specification]
#[verifier::external_body]
pub struct ExPathBuf(std::path::PathBuf);

/// Where a node's certificate, its key and the CA bundle for its peers are
/// found. `crl` is a revocation list that is checked in both directions.
#[derive(Debug)]
pub struct TlsIdentityConfig {
    pub cert: PathBuf,
    pub key: PathBuf,
    pub ca: PathBuf,
    pub crl: Option<PathBuf>,
}

/// What three optional paths on a command line amount to.
pub enum TlsChoice {
    /// None was given: the connection stays plaintext.
    Plaintext,
    /// All three were given.
    Identity(TlsIdentityConfig),
    /// Some are missing.
    Partial,
}

/// Mutual TLS needs certificate, key and CA together; a part of them is an
/// error, not a weaker form. A revocation list is optional, and nothing without
/// the others.
pub fn tls_choice(
    cert: Option<PathBuf>,
    key: Option<PathBuf>,
    ca: Option<PathBuf>,
    crl: Option<PathBuf>,
) -> (r: TlsChoice)
    ensures
        match r {
            TlsChoice::Plaintext => cert is None && key is None && ca is None,
            TlsChoice::Identity(config) => cert == Some(config.cert) && key == Some(config.key)
                && ca == Some(config.ca) && config.crl == crl,
            TlsChoice::Partial => (cert is None || key is None || ca is None) && (cert is Some
                || key is Some || ca is Some),
        },
{
    match (cert, key, ca) {
        (Some(cert), Some(key), Some(ca)) => TlsChoice::Identity(
            TlsIdentityConfig { cert, key, ca, crl },
        ),
        (None, None, None) => TlsChoice::Plaintext,
        _ => TlsChoice::Partial,
    }
}

/// Why a TLS name or credential is refused.
#[derive(Debug)]
pub enum TlsError {
    /// No server name can be made of the address, here in quotes.
    ServerName(String),
    /// The peer's certificate cannot be parsed.
    PeerCertificate,
    /// The peer's certificate names nobody.
    NoCommonName,
    /// The peer is not the node that was meant; both ids are in quotes.
    WrongPeer { addr: String, actual: String, expected: String },
    CertFile(String),
    NoCertificates(String),
    CrlFile(String),
    NoCrl(String),
    KeyFile(String),
}

fn join(before: &str, after: &str) -> (r: String)
    ensures
        r@ == before@ + after@,
{
    let mut r: String = before.to_owned();
    r.append(after);
    r
}

impl TlsError {
    /// The refusal in words. The offending address or file is named.
    pub open spec fn words(&self) -> Seq<char> {
        match self {
            TlsError::ServerName(addr) => "invalid TLS server name in address "@ + addr@,
            TlsError::PeerCertificate => "parsing peer certificate"@,
            TlsError::NoCommonName => "peer certificate has no Subject CN"@,
            TlsError::WrongPeer { addr, actual, expected } => "upstream "@ + addr@
                + " authenticated as node "@ + actual@ + ", expected "@ + expected@,
            TlsError::CertFile(path) => "parsing cert file "@ + path@,
            TlsError::NoCertificates(path) => "no certificates found in "@ + path@,
            TlsError::CrlFile(path) => "parsing crl file "@ + path@,
            TlsError::NoCrl(path) => "no certificate revocation list found in "@ + path@,
            TlsError::KeyFile(path) => "parsing key file "@ + path@,
        }
    }

    pub fn describe(&self) -> (r: String)
        ensures
            r@ == self.words(),
    {
        match self {
            TlsError::ServerName(addr) => join(
                "invalid TLS server name in address ",
                addr.as_str(),
            ),
            TlsError::PeerCertificate => "parsing peer certificate".to_owned(),
            TlsError::NoCommonName => "peer certificate has no Subject CN".to_owned(),
            TlsError::WrongPeer { addr, actual, expected } => {
                let mut r: String = "upstream ".to_owned();
                r.append(addr.as_str());
                r.append(" authenticated as node ");
                r.append(actual.as_str());
                r.append(", expected ");
                r.append(expected.as_str());
                r
            },
            TlsError::CertFile(path) => join("parsing cert file ", path.as_str()),
            TlsError::NoCertificates(path) => join("no certificates found in ", path.as_str()),
            TlsError::CrlFile(path) => join("parsing crl file ", path.as_str()),
            TlsError::NoCrl(path) => join(
                "no certificate revocation list found in ",
                path.as_str(),
            ),
            TlsError::KeyFile(path) => join("parsing key file ", path.as_str()),
        }
    }
}

// ---------------------------------------------------------------------------
// Server names
// ---------------------------------------------------------------------------

/// The host part of an address.
///
/// A bracketed address ends at its bracket. Without brackets, more than one
/// colon makes an IPv6 literal, which has no port; otherwise a colon can only
/// stand before a port. A malformed address is left as it is.
pub open spec fn host(addr: Seq<char>) -> Seq<char> {
    if addr.len() > 0 && addr[0] == '[' {
        let rest = addr.skip(1);
        let end = crate::text::position(rest, ']');
        if end < rest.len() {
            rest.take(end as int)
        } else {
            addr
        }
    } else if crate::text::occurrences(addr, ':') > 1 {
        addr
    } else {
        addr.take(crate::text::position(addr, ':') as int)
    }
}

/// The host part of an address, in every spelling a node can advertise.
pub fn host_of(addr: &str) -> (r: &str)
    ensures
        r@ == host(addr@),
{
    proof {
        reveal_strlit("[");
    }
    if let Some(rest) = strip_prefix(addr, "[") {
        assert(addr@[0] == addr@.take(1)[0]);
        let end: usize = find(rest, ']');
        if end < rest.unicode_len() {
            assert(rest@.subrange(0, end as int) =~= rest@.take(end as int));
            return rest.substring_char(0, end);
        }
        return addr;
    }
    proof {
        if addr@.len() > 0 && addr@[0] == '[' {
            assert(addr@.take(1) =~= "["@);
        }
    }
    if count(addr, ':') > 1 {
        return addr;
    }
    let end: usize = find(addr, ':');
    assert(addr@.subrange(0, end as int) =~= addr@.take(end as int));
    addr.substring_char(0, end)
}

/// The reason for which a server name is refused.
#[verifier::external_type_specification]
#[verifier::external_body]
pub struct ExInvalidDnsNameError(rustls_pki_types::InvalidDnsNameError);

/// The text of the server name that `ServerName::try_from` makes of a host: a
/// DNS name, or an IP address in its canonical form. `None` where it makes
/// none.
pub uninterp spec fn canonical_server_name(host: Seq<char>) -> Option<Seq<char>>;

/// `ServerName::try_from` of a string, and the text of the name. The claim is
/// only that the outcome depends on the host alone.
#[verifier::external_body]
fn parse_server_name(host: &str) -> (r: Result<String, rustls_pki_types::InvalidDnsNameError>)
    ensures
        match r {
            Ok(name) => canonical_server_name(host@) == Some(name@),
            Err(_) => canonical_server_name(host@) is None,
        },
{
    let name = ServerName::try_from(host.to_string())?;
    Ok(name.to_str().into_owned())
}

/// The name that the certificate of the peer at `addr` is checked against.
pub fn server_name_for_addr(addr: &str) -> (r: Result<String, TlsError>)
    ensures
        match r {
            Ok(name) => canonical_server_name(host(addr@)) == Some(name@),
            Err(e) => canonical_server_name(host(addr@)) is None && (e matches TlsError::ServerName(
                a,
            ) && a@ == crate::shown::debug_text(addr@)),
        },
{
    match parse_server_name(host_of(addr)) {
        Ok(name) => Ok(name),
        Err(_) => Err(TlsError::ServerName(quote(addr))),
    }
}

// ---------------------------------------------------------------------------
// Peer identity
// ---------------------------------------------------------------------------

/// What an X.509 certificate in DER form says of its subject: `None` where it
/// is no certificate, and otherwise its first common name, if that is text.
pub uninterp spec fn subject_common_name(der: Seq<u8>) -> Option<Option<Seq<char>>>;

/// `X509Certificate::from_der`, then the first entry of
/// `subject().iter_common_name()` as text. The claim is only that the outcome
/// depends on the bytes alone.
#[verifier::external_body]
fn parse_common_name(der: &[u8]) -> (r: Option<Option<String>>)
    ensures
        match r {
            None => subject_common_name(der@) is None,
            Some(None) => subject_common_name(der@) == Some(None::<Seq<char>>),
            Some(Some(name)) => subject_common_name(der@) == Some(Some(name@)),
        },
{
    let (_, parsed) = x509_parser::certificate::X509Certificate::from_der(der).ok()?;
    let first = parsed.subject().iter_common_name().next();
    Some(first.and_then(|cn| cn.as_str().ok()).map(|cn| cn.to_string()))
}

/// What the parsed certificate makes of the peer: its id, or a refusal.
pub fn identity_from(parsed: Option<Option<String>>) -> (r: Result<String, TlsError>)
    ensures
        match r {
            Ok(name) => parsed == Some(Some(name)),
            Err(e) => match parsed {
                None => e is PeerCertificate,
                Some(None) => e is NoCommonName,
                Some(Some(_)) => false,
            },
        },
{
    match parsed {
        None => Err(TlsError::PeerCertificate),
        Some(None) => Err(TlsError::NoCommonName),
        Some(Some(name)) => Ok(name),
    }
}

/// The node id that a peer's leaf certificate authenticates.
pub fn peer_common_name(der: &[u8]) -> (r: Result<String, TlsError>)
    ensures
        match r {
            Ok(name) => subject_common_name(der@) == Some(Some(name@)),
            Err(e) => match subject_common_name(der@) {
                None => e is PeerCertificate,
                Some(None) => e is NoCommonName,
                Some(Some(_)) => false,
            },
        },
{
    identity_from(parse_common_name(der))
}

/// Whether the peer that answered is the node that was meant. Belonging to
/// the mesh is not enough where the address itself came from peers.
pub fn check_peer(addr: &str, actual: &str, expected: Option<&str>) -> (r: Result<(), TlsError>)
    ensures
        r is Ok <==> (expected matches Some(id) ==> id@ == actual@),
        r matches Err(e) ==> (e matches TlsError::WrongPeer { addr: a, actual: b, expected: c }
            && a@ == addr@ && b@ == crate::shown::debug_text(actual@) && Some(c@) == (
        match expected {
            Some(id) => Some(crate::shown::debug_text(id@)),
            None => None,
        })),
{
    match expected {
        None => Ok(()),
        Some(id) => {
            if same(id, actual) {
                Ok(())
            } else {
                Err(
                    TlsError::WrongPeer {
                        addr: addr.to_owned(),
                        actual: quote(actual),
                        expected: quote(id),
                    },
                )
            }
        },
    }
}

// ---------------------------------------------------------------------------
// Credentials
// ---------------------------------------------------------------------------

/// The reasons for which PEM text is refused.
#[verifier::external_type_specification]
#[verifier::external_body]
pub struct ExPemError(rustls_pki_types::pem::Error);

/// The DER forms of the certificates in PEM text; `None` where the text is
/// malformed.
pub uninterp spec fn pem_certificates(pem: Seq<u8>) -> Option<Seq<Seq<u8>>>;

/// The DER forms of the revocation lists in PEM text; `None` where the text is
/// malformed.
pub uninterp spec fn pem_revocation_lists(pem: Seq<u8>) -> Option<Seq<Seq<u8>>>;

/// The format and the DER form of the first private key in PEM text; `None`
/// where there is none or the text before it is malformed. The format is the
/// number of its standard: 1 for PKCS #1, 2 for SEC 1, 8 for PKCS #8, and 0
/// for any other.
pub uninterp spec fn pem_private_key(pem: Seq<u8>) -> Option<(u8, Seq<u8>)>;

/// The bytes of each entry.
pub open spec fn ders(list: Seq<Vec<u8>>) -> Seq<Seq<u8>> {
    list.map_values(|b: Vec<u8>| b@)
}

/// `CertificateDer::pem_slice_iter`, every item of it. The claim is only that
/// the outcome depends on the bytes alone.
#[verifier::external_body]
fn parse_certificates(pem: &[u8]) -> (r: Result<Vec<Vec<u8>>, rustls_pki_types::pem::Error>)
    ensures
        match r {
            Ok(list) => pem_certificates(pem@) == Some(ders(list@)),
            Err(_) => pem_certificates(pem@) is None,
        },
{
    CertificateDer::pem_slice_iter(pem).map(|item| item.map(|c| c.to_vec())).collect()
}

/// `CertificateRevocationListDer::pem_slice_iter`, every item of it. The claim
/// is only that the outcome depends on the bytes alone.
#[verifier::external_body]
fn parse_revocation_lists(pem: &[u8]) -> (r: Result<Vec<Vec<u8>>, rustls_pki_types::pem::Error>)
    ensures
        match r {
            Ok(list) => pem_revocation_lists(pem@) == Some(ders(list@)),
            Err(_) => pem_revocation_lists(pem@) is None,
        },
{
    CertificateRevocationListDer::pem_slice_iter(pem).map(|item| item.map(|c| c.to_vec())).collect()
}

/// `PrivateKeyDer::from_pem_slice`, with the format told by its variant. The
/// claim is only that the outcome depends on the bytes alone.
#[verifier::external_body]
fn parse_private_key(pem: &[u8]) -> (r: Result<(u8, Vec<u8>), rustls_pki_types::pem::Error>)
    ensures
        match r {
            Ok((format, der)) => pem_private_key(pem@) == Some((format, der@)),
            Err(_) => pem_private_key(pem@) is None,
        },
{
    match PrivateKeyDer::from_pem_slice(pem)? {
        PrivateKeyDer::Pkcs1(key) => Ok((1, key.secret_pkcs1_der().to_vec())),
        PrivateKeyDer::Sec1(key) => Ok((2, key.secret_sec1_der().to_vec())),
        PrivateKeyDer::Pkcs8(key) => Ok((8, key.secret_pkcs8_der().to_vec())),
        other => Ok((0, other.secret_der().to_vec())),
    }
}

/// The certificates of a file, of which there must be one.
pub fn load_certs(pem: &[u8], path: &str) -> (r: Result<Vec<Vec<u8>>, TlsError>)
    ensures
        match r {
            Ok(list) => pem_certificates(pem@) == Some(ders(list@)) && list@.len() > 0,
            Err(TlsError::CertFile(p)) => pem_certificates(pem@) is None && p@ == path@,
            Err(TlsError::NoCertificates(p)) => pem_certificates(pem@) == Some(
                Seq::<Seq<u8>>::empty(),
            ) && p@ == path@,
            Err(_) => false,
        },
{
    match parse_certificates(pem) {
        Err(_) => Err(TlsError::CertFile(path.to_owned())),
        Ok(list) => {
            if list.len() == 0 {
                assert(ders(list@) =~= Seq::<Seq<u8>>::empty());
                Err(TlsError::NoCertificates(path.to_owned()))
            } else {
                Ok(list)
            }
        },
    }
}

/// The revocation lists of a file, of which there must be one: a file that
/// revokes nothing would leave its operator believing that it does.
pub fn load_crls(pem: &[u8], path: &str) -> (r: Result<Vec<Vec<u8>>, TlsError>)
    ensures
        match r {
            Ok(list) => pem_revocation_lists(pem@) == Some(ders(list@)) && list@.len() > 0,
            Err(TlsError::CrlFile(p)) => pem_revocation_lists(pem@) is None && p@ == path@,
            Err(TlsError::NoCrl(p)) => pem_revocation_lists(pem@) == Some(
                Seq::<Seq<u8>>::empty(),
            ) && p@ == path@,
            Err(_) => false,
        },
{
    match parse_revocation_lists(pem) {
        Err(_) => Err(TlsError::CrlFile(path.to_owned())),
        Ok(list) => {
            if list.len() == 0 {
                assert(ders(list@) =~= Seq::<Seq<u8>>::empty());
                Err(TlsError::NoCrl(path.to_owned()))
            } else {
                Ok(list)
            }
        },
    }
}

/// The private key of a file: its format and its bytes.
pub fn load_key(pem: &[u8], path: &str) -> (r: Result<(u8, Vec<u8>), TlsError>)
    ensures
        match r {
            Ok((format, der)) => pem_private_key(pem@) == Some((format, der@)),
            Err(TlsError::KeyFile(p)) => pem_private_key(pem@) is None && p@ == path@,
            Err(_) => false,
        },
{
    match parse_private_key(pem) {
        Err(_) => Err(TlsError::KeyFile(path.to_owned())),
        Ok(key) => Ok(key),
    }
}

proof fn lemma_counts_add(a: Seq<char>, b: Seq<char>, c: char)
    ensures
        crate::text::occurrences(a + b, c) == crate::text::occurrences(a, c)
            + crate::text::occurrences(b, c),
    decreases b.len(),
{
    if b.len() == 0 {
        assert(a + b =~= a);
    } else {
        lemma_counts_add(a, b.drop_last(), c);
        assert((a + b).drop_last() =~= a + b.drop_last());
    }
}

proof fn lemma_counts_none(s: Seq<char>, c: char)
    requires
        forall|i: int| 0 <= i < s.len() ==> #[trigger] s[i] != c,
    ensures
        crate::text::occurrences(s, c) == 0,
    decreases s.len(),
{
    if s.len() > 0 {
        assert(s.last() == s[s.len() - 1]);
        assert forall|i: int| 0 <= i < s.drop_last().len() implies #[trigger] s.drop_last()[i]
            != c by {
            assert(s.drop_last()[i] == s[i]);
        }
        lemma_counts_none(s.drop_last(), c);
    }
}

proof fn lemma_stands_at(a: Seq<char>, b: Seq<char>, c: char)
    requires
        forall|i: int| 0 <= i < a.len() ==> #[trigger] a[i] != c,
    ensures
        crate::text::position(a + seq![c] + b, c) == a.len(),
        crate::text::position(a, c) == a.len(),
{
    let s = a + seq![c] + b;
    crate::text::law_first_position(s, c);
    crate::text::law_first_position(a, c);
    let p = crate::text::position(s, c) as int;
    assert(s[a.len() as int] == c);
    if p < a.len() {
        assert(s[p] == a[p]);
    }
}

/// The host of an address: what stands in brackets, or else what stands before
/// the one colon. A bare address of several colons is all host, as is one of
/// none.
pub proof fn law_hosts(name: Seq<char>, port: Seq<char>, rest: Seq<char>)
    ensures
        (forall|i: int| 0 <= i < name.len() ==> #[trigger] name[i] != ':') && (forall|i: int|
            0 <= i < port.len() ==> #[trigger] port[i] != ':') && (name.len() > 0 ==> name[0]
            != '[') ==> host(name + seq![':'] + port) == name && host(name) == name,
        (name.len() > 0 ==> name[0] != '[') ==> host(name + seq![':'] + port + seq![':'] + rest)
            == name + seq![':'] + port + seq![':'] + rest,
        (forall|i: int| 0 <= i < name.len() ==> #[trigger] name[i] != ']') ==> host(
            seq!['['] + name + seq![']'] + rest,
        ) == name && host(seq!['['] + name) == seq!['['] + name,
{
    let plain = name + seq![':'] + port;
    if (forall|i: int| 0 <= i < name.len() ==> #[trigger] name[i] != ':') && (forall|i: int|
        0 <= i < port.len() ==> #[trigger] port[i] != ':') && (name.len() > 0 ==> name[0] != '[') {
        lemma_stands_at(name, port, ':');
        assert(plain.take(name.len() as int) =~= name);
        assert(name.take(name.len() as int) =~= name);
        lemma_counts_none(name, ':');
        lemma_counts_none(port, ':');
        lemma_counts_add(name, seq![':'], ':');
        lemma_counts_add(name + seq![':'], port, ':');
        reveal_with_fuel(crate::text::occurrences, 2);
        assert(crate::text::occurrences(seq![':'], ':') == 1) by {
            assert(seq![':'].drop_last() =~= Seq::<char>::empty());
        }
        if name.len() > 0 {
            assert(plain[0] == name[0]);
        } else {
            assert(plain[0] == ':');
        }
    }
    if name.len() > 0 ==> name[0] != '[' {
        let long = name + seq![':'] + port + seq![':'] + rest;
        lemma_counts_add(name, seq![':'], ':');
        lemma_counts_add(name + seq![':'], port, ':');
        lemma_counts_add(plain, seq![':'], ':');
        lemma_counts_add(plain + seq![':'], rest, ':');
        reveal_with_fuel(crate::text::occurrences, 2);
        assert(crate::text::occurrences(seq![':'], ':') == 1) by {
            assert(seq![':'].drop_last() =~= Seq::<char>::empty());
        }
        if name.len() > 0 {
            assert(long[0] == name[0]);
        } else {
            assert(long[0] == ':');
        }
    }
    if forall|i: int| 0 <= i < name.len() ==> #[trigger] name[i] != ']' {
        let bracketed = seq!['['] + name + seq![']'] + rest;
        let inner = bracketed.skip(1);
        assert(inner =~= name + seq![']'] + rest);
        lemma_stands_at(name, rest, ']');
        assert(inner.take(name.len() as int) =~= name);
        let open = seq!['['] + name;
        assert(open.skip(1) =~= name);
    }
}

/// What is told of a connection that cannot be trusted holds what it is about.
pub proof fn law_tls_errors_say_what_failed(
    addr: String,
    actual: String,
    expected: String,
    path: String,
)
    ensures
        TlsError::ServerName(addr).words() == "invalid TLS server name in address "@ + addr@,
        TlsError::PeerCertificate.words() == "parsing peer certificate"@,
        TlsError::NoCommonName.words() == "peer certificate has no Subject CN"@,
        (TlsError::WrongPeer { addr, actual, expected }).words() == "upstream "@ + addr@
            + " authenticated as node "@ + actual@ + ", expected "@ + expected@,
        TlsError::CertFile(path).words() == "parsing cert file "@ + path@,
        TlsError::NoCertificates(path).words() == "no certificates found in "@ + path@,
        TlsError::CrlFile(path).words() == "parsing crl file "@ + path@,
        TlsError::NoCrl(path).words() == "no certificate revocation list found in "@ + path@,
        TlsError::KeyFile(path).words() == "parsing key file "@ + path@,
{
}

} // verus!
