//! Server names, peer identities and credentials.

use radii::tls::{
    check_peer, host_of, identity_from, load_certs, load_crls, load_key, peer_common_name,
    server_name_for_addr, TlsError,
};
use rcgen::{
    date_time_ymd, BasicConstraints, CertificateParams, CertificateRevocationListParams,
    DistinguishedName, DnType, IsCa, KeyIdMethod, KeyPair, KeyUsagePurpose, SerialNumber,
};

#[test]
fn resolves_the_server_name_for_every_address_shape() {
    for (addr, expected) in [
        ("127.0.0.1:7100", "127.0.0.1"),
        ("node-b.example:7100", "node-b.example"),
        ("node-b.example", "node-b.example"),
        ("[::1]:7100", "::1"),
        ("[2001:db8::1]:443", "2001:db8::1"),
        ("[::1]", "::1"),
        ("::1", "::1"),
        ("2001:db8::1", "2001:db8::1"),
    ] {
        assert_eq!(host_of(addr), expected, "host_of({addr:?})");
        server_name_for_addr(addr)
            .unwrap_or_else(|err| panic!("{addr:?} must resolve to a server name: {err:?}"));
    }
}

#[test]
fn rejects_a_malformed_address_rather_than_guessing() {
    for addr in ["[::1", "[", "fe80::1%eth0"] {
        let err = server_name_for_addr(addr)
            .expect_err("a malformed address must not produce a server name")
            .describe();
        assert!(
            err.contains(addr),
            "the error must quote the offending address, got: {err}"
        );
        assert_eq!(err, format!("invalid TLS server name in address {addr:?}"));
    }
    assert_eq!(
        server_name_for_addr("a\tb").unwrap_err().describe(),
        "invalid TLS server name in address \"a\\tb\""
    );
}

/// An address of the same host in another spelling gives the same name.
#[test]
fn a_server_name_is_canonical() {
    assert_eq!(
        server_name_for_addr("[2001:0db8:0:0:0:0:0:1]:443").unwrap(),
        "2001:db8::1"
    );
    assert_eq!(server_name_for_addr("127.0.0.1:1").unwrap(), "127.0.0.1");
}

fn certificate(common_name: Option<&str>) -> (rcgen::Certificate, KeyPair) {
    let mut params = CertificateParams::new(vec![]).unwrap();
    params.distinguished_name = DistinguishedName::new();
    match common_name {
        Some(name) => params.distinguished_name.push(DnType::CommonName, name),
        None => params.distinguished_name.push(DnType::OrganizationName, "nobody"),
    }
    params.is_ca = IsCa::Ca(BasicConstraints::Unconstrained);
    params.key_usages = vec![KeyUsagePurpose::KeyCertSign, KeyUsagePurpose::CrlSign];
    let key = KeyPair::generate().unwrap();
    let cert = params.self_signed(&key).unwrap();
    (cert, key)
}

#[test]
fn a_certificate_authenticates_its_common_name() {
    let (cert, _) = certificate(Some("node-a"));
    assert_eq!(peer_common_name(cert.der()).unwrap(), "node-a");
    let (nameless, _) = certificate(None);
    assert!(matches!(
        peer_common_name(nameless.der()),
        Err(TlsError::NoCommonName)
    ));
    assert!(matches!(
        peer_common_name(b"no certificate"),
        Err(TlsError::PeerCertificate)
    ));
    assert_eq!(identity_from(Some(Some("n".into()))).unwrap(), "n");
    assert_eq!(
        identity_from(Some(None)).unwrap_err().describe(),
        "peer certificate has no Subject CN"
    );
    assert_eq!(
        identity_from(None).unwrap_err().describe(),
        "parsing peer certificate"
    );
}

#[test]
fn dial_expecting_rejects_a_valid_cert_for_the_wrong_node() {
    let err = check_peer("10.0.0.1:1", "node-x", Some("node-b")).unwrap_err();
    assert_eq!(
        err.describe(),
        "upstream 10.0.0.1:1 authenticated as node \"node-x\", expected \"node-b\""
    );
    let err = check_peer("h:1", "a\"b", Some("c\\d\n")).unwrap_err();
    assert_eq!(
        err.describe(),
        format!("upstream h:1 authenticated as node {:?}, expected {:?}", "a\"b", "c\\d\n")
    );
    assert!(check_peer("10.0.0.1:1", "node-b", Some("node-b")).is_ok());
    assert!(check_peer("10.0.0.1:1", "node-x", None).is_ok());
}

#[test]
fn certificates_are_read_from_pem() {
    let (first, _) = certificate(Some("a"));
    let (second, _) = certificate(Some("b"));
    let pem = format!("{}\n{}", first.pem(), second.pem());
    let list = load_certs(pem.as_bytes(), "ca.pem").unwrap();
    assert_eq!(list, vec![first.der().to_vec(), second.der().to_vec()]);
    assert_eq!(
        load_certs(b"", "ca.pem").unwrap_err().describe(),
        "no certificates found in ca.pem"
    );
    let broken = b"-----BEGIN CERTIFICATE-----\n!!!\n-----END CERTIFICATE-----\n";
    assert_eq!(
        load_certs(broken, "ca.pem").unwrap_err().describe(),
        "parsing cert file ca.pem"
    );
}

#[test]
fn a_missing_crl_file_fails_to_load() {
    // A list that names nothing is refused rather than taken for an empty one.
    let err = load_crls(b"", "/nonexistent/revoked.crl.pem").unwrap_err().describe();
    assert!(
        err.contains("crl") || err.contains("revocation"),
        "the error must name the CRL, got: {err}"
    );
    let broken = b"-----BEGIN X509 CRL-----\n!!!\n-----END X509 CRL-----\n";
    assert_eq!(
        load_crls(broken, "r.pem").unwrap_err().describe(),
        "parsing crl file r.pem"
    );
}

#[test]
fn revocation_lists_are_read_from_pem() {
    let (ca, key) = certificate(Some("ca"));
    let crl = CertificateRevocationListParams {
        this_update: date_time_ymd(2026, 1, 1),
        next_update: date_time_ymd(2099, 1, 1),
        crl_number: SerialNumber::from(1u64),
        issuing_distribution_point: None,
        revoked_certs: vec![],
        key_identifier_method: KeyIdMethod::Sha256,
    }
    .signed_by(&ca, &key)
    .unwrap();
    let list = load_crls(crl.pem().unwrap().as_bytes(), "r.pem").unwrap();
    assert_eq!(list, vec![crl.der().to_vec()]);
}

#[test]
fn a_private_key_is_read_from_pem() {
    let key = KeyPair::generate().unwrap();
    let (format, der) = load_key(key.serialize_pem().as_bytes(), "k.pem").unwrap();
    assert_eq!(format, 8);
    assert_eq!(der, key.serialize_der());
    assert_eq!(
        load_key(b"nothing", "k.pem").unwrap_err().describe(),
        "parsing key file k.pem"
    );
}
