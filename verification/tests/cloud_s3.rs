use aether_core::cloud::s3::{bare_host, endpoint_host, Endpoint, IpAddress, Resolution, S3Backend};

const PUBLIC: IpAddress = IpAddress::V4(52, 216, 0, 1);

/// An endpoint whose host spells an address, which a lookup of it gives too.
fn spelled(url: &str, ip: IpAddress) -> Option<Endpoint> {
    Some(Endpoint {
        url: url.to_string(),
        literal: Some(ip),
        found: Resolution::Addresses(vec![ip]),
    })
}

/// An endpoint whose host is a name.
fn named(url: &str, ip: IpAddress) -> Option<Endpoint> {
    Some(Endpoint {
        url: url.to_string(),
        literal: None,
        found: Resolution::Addresses(vec![ip]),
    })
}

#[test]
fn rejects_http_endpoint() {
    assert!(S3Backend::new("us-east-1", named("http://example.com", PUBLIC)).is_err());
}

#[test]
fn rejects_link_local_endpoint() {
    assert!(S3Backend::new(
        "us-east-1",
        spelled(
            "https://169.254.169.254/latest",
            IpAddress::V4(169, 254, 169, 254)
        )
    )
    .is_err());
}

#[test]
fn rejects_private_endpoints() {
    for (url, ip) in [
        ("https://10.0.0.1", IpAddress::V4(10, 0, 0, 1)),
        ("https://192.168.1.1", IpAddress::V4(192, 168, 1, 1)),
        ("https://172.16.0.1", IpAddress::V4(172, 16, 0, 1)),
        ("https://127.0.0.1", IpAddress::V4(127, 0, 0, 1)),
    ] {
        assert!(S3Backend::new("us-east-1", spelled(url, ip)).is_err());
        // The address alone is enough, without the lookup.
        assert!(S3Backend::new(
            "us-east-1",
            Some(Endpoint {
                url: url.to_string(),
                literal: Some(ip),
                found: Resolution::Addresses(vec![PUBLIC]),
            })
        )
        .is_err());
    }
    assert!(S3Backend::new("us-east-1", named("https://localhost", PUBLIC)).is_err());
}

#[test]
fn rejects_full_loopback_range() {
    // All of 127.0.0.0/8 is loopback, not just 127.0.0.1
    assert!(S3Backend::new(
        "us-east-1",
        spelled("https://127.0.0.2", IpAddress::V4(127, 0, 0, 2))
    )
    .is_err());
    assert!(S3Backend::new(
        "us-east-1",
        spelled(
            "https://127.255.255.254",
            IpAddress::V4(127, 255, 255, 254)
        )
    )
    .is_err());
}

#[test]
fn rejects_unspecified_address() {
    assert!(S3Backend::new(
        "us-east-1",
        spelled("https://0.0.0.0", IpAddress::V4(0, 0, 0, 0))
    )
    .is_err());
}

#[test]
fn rejects_ipv6_loopback() {
    assert!(S3Backend::new(
        "us-east-1",
        spelled("https://[::1]", IpAddress::V6(0, 0, 0, 0, 0, 0, 0, 1))
    )
    .is_err());
}

#[test]
fn rejects_cgn_range() {
    // 100.64.0.0/10 (Carrier-grade NAT)
    assert!(S3Backend::new(
        "us-east-1",
        spelled("https://100.64.0.1", IpAddress::V4(100, 64, 0, 1))
    )
    .is_err());
    assert!(S3Backend::new(
        "us-east-1",
        spelled(
            "https://100.127.255.254",
            IpAddress::V4(100, 127, 255, 254)
        )
    )
    .is_err());
}

#[test]
fn rejects_localhost_subdomains() {
    assert!(S3Backend::new("us-east-1", named("https://foo.localhost", PUBLIC)).is_err());
}

#[test]
fn check_ip_rejects_ipv4_mapped_ipv6() {
    // ::ffff:127.0.0.1 should be caught as loopback
    let ip = IpAddress::V6(0, 0, 0, 0, 0, 0xFFFF, 0x7F00, 0x0001);
    assert!(S3Backend::check_ip_is_public(ip).is_err());
    // ::ffff:169.254.169.254 should be caught as link-local
    let ip = IpAddress::V6(0, 0, 0, 0, 0, 0xFFFF, 0xA9FE, 0xA9FE);
    assert!(S3Backend::check_ip_is_public(ip).is_err());
    // ::ffff:10.0.0.1 should be caught as private
    let ip = IpAddress::V6(0, 0, 0, 0, 0, 0xFFFF, 0x0A00, 0x0001);
    assert!(S3Backend::check_ip_is_public(ip).is_err());
}

#[test]
fn check_ip_rejects_ipv6_link_local() {
    let ip = IpAddress::V6(0xFE80, 0, 0, 0, 0, 0, 0, 1);
    assert!(S3Backend::check_ip_is_public(ip).is_err());
}

#[test]
fn check_ip_rejects_ipv6_unique_local() {
    let ip = IpAddress::V6(0xFD00, 0, 0, 0, 0, 0, 0, 1);
    assert!(S3Backend::check_ip_is_public(ip).is_err());
}

#[test]
fn check_ip_allows_public() {
    let ip = IpAddress::V4(8, 8, 8, 8);
    assert!(S3Backend::check_ip_is_public(ip).is_ok());
    let ip = IpAddress::V6(0x2001, 0x4860, 0x4860, 0, 0, 0, 0, 0x8888);
    assert!(S3Backend::check_ip_is_public(ip).is_ok());
}

#[test]
fn accepts_valid_https_endpoint() {
    let backend = S3Backend::new(
        "us-east-1",
        named("https://s3.us-east-1.amazonaws.com", PUBLIC),
    )
    .unwrap();
    assert_eq!(backend.pinned_ips().len(), 1);
    assert!(matches!(
        backend.pinned_ips()[0],
        IpAddress::V4(52, 216, 0, 1)
    ));
}

#[test]
fn accepts_no_endpoint() {
    assert!(S3Backend::new("us-east-1", None).is_ok());
}

#[test]
fn failed_lookup_is_refused() {
    let endpoint = Endpoint {
        url: "https://example.com".to_string(),
        literal: None,
        found: Resolution::Failed("no such host".to_string()),
    };
    assert!(S3Backend::new("us-east-1", Some(endpoint)).is_err());
}

#[test]
fn resolved_private_address_is_refused() {
    assert!(S3Backend::new(
        "us-east-1",
        named("https://example.com", IpAddress::V4(10, 1, 2, 3))
    )
    .is_err());
}

#[test]
fn hosts_of_endpoints() {
    assert_eq!(endpoint_host("https://example.com/path"), Some("example.com"));
    assert_eq!(endpoint_host("http://example.com"), None);
    assert_eq!(bare_host("[::1]"), "::1");
}
