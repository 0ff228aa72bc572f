//! Amazon S3 storage backend.

use super::{StorageBackend, ValidatedPath};
use crate::error::{AetherError, ErrorModel, Result};
use crate::strings::{chars_of, find_from, find_text, holds_text, lower_chars, lower_text};
use vstd::prelude::*;
use vstd::string::*;

verus! {

/// An IP address.
#[derive(Debug, Clone, Copy, PartialEq, Eq, Structural)]
pub enum IpAddress {
    /// The four octets of an IPv4 address.
    V4(u8, u8, u8, u8),
    /// The eight segments of an IPv6 address.
    V6(u16, u16, u16, u16, u16, u16, u16, u16),
}

/// An IPv4 address that is not public: loopback, unspecified, multicast, broadcast,
/// private, link-local, shared (carrier-grade NAT) or for benchmarks.
pub open spec fn v4_not_public(a: u8, b: u8, c: u8, d: u8) -> bool {
    ||| a == 127
    ||| (a == 0 && b == 0 && c == 0 && d == 0)
    ||| 224 <= a <= 239
    ||| (a == 255 && b == 255 && c == 255 && d == 255)
    ||| a == 10
    ||| (a == 172 && 16 <= b <= 31)
    ||| (a == 192 && b == 168)
    ||| (a == 169 && b == 254)
    ||| (a == 100 && 64 <= b <= 127)
    ||| (a == 198 && 18 <= b <= 19)
}

/// Why an address is refused, if it is. An IPv4 address mapped into IPv6
/// (`::ffff:a.b.c.d`) is judged as the IPv4 address; IPv6 addresses are refused when
/// loopback, unspecified, multicast, link-local (fe80::/10) or unique-local (fc00::/7).
pub open spec fn ip_fault(ip: IpAddress) -> Option<Seq<char>> {
    match ip {
        IpAddress::V4(a, b, c, d) => if v4_not_public(a, b, c, d) {
            Some("custom S3 endpoint resolves to a non-public IPv4 address"@)
        } else {
            None
        },
        IpAddress::V6(s0, s1, s2, s3, s4, s5, s6, s7) => {
            let zero5 = s0 == 0 && s1 == 0 && s2 == 0 && s3 == 0 && s4 == 0;
            if zero5 && s5 == 0xFFFF {
                if v4_not_public(
                    (s6 / 256) as u8,
                    (s6 % 256) as u8,
                    (s7 / 256) as u8,
                    (s7 % 256) as u8,
                ) {
                    Some("custom S3 endpoint resolves to a non-public IPv4 address"@)
                } else {
                    None
                }
            } else if (zero5 && s5 == 0 && s6 == 0 && s7 <= 1) || s0 >= 0xFF00 || 0xFE80 <= s0
                <= 0xFEBF || 0xFC00 <= s0 <= 0xFDFF {
                Some("custom S3 endpoint resolves to a non-public IPv6 address"@)
            } else {
                None
            }
        },
    }
}

/// The host of an endpoint: what stands between `https://` and the next `/` or `:`.
pub open spec fn host_of(endpoint: Seq<char>) -> Seq<char> {
    let rest = endpoint.skip(8);
    let authority = match find_from(rest, "/"@, 0) {
        Some(i) => rest.take(i),
        None => rest,
    };
    match find_from(authority, ":"@, 0) {
        Some(i) => authority.take(i),
        None => authority,
    }
}

/// `localhost` or a name below it.
pub open spec fn is_localhost(host: Seq<char>) -> bool {
    let lower = lower_text(host);
    lower == "localhost"@ || (lower.len() >= 10 && lower.skip(lower.len() - 10) == ".localhost"@)
}

/// `host` without the brackets around it.
pub open spec fn without_brackets(host: Seq<char>) -> Seq<char>
    decreases host.len(),
{
    if host.len() > 0 && host[0] == '[' {
        without_brackets(host.drop_first())
    } else if host.len() > 0 && host.last() == ']' {
        without_brackets(host.drop_last())
    } else {
        host
    }
}

/// Why a host is refused, if it is, where `literal` is the address that it spells.
pub open spec fn host_fault(host: Seq<char>, literal: Option<IpAddress>) -> Option<Seq<char>> {
    if is_localhost(host) {
        Some("custom S3 endpoint must not target localhost"@)
    } else {
        match literal {
            Some(ip) => ip_fault(ip),
            None => None,
        }
    }
}

/// The fault of the first address that has one.
pub open spec fn first_ip_fault(ips: Seq<IpAddress>) -> Option<Seq<char>>
    decreases ips.len(),
{
    if ips.len() == 0 {
        None
    } else if ip_fault(ips[0]) is Some {
        ip_fault(ips[0])
    } else {
        first_ip_fault(ips.drop_first())
    }
}

/// What looking up the host of an endpoint gave.
pub enum Resolution {
    /// The addresses found.
    Addresses(Vec<IpAddress>),
    /// The lookup failed, with a reason.
    Failed(String),
}

/// Why an endpoint is refused, if it is, where `literal` is the address that its host
/// spells and `found` what the lookup of the host gave.
pub open spec fn endpoint_fault(
    endpoint: Seq<char>,
    literal: Option<IpAddress>,
    found: Resolution,
) -> Option<Seq<char>> {
    if !holds_text(endpoint, "https://"@, 0) {
        Some("custom S3 endpoint must use HTTPS"@)
    } else if host_fault(host_of(endpoint), literal) is Some {
        host_fault(host_of(endpoint), literal)
    } else {
        match found {
            Resolution::Failed(reason) => Some(
                "failed to resolve S3 endpoint hostname: "@ + reason@,
            ),
            Resolution::Addresses(ips) => if first_ip_fault(ips@) is Some {
                first_ip_fault(ips@)
            } else if ips@.len() == 0 {
                Some("S3 endpoint hostname resolved to zero addresses"@)
            } else {
                None
            },
        }
    }
}

/// A custom endpoint together with what was found out about its host.
pub struct Endpoint {
    /// The URL of the endpoint.
    pub url: String,
    /// The address that the host spells, if it spells one (see [`endpoint_host`]).
    pub literal: Option<IpAddress>,
    /// What looking up the host gave.
    pub found: Resolution,
}

/// S3 storage backend configuration. The service itself is not integrated: every
/// operation returns an error.
pub struct S3Backend {
    region: String,
    endpoint: Option<String>,
    pinned_ips: Vec<IpAddress>,
}

/// The value of an [`S3Backend`].
pub struct S3Model {
    pub region: Seq<char>,
    pub endpoint: Option<Seq<char>>,
    pub pinned_ips: Seq<IpAddress>,
}

impl View for S3Backend {
    type V = S3Model;

    closed spec fn view(&self) -> S3Model {
        S3Model {
            region: self.region@,
            endpoint: match self.endpoint {
                Some(url) => Some(url@),
                None => None,
            },
            pinned_ips: self.pinned_ips@,
        }
    }
}

/// Tells whether `s` starts with `https://`.
fn is_https(s: &[char]) -> (r: bool)
    ensures
        r == holds_text(s@, "https://"@, 0),
{
    proof {
        reveal_strlit("https://");
        assert("https://"@ =~= seq!['h', 't', 't', 'p', 's', ':', '/', '/']);
    }
    if s.len() < 8 {
        return false;
    }
    let r = s[0] == 'h' && s[1] == 't' && s[2] == 't' && s[3] == 'p' && s[4] == 's' && s[5] == ':'
        && s[6] == '/' && s[7] == '/';
    proof {
        let part = s@.subrange(0, 8);
        if r {
            assert(part =~= "https://"@);
        } else if part == "https://"@ {
            assert(part[0] == 'h' && part[1] == 't' && part[2] == 't' && part[3] == 'p' && part[4]
                == 's' && part[5] == ':' && part[6] == '/' && part[7] == '/');
        }
    }
    r
}

/// The host of an endpoint that uses HTTPS.
pub fn endpoint_host(endpoint: &str) -> (r: Option<&str>)
    ensures
        match r {
            Some(host) => holds_text(endpoint@, "https://"@, 0) && host@ == host_of(endpoint@),
            None => !holds_text(endpoint@, "https://"@, 0),
        },
{
    let chars = chars_of(endpoint);
    if !is_https(chars.as_slice()) {
        return None;
    }
    proof {
        reveal_strlit("https://");
        reveal_strlit("/");
        reveal_strlit(":");
    }
    let rest = endpoint.substring_char(8, chars.len());
    assert(rest@ =~= endpoint@.skip(8));
    let rest_chars = chars_of(rest);
    let authority = match find_text(rest_chars.as_slice(), "/") {
        Some(i) => rest.substring_char(0, i),
        None => rest,
    };
    assert(find_from(rest@, "/"@, 0) matches Some(i) ==> authority@ =~= rest@.take(i));
    let authority_chars = chars_of(authority);
    let host = match find_text(authority_chars.as_slice(), ":") {
        Some(i) => authority.substring_char(0, i),
        None => authority,
    };
    assert(find_from(authority@, ":"@, 0) matches Some(i) ==> host@ =~= authority@.take(i));
    Some(host)
}

/// `host` without the brackets around an IPv6 address.
pub fn bare_host(host: &str) -> (r: &str)
    ensures
        r@ == without_brackets(host@),
{
    let chars = chars_of(host);
    let mut from: usize = 0;
    let mut to: usize = chars.len();
    assert(host@.subrange(0, host@.len() as int) =~= host@);
    while from < to && (chars[from] == '[' || chars[to - 1] == ']')
        invariant
            from <= to <= chars@.len(),
            chars@ == host@,
            without_brackets(host@) == without_brackets(host@.subrange(from as int, to as int)),
        decreases to - from,
    {
        let ghost part = host@.subrange(from as int, to as int);
        if chars[from] == '[' {
            assert(part.drop_first() =~= host@.subrange(from + 1, to as int));
            from = from + 1;
        } else {
            assert(part.drop_last() =~= host@.subrange(from as int, to - 1));
            to = to - 1;
        }
    }
    host.substring_char(from, to)
}

/// Tells whether the characters at the end of `s` are `tail`.
fn ends_with(s: &[char], tail: &str) -> (r: bool)
    ensures
        r == (s@.len() >= tail@.len() && s@.skip(s@.len() - tail@.len()) == tail@),
{
    let t = chars_of(tail);
    if s.len() < t.len() {
        return false;
    }
    let start: usize = s.len() - t.len();
    let ghost end = s@.skip(start as int);
    let mut i: usize = 0;
    while i < t.len()
        invariant
            i <= t@.len(),
            t@ == tail@,
            start + t@.len() == s@.len(),
            s@.len() <= usize::MAX,
            end == s@.skip(start as int),
            forall|k: int| 0 <= k < i ==> end[k] == t@[k],
        decreases t@.len() - i,
    {
        if s[start + i] != t[i] {
            assert(end[i as int] != tail@[i as int]);
            return false;
        }
        i = i + 1;
    }
    assert(end =~= tail@);
    true
}

impl S3Backend {
    /// Creates a backend for a region, with a custom endpoint where one is given.
    ///
    /// The endpoint must use HTTPS, must not be `localhost`, and neither the address its
    /// host spells nor any address its host resolves to may be non-public. The addresses
    /// found are kept, so that connections can be restricted to them.
    pub fn new(region: &str, endpoint: Option<Endpoint>) -> (r: Result<S3Backend>)
        ensures
            match (r, endpoint) {
                (Ok(b), None) => b@ == (S3Model {
                    region: region@,
                    endpoint: None,
                    pinned_ips: Seq::empty(),
                }),
                (Ok(b), Some(ep)) => endpoint_fault(ep.url@, ep.literal, ep.found) is None
                    && (ep.found matches Resolution::Addresses(ips) && b@ == (S3Model {
                    region: region@,
                    endpoint: Some(ep.url@),
                    pinned_ips: ips@,
                })),
                (Err(e), Some(ep)) => endpoint_fault(ep.url@, ep.literal, ep.found) matches Some(
                    text,
                ) && e@ == ErrorModel::CloudStorage(text),
                (Err(_), None) => false,
            },
    {
        match endpoint {
            None => Ok(
                S3Backend { region: region.to_string(), endpoint: None, pinned_ips: Vec::new() },
            ),
            Some(ep) => {
                let Endpoint { url, literal, found } = ep;
                match S3Backend::validate_endpoint(url.as_str(), literal, found) {
                    Ok(pinned_ips) => Ok(
                        S3Backend { region: region.to_string(), endpoint: Some(url), pinned_ips },
                    ),
                    Err(e) => Err(e),
                }
            },
        }
    }

    /// The addresses that the endpoint was found to have.
    pub fn pinned_ips(&self) -> (ips: &[IpAddress])
        ensures
            ips@ == self@.pinned_ips,
    {
        self.pinned_ips.as_slice()
    }

    /// Checks an endpoint; gives the addresses of its host.
    pub fn validate_endpoint(endpoint: &str, literal: Option<IpAddress>, found: Resolution) -> (r:
        Result<Vec<IpAddress>>)
        ensures
            match r {
                Ok(v) => endpoint_fault(endpoint@, literal, found) is None
                    && (found matches Resolution::Addresses(ips) && v@ == ips@),
                Err(e) => endpoint_fault(endpoint@, literal, found) matches Some(text) && e@
                    == ErrorModel::CloudStorage(text),
            },
    {
        let host = match endpoint_host(endpoint) {
            Some(host) => host,
            None => {
                return Err(
                    AetherError::CloudStorage("custom S3 endpoint must use HTTPS".to_string()),
                );
            },
        };
        match S3Backend::check_host_is_public(host, literal) {
            Ok(()) => {},
            Err(e) => {
                return Err(e);
            },
        }
        match found {
            Resolution::Failed(reason) => {
                let mut text = String::from_str("failed to resolve S3 endpoint hostname: ");
                text.append(reason.as_str());
                Err(AetherError::CloudStorage(text))
            },
            Resolution::Addresses(ips) => {
                let mut i: usize = 0;
                assert(ips@.skip(0) =~= ips@);
                while i < ips.len()
                    invariant
                        i <= ips@.len(),
                        found == Resolution::Addresses(ips),
                        holds_text(endpoint@, "https://"@, 0),
                        host_fault(host_of(endpoint@), literal) is None,
                        first_ip_fault(ips@) == first_ip_fault(ips@.skip(i as int)),
                    decreases ips@.len() - i,
                {
                    assert(ips@.skip(i as int).drop_first() =~= ips@.skip(i + 1));
                    match S3Backend::check_ip_is_public(ips[i]) {
                        Ok(()) => {},
                        Err(e) => {
                            return Err(e);
                        },
                    }
                    i = i + 1;
                }
                if ips.len() == 0 {
                    return Err(
                        AetherError::CloudStorage(
                            "S3 endpoint hostname resolved to zero addresses".to_string(),
                        ),
                    );
                }
                Ok(ips)
            },
        }
    }

    /// Checks that a host is not `localhost` and does not spell a non-public address;
    /// `literal` is the address that it spells, if it spells one.
    pub fn check_host_is_public(host: &str, literal: Option<IpAddress>) -> (r: Result<()>)
        ensures
            match r {
                Ok(()) => host_fault(host@, literal) is None,
                Err(e) => host_fault(host@, literal) matches Some(text) && e@
                    == ErrorModel::CloudStorage(text),
            },
    {
        let chars = chars_of(host);
        let lower = lower_chars(chars.as_slice());
        proof {
            reveal_strlit("localhost");
            reveal_strlit(".localhost");
            assert(lower@.skip(0) =~= lower@);
        }
        if (lower.len() == 9 && ends_with(lower.as_slice(), "localhost")) || ends_with(
            lower.as_slice(),
            ".localhost",
        ) {
            return Err(
                AetherError::CloudStorage(
                    "custom S3 endpoint must not target localhost".to_string(),
                ),
            );
        }
        match literal {
            Some(ip) => S3Backend::check_ip_is_public(ip),
            None => Ok(()),
        }
    }

    /// Checks that an address is public.
    pub fn check_ip_is_public(ip: IpAddress) -> (r: Result<()>)
        ensures
            match r {
                Ok(()) => ip_fault(ip) is None,
                Err(e) => ip_fault(ip) matches Some(text) && e@ == ErrorModel::CloudStorage(text),
            },
    {
        let canonical = match ip {
            IpAddress::V6(0, 0, 0, 0, 0, 0xFFFF, high, low) => IpAddress::V4(
                (high / 256) as u8,
                (high % 256) as u8,
                (low / 256) as u8,
                (low % 256) as u8,
            ),
            other => other,
        };
        match canonical {
            IpAddress::V4(a, b, c, d) => {
                let is_private = a == 127 || (a == 0 && b == 0 && c == 0 && d == 0) || (224 <= a
                    && a <= 239) || (a == 255 && b == 255 && c == 255 && d == 255) || a == 10 || (a
                    == 172 && 16 <= b && b <= 31) || (a == 192 && b == 168) || (a == 169 && b
                    == 254) || (a == 100 && 64 <= b && b <= 127) || (a == 198 && 18 <= b && b
                    <= 19);
                if is_private {
                    return Err(
                        AetherError::CloudStorage(
                            "custom S3 endpoint resolves to a non-public IPv4 address".to_string(),
                        ),
                    );
                }
            },
            IpAddress::V6(s0, s1, s2, s3, s4, s5, s6, s7) => {
                let near_zero = s0 == 0 && s1 == 0 && s2 == 0 && s3 == 0 && s4 == 0 && s5 == 0 && s6
                    == 0 && s7 <= 1;
                let is_private = near_zero || s0 >= 0xFF00 || is_ipv6_link_local(s0)
                    || is_ipv6_unique_local(s0);
                if is_private {
                    return Err(
                        AetherError::CloudStorage(
                            "custom S3 endpoint resolves to a non-public IPv6 address".to_string(),
                        ),
                    );
                }
            },
        }
        Ok(())
    }
}

/// Tells whether the first segment is that of a link-local address (fe80::/10).
fn is_ipv6_link_local(segment: u16) -> (r: bool)
    ensures
        r == (0xFE80 <= segment <= 0xFEBF),
{
    assert((segment & 0xffc0 == 0xfe80) == (0xFE80 <= segment && segment <= 0xFEBF)) by (bit_vector);
    (segment & 0xffc0) == 0xfe80
}

/// Tells whether the first segment is that of a unique-local address (fc00::/7).
fn is_ipv6_unique_local(segment: u16) -> (r: bool)
    ensures
        r == (0xFC00 <= segment <= 0xFDFF),
{
    assert((segment & 0xfe00 == 0xfc00) == (0xFC00 <= segment && segment <= 0xFDFF)) by (bit_vector);
    (segment & 0xfe00) == 0xfc00
}

/// The error of every operation: the service is not integrated.
pub open spec fn unavailable() -> ErrorModel {
    ErrorModel::CloudStorage(
        "S3 backend not yet implemented — requires 'cloud-s3' feature"@,
    )
}

fn no_service() -> (e: AetherError)
    ensures
        e@ == unavailable(),
{
    AetherError::CloudStorage(
        "S3 backend not yet implemented — requires 'cloud-s3' feature".to_string(),
    )
}

impl StorageBackend for S3Backend {
    fn read_range(&self, _path: &ValidatedPath, _offset: u64, _length: u64) -> (r: Result<Vec<u8>>)
        ensures
            r matches Err(e) && e@ == unavailable(),
    {
        Err(no_service())
    }

    fn write(&self, _path: &ValidatedPath, _data: &[u8]) -> (r: Result<()>)
        ensures
            r matches Err(e) && e@ == unavailable(),
    {
        Err(no_service())
    }

    fn delete(&self, _path: &ValidatedPath) -> (r: Result<()>)
        ensures
            r matches Err(e) && e@ == unavailable(),
    {
        Err(no_service())
    }

    fn size(&self, _path: &ValidatedPath) -> (r: Result<u64>)
        ensures
            r matches Err(e) && e@ == unavailable(),
    {
        Err(no_service())
    }

    fn object_exists(&self, _path: &ValidatedPath) -> (r: Result<bool>)
        ensures
            r matches Err(e) && e@ == unavailable(),
    {
        Err(no_service())
    }
}

/// An IPv4 address is judged alike whether it stands for itself or is mapped into IPv6.
pub proof fn mapped_addresses_are_judged_alike(a: u8, b: u8, c: u8, d: u8)
    ensures
        ip_fault(
            IpAddress::V6(0, 0, 0, 0, 0, 0xFFFF, (a * 256 + b) as u16, (c * 256 + d) as u16),
        ) == ip_fault(IpAddress::V4(a, b, c, d)),
{
    let high = (a * 256 + b) as u16;
    let low = (c * 256 + d) as u16;
    assert(high / 256 == a && high % 256 == b);
    assert(low / 256 == c && low % 256 == d);
}

// What is let through.

/// The IPv4 addresses that [`S3Backend::check_ip_is_public`] refuses, as numbers: those below
/// 127/8, 10/8, 172.16/12, 192.168/16, 169.254/16, 100.64/10, 198.18/15 and 224/4, all zeros
/// and all ones. All others pass.
pub proof fn private_addresses_are_refused(a: u8, b: u8, c: u8, d: u8, r: Result<()>)
    requires
        call_ensures(S3Backend::check_ip_is_public, (IpAddress::V4(a, b, c, d),), r),
    ensures
        ({
            let n = 16_777_216 * a + 65_536 * b + 256 * c + d;
            r is Err <==> n == 0 || n == 0xFFFF_FFFF || 0x0A00_0000 <= n <= 0x0AFF_FFFF
                || 0x6440_0000 <= n <= 0x647F_FFFF || 0x7F00_0000 <= n <= 0x7FFF_FFFF
                || 0xA9FE_0000 <= n <= 0xA9FE_FFFF || 0xAC10_0000 <= n <= 0xAC1F_FFFF
                || 0xC0A8_0000 <= n <= 0xC0A8_FFFF || 0xC612_0000 <= n <= 0xC613_FFFF
                || 0xE000_0000 <= n <= 0xEFFF_FFFF
        }),
{
}

/// The IPv6 addresses that are refused: `::`, `::1`, those below fc00::/7, fe80::/10 and
/// ff00::/8, and those that stand for a refused IPv4 address.
pub proof fn private_v6_addresses_are_refused(
    s: (u16, u16, u16, u16, u16, u16, u16, u16),
    r: Result<()>,
    four: Result<()>,
)
    requires
        call_ensures(
            S3Backend::check_ip_is_public,
            (IpAddress::V6(s.0, s.1, s.2, s.3, s.4, s.5, s.6, s.7),),
            r,
        ),
        call_ensures(
            S3Backend::check_ip_is_public,
            (
                IpAddress::V4(
                    (s.6 / 256) as u8,
                    (s.6 % 256) as u8,
                    (s.7 / 256) as u8,
                    (s.7 % 256) as u8,
                ),
            ),
            four,
        ),
    ensures
        ({
            let zeros = s.0 == 0 && s.1 == 0 && s.2 == 0 && s.3 == 0 && s.4 == 0;
            if zeros && s.5 == 0xFFFF {
                r is Err <==> four is Err
            } else {
                r is Err <==> (zeros && s.5 == 0 && s.6 == 0 && s.7 < 2) || s.0 / 512 == 0x7E || s.0
                    / 64 == 0x3FA || s.0 / 256 == 0xFF
            }
        }),
{
}

/// The host of an endpoint is what stands behind `https://`, up to a `/` or `:` or the end.
pub proof fn hosts_stand_behind_the_scheme(host: Seq<char>, rest: Seq<char>)
    requires
        !host.contains('/'),
        !host.contains(':'),
        rest.len() > 0 ==> rest[0] == '/' || rest[0] == ':',
    ensures
        host_of("https://"@ + host + rest) == host,
        holds_text("https://"@ + host + rest, "https://"@, 0),
{
    reveal_strlit("https://");
    reveal_strlit("/");
    reveal_strlit(":");
    let endpoint = "https://"@ + host + rest;
    let tail = endpoint.skip(8);
    assert(tail =~= host + rest);
    assert(endpoint.subrange(0, 8) =~= "https://"@);
    let n = host.len() as int;
    assert forall|i: int| 0 <= i < n implies tail[i] != '/' && tail[i] != ':' by {
        assert(host.contains(host[i]));
    }
    let authority = match find_from(tail, "/"@, 0) {
        Some(i) => tail.take(i),
        None => tail,
    };
    lemma_first_char(tail, '/', "/"@, 0, n);
    assert(authority.len() >= n);
    assert forall|i: int| 0 <= i < n implies authority[i] != ':' by {
        assert(authority[i] == tail[i]);
    }
    lemma_first_char(authority, ':', ":"@, 0, n);
    if rest.len() > 0 && rest[0] == '/' {
        assert(holds_text(tail, "/"@, n)) by {
            assert(tail.subrange(n, n + 1) =~= "/"@);
        }
        lemma_found_at(tail, "/"@, 0, n);
        assert(authority =~= host);
    } else if rest.len() > 0 {
        assert(tail[n] == ':');
        lemma_first_char(tail, '/', "/"@, 0, n + 1);
        assert(authority[n] == tail[n]);
        assert(holds_text(authority, ":"@, n)) by {
            assert(authority.subrange(n, n + 1) =~= ":"@);
        }
        lemma_found_at(authority, ":"@, 0, n);
    } else {
        assert(tail =~= host);
    }
    assert(host_of(endpoint) =~= host);
}

proof fn lemma_first_char(hay: Seq<char>, c: char, needle: Seq<char>, i: int, n: int)
    requires
        needle.len() == 1,
        needle[0] == c,
        0 <= i <= n <= hay.len(),
        forall|k: int| 0 <= k < n ==> hay[k] != c,
    ensures
        find_from(hay, needle, i) matches Some(k) ==> n <= k < hay.len(),
    decreases hay.len() - i,
{
    if i + 1 > hay.len() || i >= hay.len() {
    } else if holds_text(hay, needle, i) {
        assert(hay.subrange(i, i + 1)[0] == hay[i]);
    } else if i < n {
        lemma_first_char(hay, c, needle, i + 1, n);
    } else {
        lemma_first_after(hay, needle, i + 1);
    }
}

proof fn lemma_first_after(hay: Seq<char>, needle: Seq<char>, i: int)
    requires
        0 <= i,
        needle.len() == 1,
    ensures
        find_from(hay, needle, i) matches Some(k) ==> i <= k < hay.len(),
    decreases hay.len() - i,
{
    if i + 1 > hay.len() || i >= hay.len() {
    } else if holds_text(hay, needle, i) {
    } else {
        lemma_first_after(hay, needle, i + 1);
    }
}

proof fn lemma_found_at(hay: Seq<char>, needle: Seq<char>, i: int, n: int)
    requires
        0 <= i <= n,
        needle.len() == 1,
        holds_text(hay, needle, n),
        forall|k: int| i <= k < n ==> hay[k] != needle[0],
    ensures
        find_from(hay, needle, i) == Some(n),
    decreases n - i,
{
    if i < n {
        if holds_text(hay, needle, i) {
            assert(hay.subrange(i, i + 1)[0] == hay[i]);
        }
        lemma_found_at(hay, needle, i + 1, n);
    }
}

/// Brackets around a host fall away.
pub proof fn brackets_fall_away(host: Seq<char>, bare: &str, given: &str)
    requires
        host.len() > 0,
        host[0] != '[',
        host.last() != ']',
        given@ == seq!['['] + host + seq![']'] || given@ == host,
        call_ensures(bare_host, (given,), bare),
    ensures
        bare@ == host,
{
    let s = seq!['['] + host + seq![']'];
    let t = host + seq![']'];
    assert(s[0] == '[');
    assert(s.drop_first() =~= t);
    assert(without_brackets(s) == without_brackets(t));
    assert(t[0] == host[0] && t.last() == ']');
    assert(t.drop_last() =~= host);
    assert(without_brackets(t) == without_brackets(host));
    assert(without_brackets(host) == host);
}

/// What [`S3Backend::validate_endpoint`] lets pass: an endpoint that uses HTTPS, whose host is
/// not `localhost` in any spelling nor below it, and of which every address that was found is
/// public, one at least; these addresses are what it gives.
pub proof fn endpoints_that_pass_are_public(
    endpoint: &str,
    literal: Option<IpAddress>,
    found: Resolution,
    r: Result<Vec<IpAddress>>,
    i: int,
    judged: Result<()>,
)
    requires
        call_ensures(S3Backend::validate_endpoint, (endpoint, literal, found), r),
        r is Ok,
    ensures
        holds_text(endpoint@, "https://"@, 0),
        lower_text(host_of(endpoint@)) != "localhost"@,
        found is Addresses && r->Ok_0@ == found->Addresses_0@ && r->Ok_0@.len() > 0,
        0 <= i < r->Ok_0@.len() && call_ensures(
            S3Backend::check_ip_is_public,
            (r->Ok_0@[i],),
            judged,
        ) ==> judged is Ok,
        literal is Some && call_ensures(S3Backend::check_ip_is_public, (literal->0,), judged)
            ==> judged is Ok,
{
    let ips = r->Ok_0@;
    if 0 <= i < ips.len() {
        lemma_no_fault(ips, i);
    }
}

proof fn lemma_no_fault(ips: Seq<IpAddress>, i: int)
    requires
        first_ip_fault(ips) is None,
        0 <= i < ips.len(),
    ensures
        ip_fault(ips[i]) is None,
    decreases ips.len(),
{
    if i > 0 {
        lemma_no_fault(ips.drop_first(), i - 1);
    }
}

/// Endpoints that are public pass: those that use HTTPS, are not `localhost` nor below it,
/// spell no refused address, and were found to have addresses of which none is refused.
pub proof fn public_endpoints_pass(
    endpoint: &str,
    literal: Option<IpAddress>,
    ips: Vec<IpAddress>,
    r: Result<Vec<IpAddress>>,
)
    requires
        call_ensures(
            S3Backend::validate_endpoint,
            (endpoint, literal, Resolution::Addresses(ips)),
            r,
        ),
        holds_text(endpoint@, "https://"@, 0),
        !is_localhost(host_of(endpoint@)),
        literal is None || ip_fault(literal->0) is None,
        ips@.len() > 0,
        forall|i: int| 0 <= i < ips@.len() ==> ip_fault(#[trigger] ips@[i]) is None,
    ensures
        r is Ok && r->Ok_0@ == ips@,
{
    lemma_all_fine(ips@);
}

proof fn lemma_all_fine(ips: Seq<IpAddress>)
    requires
        forall|i: int| 0 <= i < ips.len() ==> ip_fault(#[trigger] ips[i]) is None,
    ensures
        first_ip_fault(ips) is None,
    decreases ips.len(),
{
    if ips.len() > 0 {
        let rest = ips.drop_first();
        assert forall|i: int| 0 <= i < rest.len() implies ip_fault(#[trigger] rest[i]) is None by {
            assert(rest[i] == ips[i + 1]);
        }
        lemma_all_fine(rest);
    }
}

/// Which hosts are `localhost`: that name, and names that end with it behind a dot, with
/// letters of either case.
pub proof fn localhost_is_known_in_any_case(host: Seq<char>, before: Seq<char>)
    ensures
        lower_text(host) == "localhost"@ ==> is_localhost(host) && is_localhost(
            before + seq!['.'] + host,
        ),
        is_localhost(host) ==> lower_text(host).len() >= 9 && lower_text(host).skip(
            lower_text(host).len() - 9,
        ) == "localhost"@,
{
    reveal_strlit("localhost");
    reveal_strlit(".localhost");
    let lower = lower_text(host);
    if lower == "localhost"@ {
        let all = before + seq!['.'] + host;
        let n = lower_text(all).len();
        assert(lower_text(all).skip(n - 10) =~= ".localhost"@) by {
            assert forall|k: int| 0 <= k < 10 implies lower_text(all).skip(n - 10)[k]
                == ".localhost"@[k] by {
                if k > 0 {
                    assert(lower_text(all).skip(n - 10)[k] == lower[k - 1]);
                    assert(".localhost"@[k] == "localhost"@[k - 1]);
                }
            }
        }
    }
    if is_localhost(host) && lower != "localhost"@ {
        assert(lower.skip(lower.len() - 9) =~= "localhost"@) by {
            let tail = lower.skip(lower.len() - 10);
            assert forall|k: int| 0 <= k < 9 implies lower.skip(lower.len() - 9)[k]
                == "localhost"@[k] by {
                assert(lower.skip(lower.len() - 9)[k] == tail[k + 1]);
                assert(".localhost"@[k + 1] == "localhost"@[k]);
            }
        }
    }
    if lower == "localhost"@ {
        assert(lower.skip(0) =~= lower);
    }
}

} // verus!
