use fluent_uri::component::{Authority, Endpoint, EndpointError, Host, Scheme};
use fluent_uri::encoding::encoder::{Path, Query};
use fluent_uri::encoding::EStr;
use fluent_uri::error::{Component, ParseError};
use fluent_uri::internal::HostMeta;
use fluent_uri::ip::{
    parse_v4, parse_v6, read_dec_octet, read_groups, read_h16, Ipv4Addr, Ipv6Addr,
};
use fluent_uri::parser::{parse_authority, parse_bytes, parse_host, Tables};
use fluent_uri::uri::UriRef;

fn reassemble(u: &UriRef) -> String {
    let mut out = String::new();
    if let Some(s) = u.scheme() {
        out.push_str(s.as_str());
        out.push(':');
    }
    if let Some(a) = u.authority() {
        out.push_str("//");
        out.push_str(a.as_str());
    }
    out.push_str(u.path().as_str());
    if let Some(q) = u.query() {
        out.push('?');
        out.push_str(q.as_str());
    }
    if let Some(f) = u.fragment() {
        out.push('#');
        out.push_str(f.as_str());
    }
    out
}

const VALID: &[&str] = &[
    "",
    "a",
    "/",
    "//",
    "?",
    "#",
    "a:",
    "a:b",
    "a:/b",
    "a://",
    "a://b",
    "http://example.com",
    "http://example.com/",
    "http://user@example.com:8080/path/to?query=1&b=2#frag",
    "HTTP://EXAMPLE.COM/",
    "ftp://ftp.is.co.za/rfc/rfc1808.txt",
    "http://www.ietf.org/rfc/rfc2396.txt",
    "ldap://[2001:db8::7]/c=GB?objectClass?one",
    "mailto:John.Doe@example.com",
    "news:comp.infosystems.www.servers.unix",
    "tel:+1-816-555-1212",
    "telnet://192.0.2.16:80/",
    "urn:oasis:names:specification:docbook:dtd:xml:4.1.2",
    "foo://example.com:8042/over/there?name=ferret#nose",
    "file:///path/to/file",
    "//localhost:4673/",
    "//localhost:/",
    "//localhost/",
    "//user:pass@host",
    "//@host",
    "//@",
    "//:",
    "//[::1]",
    "//[::1]:80",
    "//[v1.addr]",
    "//[vF.a:b]:1",
    "//127.0.0.1",
    "//999.1.1.1",
    "//%41%42",
    "../a/b",
    "./a:b",
    "a/b:c",
    "/a/b/c?d/e?f#g/h?i",
    "?a#",
    "#%20",
    "a%20b",
    "x:?#",
    "x://?#",
    "a+b-c.d1:e",
];

const INVALID: &[&str] = &[
    ":",
    ":a",
    "1a:b",
    "a b",
    "a:b c",
    "%",
    "%4",
    "%zz",
    "a%2",
    "a#b#c",
    "a?b#c#d",
    "//[::1",
    "//[::1]x",
    "//[::1]:8a",
    "//[]",
    "//[1.2.3.4]",
    "//[::12345]",
    "//[v.a]",
    "//[v1.]",
    "//[v1]",
    "//[x1.a]",
    "//host:8a",
    "//host:80:81",
    "//a@b@c",
    "//ho[st",
    "//host]",
    "//us[er@host",
    "a_b:c",
    "-a:b",
    "a\\b",
    "a<b",
    "a\"b",
    "a{b}",
    "a^b",
    "a`b",
    "a|b",
    "\u{e9}",
    "http://ex\u{e4}mple.com/",
    "/a\u{0}",
    "a\tb",
    "a\nb",
    "//[::1]/a b",
    "?a b",
    "#a b",
    "#a#",
];

#[test]
fn valid_references_parse() {
    for s in VALID {
        assert!(UriRef::parse(s).is_ok(), "{s:?}");
        assert!(parse_bytes(s.as_bytes(), &Tables::new()).is_ok(), "{s:?}");
    }
}

#[test]
fn invalid_references_are_rejected() {
    for s in INVALID {
        assert!(UriRef::parse(s).is_err(), "{s:?}");
        assert!(parse_bytes(s.as_bytes(), &Tables::new()).is_err(), "{s:?}");
    }
}

#[test]
fn round_trip() {
    for s in VALID {
        let u = UriRef::parse(s).unwrap();
        assert_eq!(u.as_str(), *s);
        assert_eq!(reassemble(&u), *s);
    }
}

#[test]
fn components_of_a_full_uri() {
    let u = UriRef::parse("http://user@example.com:8080/path/to?query=1#frag").unwrap();
    assert_eq!(u.scheme().unwrap().as_str(), "http");
    assert_eq!(u.authority().unwrap().as_str(), "user@example.com:8080");
    assert_eq!(u.path().as_str(), "/path/to");
    assert_eq!(u.query().unwrap().as_str(), "query=1");
    assert_eq!(u.fragment().unwrap().as_str(), "frag");
    assert!(!u.is_relative());
}

#[test]
fn components_of_a_relative_reference() {
    let u = UriRef::parse("../a/b").unwrap();
    assert!(u.scheme().is_none());
    assert!(u.authority().is_none());
    assert_eq!(u.path().as_str(), "../a/b");
    assert!(u.query().is_none());
    assert!(u.fragment().is_none());
    assert!(u.is_relative());
}

#[test]
fn components_of_the_empty_reference() {
    let u = UriRef::parse("").unwrap();
    assert!(u.scheme().is_none());
    assert!(u.authority().is_none());
    assert_eq!(u.path().as_str(), "");
    assert!(u.path().is_empty());
    assert!(u.query().is_none());
    assert!(u.fragment().is_none());
}

#[test]
fn empty_components_are_present() {
    let u = UriRef::parse("x://?#").unwrap();
    assert_eq!(u.scheme().unwrap().as_str(), "x");
    assert_eq!(u.authority().unwrap().as_str(), "");
    assert_eq!(u.path().as_str(), "");
    assert_eq!(u.query().unwrap().as_str(), "");
    assert_eq!(u.fragment().unwrap().as_str(), "");
}

#[test]
fn colon_after_first_slash_is_no_scheme() {
    let u = UriRef::parse("a/b:c").unwrap();
    assert!(u.scheme().is_none());
    assert_eq!(u.path().as_str(), "a/b:c");
    let u = UriRef::parse("?a:b").unwrap();
    assert!(u.scheme().is_none());
    assert_eq!(u.query().unwrap().as_str(), "a:b");
}

#[test]
fn path_without_authority() {
    let u = UriRef::parse("mailto:John.Doe@example.com").unwrap();
    assert_eq!(u.scheme().unwrap().as_str(), "mailto");
    assert!(u.authority().is_none());
    assert_eq!(u.path().as_str(), "John.Doe@example.com");
    let u = UriRef::parse("a:/b//c").unwrap();
    assert!(u.authority().is_none());
    assert_eq!(u.path().as_str(), "/b//c");
}

#[test]
fn query_and_fragment_marks() {
    let u = UriRef::parse("/a?b?c#d?e/f").unwrap();
    assert_eq!(u.path().as_str(), "/a");
    assert_eq!(u.query().unwrap().as_str(), "b?c");
    assert_eq!(u.fragment().unwrap().as_str(), "d?e/f");
    let u = UriRef::parse("/a#b?c").unwrap();
    assert!(u.query().is_none());
    assert_eq!(u.fragment().unwrap().as_str(), "b?c");
}

#[test]
fn decode_of_components() {
    let u = UriRef::parse("/a%20b?%41#%7e").unwrap();
    assert_eq!(u.path().decode(), b"/a b".to_vec());
    assert_eq!(u.query().unwrap().decode(), b"A".to_vec());
    assert_eq!(u.fragment().unwrap().decode(), b"~".to_vec());
}

#[test]
fn scheme_new() {
    assert!(Scheme::new("http").is_some());
    assert!(Scheme::new("a").is_some());
    assert!(Scheme::new("a+b-c.d1").is_some());
    assert!(Scheme::new("").is_none());
    assert!(Scheme::new("1a").is_none());
    assert!(Scheme::new("+a").is_none());
    assert!(Scheme::new("a_b").is_none());
    assert!(Scheme::new("a:").is_none());
    assert!(Scheme::new("a%41").is_none());
    assert!(Scheme::new("\u{e9}").is_none());
    assert_eq!(Scheme::new("HTTP").unwrap().as_str(), "HTTP");
    assert_eq!(Scheme::new_or_panic("ftp").as_str(), "ftp");
}

#[test]
fn scheme_comparison_ignores_case() {
    let http = Scheme::new_or_panic("http");
    let u = UriRef::parse("HTTP://EXAMPLE.COM/").unwrap();
    let scheme = u.scheme().unwrap();
    assert!(scheme == http);
    assert_eq!(scheme.as_str(), "HTTP");
    assert!(Scheme::new_or_panic("hTtP") == http);
    assert!(Scheme::new_or_panic("https") != http);
    assert!(Scheme::new_or_panic("htt") != http);
    assert!(Scheme::new_or_panic("a-b") != Scheme::new_or_panic("a.b"));
    assert!(Scheme::new_or_panic("a1") == Scheme::new_or_panic("A1"));
    assert!(Scheme::new_or_panic("a1") != Scheme::new_or_panic("aQ"));
}

fn authority_of(s: &str) -> fluent_uri::component::Authority<'_> {
    UriRef::parse(s).unwrap().authority().unwrap()
}

#[test]
fn host_classification() {
    match authority_of("//127.0.0.1").host_parsed() {
        Host::Ipv4(a) => {
            assert_eq!(a, Ipv4Addr::new(127, 0, 0, 1));
            assert!(a.is_loopback());
            assert_eq!(a.octets(), [127, 0, 0, 1]);
        }
        _ => panic!("not IPv4"),
    }
    match authority_of("//[::1]").host_parsed() {
        Host::Ipv6(a) => {
            assert_eq!(a, Ipv6Addr::new([0, 0, 0, 0, 0, 0, 0, 1]));
            assert!(a.is_loopback());
        }
        _ => panic!("not IPv6"),
    }
    assert!(matches!(authority_of("//[v1.addr]").host_parsed(), Host::IpvFuture));
    match authority_of("//localhost").host_parsed() {
        Host::RegName(name) => assert_eq!(name.as_str(), "localhost"),
        _ => panic!("not a registered name"),
    }
    match authority_of("//999.1.1.1").host_parsed() {
        Host::RegName(name) => assert_eq!(name.as_str(), "999.1.1.1"),
        _ => panic!("not a registered name"),
    }
}

#[test]
fn strict_ipv4_only() {
    for h in [
        "//01.1.1.1", "//1.1.1", "//1.1.1.1.1", "//1.1.1.256", "//0x7f.0.0.1", "//1.1.1.1.",
        "//.1.1.1.1", "//1..1.1", "//1.1.1.01", "//1.1.1.1a", "//0127.0.0.1", "//127.1",
        "//2130706433", "//1.1.1.", "//1.1.1.0000",
    ] {
        assert!(matches!(authority_of(h).host_parsed(), Host::RegName(_)), "{h}");
    }
    for (h, octets) in [
        ("//0.0.0.0", [0, 0, 0, 0]),
        ("//255.255.255.255", [255, 255, 255, 255]),
        ("//1.20.100.0", [1, 20, 100, 0]),
        ("//192.0.2.16", [192, 0, 2, 16]),
        ("//249.250.199.9", [249, 250, 199, 9]),
    ] {
        match authority_of(h).host_parsed() {
            Host::Ipv4(a) => assert_eq!(a.octets(), octets, "{h}"),
            _ => panic!("{h} is not IPv4"),
        }
    }
}

#[test]
fn registered_names() {
    for h in ["//", "//a", "//example.com", "//EXAMPLE.COM", "//%41", "//a-b_c~d", "//!$&'()*+,;="] {
        let a = authority_of(h);
        match a.host_parsed() {
            Host::RegName(name) => assert_eq!(name.as_str(), &h[2..]),
            _ => panic!("{h} is not a registered name"),
        }
    }
}

#[test]
fn empty_host() {
    let a = authority_of("file:///path/to/file");
    assert_eq!(a.as_str(), "");
    assert_eq!(a.host(), "");
    assert!(!a.has_userinfo());
    assert!(!a.has_port());
    assert!(matches!(a.host_parsed(), Host::RegName(name) if name.is_empty()));
}

#[test]
fn authority_boundaries() {
    let a = authority_of("//user@example.com:8080");
    assert_eq!(a.as_str(), "user@example.com:8080");
    assert_eq!(a.userinfo().unwrap().as_str(), "user");
    assert_eq!(a.host(), "example.com");
    assert_eq!(a.port().unwrap().as_str(), "8080");
    assert!(a.has_userinfo());
    assert!(a.has_port());

    let a = authority_of("//localhost:");
    assert!(a.has_port());
    assert_eq!(a.port().unwrap().as_str(), "");
    assert!(a.port().unwrap().is_empty());
    assert_eq!(a.host(), "localhost");

    let a = authority_of("//localhost");
    assert!(!a.has_port());
    assert!(a.port().is_none());
    assert!(!a.has_userinfo());
    assert!(a.userinfo().is_none());
}

#[test]
fn authority_with_bracketed_host() {
    let a = authority_of("//u:p@[2001:db8::7]:80");
    assert_eq!(a.userinfo().unwrap().as_str(), "u:p");
    assert_eq!(a.host(), "[2001:db8::7]");
    assert_eq!(a.port().unwrap().as_str(), "80");
    let a = authority_of("//[::1]");
    assert_eq!(a.host(), "[::1]");
    assert!(a.port().is_none());
    let a = authority_of("//[::1]:");
    assert_eq!(a.host(), "[::1]");
    assert_eq!(a.port().unwrap().as_str(), "");
}

#[test]
fn authority_with_empty_userinfo() {
    let a = authority_of("//@host");
    assert!(a.has_userinfo());
    assert_eq!(a.userinfo().unwrap().as_str(), "");
    assert_eq!(a.host(), "host");
    let a = authority_of("//user:pa:ss@host:1");
    assert_eq!(a.userinfo().unwrap().as_str(), "user:pa:ss");
    assert_eq!(a.host(), "host");
    assert_eq!(a.port().unwrap().as_str(), "1");
    assert_eq!(a.userinfo().unwrap().decode(), b"user:pa:ss".to_vec());
}

#[test]
fn port_conversion() {
    assert_eq!(authority_of("//localhost:4673/").port_to_u16(), Ok(Some(4673)));
    assert_eq!(authority_of("//localhost/").port_to_u16(), Ok(None));
    assert_eq!(authority_of("//localhost:/").port_to_u16(), Ok(None));
    assert!(authority_of("//localhost:123456/").port_to_u16().is_err());
    assert_eq!(authority_of("//localhost:123456/").port().unwrap().as_str(), "123456");
}

#[test]
fn port_conversion_limits() {
    assert_eq!(authority_of("//h:0").port_to_u16(), Ok(Some(0)));
    assert_eq!(authority_of("//h:65535").port_to_u16(), Ok(Some(65535)));
    assert!(authority_of("//h:65536").port_to_u16().is_err());
    assert_eq!(authority_of("//h:0080").port_to_u16(), Ok(Some(80)));
    assert_eq!(authority_of("//h:000000000000000000000065535").port_to_u16(), Ok(Some(65535)));
    assert!(authority_of("//h:99999999999999999999999999").port_to_u16().is_err());
    assert_eq!(authority_of("//[::1]:443").port_to_u16(), Ok(Some(443)));
}

#[test]
fn dec_octets() {
    assert_eq!(read_dec_octet(b"0"), Some(0));
    assert_eq!(read_dec_octet(b"9"), Some(9));
    assert_eq!(read_dec_octet(b"10"), Some(10));
    assert_eq!(read_dec_octet(b"99"), Some(99));
    assert_eq!(read_dec_octet(b"100"), Some(100));
    assert_eq!(read_dec_octet(b"199"), Some(199));
    assert_eq!(read_dec_octet(b"249"), Some(249));
    assert_eq!(read_dec_octet(b"255"), Some(255));
    assert_eq!(read_dec_octet(b"256"), None);
    assert_eq!(read_dec_octet(b"999"), None);
    assert_eq!(read_dec_octet(b"00"), None);
    assert_eq!(read_dec_octet(b"01"), None);
    assert_eq!(read_dec_octet(b"001"), None);
    assert_eq!(read_dec_octet(b""), None);
    assert_eq!(read_dec_octet(b"1000"), None);
    assert_eq!(read_dec_octet(b"1a"), None);
    assert_eq!(read_dec_octet(b"+1"), None);
}

#[test]
fn ipv4_addresses() {
    assert_eq!(parse_v4(b"127.0.0.1"), Some(Ipv4Addr::new(127, 0, 0, 1)));
    assert_eq!(parse_v4(b"0.0.0.0"), Some(Ipv4Addr::new(0, 0, 0, 0)));
    assert_eq!(parse_v4(b"255.255.255.255"), Some(Ipv4Addr::new(255, 255, 255, 255)));
    assert!(!Ipv4Addr::new(128, 0, 0, 1).is_loopback());
    assert_eq!(parse_v4(b""), None);
    assert_eq!(parse_v4(b"1"), None);
    assert_eq!(parse_v4(b"1.2"), None);
    assert_eq!(parse_v4(b"1.2.3"), None);
    assert_eq!(parse_v4(b"1.2.3."), None);
    assert_eq!(parse_v4(b"1.2.3.4."), None);
    assert_eq!(parse_v4(b"1.2.3.4.5"), None);
    assert_eq!(parse_v4(b"..."), None);
    assert_eq!(parse_v4(b"1.2.3.04"), None);
    assert_eq!(parse_v4(b"1.2.3.256"), None);
    assert_eq!(parse_v4(b" 1.2.3.4"), None);
}

#[test]
fn h16_groups() {
    assert_eq!(read_h16(b"0"), Some(0));
    assert_eq!(read_h16(b"f"), Some(15));
    assert_eq!(read_h16(b"F"), Some(15));
    assert_eq!(read_h16(b"10"), Some(16));
    assert_eq!(read_h16(b"db8"), Some(0xdb8));
    assert_eq!(read_h16(b"FFFF"), Some(0xffff));
    assert_eq!(read_h16(b"0001"), Some(1));
    assert_eq!(read_h16(b"aBcD"), Some(0xabcd));
    assert_eq!(read_h16(b""), None);
    assert_eq!(read_h16(b"12345"), None);
    assert_eq!(read_h16(b"g"), None);
    assert_eq!(read_h16(b"1:"), None);
}

fn groups(s: &str, v4_tail: bool) -> Option<Vec<u16>> {
    read_groups(s.as_bytes(), v4_tail).map(|(arr, n)| arr[..n].to_vec())
}

#[test]
fn group_lists() {
    assert_eq!(groups("1:2:3", false), Some(vec![1, 2, 3]));
    assert_eq!(groups("ffff", false), Some(vec![0xffff]));
    assert_eq!(groups("1:1.2.3.4", true), Some(vec![1, 0x0102, 0x0304]));
    assert_eq!(groups("1.2.3.4", true), Some(vec![0x0102, 0x0304]));
    assert_eq!(groups("1:2:3:4:5:6:7:8", true), Some(vec![1, 2, 3, 4, 5, 6, 7, 8]));
    assert_eq!(groups("1:2:3:4:5:6:1.2.3.4", true), Some(vec![1, 2, 3, 4, 5, 6, 0x0102, 0x0304]));
    assert_eq!(groups("1:1.2.3.4", false), None);
    assert_eq!(groups("1.2.3.4:1", true), None);
    assert_eq!(groups("", true), None);
    assert_eq!(groups(":", true), None);
    assert_eq!(groups("1:", true), None);
    assert_eq!(groups(":1", true), None);
    assert_eq!(groups("1::2", true), None);
}

#[test]
fn group_lists_of_more_than_eight() {
    assert_eq!(groups("1:2:3:4:5:6:7:8:9", true), None);
    assert_eq!(groups("1:2:3:4:5:6:7:8:9:a:b:c", false), None);
    assert_eq!(groups("1:2:3:4:5:6:7:1.2.3.4", true), None);
    assert_eq!(groups("1:2:3:4:5:6:7:8:1.2.3.4", true), None);
    assert_eq!(groups("1:2:3:4:5:6:7:8:", true), None);
    assert_eq!(groups("1:2:3:4:5:6:7:8:x", true), None);
}

fn v6(s: &str) -> Option<[u16; 8]> {
    parse_v6(s.as_bytes()).map(|a| a.segments())
}

#[test]
fn ipv6_addresses() {
    assert_eq!(v6("::"), Some([0, 0, 0, 0, 0, 0, 0, 0]));
    assert_eq!(v6("::1"), Some([0, 0, 0, 0, 0, 0, 0, 1]));
    assert_eq!(v6("1::"), Some([1, 0, 0, 0, 0, 0, 0, 0]));
    assert_eq!(v6("1:2:3:4:5:6:7:8"), Some([1, 2, 3, 4, 5, 6, 7, 8]));
    assert_eq!(v6("2001:db8::7"), Some([0x2001, 0xdb8, 0, 0, 0, 0, 0, 7]));
    assert_eq!(v6("2001:DB8:0:0:8:800:200C:417A"), Some([0x2001, 0xdb8, 0, 0, 8, 0x800, 0x200c, 0x417a]));
    assert_eq!(v6("ff01::101"), Some([0xff01, 0, 0, 0, 0, 0, 0, 0x101]));
    assert_eq!(v6("1:2:3:4:5:6:7::"), Some([1, 2, 3, 4, 5, 6, 7, 0]));
    assert_eq!(v6("::2:3:4:5:6:7:8"), Some([0, 2, 3, 4, 5, 6, 7, 8]));
    assert_eq!(v6("1::3:4:5:6:7:8"), Some([1, 0, 3, 4, 5, 6, 7, 8]));
    assert_eq!(v6("1:2:3::6:7:8"), Some([1, 2, 3, 0, 0, 6, 7, 8]));
    assert!(!Ipv6Addr::new([0, 0, 0, 0, 0, 0, 0, 2]).is_loopback());
    assert!(!Ipv6Addr::new([1, 0, 0, 0, 0, 0, 0, 1]).is_loopback());
}

#[test]
fn ipv6_addresses_with_ipv4_tail() {
    assert_eq!(v6("::1.2.3.4"), Some([0, 0, 0, 0, 0, 0, 0x0102, 0x0304]));
    assert_eq!(v6("::ffff:192.0.2.128"), Some([0, 0, 0, 0, 0, 0xffff, 0xc000, 0x0280]));
    assert_eq!(v6("1:2:3:4:5:6:1.2.3.4"), Some([1, 2, 3, 4, 5, 6, 0x0102, 0x0304]));
    assert_eq!(v6("1::1.2.3.4"), Some([1, 0, 0, 0, 0, 0, 0x0102, 0x0304]));
    assert_eq!(v6("1:2:3:4:5::1.2.3.4"), Some([1, 2, 3, 4, 5, 0, 0x0102, 0x0304]));
    assert_eq!(v6("1.2.3.4"), None);
    assert_eq!(v6("1.2.3.4::"), None);
    assert_eq!(v6("1.2.3.4::1"), None);
    assert_eq!(v6("::1.2.3.4:1"), None);
    assert_eq!(v6("1:2:3:4:5:6:7:1.2.3.4"), None);
    assert_eq!(v6("1:2:3:4:5:6::1.2.3.4"), None);
    assert_eq!(v6("::01.2.3.4"), None);
    assert_eq!(v6("::1.2.3.256"), None);
    assert_eq!(v6("::1.2.3"), None);
}

#[test]
fn ipv6_malformed() {
    for s in [
        "", ":", ":::", "1", "1:2:3:4:5:6:7", "1:2:3:4:5:6:7:8:9", "1:2:3:4:5:6:7:8::",
        "::1:2:3:4:5:6:7:8", "1::2::3", "1:::2", ":1", "1:", ":1::", "::1:", "12345::", "::g",
        "1:2:3:4:5:6:7:", ":1:2:3:4:5:6:7", "::1 ", " ::1", "[::1]", "1::2:3:4:5:6:7:8",
        "::%41", "1:2:3:4::5:6:7:8",
    ] {
        assert_eq!(v6(s), None, "{s:?}");
    }
}

#[test]
fn ipv_future_addresses() {
    let t = Tables::new();
    for s in ["v1.a", "V1.a", "vF.a:b", "vabc123.x!$&'()*+,;=:-._~", "v0.0", "v1.."] {
        let host = format!("[{s}]");
        assert!(matches!(parse_host(host.as_bytes(), &t), Some(HostMeta::IpvFuture)), "{s:?}");
    }
    for s in ["", "v", "v1", "v1.", "v.a", "1.a", "x1.a", "vg.a", "v1.a/b", "v1.a%41", "v1 .a", "v1.a]"] {
        let host = format!("[{s}]");
        assert!(parse_host(host.as_bytes(), &t).is_none(), "{s:?}");
    }
}

#[test]
fn hosts() {
    let t = Tables::new();
    assert!(matches!(parse_host(b"", &t), Some(HostMeta::RegName)));
    assert!(matches!(parse_host(b"example.com", &t), Some(HostMeta::RegName)));
    assert!(matches!(parse_host(b"1.2.3.4", &t), Some(HostMeta::Ipv4(_))));
    assert!(matches!(parse_host(b"[::]", &t), Some(HostMeta::Ipv6(_))));
    assert!(matches!(parse_host(b"[v1.x]", &t), Some(HostMeta::IpvFuture)));
    assert!(parse_host(b"[", &t).is_none());
    assert!(parse_host(b"]", &t).is_none());
    assert!(parse_host(b"[]", &t).is_none());
    assert!(parse_host(b"[1.2.3.4]", &t).is_none());
    assert!(parse_host(b"a:b", &t).is_none());
    assert!(parse_host(b"a@b", &t).is_none());
    assert!(parse_host(b"a/b", &t).is_none());
}

#[test]
fn authority_parsing_bounds() {
    let m = parse_authority(b"user@example.com:8080", &Tables::new()).unwrap();
    assert_eq!(m.host_bounds, (5, 16));
    let m = parse_authority(b"localhost:", &Tables::new()).unwrap();
    assert_eq!(m.host_bounds, (0, 9));
    let m = parse_authority(b"localhost", &Tables::new()).unwrap();
    assert_eq!(m.host_bounds, (0, 9));
    let m = parse_authority(b"", &Tables::new()).unwrap();
    assert_eq!(m.host_bounds, (0, 0));
    let m = parse_authority(b"@[::1]:1", &Tables::new()).unwrap();
    assert_eq!(m.host_bounds, (1, 6));
    assert!(parse_authority(b"a/b", &Tables::new()).is_none());
    assert!(parse_authority(b"a?b", &Tables::new()).is_none());
    assert!(parse_authority(b"a#b", &Tables::new()).is_none());
}

#[test]
fn parsed_ranges() {
    let m = parse_bytes(b"foo://example.com:8042/over/there?name=ferret#nose", &Tables::new()).unwrap();
    assert_eq!(m.scheme, Some((0, 3)));
    assert_eq!(m.authority, Some((6, 22)));
    assert_eq!(m.auth_meta.unwrap().host_bounds, (0, 11));
    assert_eq!(m.path, (22, 33));
    assert_eq!(m.query, Some((34, 45)));
    assert_eq!(m.fragment, Some((46, 50)));
    let m = parse_bytes(b"", &Tables::new()).unwrap();
    assert_eq!(m.scheme, None);
    assert_eq!(m.authority, None);
    assert!(m.auth_meta.is_none());
    assert_eq!(m.path, (0, 0));
    assert_eq!(m.query, None);
    assert_eq!(m.fragment, None);
}

fn parse_error(s: &str) -> ParseError {
    UriRef::parse(s).unwrap_err()
}

#[test]
fn parse_error_names_the_first_component_at_fault() {
    assert_eq!(parse_error(":"), ParseError { component: Component::Scheme, index: 0 });
    assert_eq!(parse_error("1a:b"), ParseError { component: Component::Scheme, index: 0 });
    assert_eq!(parse_error("//[::1"), ParseError { component: Component::Authority, index: 2 });
    assert_eq!(parse_error("a://h:x/"), ParseError { component: Component::Authority, index: 4 });
    assert_eq!(parse_error("a b"), ParseError { component: Component::Path, index: 0 });
    assert_eq!(parse_error("a://h/%zz"), ParseError { component: Component::Path, index: 5 });
    assert_eq!(parse_error("a:b c"), ParseError { component: Component::Path, index: 2 });
    assert_eq!(parse_error("/a?b c"), ParseError { component: Component::Query, index: 3 });
    assert_eq!(parse_error("?%"), ParseError { component: Component::Query, index: 1 });
    assert_eq!(parse_error("/a?b#c#d"), ParseError { component: Component::Fragment, index: 5 });
    assert_eq!(parse_error("#\u{e9}"), ParseError { component: Component::Fragment, index: 1 });
}

#[test]
fn parse_error_order_of_components() {
    assert_eq!(parse_error("1:// /?<#<").component, Component::Scheme);
    assert_eq!(parse_error("a:// / ?<#<").component, Component::Authority);
    assert_eq!(parse_error("a://h/ ?<#<").component, Component::Path);
    assert_eq!(parse_error("a://h/?<#<").component, Component::Query);
    assert_eq!(parse_error("a://h/?#<").component, Component::Fragment);
}

#[test]
fn estr_equality_is_on_the_encoded_text() {
    let a = EStr::<Path>::new("/a%2Fb").unwrap();
    let b = EStr::<Path>::new("/a%2Fb").unwrap();
    let c = EStr::<Path>::new("/a%2fb").unwrap();
    let d = EStr::<Path>::new("/a/b").unwrap();
    assert!(a == b);
    assert!(a != c);
    assert!(a != d);
    assert!(EStr::<Path>::empty() == EStr::<Path>::new("").unwrap());
    assert!(EStr::<Path>::new("a").unwrap() != EStr::<Path>::new("ab").unwrap());
    let u = UriRef::parse("http://example.com/x?x").unwrap();
    assert!(u.path() == EStr::<Path>::new("/x").unwrap());
    assert!(u.query().unwrap() == EStr::<Query>::new("x").unwrap());
}

#[test]
fn estr_order_is_on_the_encoded_text() {
    let e = |s| EStr::<Path>::new(s).unwrap();
    assert!(e("a") < e("b"));
    assert!(e("a") < e("ab"));
    assert!(e("ab") > e("a"));
    assert!(e("") < e("a"));
    assert!(e("b") > e("ab"));
    assert!(e("%41") < e("A"));
    assert!(e("a") <= e("a"));
    assert!(e("a") >= e("a"));
    assert!(!(e("a") < e("a")));
    assert_eq!(e("abc").partial_cmp(&e("abd")), Some(std::cmp::Ordering::Less));
    assert_eq!(e("abc").partial_cmp(&e("abc")), Some(std::cmp::Ordering::Equal));
    assert_eq!(e("abd").partial_cmp(&e("abc")), Some(std::cmp::Ordering::Greater));
    assert_eq!(e("").partial_cmp(&e("")), Some(std::cmp::Ordering::Equal));
}

#[test]
fn decode_to_text() {
    let e = EStr::<Path>::new("/caf%C3%A9").unwrap();
    assert_eq!(e.decode_to_string().unwrap(), "/caf\u{e9}");
    let e = EStr::<Path>::new("/%E4%BD%A0%E5%A5%BD").unwrap();
    assert_eq!(e.decode_to_string().unwrap(), "/\u{4f60}\u{597d}");
    let e = EStr::<Path>::new("plain").unwrap();
    assert_eq!(e.decode_to_string().unwrap(), "plain");
    assert!(EStr::<Path>::new("%FF").unwrap().decode_to_string().is_err());
    assert!(EStr::<Path>::new("%C3").unwrap().decode_to_string().is_err());
    assert!(EStr::<Path>::new("%C3%28").unwrap().decode_to_string().is_err());
    assert!(EStr::<Path>::new("%ED%A0%80").unwrap().decode_to_string().is_err());
    assert_eq!(EStr::<Path>::empty().decode_to_string().unwrap(), "");
}

#[test]
fn endpoints() {
    assert_eq!(
        authority_of("//127.0.0.1:8080").endpoint(80),
        Ok(Endpoint::Ipv4(Ipv4Addr::new(127, 0, 0, 1), 8080))
    );
    assert_eq!(
        authority_of("//127.0.0.1").endpoint(80),
        Ok(Endpoint::Ipv4(Ipv4Addr::new(127, 0, 0, 1), 80))
    );
    assert_eq!(
        authority_of("//127.0.0.1:").endpoint(80),
        Ok(Endpoint::Ipv4(Ipv4Addr::new(127, 0, 0, 1), 80))
    );
    assert_eq!(
        authority_of("//u@[::1]:443").endpoint(80),
        Ok(Endpoint::Ipv6(Ipv6Addr::new([0, 0, 0, 0, 0, 0, 0, 1]), 443))
    );
    assert_eq!(
        authority_of("//example.com").endpoint(80),
        Ok(Endpoint::Name(String::from("example.com"), 80))
    );
    assert_eq!(
        authority_of("//caf%C3%A9.example:1").endpoint(80),
        Ok(Endpoint::Name(String::from("caf\u{e9}.example"), 1))
    );
    assert_eq!(authority_of("//").endpoint(7), Ok(Endpoint::Name(String::new(), 7)));
}

#[test]
fn endpoint_errors() {
    assert_eq!(authority_of("//h:65536").endpoint(80), Err(EndpointError::InvalidPort));
    assert_eq!(authority_of("//[v1.a]:65536").endpoint(80), Err(EndpointError::InvalidPort));
    assert_eq!(authority_of("//%FF:65536").endpoint(80), Err(EndpointError::InvalidPort));
    assert_eq!(authority_of("//[v1.a]:80").endpoint(80), Err(EndpointError::UnsupportedAddress));
    assert_eq!(authority_of("//[v1.a]").endpoint(80), Err(EndpointError::UnsupportedAddress));
    assert_eq!(authority_of("//%FF").endpoint(80), Err(EndpointError::NameNotUtf8));
    assert_eq!(authority_of("//a%C3").endpoint(80), Err(EndpointError::NameNotUtf8));
}

#[test]
fn parsing_with_tables_built_once() {
    let tables = Tables::new();
    for s in VALID {
        let u = UriRef::parse_with(s, &tables).unwrap();
        assert_eq!(reassemble(&u), *s);
    }
    for s in INVALID {
        assert_eq!(UriRef::parse_with(s, &tables).unwrap_err(), UriRef::parse(s).unwrap_err());
    }
}

#[test]
fn empty_authority() {
    let a = Authority::empty();
    assert_eq!(a.as_str(), "");
    assert_eq!(a.host(), "");
    assert!(a.userinfo().is_none());
    assert!(a.port().is_none());
    assert!(matches!(a.host_parsed(), Host::RegName(name) if name.is_empty()));
    assert_eq!(a.port_to_u16(), Ok(None));
}

#[test]
fn at_sign_decides_where_the_host_starts() {
    let a = authority_of("//host:80@");
    assert_eq!(a.userinfo().unwrap().as_str(), "host:80");
    assert_eq!(a.host(), "");
    assert!(a.port().is_none());

    let a = authority_of("//a:b@[::1]:80");
    assert_eq!(a.userinfo().unwrap().as_str(), "a:b");
    assert_eq!(a.host(), "[::1]");
    assert_eq!(a.port_to_u16(), Ok(Some(80)));

    assert!(UriRef::parse("//[::1]@host").is_err());
    assert!(UriRef::parse("//[::1]:80@h").is_err());
    assert!(UriRef::parse("//a@[::1").is_err());
}

#[test]
fn authority_ends_at_slash_question_mark_or_number_sign() {
    let u = UriRef::parse("//h?q").unwrap();
    assert_eq!(u.authority().unwrap().as_str(), "h");
    assert_eq!(u.path().as_str(), "");
    assert_eq!(u.query().unwrap().as_str(), "q");
    let u = UriRef::parse("//h#f").unwrap();
    assert_eq!(u.authority().unwrap().as_str(), "h");
    assert_eq!(u.fragment().unwrap().as_str(), "f");
    let u = UriRef::parse("x:////a").unwrap();
    assert_eq!(u.authority().unwrap().as_str(), "");
    assert_eq!(u.path().as_str(), "//a");
}
