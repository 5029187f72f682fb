use catflap::addr::IpAddress;
use catflap::kind::{Family, Protocol, SocketKind};
use catflap::parse::{
    check_socket_v4, check_socket_v6, parse, pick_address, Endpoint, Host, ParseError, SocketSpec,
};
use catflap::port::PortCursor;

fn tcp4() -> SocketKind {
    SocketKind::new(Protocol::Tcp, Family::V4)
}

fn tcp6() -> SocketKind {
    SocketKind::new(Protocol::Tcp, Family::V6)
}

fn v4(a: u8, b: u8, c: u8, d: u8, port: u16) -> Endpoint {
    Endpoint { host: Host::Ip(IpAddress::V4(a, b, c, d)), port }
}

#[test]
fn auto_takes_the_next_port() {
    let mut cursor = PortCursor::new(5000);
    assert_eq!(parse("auto", tcp4(), &mut cursor), Ok(v4(127, 0, 0, 1, 5000)));
    assert_eq!(parse(":", tcp4(), &mut cursor), Ok(v4(127, 0, 0, 1, 5001)));
    assert_eq!(cursor, PortCursor::new(5002));
}

#[test]
fn colon_and_port_is_loopback() {
    let mut cursor = PortCursor::new(5000);
    assert_eq!(parse(":8080", tcp4(), &mut cursor), Ok(v4(127, 0, 0, 1, 8080)));
    assert_eq!(
        parse(":8080", tcp6(), &mut cursor),
        Ok(Endpoint { host: Host::Ip(IpAddress::V6(0, 0, 0, 0, 0, 0, 0, 1)), port: 8080 })
    );
    assert_eq!(cursor, PortCursor::new(5000));
}

#[test]
fn colon_and_bad_port_is_invalid_port() {
    let mut cursor = PortCursor::new(5000);
    assert_eq!(parse(":65536", tcp4(), &mut cursor), Err(ParseError::InvalidPort));
    assert_eq!(parse(":http", tcp4(), &mut cursor), Err(ParseError::InvalidPort));
    assert_eq!(parse(":-1", tcp4(), &mut cursor), Err(ParseError::InvalidPort));
    assert_eq!(parse(":65535", tcp4(), &mut cursor), Ok(v4(127, 0, 0, 1, 65535)));
    assert_eq!(parse(":0080", tcp4(), &mut cursor), Ok(v4(127, 0, 0, 1, 80)));
    assert_eq!(cursor, PortCursor::new(5000));
}

#[test]
fn literal_with_port() {
    let mut cursor = PortCursor::new(5000);
    assert_eq!(parse("10.1.2.3:443", tcp4(), &mut cursor), Ok(v4(10, 1, 2, 3, 443)));
    assert_eq!(parse("0.0.0.0:0", tcp4(), &mut cursor), Ok(v4(0, 0, 0, 0, 0)));
    assert_eq!(parse("255.255.255.255:65535", tcp4(), &mut cursor), Ok(v4(255, 255, 255, 255, 65535)));
    assert_eq!(
        parse("[2001:db8::8a2e:370:7334]:53", tcp6(), &mut cursor),
        Ok(Endpoint {
            host: Host::Ip(IpAddress::V6(0x2001, 0xdb8, 0, 0, 0, 0x8a2e, 0x370, 0x7334)),
            port: 53
        })
    );
    assert_eq!(cursor, PortCursor::new(5000));
}

#[test]
fn bare_host_takes_the_next_port() {
    let mut cursor = PortCursor::new(7000);
    assert_eq!(parse("192.168.0.1", tcp4(), &mut cursor), Ok(v4(192, 168, 0, 1, 7000)));
    assert_eq!(
        parse("[::]", tcp6(), &mut cursor),
        Ok(Endpoint { host: Host::Ip(IpAddress::V6(0, 0, 0, 0, 0, 0, 0, 0)), port: 7001 })
    );
    assert_eq!(
        parse("example.org", tcp4(), &mut cursor),
        Ok(Endpoint { host: Host::Name(String::from("example.org")), port: 7002 })
    );
    assert_eq!(cursor, PortCursor::new(7003));
}

#[test]
fn ipv6_literals() {
    let ok = |text: &str, groups: [u16; 8]| {
        let spec = SocketSpec::from_text(text, tcp6()).unwrap();
        let g = groups;
        assert_eq!(
            spec.host,
            Some(Host::Ip(IpAddress::V6(g[0], g[1], g[2], g[3], g[4], g[5], g[6], g[7]))),
            "{}",
            text
        );
    };
    ok("[::1]", [0, 0, 0, 0, 0, 0, 0, 1]);
    ok("[1::]", [1, 0, 0, 0, 0, 0, 0, 0]);
    ok("[1:2:3:4:5:6:7:8]", [1, 2, 3, 4, 5, 6, 7, 8]);
    ok("[1:2:3:4:5:6:7::]", [1, 2, 3, 4, 5, 6, 7, 0]);
    ok("[::2:3:4:5:6:7:8]", [0, 2, 3, 4, 5, 6, 7, 8]);
    ok("[fe80::AbCd:1]", [0xfe80, 0, 0, 0, 0, 0, 0xabcd, 1]);
    ok("[::ffff:192.0.2.33]", [0, 0, 0, 0, 0, 0xffff, 0xc000, 0x0221]);
    ok("[1:2:3:4:5:6:10.0.0.1]", [1, 2, 3, 4, 5, 6, 0x0a00, 1]);
    ok("[::10.0.0.1]", [0, 0, 0, 0, 0, 0, 0x0a00, 1]);
    for bad in [
        "[]", "[:]", "[:::]", "[1:2:3:4:5:6:7]", "[1:2:3:4:5:6:7:8:9]", "[1:2:3:4:5:6:7:8::]",
        "[::1:2:3:4:5:6:7:8]", "[12345::]", "[g::]", "[1::2::3]", "[1.2.3.4::]", "[::1.2.3.4:5]",
        "[1:2:3:4:5:6:7:1.2.3.4]", "[::1", "[::1]x", "[::1]:", "[:1::]", "[1:]",
    ] {
        assert_eq!(SocketSpec::from_text(bad, tcp6()), Err(ParseError::InvalidAddress), "{}", bad);
    }
}

#[test]
fn ipv4_literals() {
    for bad in [
        "1.2.3", "1.2.3.4.5", "256.1.1.1", "01.2.3.4", "1..3.4", "1.2.3.", ".1.2.3", "1.2.3.4:",
        "1.2.3.4:x", "1.2.3.4:65536", "1.2.3.4:80:90", "1.2.3.1234", "", " ", "1.2.3.4 ",
    ] {
        assert_eq!(SocketSpec::from_text(bad, tcp4()), Err(ParseError::InvalidAddress), "{}", bad);
    }
}

#[test]
fn family_must_match() {
    assert_eq!(SocketSpec::from_text("127.0.0.1:80", tcp6()), Err(ParseError::InvalidAddress));
    assert_eq!(SocketSpec::from_text("[::1]:80", tcp4()), Err(ParseError::InvalidAddress));
    assert_eq!(SocketSpec::from_text("[::1]", tcp4()), Err(ParseError::InvalidAddress));
}

#[test]
fn host_names() {
    let named = |text: &str, name: &str, port: Option<u16>| {
        assert_eq!(
            SocketSpec::from_text(text, tcp4()),
            Ok(SocketSpec { kind: tcp4(), host: Some(Host::Name(String::from(name))), port }),
            "{}",
            text
        );
    };
    named("localhost", "localhost", None);
    named("localhost:80", "localhost", Some(80));
    named("a-b.example.com:1", "a-b.example.com", Some(1));
    named("3com.net", "3com.net", None);
    for bad in ["-a.com", "a-.com", "a..com", "a.com.", "a_b.com", "1.2.3.256", "caf\u{e9}.fr", "a b"] {
        assert_eq!(SocketSpec::from_text(bad, tcp4()), Err(ParseError::InvalidAddress), "{}", bad);
    }
}

#[test]
fn tagged_descriptions() {
    assert_eq!(
        SocketSpec::from_tagged("tcp://:8080"),
        Ok(SocketSpec { kind: tcp4(), host: None, port: Some(8080) })
    );
    assert_eq!(
        SocketSpec::from_tagged("udp6://auto"),
        Ok(SocketSpec { kind: SocketKind::new(Protocol::Udp, Family::V6), host: None, port: None })
    );
    assert_eq!(
        SocketSpec::from_tagged("raw://10.0.0.1"),
        Ok(SocketSpec {
            kind: SocketKind::new(Protocol::Raw, Family::V4),
            host: Some(Host::Ip(IpAddress::V4(10, 0, 0, 1))),
            port: None
        })
    );
    assert_eq!(SocketSpec::from_tagged("tcp6://[::1]:80").map(|s| s.port), Ok(Some(80)));
    assert_eq!(SocketSpec::from_tagged("sctp://:80"), Err(ParseError::InvalidAddress));
    assert_eq!(SocketSpec::from_tagged("tcp:/:80"), Err(ParseError::InvalidAddress));
    assert_eq!(SocketSpec::from_tagged("tcp"), Err(ParseError::InvalidAddress));
    assert_eq!(SocketSpec::from_tagged("tcp://:x"), Err(ParseError::InvalidPort));
    assert_eq!(SocketSpec::from_tagged("TCP://:80"), Err(ParseError::InvalidAddress));
}

#[test]
fn exhausted_counter_has_no_port_to_give() {
    let mut cursor = PortCursor::new(65535);
    assert_eq!(parse("auto", tcp4(), &mut cursor), Ok(v4(127, 0, 0, 1, 65535)));
    assert!(cursor.exhausted());
    assert_eq!(parse("auto", tcp4(), &mut cursor), Err(ParseError::InvalidPort));
    assert_eq!(parse(":80", tcp4(), &mut cursor), Ok(v4(127, 0, 0, 1, 80)));
    assert!(cursor.exhausted());
}

#[test]
fn malformed_description_is_rejected() {
    let mut cursor = PortCursor::new(5000);
    assert_eq!(
        parse("badhost!!::notaport", tcp4(), &mut cursor),
        Err(ParseError::InvalidAddress)
    );
    assert_eq!(cursor, PortCursor::new(5000));
}

#[test]
fn leading_colon_is_always_a_port() {
    assert_eq!(SocketSpec::from_text("::1", tcp6()), Err(ParseError::InvalidPort));
    assert_eq!(SocketSpec::from_text(":", tcp6()).map(|s| s.port), Ok(None));
    assert_eq!(SocketSpec::from_text(":1", tcp6()).map(|s| s.port), Ok(Some(1)));
}

#[test]
fn explicit_port_reads_the_same_with_any_counter() {
    for text in [":8080", "10.0.0.1:53", "localhost:80", "0.0.0.0:0"] {
        let mut first = PortCursor::new(5000);
        let mut second = PortCursor::new(9000);
        let a = parse(text, tcp4(), &mut first);
        let b = parse(text, tcp4(), &mut second);
        assert!(a.is_ok(), "{}", text);
        assert_eq!(a, b, "{}", text);
        assert_eq!(first, PortCursor::new(5000));
        assert_eq!(second, PortCursor::new(9000));
    }
    for text in ["auto", ":", "10.0.0.1", "localhost"] {
        let mut first = PortCursor::new(5000);
        let mut second = PortCursor::new(9000);
        let a = parse(text, tcp4(), &mut first).unwrap();
        let b = parse(text, tcp4(), &mut second).unwrap();
        assert_eq!(a.host, b.host, "{}", text);
        assert_eq!(a.port, 5000);
        assert_eq!(b.port, 9000);
        assert_eq!(first, PortCursor::new(5001));
        assert_eq!(second, PortCursor::new(9001));
    }
}

#[test]
fn port_behind_a_bare_host_reads_as_bare_host_with_that_port() {
    for text in [
        "10.0.0.1", "localhost", "[::1]", "[1::2]", "a.b.c", "", "[", "[::1", "x y", "1.2.3",
        "example.org",
    ] {
        let bare = SocketSpec::from_text(text, tcp4());
        let bare6 = SocketSpec::from_text(text, tcp6());
        let with = SocketSpec::from_text(&format!("{}:{}", text, 5000), tcp4());
        let with6 = SocketSpec::from_text(&format!("{}:{}", text, 5000), tcp6());
        if text.is_empty() {
            // A colon and a port is the loopback address, by the second rule.
            assert_eq!(with.map(|s| (s.host, s.port)), Ok((None, Some(5000))));
            continue;
        }
        assert_eq!(with, bare.map(|s| SocketSpec { port: Some(5000), ..s }), "{}", text);
        assert_eq!(with6, bare6.map(|s| SocketSpec { port: Some(5000), ..s }), "{}", text);
    }
    for text in ["10.0.0.1:80", "localhost:x", "[::1]:80", "[::1]x"] {
        assert_eq!(
            SocketSpec::from_text(&format!("{}:{}", text, 5000), tcp4()),
            Err(ParseError::InvalidAddress),
            "{}",
            text
        );
    }
}

#[test]
fn validators_say_what_is_wrong() {
    assert_eq!(check_socket_v4(String::from("auto")), Ok(()));
    assert_eq!(check_socket_v6(String::from("auto")), Ok(()));
    assert_eq!(check_socket_v4(String::from("127.0.0.1:80")), Ok(()));
    assert_eq!(check_socket_v6(String::from("[::1]:80")), Ok(()));
    assert_eq!(check_socket_v4(String::from("example.org")), Ok(()));
    assert_eq!(check_socket_v6(String::from("127.0.0.1:80")), Err(String::from("invalid address")));
    assert_eq!(check_socket_v4(String::from("[::1]:80")), Err(String::from("invalid address")));
    assert_eq!(check_socket_v4(String::from(":http")), Err(String::from("invalid port")));
    assert_eq!(check_socket_v6(String::from(":70000")), Err(String::from("invalid port")));
    assert_eq!(ParseError::InvalidAddress.complaint(), "invalid address");
    assert_eq!(ParseError::InvalidPort.complaint(), "invalid port");
}

#[test]
fn first_address_of_the_family_is_picked() {
    let six = IpAddress::V6(0, 0, 0, 0, 0, 0, 0, 1);
    let other_six = IpAddress::V6(0xfe80, 0, 0, 0, 0, 0, 0, 1);
    let four = IpAddress::V4(127, 0, 0, 1);
    let other_four = IpAddress::V4(10, 0, 0, 1);
    let candidates = vec![six, four, other_six, other_four];
    assert_eq!(pick_address(&candidates, Family::V4), Some(four));
    assert_eq!(pick_address(&candidates, Family::V6), Some(six));
    assert_eq!(pick_address(&vec![six, other_six], Family::V4), None);
    assert_eq!(pick_address(&vec![other_four], Family::V4), Some(other_four));
    assert_eq!(pick_address(&vec![], Family::V6), None);
}
