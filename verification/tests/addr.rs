use catflap::addr::{Address, IpAddress};
use catflap::kind::Family;

#[test]
fn ip_literals_are_read() {
    assert_eq!(IpAddress::from_text("192.0.2.1"), Some(IpAddress::V4(192, 0, 2, 1)));
    assert_eq!(IpAddress::from_text("0.0.0.0"), Some(IpAddress::V4(0, 0, 0, 0)));
    assert_eq!(IpAddress::from_text("::"), Some(IpAddress::V6(0, 0, 0, 0, 0, 0, 0, 0)));
    assert_eq!(IpAddress::from_text("::1"), Some(IpAddress::V6(0, 0, 0, 0, 0, 0, 0, 1)));
    assert_eq!(
        IpAddress::from_text("2001:DB8::ff00:42:8329"),
        Some(IpAddress::V6(0x2001, 0xdb8, 0, 0, 0, 0xff00, 0x42, 0x8329))
    );
    assert_eq!(
        IpAddress::from_text("64:ff9b::192.0.2.33"),
        Some(IpAddress::V6(0x64, 0xff9b, 0, 0, 0, 0, 0xc000, 0x221))
    );
    for bad in ["", "1.2.3.4.", "[::1]", "1.2.3.4:80", "::1%1", ":", "1:2", "00001::", "1.2.3.-4"] {
        assert_eq!(IpAddress::from_text(bad), None, "{}", bad);
    }
}

#[test]
fn socket_addresses_are_read() {
    assert_eq!(
        Address::from_text("192.0.2.1:80"),
        Some(Address { ip: IpAddress::V4(192, 0, 2, 1), port: 80 })
    );
    assert_eq!(
        Address::from_text("[::1]:65535"),
        Some(Address { ip: IpAddress::V6(0, 0, 0, 0, 0, 0, 0, 1), port: 65535 })
    );
    for bad in ["192.0.2.1", "[::1]", "::1:80", "192.0.2.1:", ":80", "localhost:80", "[::1]:80x", ""] {
        assert_eq!(Address::from_text(bad), None, "{}", bad);
    }
}

#[test]
fn text_of_an_address_is_read_back() {
    let addresses = [
        Address { ip: IpAddress::V4(0, 0, 0, 0), port: 0 },
        Address { ip: IpAddress::V4(255, 255, 255, 255), port: 65535 },
        Address { ip: IpAddress::V4(127, 0, 0, 1), port: 5000 },
        Address { ip: IpAddress::V4(10, 100, 9, 99), port: 10 },
        Address { ip: IpAddress::V6(0, 0, 0, 0, 0, 0, 0, 0), port: 1 },
        Address { ip: IpAddress::V6(0xffff, 0xffff, 0xffff, 0xffff, 0xffff, 0xffff, 0xffff, 0xffff), port: 99 },
        Address { ip: IpAddress::V6(0x2001, 0xdb8, 0, 0x10, 0x100, 0x1000, 0xa, 0xabcd), port: 443 },
    ];
    for address in addresses {
        assert_eq!(Address::from_text(&address.to_text()), Some(address), "{}", address.to_text());
    }
}

#[test]
fn loopback_and_family() {
    assert_eq!(IpAddress::loopback(Family::V4), IpAddress::V4(127, 0, 0, 1));
    assert_eq!(IpAddress::loopback(Family::V6), IpAddress::V6(0, 0, 0, 0, 0, 0, 0, 1));
    assert_eq!(IpAddress::V4(1, 2, 3, 4).family(), Family::V4);
    assert_eq!(IpAddress::V6(1, 2, 3, 4, 5, 6, 7, 8).family(), Family::V6);
    assert_eq!(IpAddress::V4(1, 2, 3, 4).parts(), vec![1, 2, 3, 4]);
    assert_eq!(IpAddress::V6(1, 2, 3, 4, 5, 6, 7, 8).parts(), vec![1, 2, 3, 4, 5, 6, 7, 8]);
}
