use catflap::addr::{Address, IpAddress};
use catflap::failure::Failure;
use catflap::handoff::{
    descriptor_list, handoff, inherited, summary, Assignment, DEFAULT_ENV, DEFAULT_NENV, DISABLED,
};
use catflap::kind::{Family, Protocol, SocketKind};
use catflap::parse::ParseError;
use catflap::registry::BoundSocket;
use catflap::sock::{BindError, Step};

fn socket(descriptor: i32, protocol: Protocol, port: u16) -> BoundSocket {
    let address = Address { ip: IpAddress::V4(127, 0, 0, 1), port };
    BoundSocket {
        descriptor,
        kind: SocketKind::new(protocol, Family::V4),
        requested: address,
        actual: match protocol {
            Protocol::Raw => None,
            _ => Some(address),
        },
    }
}

fn assignment(name: &str, value: &str) -> Assignment {
    Assignment { name: String::from(name), value: String::from(value) }
}

#[test]
fn descriptors_are_listed_in_order() {
    let sockets =
        vec![socket(3, Protocol::Tcp, 1), socket(10, Protocol::Tcp, 2), socket(4, Protocol::Udp, 3)];
    assert_eq!(descriptor_list(&sockets), "3,10,4");
    assert_eq!(descriptor_list(&sockets[..1].to_vec()), "3");
    assert_eq!(descriptor_list(&vec![]), "");
    assert_eq!(descriptor_list(&vec![socket(2147483647, Protocol::Tcp, 1)]), "2147483647");
    assert_eq!(descriptor_list(&vec![socket(0, Protocol::Tcp, 1)]), "0");
    assert_eq!(descriptor_list(&vec![socket(-2147483648, Protocol::Tcp, 1)]), "-2147483648");
}

#[test]
fn both_variables_are_set() {
    assert_eq!(DEFAULT_ENV, "LISTEN_FD");
    assert_eq!(DEFAULT_NENV, "LISTEN_FDS");
    let sockets = vec![socket(3, Protocol::Tcp, 1), socket(4, Protocol::Udp, 2)];
    assert_eq!(
        handoff(&sockets, DEFAULT_ENV, DEFAULT_NENV),
        vec![assignment("LISTEN_FD", "3,4"), assignment("LISTEN_FDS", "2")]
    );
}

#[test]
fn dash_sets_no_variable() {
    assert_eq!(DISABLED, "-");
    let sockets = vec![socket(3, Protocol::Tcp, 1)];
    assert_eq!(handoff(&sockets, "-", "COUNT"), vec![assignment("COUNT", "1")]);
    assert_eq!(handoff(&sockets, "FDS", "-"), vec![assignment("FDS", "3")]);
    assert_eq!(handoff(&sockets, "-", "-"), vec![]);
    assert_eq!(handoff(&sockets, "--", "-x"), vec![assignment("--", "3"), assignment("-x", "1")]);
}

#[test]
fn count_is_decimal() {
    let sockets: Vec<BoundSocket> = (0..12).map(|i| socket(3 + i, Protocol::Tcp, 1)).collect();
    assert_eq!(
        handoff(&sockets, "-", "N"),
        vec![assignment("N", "12")]
    );
}

#[test]
fn summary_names_each_socket() {
    let mut six = socket(5, Protocol::Udp, 53);
    six.kind = SocketKind::new(Protocol::Udp, Family::V6);
    six.actual = Some(Address { ip: IpAddress::V6(0x2001, 0xdb8, 0, 0, 0, 0, 0xff, 0x1a2b), port: 53 });
    let sockets = vec![socket(3, Protocol::Raw, 0), socket(4, Protocol::Tcp, 5000), six];
    assert_eq!(
        summary(&sockets),
        "raw fd 3, tcp 127.0.0.1:5000 fd 4, udp6 [2001:db8:0:0:0:0:ff:1a2b]:53 fd 5"
    );
    assert_eq!(summary(&vec![]), "");
}

#[test]
fn address_text() {
    assert_eq!(Address { ip: IpAddress::V4(0, 10, 200, 255), port: 0 }.to_text(), "0.10.200.255:0");
    assert_eq!(
        Address { ip: IpAddress::V6(0, 0, 0, 0, 0, 0, 0, 1), port: 65535 }.to_text(),
        "[0:0:0:0:0:0:0:1]:65535"
    );
    assert_eq!(
        Address { ip: IpAddress::V6(0xffff, 0xabcd, 0x10, 0x100, 0x1000, 9, 0xa, 0xf0), port: 80 }
            .to_text(),
        "[ffff:abcd:10:100:1000:9:a:f0]:80"
    );
}

#[test]
fn failure_messages() {
    let tcp6 = SocketKind::new(Protocol::Tcp, Family::V6);
    assert_eq!(
        Failure::Description {
            text: String::from("1.2.3.4:80"),
            kind: tcp6,
            error: ParseError::InvalidAddress
        }
        .message(),
        "invalid address for tcp6: 1.2.3.4:80"
    );
    assert_eq!(
        Failure::Description { text: String::from(":x"), kind: tcp6, error: ParseError::InvalidPort }
            .message(),
        "invalid port for tcp6: :x"
    );
    assert_eq!(
        Failure::Resolution { host: String::from("nowhere.example"), kind: tcp6 }.message(),
        "no address for tcp6: nowhere.example"
    );
    assert_eq!(
        Failure::Resolution { host: String::from("nowhere.example"), kind: tcp6 }.describe("x"),
        "no address for tcp6: nowhere.example"
    );
}

#[test]
fn failed_call_is_described_with_its_reason() {
    let address = Address { ip: IpAddress::V4(10, 0, 0, 1), port: 80 };
    let kind = SocketKind::new(Protocol::Tcp, Family::V4);
    let describe = |step: Step, code: i32| {
        Failure::Bind(BindError { step, code, address, kind }).describe("busy")
    };
    assert_eq!(describe(Step::Bind, 98), "cannot bind tcp socket for 10.0.0.1:80: busy (error 98)");
    assert_eq!(
        describe(Step::Create, 24),
        "cannot create tcp socket for 10.0.0.1:80: busy (error 24)"
    );
    assert_eq!(
        describe(Step::Configure, 1),
        "cannot configure tcp socket for 10.0.0.1:80: busy (error 1)"
    );
    assert_eq!(
        describe(Step::Listen, -5),
        "cannot listen on tcp socket for 10.0.0.1:80: busy (error -5)"
    );
    assert_eq!(describe(Step::Query, 0), "cannot query tcp socket for 10.0.0.1:80: busy (error 0)");
}

#[test]
fn failed_call_is_reported_with_the_text_of_the_system() {
    let address = Address { ip: IpAddress::V4(10, 0, 0, 1), port: 80 };
    let kind = SocketKind::new(Protocol::Tcp, Family::V4);
    let failure = |code: i32| Failure::Bind(BindError { step: Step::Bind, code, address, kind });
    let busy = failure(nix::errno::Errno::EADDRINUSE as i32).message();
    let denied = failure(nix::errno::Errno::EACCES as i32).message();
    assert_ne!(busy, denied);
    assert_eq!(
        busy,
        format!(
            "cannot bind tcp socket for 10.0.0.1:80: Address already in use (error {})",
            nix::errno::Errno::EADDRINUSE as i32
        )
    );
    assert_eq!(
        denied,
        format!(
            "cannot bind tcp socket for 10.0.0.1:80: Permission denied (error {})",
            nix::errno::Errno::EACCES as i32
        )
    );
    for code in [-1, 0, 1, 98, 100000] {
        let f = failure(code);
        let text = nix::errno::Errno::from_i32(code).desc();
        assert_eq!(f.message(), f.describe(text));
    }
}

#[test]
fn command_that_cannot_be_run_is_named() {
    let failure = Failure::Exec {
        command: String::from("no-such-command"),
        code: nix::errno::Errno::ENOENT as i32,
    };
    assert_eq!(
        failure.describe("not there"),
        format!(
            "cannot run no-such-command: not there (error {})",
            nix::errno::Errno::ENOENT as i32
        )
    );
    assert_eq!(
        failure.message(),
        format!(
            "cannot run no-such-command: No such file or directory (error {})",
            nix::errno::Errno::ENOENT as i32
        )
    );
    assert_eq!(failure.duplicate(), failure);
}

#[test]
fn child_reads_the_list_of_descriptors() {
    assert_eq!(inherited("3"), Some(vec![3]));
    assert_eq!(inherited("3,4,10"), Some(vec![3, 4, 10]));
    assert_eq!(inherited(""), Some(vec![]));
    assert_eq!(inherited("0,2147483647,-2147483648,+7,007"), Some(vec![0, 2147483647, -2147483648, 7, 7]));
    for bad in [
        ",", "3,", ",3", "3,,4", "3, 4", "x", "3;4", "2147483648", "-2147483649", "-", "+", "3.0",
        "99999999999999999999", " 3", "--3",
    ] {
        assert_eq!(inherited(bad), None, "{:?}", bad);
    }
}

#[test]
fn list_of_descriptors_is_read_back() {
    let lists: [&[i32]; 5] = [&[], &[3], &[3, 4, 5], &[100, 0, 7, 7], &[-1, 2147483647, -2147483648]];
    for fds in lists {
        let sockets: Vec<BoundSocket> =
            fds.iter().map(|fd| socket(*fd, Protocol::Tcp, 1)).collect();
        assert_eq!(inherited(&descriptor_list(&sockets)), Some(fds.to_vec()));
    }
}
