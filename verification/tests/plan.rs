use catflap::addr::IpAddress;
use catflap::failure::Failure;
use catflap::kind::{Family, Protocol, SocketKind};
use catflap::order::{arrange, Request};
use catflap::parse::{Endpoint, Host, ParseError};
use catflap::plan::{plan, Plan, Target};
use catflap::port::DEFAULT_BASE;

fn kind(label: &str) -> SocketKind {
    match label {
        "raw" => SocketKind::new(Protocol::Raw, Family::V4),
        "raw6" => SocketKind::new(Protocol::Raw, Family::V6),
        "tcp" => SocketKind::new(Protocol::Tcp, Family::V4),
        "tcp6" => SocketKind::new(Protocol::Tcp, Family::V6),
        "udp" => SocketKind::new(Protocol::Udp, Family::V4),
        "udp6" => SocketKind::new(Protocol::Udp, Family::V6),
        _ => panic!("no such kind"),
    }
}

fn request(label: &str, text: &str) -> Request {
    Request::new(text, kind(label))
}

fn loopback(label: &str, port: u16) -> Target {
    let k = kind(label);
    let ip = match k.family {
        Family::V4 => IpAddress::V4(127, 0, 0, 1),
        Family::V6 => IpAddress::V6(0, 0, 0, 0, 0, 0, 0, 1),
    };
    Target { kind: k, endpoint: Endpoint { host: Host::Ip(ip), port } }
}

#[test]
fn empty_list_is_one_tcp_socket_on_loopback() {
    assert_eq!(DEFAULT_BASE, 5000);
    let p = plan(&vec![], DEFAULT_BASE);
    assert_eq!(p, Plan { targets: vec![loopback("tcp", 5000)], failure: None });
    let p = plan(&vec![], 6000);
    assert_eq!(p, Plan { targets: vec![loopback("tcp", 6000)], failure: None });
}

#[test]
fn explicit_port_leaves_the_counter_alone() {
    let requests: Vec<Request> = ["tcp://:8080", "tcp://auto", "udp://auto"]
        .iter()
        .map(|text| Request::from_tagged(text).unwrap())
        .collect();
    let p = plan(&requests, 5000);
    assert_eq!(
        p,
        Plan {
            targets: vec![loopback("tcp", 8080), loopback("tcp", 5000), loopback("udp", 5000)],
            failure: None,
        }
    );
}

#[test]
fn groups_are_served_in_rank_order() {
    let requests = vec![
        request("udp6", "auto"),
        request("tcp", "auto"),
        request("raw6", "auto"),
        request("udp", ":53"),
        request("tcp6", "auto"),
        request("raw", "auto"),
        request("tcp", ":80"),
        request("tcp", "auto"),
        request("udp", "auto"),
    ];
    let queue = arrange(&requests);
    let order: Vec<(&str, &str)> =
        queue.iter().map(|r| (r.kind.label(), r.text.as_str())).collect();
    assert_eq!(
        order,
        vec![
            ("raw", "auto"),
            ("raw6", "auto"),
            ("tcp", "auto"),
            ("tcp", ":80"),
            ("tcp", "auto"),
            ("tcp6", "auto"),
            ("udp", ":53"),
            ("udp", "auto"),
            ("udp6", "auto"),
        ]
    );
    let p = plan(&requests, 5000);
    assert_eq!(p.failure, None);
    assert_eq!(
        p.targets,
        vec![
            loopback("raw", 5000),
            loopback("raw6", 5000),
            loopback("tcp", 5000),
            loopback("tcp", 80),
            loopback("tcp", 5001),
            loopback("tcp6", 5000),
            loopback("udp", 53),
            loopback("udp", 5000),
            loopback("udp6", 5000),
        ]
    );
}

#[test]
fn plan_does_not_depend_on_how_groups_are_mixed() {
    let a = vec![
        request("tcp", "auto"),
        request("udp", "auto"),
        request("tcp", ":81"),
        request("udp", "10.0.0.1"),
        request("raw", "auto"),
    ];
    let b = vec![
        request("udp", "auto"),
        request("raw", "auto"),
        request("udp", "10.0.0.1"),
        request("tcp", "auto"),
        request("tcp", ":81"),
    ];
    assert_eq!(plan(&a, 5000), plan(&b, 5000));
    assert_eq!(plan(&a, 5000).targets.len(), a.len());
}

#[test]
fn automatic_ports_rise_within_a_group() {
    let requests = vec![
        request("tcp", "auto"),
        request("tcp", ":"),
        request("tcp", "10.0.0.7"),
        request("tcp", ":9000"),
        request("tcp", "localhost"),
        request("tcp6", "[::]"),
    ];
    let p = plan(&requests, 100);
    let ports: Vec<u16> = p.targets.iter().map(|t| t.endpoint.port).collect();
    assert_eq!(ports, vec![100, 101, 102, 9000, 103, 100]);
    assert_eq!(p.targets[4].endpoint.host, Host::Name(String::from("localhost")));
}

#[test]
fn first_unreadable_request_ends_the_plan() {
    let requests = vec![
        request("udp", "nonsense:port"),
        request("tcp", "auto"),
        request("tcp", ":99999"),
        request("tcp", "auto"),
    ];
    let p = plan(&requests, 5000);
    assert_eq!(p.targets, vec![loopback("tcp", 5000)]);
    assert_eq!(
        p.failure,
        Some(Failure::Description {
            text: String::from(":99999"),
            kind: kind("tcp"),
            error: ParseError::InvalidPort,
        })
    );
}

#[test]
fn malformed_request_gives_no_target() {
    let p = plan(&vec![request("tcp", "badhost!!::notaport")], 5000);
    assert_eq!(p.targets, vec![]);
    assert_eq!(
        p.failure,
        Some(Failure::Description {
            text: String::from("badhost!!::notaport"),
            kind: kind("tcp"),
            error: ParseError::InvalidAddress,
        })
    );
}

#[test]
fn counter_runs_out_after_the_last_port() {
    let requests = vec![request("tcp", "auto"), request("tcp", "auto"), request("udp", "auto")];
    let p = plan(&requests, 65535);
    assert_eq!(p.targets, vec![loopback("tcp", 65535)]);
    assert_eq!(
        p.failure,
        Some(Failure::Description {
            text: String::from("auto"),
            kind: kind("tcp"),
            error: ParseError::InvalidPort,
        })
    );
}

#[test]
fn tagged_requests() {
    assert_eq!(Request::from_tagged("tcp://:8080"), Some(request("tcp", ":8080")));
    assert_eq!(Request::from_tagged("raw6://"), Some(request("raw6", "")));
    assert_eq!(
        Request::from_tagged("udp6://[::1]:53"),
        Some(request("udp6", "[::1]:53"))
    );
    assert_eq!(Request::from_tagged("tcp:/:8080"), None);
    assert_eq!(Request::from_tagged("http://:8080"), None);
    assert_eq!(Request::from_tagged(":8080"), None);
    assert_eq!(Request::from_tagged("tcp"), None);
}

#[test]
fn kinds_rank_by_name() {
    let labels = ["raw", "raw6", "tcp", "tcp6", "udp", "udp6"];
    for (rank, label) in labels.iter().enumerate() {
        let k = kind(label);
        assert_eq!(k.rank() as usize, rank);
        assert_eq!(k.label(), *label);
        assert_eq!(SocketKind::of_rank(rank as u8), Some(k));
    }
    assert_eq!(SocketKind::of_rank(6), None);
    let mut sorted = labels.to_vec();
    sorted.sort();
    assert_eq!(sorted, labels.to_vec());
}
