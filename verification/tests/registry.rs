use catflap::addr::{Address, IpAddress};
use catflap::failure::Failure;
use catflap::kind::{Family, Protocol, SocketKind};
use catflap::order::Request;
use catflap::parse::ParseError;
use catflap::registry::{provision, Action, BoundSocket, Event, Phase, Provisioner};
use catflap::sock::{BindError, Call, Step};

/// A system that gives descriptors from 3 on, refuses to bind a port that is
/// bound already, and knows a few hosts.
struct System {
    next_fd: i32,
    open: Vec<i32>,
    bound: Vec<(i32, Address)>,
    trace: Vec<String>,
    refuse_port: Option<u16>,
    ephemeral: u16,
}

impl System {
    fn new() -> System {
        System {
            next_fd: 3,
            open: vec![],
            bound: vec![],
            trace: vec![],
            refuse_port: None,
            ephemeral: 40000,
        }
    }

    fn perform(&mut self, action: &Action) -> Event {
        match action {
            Action::Resolve { host } => {
                self.trace.push(format!("resolve {}", host));
                Event::Resolved(match host.as_str() {
                    "localhost" => vec![
                        IpAddress::V6(0, 0, 0, 0, 0, 0, 0, 1),
                        IpAddress::V4(127, 0, 0, 1),
                    ],
                    "six.example" => vec![IpAddress::V6(0x2001, 0xdb8, 0, 0, 0, 0, 0, 6)],
                    _ => vec![],
                })
            }
            Action::Call(Call::Socket { kind }) => {
                self.trace.push(format!("socket {}", kind.label()));
                let fd = self.next_fd;
                self.next_fd += 1;
                self.open.push(fd);
                Event::Returned(Ok(fd))
            }
            Action::Call(Call::ReuseAddress { fd }) => {
                self.trace.push(format!("reuse {}", fd));
                Event::Returned(Ok(0))
            }
            Action::Call(Call::Bind { fd, address }) => {
                self.trace.push(format!("bind {} {}", fd, address.to_text()));
                if Some(address.port) == self.refuse_port {
                    return Event::Returned(Err(98));
                }
                let mut actual = *address;
                if actual.port == 0 {
                    actual.port = self.ephemeral;
                    self.ephemeral += 1;
                }
                self.bound.push((*fd, actual));
                Event::Returned(Ok(0))
            }
            Action::Call(Call::Listen { fd, backlog }) => {
                self.trace.push(format!("listen {} {}", fd, backlog));
                Event::Returned(Ok(0))
            }
            Action::Call(Call::Close { fd }) => {
                self.trace.push(format!("close {}", fd));
                assert!(self.open.contains(fd), "closed a socket that is not open");
                self.open.retain(|open| open != fd);
                Event::Returned(Ok(0))
            }
            Action::Query { fd } => {
                self.trace.push(format!("query {}", fd));
                match self.bound.iter().find(|(bound, _)| bound == fd) {
                    Some((_, address)) => Event::Named(Ok(*address)),
                    None => Event::Named(Err(9)),
                }
            }
            Action::Finish | Action::Abort(_) => panic!("nothing to perform"),
        }
    }

    fn run(&mut self, requests: &[(&str, &str)], base: u16) -> (Provisioner, Action) {
        let requests: Vec<Request> = requests
            .iter()
            .map(|(kind, text)| {
                Request::from_tagged(&format!("{}://{}", kind, text)).expect("a kind")
            })
            .collect();
        let (mut state, mut action) = provision(&requests, base);
        let limit = 10 * state.plan().targets.len() + 8;
        let mut steps = 0;
        while !matches!(action, Action::Finish | Action::Abort(_)) {
            let event = self.perform(&action);
            action = state.advance(event);
            steps += 1;
            assert!(steps <= limit, "does not end in time");
        }
        (state, action)
    }
}

fn v4(port: u16) -> Address {
    Address { ip: IpAddress::V4(127, 0, 0, 1), port }
}

fn tcp4() -> SocketKind {
    SocketKind::new(Protocol::Tcp, Family::V4)
}

fn udp4() -> SocketKind {
    SocketKind::new(Protocol::Udp, Family::V4)
}

#[test]
fn sockets_come_out_in_group_order() {
    let mut system = System::new();
    let (state, action) =
        system.run(&[("udp", "auto"), ("tcp", ":8080"), ("tcp", "auto")], 5000);
    assert_eq!(action, Action::Finish);
    assert_eq!(state.phase(), Phase::Finished);
    assert_eq!(
        state.sockets(),
        &vec![
            BoundSocket { descriptor: 3, kind: tcp4(), requested: v4(8080), actual: Some(v4(8080)) },
            BoundSocket { descriptor: 4, kind: tcp4(), requested: v4(5000), actual: Some(v4(5000)) },
            BoundSocket { descriptor: 5, kind: udp4(), requested: v4(5000), actual: Some(v4(5000)) },
        ]
    );
    assert_eq!(system.open, vec![3, 4, 5]);
    assert_eq!(
        system.trace,
        vec![
            "socket tcp", "reuse 3", "bind 3 127.0.0.1:8080", "listen 3 1", "query 3",
            "socket tcp", "reuse 4", "bind 4 127.0.0.1:5000", "listen 4 1", "query 4",
            "socket udp", "reuse 5", "bind 5 127.0.0.1:5000", "query 5",
        ]
    );
}

#[test]
fn no_request_opens_the_default_socket() {
    let mut system = System::new();
    let (state, action) = system.run(&[], 5000);
    assert_eq!(action, Action::Finish);
    assert_eq!(
        state.sockets(),
        &vec![BoundSocket {
            descriptor: 3,
            kind: tcp4(),
            requested: v4(5000),
            actual: Some(v4(5000)),
        }]
    );
}

#[test]
fn reported_address_is_what_the_system_says() {
    let mut system = System::new();
    let (state, _) = system.run(&[("tcp", ":8080"), ("tcp", ":0"), ("tcp", "auto")], 8080);
    let sockets = state.sockets();
    assert_eq!(sockets[0].actual, Some(v4(8080)));
    assert_eq!(sockets[1].requested, v4(0));
    assert_eq!(sockets[1].actual, Some(v4(40000)));
    assert_eq!(sockets[2].requested, v4(8080));
    assert_eq!(sockets[2].actual, Some(v4(8080)));
}

#[test]
fn raw_socket_has_no_address_to_report() {
    let mut system = System::new();
    let (state, action) = system.run(&[("raw6", "auto"), ("raw", "10.0.0.1")], 5000);
    assert_eq!(action, Action::Finish);
    assert_eq!(system.trace, vec!["socket raw", "reuse 3", "socket raw6", "reuse 4"]);
    assert_eq!(state.sockets()[0].actual, None);
    assert_eq!(state.sockets()[0].kind, SocketKind::new(Protocol::Raw, Family::V4));
    assert_eq!(state.sockets()[1].actual, None);
    assert_eq!(
        state.sockets()[1].requested,
        Address { ip: IpAddress::V6(0, 0, 0, 0, 0, 0, 0, 1), port: 5000 }
    );
}

#[test]
fn malformed_request_opens_nothing() {
    let mut system = System::new();
    let (state, action) = system.run(&[("tcp", "badhost!!::notaport")], 5000);
    assert_eq!(
        action,
        Action::Abort(Failure::Description {
            text: String::from("badhost!!::notaport"),
            kind: tcp4(),
            error: ParseError::InvalidAddress,
        })
    );
    assert_eq!(state.phase(), Phase::Failed);
    assert!(system.trace.is_empty());
    assert!(system.open.is_empty());
    assert!(state.sockets().is_empty());
}

#[test]
fn failed_bind_closes_the_sockets_opened_before() {
    let mut system = System::new();
    system.refuse_port = Some(5001);
    let (state, action) = system.run(&[("tcp", "auto"), ("tcp", "auto")], 5000);
    assert_eq!(
        action,
        Action::Abort(Failure::Bind(BindError {
            step: Step::Bind,
            code: 98,
            address: v4(5001),
            kind: tcp4(),
        }))
    );
    assert!(system.open.is_empty(), "a socket was left open: {:?}", system.open);
    assert!(state.sockets().is_empty());
    assert_eq!(
        system.trace,
        vec![
            "socket tcp", "reuse 3", "bind 3 127.0.0.1:5000", "listen 3 1", "query 3",
            "socket tcp", "reuse 4", "bind 4 127.0.0.1:5001", "close 4", "close 3",
        ]
    );
}

#[test]
fn earlier_failure_wins() {
    let mut system = System::new();
    system.refuse_port = Some(53);
    let (_, action) =
        system.run(&[("udp", "not a host"), ("tcp", "auto"), ("tcp", ":53"), ("tcp", "auto")], 5000);
    assert_eq!(
        action,
        Action::Abort(Failure::Bind(BindError {
            step: Step::Bind,
            code: 98,
            address: v4(53),
            kind: tcp4(),
        }))
    );
    assert!(system.open.is_empty());

    let mut system = System::new();
    let (_, action) = system.run(&[("udp", "not a host"), ("tcp", "auto")], 5000);
    assert_eq!(
        action,
        Action::Abort(Failure::Description {
            text: String::from("not a host"),
            kind: udp4(),
            error: ParseError::InvalidAddress,
        })
    );
    assert_eq!(system.trace.last().map(String::as_str), Some("close 3"));
    assert!(system.open.is_empty());
}

#[test]
fn host_name_takes_the_first_address_of_the_family() {
    let mut system = System::new();
    let (state, action) = system.run(&[("tcp", "localhost:80"), ("tcp6", "localhost")], 5000);
    assert_eq!(action, Action::Finish);
    assert_eq!(state.sockets()[0].requested, v4(80));
    assert_eq!(
        state.sockets()[1].requested,
        Address { ip: IpAddress::V6(0, 0, 0, 0, 0, 0, 0, 1), port: 5000 }
    );
    assert_eq!(system.trace[0], "resolve localhost");
}

#[test]
fn host_without_address_of_the_family_fails() {
    let mut system = System::new();
    let (_, action) = system.run(&[("tcp", "auto"), ("tcp", "six.example:80")], 5000);
    assert_eq!(
        action,
        Action::Abort(Failure::Resolution { host: String::from("six.example"), kind: tcp4() })
    );
    assert!(system.open.is_empty());

    let mut system = System::new();
    let (_, action) = system.run(&[("udp6", "nowhere.example")], 5000);
    assert_eq!(
        action,
        Action::Abort(Failure::Resolution {
            host: String::from("nowhere.example"),
            kind: SocketKind::new(Protocol::Udp, Family::V6),
        })
    );
}

#[test]
fn failed_query_closes_the_socket() {
    let requests = vec![Request::new("auto", udp4()), Request::new("auto", udp4())];
    let (mut state, action) = provision(&requests, 5000);
    assert_eq!(action, Action::Call(Call::Socket { kind: udp4() }));
    assert_eq!(state.advance(Event::Returned(Ok(3))), Action::Call(Call::ReuseAddress { fd: 3 }));
    assert_eq!(
        state.advance(Event::Returned(Ok(0))),
        Action::Call(Call::Bind { fd: 3, address: v4(5000) })
    );
    assert_eq!(state.advance(Event::Returned(Ok(0))), Action::Query { fd: 3 });
    assert_eq!(
        state.advance(Event::Named(Ok(v4(5000)))),
        Action::Call(Call::Socket { kind: udp4() })
    );
    state.advance(Event::Returned(Ok(4)));
    state.advance(Event::Returned(Ok(0)));
    assert_eq!(state.advance(Event::Returned(Ok(0))), Action::Query { fd: 4 });
    assert_eq!(state.advance(Event::Named(Err(9))), Action::Call(Call::Close { fd: 4 }));
    assert_eq!(state.advance(Event::Returned(Ok(0))), Action::Call(Call::Close { fd: 3 }));
    let failure = Failure::Bind(BindError {
        step: Step::Query,
        code: 9,
        address: v4(5001),
        kind: udp4(),
    });
    assert_eq!(state.advance(Event::Returned(Err(9))), Action::Abort(failure.clone()));
    assert_eq!(state.advance(Event::Returned(Ok(0))), Action::Abort(failure));
}

#[test]
fn event_of_another_shape_counts_as_failure() {
    let requests = vec![Request::new("auto", udp4())];
    let (mut state, _) = provision(&requests, 5000);
    assert_eq!(
        state.advance(Event::Named(Ok(v4(1)))),
        Action::Abort(Failure::Bind(BindError {
            step: Step::Create,
            code: 0,
            address: v4(5000),
            kind: udp4(),
        }))
    );
}

#[test]
fn work_ends_whatever_the_events() {
    let requests = vec![
        Request::new("auto", tcp4()),
        Request::new("localhost:80", tcp4()),
        Request::new("auto", udp4()),
        Request::new("auto", SocketKind::new(Protocol::Raw, Family::V6)),
    ];
    let mut seed: u64 = 1;
    for _ in 0..2000 {
        let (mut state, mut action) = provision(&requests, 5000);
        let limit = 10 * state.plan().targets.len() + 8;
        let mut open: Vec<i32> = Vec::new();
        let mut steps = 0;
        while !matches!(action, Action::Finish | Action::Abort(_)) {
            seed = seed.wrapping_mul(6364136223846793005).wrapping_add(1442695040888963407);
            let pick = (seed >> 33) % 8;
            let created = matches!(action, Action::Call(Call::Socket { .. })) && pick < 6;
            if let Action::Call(Call::Close { fd }) = &action {
                let at = open.iter().rposition(|o| o == fd).expect("closes what is open");
                open.remove(at);
            }
            let event = match pick {
                0..=5 => match &action {
                    Action::Resolve { .. } => Event::Resolved(vec![IpAddress::V4(127, 0, 0, 1)]),
                    Action::Query { .. } => Event::Named(Ok(v4(1))),
                    _ => Event::Returned(Ok(steps + 3)),
                },
                6 => Event::Returned(Err(5)),
                _ => Event::Named(Err(6)),
            };
            if created {
                open.push(steps + 3);
            }
            action = state.advance(event);
            steps += 1;
            assert!(steps as usize <= limit, "does not end in time");
        }
        match action {
            Action::Finish => {
                let bound: Vec<i32> = state.sockets().iter().map(|s| s.descriptor).collect();
                assert_eq!(bound, open);
                assert_eq!(bound.len(), 4);
            }
            _ => assert!(open.is_empty(), "left open: {:?}", open),
        }
    }
}
