use catflap::addr::{Address, IpAddress};
use catflap::kind::{Family, Protocol, SocketKind};
use catflap::sock::{at, on, BindError, Call, Opening, Progress, Stage, Step};

fn address() -> Address {
    Address { ip: IpAddress::V4(127, 0, 0, 1), port: 5000 }
}

fn run(kind: SocketKind, replies: &[Result<i32, i32>]) -> (Vec<Call>, Progress, Opening) {
    let (mut opening, first) = on(address(), kind);
    let mut calls = vec![first];
    for (i, reply) in replies.iter().enumerate() {
        match opening.advance(*reply) {
            Progress::Call(call) => calls.push(call),
            end => {
                assert_eq!(i + 1, replies.len(), "ended early");
                return (calls, end, opening);
            }
        }
    }
    panic!("did not end");
}

#[test]
fn tcp_socket_is_bound_and_listens() {
    let kind = SocketKind::new(Protocol::Tcp, Family::V4);
    let (calls, end, opening) = run(kind, &[Ok(3), Ok(0), Ok(0), Ok(0)]);
    assert_eq!(
        calls,
        vec![
            Call::Socket { kind },
            Call::ReuseAddress { fd: 3 },
            Call::Bind { fd: 3, address: address() },
            Call::Listen { fd: 3, backlog: 1 },
        ]
    );
    assert_eq!(end, Progress::Ready(3));
    assert_eq!(opening.stage, Stage::Ready { fd: 3 });
}

#[test]
fn udp_socket_is_bound_and_does_not_listen() {
    let kind = SocketKind::new(Protocol::Udp, Family::V6);
    let (calls, end, _) = run(kind, &[Ok(7), Ok(0), Ok(0)]);
    assert_eq!(
        calls,
        vec![
            Call::Socket { kind },
            Call::ReuseAddress { fd: 7 },
            Call::Bind { fd: 7, address: address() },
        ]
    );
    assert_eq!(end, Progress::Ready(7));
}

#[test]
fn raw_socket_is_not_bound() {
    let kind = SocketKind::new(Protocol::Raw, Family::V6);
    let (calls, end, _) = run(kind, &[Ok(4), Ok(0)]);
    assert_eq!(calls, vec![Call::Socket { kind }, Call::ReuseAddress { fd: 4 }]);
    assert_eq!(end, Progress::Ready(4));
}

#[test]
fn failed_creation_has_nothing_to_close() {
    let kind = SocketKind::new(Protocol::Tcp, Family::V4);
    let (calls, end, _) = run(kind, &[Err(24)]);
    assert_eq!(calls, vec![Call::Socket { kind }]);
    assert_eq!(
        end,
        Progress::Failed(BindError { step: Step::Create, code: 24, address: address(), kind })
    );
}

#[test]
fn failed_step_closes_the_socket_first() {
    let kind = SocketKind::new(Protocol::Tcp, Family::V4);
    let cases: [(&[Result<i32, i32>], Step, i32); 3] = [
        (&[Ok(5), Err(92), Ok(0)], Step::Configure, 92),
        (&[Ok(5), Ok(0), Err(98), Ok(0)], Step::Bind, 98),
        (&[Ok(5), Ok(0), Ok(0), Err(95), Err(9)], Step::Listen, 95),
    ];
    for (replies, step, code) in cases {
        let (calls, end, opening) = run(kind, replies);
        assert_eq!(calls.last(), Some(&Call::Close { fd: 5 }));
        assert_eq!(calls.iter().filter(|c| matches!(c, Call::Close { .. })).count(), 1);
        let error = BindError { step, code, address: address(), kind };
        assert_eq!(end, Progress::Failed(error));
        assert_eq!(opening.stage, Stage::Failed { error });
    }
}

#[test]
fn ended_opening_stays_as_it_is() {
    let kind = SocketKind::new(Protocol::Raw, Family::V4);
    let (mut opening, _) = on(address(), kind);
    opening.advance(Ok(9));
    assert_eq!(opening.advance(Ok(0)), Progress::Ready(9));
    assert_eq!(opening.advance(Err(1)), Progress::Ready(9));
    assert_eq!(opening.advance(Ok(12)), Progress::Ready(9));
    assert_eq!(opening.stage, Stage::Ready { fd: 9 });
}

#[test]
fn answer_of_the_system_is_the_address_of_the_socket() {
    let kind = SocketKind::new(Protocol::Udp, Family::V4);
    let requested = Address { ip: IpAddress::V4(127, 0, 0, 1), port: 0 };
    let actual = Address { ip: IpAddress::V4(127, 0, 0, 1), port: 49152 };
    assert_eq!(at(kind, requested, Ok(actual)), Ok(actual));
    assert_eq!(at(kind, requested, Ok(requested)), Ok(requested));
    assert_eq!(
        at(kind, requested, Err(9)),
        Err(BindError { step: Step::Query, code: 9, address: requested, kind })
    );
}
