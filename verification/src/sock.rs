//! Opening one socket.
//!
//! A socket is created, told to reuse its address, bound unless it is raw,
//! and made to listen if it is a TCP socket. The calls themselves are the
//! driver's: `on` and `Opening::advance` say which call comes next, and the
//! driver hands back how the call ended. When a call fails after the socket
//! was created, the socket is closed before the failure is reported.

use crate::addr::Address;
use crate::kind::{Protocol, SocketKind, BACKLOG};
use vstd::prelude::*;

verus! {

/// A step on the way to an open socket.
#[derive(Clone, Copy, Debug, PartialEq, Eq, Structural)]
pub enum Step {
    /// Creating the socket.
    Create,
    /// Setting its options.
    Configure,
    /// Binding it to its address.
    Bind,
    /// Making it listen.
    Listen,
    /// Asking for the address that it is bound to.
    Query,
}

/// A call for the driver to make.
#[derive(Clone, Copy, Debug, PartialEq, Eq, Structural)]
pub enum Call {
    /// Create a socket of the kind, inheritable by a child process. A raw
    /// socket is created in the family of the kind, under the raw-IP
    /// protocol.
    Socket { kind: SocketKind },
    /// Allow the socket to reuse a local address.
    ReuseAddress { fd: i32 },
    /// Bind the socket to the address.
    Bind { fd: i32, address: Address },
    /// Make the socket listen, with the given backlog.
    Listen { fd: i32, backlog: i32 },
    /// Close the socket.
    Close { fd: i32 },
}

/// A socket could not be opened.
#[derive(Clone, Copy, Debug, PartialEq, Eq, Structural)]
pub struct BindError {
    /// The step that failed.
    pub step: Step,
    /// The error number that the system gave.
    pub code: i32,
    /// The address asked for.
    pub address: Address,
    /// The kind of socket asked for.
    pub kind: SocketKind,
}

/// How far the opening of a socket has come. Where a descriptor is named,
/// the socket is open and this opening is responsible for it.
#[derive(Clone, Copy, Debug, PartialEq, Eq, Structural)]
pub enum Stage {
    /// The socket is being created.
    Creating,
    /// The option is being set.
    Configuring { fd: i32 },
    /// The socket is being bound.
    Binding { fd: i32 },
    /// The socket is being made to listen.
    Listening { fd: i32 },
    /// A step failed and the socket is being closed.
    Releasing { error: BindError },
    /// The socket is open.
    Ready { fd: i32 },
    /// The socket is not open, and closed if it ever was.
    Failed { error: BindError },
}

/// The opening of one socket.
#[derive(Clone, Copy, Debug, PartialEq, Eq, Structural)]
pub struct Opening {
    pub kind: SocketKind,
    pub address: Address,
    pub stage: Stage,
}

/// What comes after a call has ended.
#[derive(Clone, Copy, Debug, PartialEq, Eq, Structural)]
pub enum Progress {
    /// Another call is to be made.
    Call(Call),
    /// The socket is open under this descriptor.
    Ready(i32),
    /// The socket could not be opened, and is closed.
    Failed(BindError),
}

impl Opening {
    /// The descriptor that this opening is responsible for: that of a socket
    /// which was created and for which no close has been called for.
    pub open spec fn held(self) -> Option<i32> {
        match self.stage {
            Stage::Configuring { fd } => Some(fd),
            Stage::Binding { fd } => Some(fd),
            Stage::Listening { fd } => Some(fd),
            Stage::Ready { fd } => Some(fd),
            _ => None,
        }
    }

    /// Whether the opening has come to its end.
    pub open spec fn ended(self) -> bool {
        self.stage is Ready || self.stage is Failed
    }

    /// The failure of a step with an error number.
    pub open spec fn error(self, step: Step, code: i32) -> BindError {
        BindError { step, code, address: self.address, kind: self.kind }
    }

    /// The opening once the socket is open.
    pub open spec fn ready(self, fd: i32) -> (Opening, Progress) {
        (Opening { stage: Stage::Ready { fd }, ..self }, Progress::Ready(fd))
    }

    /// The opening once a step has failed on an open socket: the socket is
    /// to be closed.
    pub open spec fn release(self, step: Step, code: i32, fd: i32) -> (Opening, Progress) {
        (
            Opening { stage: Stage::Releasing { error: self.error(step, code) }, ..self },
            Progress::Call(Call::Close { fd }),
        )
    }

    /// The opening once the option is set: a raw socket is open, any other
    /// is to be bound.
    pub open spec fn configured(self, fd: i32) -> (Opening, Progress) {
        if self.kind.protocol == Protocol::Raw {
            self.ready(fd)
        } else {
            (
                Opening { stage: Stage::Binding { fd }, ..self },
                Progress::Call(Call::Bind { fd, address: self.address }),
            )
        }
    }

    /// The opening once the socket is bound: a TCP socket is to listen, any
    /// other is open.
    pub open spec fn bound(self, fd: i32) -> (Opening, Progress) {
        if self.kind.protocol == Protocol::Tcp {
            (
                Opening { stage: Stage::Listening { fd }, ..self },
                Progress::Call(Call::Listen { fd, backlog: BACKLOG }),
            )
        } else {
            self.ready(fd)
        }
    }

    /// The opening after the call that it waited for has ended: with a
    /// value, which for the creation is the descriptor, or with an error
    /// number.
    pub open spec fn after(self, reply: Result<i32, i32>) -> (Opening, Progress) {
        match (self.stage, reply) {
            (Stage::Creating, Ok(fd)) => (
                Opening { stage: Stage::Configuring { fd }, ..self },
                Progress::Call(Call::ReuseAddress { fd }),
            ),
            (Stage::Creating, Err(code)) => (
                Opening { stage: Stage::Failed { error: self.error(Step::Create, code) }, ..self },
                Progress::Failed(self.error(Step::Create, code)),
            ),
            (Stage::Configuring { fd }, Ok(_)) => self.configured(fd),
            (Stage::Configuring { fd }, Err(code)) => self.release(Step::Configure, code, fd),
            (Stage::Binding { fd }, Ok(_)) => self.bound(fd),
            (Stage::Binding { fd }, Err(code)) => self.release(Step::Bind, code, fd),
            (Stage::Listening { fd }, Ok(_)) => self.ready(fd),
            (Stage::Listening { fd }, Err(code)) => self.release(Step::Listen, code, fd),
            (Stage::Releasing { error }, _) => (
                Opening { stage: Stage::Failed { error }, ..self },
                Progress::Failed(error),
            ),
            (Stage::Ready { fd }, _) => (self, Progress::Ready(fd)),
            (Stage::Failed { error }, _) => (self, Progress::Failed(error)),
        }
    }

    /// Takes the outcome of the call that was last asked for and says what
    /// comes next.
    pub fn advance(&mut self, reply: Result<i32, i32>) -> (progress: Progress)
        ensures
            (*final(self), progress) == old(self).after(reply),
    {
        let kind = self.kind;
        let address = self.address;
        let (stage, progress) = match (self.stage, reply) {
            (Stage::Creating, Ok(fd)) => (
                Stage::Configuring { fd },
                Progress::Call(Call::ReuseAddress { fd }),
            ),
            (Stage::Creating, Err(code)) => {
                let error = BindError { step: Step::Create, code, address, kind };
                (Stage::Failed { error }, Progress::Failed(error))
            },
            (Stage::Configuring { fd }, Ok(_)) => {
                if kind.binds() {
                    (Stage::Binding { fd }, Progress::Call(Call::Bind { fd, address }))
                } else {
                    (Stage::Ready { fd }, Progress::Ready(fd))
                }
            },
            (Stage::Binding { fd }, Ok(_)) => {
                if kind.listens() {
                    (
                        Stage::Listening { fd },
                        Progress::Call(Call::Listen { fd, backlog: BACKLOG }),
                    )
                } else {
                    (Stage::Ready { fd }, Progress::Ready(fd))
                }
            },
            (Stage::Listening { fd }, Ok(_)) => (Stage::Ready { fd }, Progress::Ready(fd)),
            (Stage::Configuring { fd }, Err(code)) => {
                let error = BindError { step: Step::Configure, code, address, kind };
                (Stage::Releasing { error }, Progress::Call(Call::Close { fd }))
            },
            (Stage::Binding { fd }, Err(code)) => {
                let error = BindError { step: Step::Bind, code, address, kind };
                (Stage::Releasing { error }, Progress::Call(Call::Close { fd }))
            },
            (Stage::Listening { fd }, Err(code)) => {
                let error = BindError { step: Step::Listen, code, address, kind };
                (Stage::Releasing { error }, Progress::Call(Call::Close { fd }))
            },
            (Stage::Releasing { error }, _) => (Stage::Failed { error }, Progress::Failed(error)),
            (Stage::Ready { fd }, _) => (Stage::Ready { fd }, Progress::Ready(fd)),
            (Stage::Failed { error }, _) => (Stage::Failed { error }, Progress::Failed(error)),
        };
        self.stage = stage;
        progress
    }
}

/// Starts to open a socket of the given kind on the given address: the
/// opening, and the first call to make.
pub fn on(address: Address, kind: SocketKind) -> (r: (Opening, Call))
    ensures
        r.0 == (Opening { kind, address, stage: Stage::Creating }),
        r.1 == (Call::Socket { kind }),
{
    (Opening { kind, address, stage: Stage::Creating }, Call::Socket { kind })
}

/// The address at which an open socket is bound, from what the system
/// answered when it was asked: the address that it named, or the failure of
/// the question with the error number that it gave.
pub fn at(kind: SocketKind, requested: Address, answer: Result<Address, i32>) -> (r: Result<
    Address,
    BindError,
>)
    ensures
        r == (match answer {
            Ok(actual) => Ok::<Address, BindError>(actual),
            Err(code) => Err(BindError { step: Step::Query, code, address: requested, kind }),
        }),
{
    match answer {
        Ok(actual) => Ok(actual),
        Err(code) => Err(BindError { step: Step::Query, code, address: requested, kind }),
    }
}

/// The calls that open a socket when none fails: create it and set the
/// option; bind it unless it is raw; make it listen, for one pending
/// connection, if it is a TCP socket.
pub open spec fn script_of(address: Address, kind: SocketKind, fd: i32) -> Seq<Call> {
    seq![Call::Socket { kind }, Call::ReuseAddress { fd }] + (if kind.protocol == Protocol::Raw {
        Seq::<Call>::empty()
    } else {
        seq![Call::Bind { fd, address }]
    }) + (if kind.protocol == Protocol::Tcp {
        seq![Call::Listen { fd, backlog: 1 }]
    } else {
        Seq::<Call>::empty()
    })
}

/// The state of an opening after a number of calls have ended well, the
/// first of them with the descriptor.
pub open spec fn after_successes(opening: Opening, fd: i32, n: nat) -> (Opening, Progress)
    decreases n,
{
    if n <= 1 {
        opening.after(Ok(fd))
    } else {
        after_successes(opening, fd, (n - 1) as nat).0.after(Ok(0))
    }
}

/// When no call fails, the calls made are those of the script, one after the
/// other, and the socket is then open under the descriptor that the creation
/// gave.
pub proof fn lemma_script(address: Address, kind: SocketKind, fd: i32)
    ensures
        ({
            let start = Opening { kind, address, stage: Stage::Creating };
            let script = script_of(address, kind, fd);
            &&& 2 <= script.len() <= 4
            &&& forall|n: nat|
                1 <= n < script.len() ==> (#[trigger] after_successes(start, fd, n)).1
                    == Progress::Call(script[n as int])
            &&& after_successes(start, fd, script.len()) == start.ready(fd)
        }),
{
    reveal_with_fuel(after_successes, 5);
    let start = Opening { kind, address, stage: Stage::Creating };
    let script = script_of(address, kind, fd);
    assert(after_successes(start, fd, 1).1 == Progress::Call(script[1]));
}

/// An opening never loses a socket: a close is called for only on the
/// descriptor held, which is then given up; a failure is reported only once
/// nothing is held; success is reported with the descriptor held; and
/// otherwise the descriptor held stays, or is the one just created.
pub proof fn lemma_nothing_leaks(opening: Opening, reply: Result<i32, i32>)
    ensures
        ({
            let (next, progress) = opening.after(reply);
            &&& next.kind == opening.kind
            &&& next.address == opening.address
            &&& progress matches Progress::Call(Call::Close { fd }) ==> opening.held() == Some(fd)
                && next.held() is None
            &&& progress is Failed ==> opening.held() is None && next.held() is None
            &&& progress matches Progress::Ready(fd) ==> next.held() == Some(fd) && (opening.held()
                == Some(fd))
            &&& progress matches Progress::Call(call) ==> call is Close || (next.held() is Some
                && next.held() == (if opening.stage is Creating {
                Some(reply->Ok_0)
            } else {
                opening.held()
            }))
            &&& progress is Call <==> !next.ended()
        }),
{
}

} // verus!
