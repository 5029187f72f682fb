//! Opening all sockets of a plan.
//!
//! The sockets are opened one after the other, in the order of the plan.
//! Where a target names a host, its addresses are asked for, and the first
//! of the family is taken. Once a socket is open and bound, the address that
//! it is bound to is asked for. The first failure ends the work: every socket
//! that is open by then is closed, and only then is the failure reported.
//!
//! The driver performs each action and hands back an event that tells how
//! it ended.

use crate::addr::{Address, IpAddress};
use crate::failure::{Failure, FailureView};
use crate::kind::{rank_of, Protocol, SocketKind};
use crate::order::{queue_of, views, Request, RequestView};
use crate::parse::{first_of_family, lemma_first_of_family, pick_address, Host, HostView};
use crate::plan::{is_plan_of, lemma_plan_order, plan, Plan, PlanView, Target, TargetView};
use crate::sock::{
    at, lemma_nothing_leaks, on, BindError, Call, Opening, Progress, Stage, Step,
};
use vstd::prelude::*;

verus! {

/// An open socket.
#[derive(Clone, Copy, Debug, PartialEq, Eq, Structural)]
pub struct BoundSocket {
    /// The descriptor under which the socket is open.
    pub descriptor: i32,
    /// The kind of the socket.
    pub kind: SocketKind,
    /// The address that was asked for.
    pub requested: Address,
    /// The address that the socket is bound to, as the system reports it;
    /// none for a raw socket, which is not bound.
    pub actual: Option<Address>,
}

/// What the driver is to do next.
#[derive(Clone, Debug, PartialEq, Eq)]
pub enum Action {
    /// Look up the addresses of the host.
    Resolve { host: String },
    /// Make the call.
    Call(Call),
    /// Ask for the address that the socket is bound to.
    Query { fd: i32 },
    /// Every socket is open: hand them over.
    Finish,
    /// No socket is open: report the failure.
    Abort(Failure),
}

/// An action, with its texts as sequences of characters.
pub enum ActionView {
    Resolve { host: Seq<char> },
    Call(Call),
    Query { fd: i32 },
    Finish,
    Abort(FailureView),
}

impl View for Action {
    type V = ActionView;

    open spec fn view(&self) -> ActionView {
        match self {
            Action::Resolve { host } => ActionView::Resolve { host: host@ },
            Action::Call(c) => ActionView::Call(*c),
            Action::Query { fd } => ActionView::Query { fd: *fd },
            Action::Finish => ActionView::Finish,
            Action::Abort(f) => ActionView::Abort(f@),
        }
    }
}

/// How an action ended. An event of another shape than the action calls for
/// counts as the failure of the action, with the error number zero.
#[derive(Debug, PartialEq, Eq)]
pub enum Event {
    /// The addresses that a host stands for, in the order in which the
    /// system gave them.
    Resolved(Vec<IpAddress>),
    /// A call returned: a value, which for the creation of a socket is its
    /// descriptor, or an error number.
    Returned(Result<i32, i32>),
    /// The address that a socket is bound to, or an error number.
    Named(Result<Address, i32>),
}

/// An event, with the addresses as a sequence.
pub enum EventView {
    Resolved(Seq<IpAddress>),
    Returned(Result<i32, i32>),
    Named(Result<Address, i32>),
}

impl View for Event {
    type V = EventView;

    open spec fn view(&self) -> EventView {
        match self {
            Event::Resolved(v) => EventView::Resolved(v@),
            Event::Returned(r) => EventView::Returned(*r),
            Event::Named(r) => EventView::Named(*r),
        }
    }
}

/// What the work waits for.
#[derive(Clone, Copy, Debug, PartialEq, Eq, Structural)]
pub enum Phase {
    /// For the addresses of the host of the current target.
    Resolving,
    /// For a call of the opening of the current target.
    Opening(Opening),
    /// For the address that the socket of the current target is bound to.
    Querying { fd: i32, requested: Address },
    /// For the close of a socket, after a failure.
    Unwinding,
    /// For nothing: every socket is open.
    Finished,
    /// For nothing: the work has failed and no socket is open.
    Failed,
}

/// The work of opening the sockets of a plan. The current target is the
/// first for which no socket is bound yet. A state is made by `begin` or
/// `provision` and changed by `advance` only, so that it is always one that
/// the work can be in.
#[derive(Debug, PartialEq, Eq)]
pub struct Provisioner {
    /// What is to be opened.
    plan: Plan,
    /// The sockets that are open and done with, in the order of the plan.
    bound: Vec<BoundSocket>,
    /// What the work waits for.
    phase: Phase,
    /// Why the work has failed, once it has.
    failure: Option<Failure>,
}

/// The state of the work.
pub struct ProvisionerView {
    /// What is to be opened.
    pub plan: PlanView,
    /// The sockets that are open and done with, in the order of the plan.
    pub bound: Seq<BoundSocket>,
    /// What the work waits for.
    pub phase: Phase,
    /// Why the work has failed, once it has.
    pub failure: Option<FailureView>,
}

impl View for Provisioner {
    type V = ProvisionerView;

    closed spec fn view(&self) -> ProvisionerView {
        ProvisionerView {
            plan: self.plan@,
            bound: self.bound@,
            phase: self.phase,
            failure: match self.failure {
                Some(f) => Some(f@),
                None => None,
            },
        }
    }
}

/// Whether an address is one that the target asks for: it has the port of
/// the target, and its address where the target names one.
pub open spec fn serves(address: Address, target: TargetView) -> bool {
    &&& address.port == target.endpoint.port
    &&& target.endpoint.host matches HostView::Ip(ip) ==> address.ip == ip
}

/// The outcome of a call that an event reports.
pub open spec fn reply_of(event: EventView) -> Result<i32, i32> {
    match event {
        EventView::Returned(r) => r,
        _ => Err(0),
    }
}

/// The addresses that an event reports.
pub open spec fn candidates_of(event: EventView) -> Seq<IpAddress> {
    match event {
        EventView::Resolved(v) => v,
        _ => Seq::empty(),
    }
}

/// The address of a socket that an event reports.
pub open spec fn name_of(event: EventView) -> Result<Address, i32> {
    match event {
        EventView::Named(r) => r,
        _ => Err(0),
    }
}

impl ProvisionerView {
    /// The state in which nothing has been done yet. What the work waits
    /// for is set when it proceeds from there.
    pub open spec fn start(plan: PlanView) -> ProvisionerView {
        ProvisionerView { plan, bound: Seq::empty(), phase: Phase::Finished, failure: None }
    }

    /// The descriptors of the sockets that are open and for which no close
    /// has been called for, in the order in which they were created.
    pub open spec fn descriptors(self) -> Seq<i32> {
        let done = Seq::new(self.bound.len(), |i: int| self.bound[i].descriptor);
        match self.phase {
            Phase::Opening(opening) => match opening.held() {
                Some(fd) => done.push(fd),
                None => done,
            },
            Phase::Querying { fd, .. } => done.push(fd),
            _ => done,
        }
    }

    /// Whether the sockets that are bound are those of the first targets of
    /// the plan, one for one.
    pub open spec fn settled(self) -> bool {
        &&& self.bound.len() <= self.plan.targets.len()
        &&& forall|i: int|
            0 <= i < self.bound.len() ==> {
                &&& (#[trigger] self.bound[i]).kind == self.plan.targets[i].kind
                &&& serves(self.bound[i].requested, self.plan.targets[i])
                &&& self.bound[i].actual is None <==> self.bound[i].kind.protocol == Protocol::Raw
            }
    }

    /// Whether the state is one that the work can be in.
    pub open spec fn wf(self) -> bool {
        let current = self.plan.targets[self.bound.len() as int];
        &&& self.settled()
        &&& match self.phase {
            Phase::Resolving => {
                &&& self.bound.len() < self.plan.targets.len()
                &&& current.endpoint.host is Name
                &&& self.failure is None
            },
            Phase::Opening(opening) => {
                &&& self.bound.len() < self.plan.targets.len()
                &&& opening.kind == current.kind
                &&& serves(opening.address, current)
                &&& !opening.ended()
                &&& self.failure is None
            },
            Phase::Querying { fd, requested } => {
                &&& self.bound.len() < self.plan.targets.len()
                &&& serves(requested, current)
                &&& current.kind.protocol != Protocol::Raw
                &&& self.failure is None
            },
            Phase::Unwinding => self.failure is Some,
            Phase::Finished => {
                &&& self.bound.len() == self.plan.targets.len()
                &&& self.plan.failure is None
                &&& self.failure is None
            },
            Phase::Failed => self.failure is Some && self.bound.len() == 0,
        }
    }

    /// The work once a socket has failed, or a request could not be read:
    /// the last socket that is still open is closed; once none is open, the
    /// failure is reported.
    pub open spec fn unwind(self, failure: FailureView) -> (ProvisionerView, ActionView) {
        if self.bound.len() > 0 {
            (
                ProvisionerView {
                    bound: self.bound.drop_last(),
                    phase: Phase::Unwinding,
                    failure: Some(failure),
                    ..self
                },
                ActionView::Call(Call::Close { fd: self.bound.last().descriptor }),
            )
        } else {
            (
                ProvisionerView { phase: Phase::Failed, failure: Some(failure), ..self },
                ActionView::Abort(failure),
            )
        }
    }

    /// The work on the socket for the current target, once its address is
    /// known: it starts with the creation of the socket.
    pub open spec fn open(self, address: Address) -> (ProvisionerView, ActionView) {
        let kind = self.plan.targets[self.bound.len() as int].kind;
        (
            ProvisionerView {
                phase: Phase::Opening(Opening { kind, address, stage: Stage::Creating }),
                ..self
            },
            ActionView::Call(Call::Socket { kind }),
        )
    }

    /// The work once the sockets bound are up to date: with the current
    /// target if there is one, else with the failure of the plan if it has
    /// one, and else it is finished.
    pub open spec fn proceed(self) -> (ProvisionerView, ActionView) {
        let current = self.plan.targets[self.bound.len() as int];
        if self.bound.len() < self.plan.targets.len() {
            match current.endpoint.host {
                HostView::Ip(ip) => self.open(Address { ip, port: current.endpoint.port }),
                HostView::Name(host) => (
                    ProvisionerView { phase: Phase::Resolving, ..self },
                    ActionView::Resolve { host },
                ),
            }
        } else {
            match self.plan.failure {
                Some(failure) => self.unwind(failure),
                None => (ProvisionerView { phase: Phase::Finished, ..self }, ActionView::Finish),
            }
        }
    }

    /// The work once the socket of the current target is open and done
    /// with.
    pub open spec fn record(self, socket: BoundSocket) -> (ProvisionerView, ActionView) {
        (ProvisionerView { bound: self.bound.push(socket), ..self }).proceed()
    }

    /// The work after an event.
    pub open spec fn after(self, event: EventView) -> (ProvisionerView, ActionView) {
        let current = self.plan.targets[self.bound.len() as int];
        match self.phase {
            Phase::Resolving => match first_of_family(candidates_of(event), current.kind.family) {
                Some(ip) => self.open(Address { ip, port: current.endpoint.port }),
                None => self.unwind(
                    FailureView::Resolution {
                        host: current.endpoint.host->Name_0,
                        kind: current.kind,
                    },
                ),
            },
            Phase::Opening(opening) => match opening.after(reply_of(event)).1 {
                Progress::Call(call) => (
                    ProvisionerView {
                        phase: Phase::Opening(opening.after(reply_of(event)).0),
                        ..self
                    },
                    ActionView::Call(call),
                ),
                Progress::Ready(fd) => if opening.kind.protocol == Protocol::Raw {
                    self.record(
                        BoundSocket {
                            descriptor: fd,
                            kind: opening.kind,
                            requested: opening.address,
                            actual: None,
                        },
                    )
                } else {
                    (
                        ProvisionerView {
                            phase: Phase::Querying { fd, requested: opening.address },
                            ..self
                        },
                        ActionView::Query { fd },
                    )
                },
                Progress::Failed(error) => self.unwind(FailureView::Bind(error)),
            },
            Phase::Querying { fd, requested } => match name_of(event) {
                Ok(actual) => self.record(
                    BoundSocket {
                        descriptor: fd,
                        kind: current.kind,
                        requested,
                        actual: Some(actual),
                    },
                ),
                Err(code) => (
                    ProvisionerView {
                        phase: Phase::Unwinding,
                        failure: Some(
                            FailureView::Bind(
                                BindError {
                                    step: Step::Query,
                                    code,
                                    address: requested,
                                    kind: current.kind,
                                },
                            ),
                        ),
                        ..self
                    },
                    ActionView::Call(Call::Close { fd }),
                ),
            },
            Phase::Unwinding => self.unwind(self.failure->0),
            Phase::Finished => (self, ActionView::Finish),
            Phase::Failed => (self, ActionView::Abort(self.failure->0)),
        }
    }

    /// The descriptor of the socket that an event reports as created.
    pub open spec fn created(self, event: EventView) -> Option<i32> {
        match (self.phase, reply_of(event)) {
            (Phase::Opening(opening), Ok(fd)) => if opening.stage is Creating {
                Some(fd)
            } else {
                None
            },
            _ => None,
        }
    }
}

/// The work keeps its plan and stays in a state that it can be in.
pub proof fn lemma_stays_well_formed(state: ProvisionerView, event: EventView)
    requires
        state.wf(),
    ensures
        state.after(event).0.wf(),
        state.after(event).0.plan == state.plan,
{
    let current = state.plan.targets[state.bound.len() as int];
    match state.phase {
        Phase::Resolving => {
            lemma_first_of_family(candidates_of(event), current.kind.family);
        },
        Phase::Opening(opening) => {
            lemma_nothing_leaks(opening, reply_of(event));
        },
        _ => {},
    }
}

/// The work starts in a state that it can be in, with no socket open, and
/// not by closing one.
pub proof fn lemma_starts_well_formed(plan: PlanView)
    ensures
        ProvisionerView::start(plan).proceed().0.wf(),
        ProvisionerView::start(plan).proceed().0.plan == plan,
        ProvisionerView::start(plan).proceed().0.descriptors().len() == 0,
        !(ProvisionerView::start(plan).proceed().1 matches ActionView::Call(Call::Close { .. })),
{
}

/// No descriptor is lost. The sockets that are open change with an event in
/// one of three ways: the socket that the event reports as created is added;
/// or the socket that was opened last is taken away, and then the action is
/// to close it; or nothing changes.
pub proof fn lemma_descriptors(state: ProvisionerView, event: EventView)
    requires
        state.wf(),
    ensures
        ({
            let (next, action) = state.after(event);
            match action {
                ActionView::Call(Call::Close { fd }) => state.descriptors()
                    == next.descriptors().push(fd),
                _ => match state.created(event) {
                    Some(fd) => next.descriptors() == state.descriptors().push(fd),
                    None => next.descriptors() == state.descriptors(),
                },
            }
        }),
{
    let (next, action) = state.after(event);
    let current = state.plan.targets[state.bound.len() as int];
    let done = Seq::new(state.bound.len(), |i: int| state.bound[i].descriptor);
    match state.phase {
        Phase::Opening(opening) => {
            lemma_nothing_leaks(opening, reply_of(event));
            match opening.after(reply_of(event)).1 {
                Progress::Ready(fd) => {
                    if opening.kind.protocol == Protocol::Raw {
                        let socket = BoundSocket {
                            descriptor: fd,
                            kind: opening.kind,
                            requested: opening.address,
                            actual: None,
                        };
                        lemma_record_keeps(state, socket);
                        assert(Seq::new(
                            state.bound.push(socket).len(),
                            |i: int| state.bound.push(socket)[i].descriptor,
                        ) =~= done.push(fd));
                    }
                },
                Progress::Failed(error) => {
                    lemma_unwind_takes(state, FailureView::Bind(error));
                },
                _ => {},
            }
        },
        Phase::Querying { fd, requested } => {
            match name_of(event) {
                Ok(actual) => {
                    let socket = BoundSocket {
                        descriptor: fd,
                        kind: current.kind,
                        requested,
                        actual: Some(actual),
                    };
                    lemma_record_keeps(state, socket);
                    assert(Seq::new(
                        state.bound.push(socket).len(),
                        |i: int| state.bound.push(socket)[i].descriptor,
                    ) =~= done.push(fd));
                },
                Err(_) => {
                    assert(next.descriptors() =~= done);
                },
            }
        },
        Phase::Resolving => {
            match first_of_family(candidates_of(event), current.kind.family) {
                Some(ip) => {},
                None => {
                    lemma_unwind_takes(
                        state,
                        FailureView::Resolution {
                            host: current.endpoint.host->Name_0,
                            kind: current.kind,
                        },
                    );
                },
            }
        },
        Phase::Unwinding => {
            lemma_unwind_takes(state, state.failure->0);
        },
        _ => {},
    }
}

/// Unwinding takes away the last of the bound sockets and calls for its
/// close, or reports the failure once none is bound.
proof fn lemma_unwind_takes(state: ProvisionerView, failure: FailureView)
    ensures
        ({
            let (next, action) = state.unwind(failure);
            let done = Seq::new(state.bound.len(), |i: int| state.bound[i].descriptor);
            if state.bound.len() > 0 {
                action == ActionView::Call(Call::Close { fd: state.bound.last().descriptor })
                    && done == next.descriptors().push(state.bound.last().descriptor)
            } else {
                action == ActionView::Abort(failure) && next.descriptors() == done
            }
        }),
{
    let (next, action) = state.unwind(failure);
    let done = Seq::new(state.bound.len(), |i: int| state.bound[i].descriptor);
    if state.bound.len() > 0 {
        assert(done =~= next.descriptors().push(state.bound.last().descriptor));
    } else {
        assert(next.descriptors() =~= done);
    }
}

/// Recording a socket adds it to the bound sockets, and nothing that follows
/// at once opens or loses a socket other than by closing the last.
proof fn lemma_record_keeps(state: ProvisionerView, socket: BoundSocket)
    ensures
        ({
            let (next, action) = state.record(socket);
            let with = Seq::new(
                state.bound.push(socket).len(),
                |i: int| state.bound.push(socket)[i].descriptor,
            );
            match action {
                ActionView::Call(Call::Close { fd }) => with == next.descriptors().push(fd),
                _ => next.descriptors() == with,
            }
        }),
{
    let added = ProvisionerView { bound: state.bound.push(socket), ..state };
    let (next, action) = state.record(socket);
    let with = Seq::new(added.bound.len(), |i: int| added.bound[i].descriptor);
    if added.bound.len() < added.plan.targets.len() {
        assert(next.descriptors() =~= with);
    } else {
        match added.plan.failure {
            Some(failure) => {
                lemma_unwind_takes(added, failure);
            },
            None => {
                assert(next.descriptors() =~= with);
            },
        }
    }
}

/// How the work ends. When it finishes, a socket is bound for every target
/// of the plan, in the order of the plan, of the target's kind and on the
/// address and port asked for, the plan has no failure, and the sockets
/// that are open are the bound ones. When it is aborted, no socket is
/// open.
pub proof fn lemma_ends(state: ProvisionerView)
    requires
        state.wf(),
    ensures
        state.phase is Finished ==> {
            &&& state.bound.len() == state.plan.targets.len()
            &&& state.plan.failure is None
            &&& forall|i: int|
                0 <= i < state.bound.len() ==> (#[trigger] state.bound[i]).kind
                    == state.plan.targets[i].kind && serves(
                    state.bound[i].requested,
                    state.plan.targets[i],
                )
            &&& state.descriptors() == Seq::new(
                state.bound.len(),
                |i: int| state.bound[i].descriptor,
            )
        },
        state.phase is Failed ==> state.descriptors().len() == 0,
{
}

/// An action ends the work exactly when the state says so: the work is
/// finished with `Finish`, has failed with `Abort`, and goes on with any
/// other action.
pub proof fn lemma_last_action(state: ProvisionerView, event: EventView)
    requires
        state.wf(),
    ensures
        state.after(event).1 is Finish <==> state.after(event).0.phase is Finished,
        state.after(event).1 is Abort <==> state.after(event).0.phase is Failed,
        state.after(event).1 matches ActionView::Abort(failure) ==> state.after(event).0.failure
            == Some(failure),
{
    let current = state.plan.targets[state.bound.len() as int];
    match state.phase {
        Phase::Opening(opening) => {
            lemma_nothing_leaks(opening, reply_of(event));
        },
        _ => {},
    }
}

/// What is asked of the system and what is reported of it. A socket is
/// bound to the address that its target asks for. The address that the
/// system names for a socket is recorded as it is, with the descriptor, the
/// kind and the address asked for.
pub proof fn lemma_bind_and_report(state: ProvisionerView, event: EventView)
    requires
        state.wf(),
    ensures
        state.after(event).1 matches ActionView::Call(Call::Bind { fd, address }) ==> {
            &&& state.phase matches Phase::Opening(opening)
            &&& opening.held() == Some(fd)
            &&& address == opening.address
            &&& serves(address, state.plan.targets[state.bound.len() as int])
        },
        state.phase matches Phase::Querying { fd, requested } ==> (name_of(event) matches Ok(
            actual,
        ) ==> state.after(event) == state.record(
            BoundSocket {
                descriptor: fd,
                kind: state.plan.targets[state.bound.len() as int].kind,
                requested,
                actual: Some(actual),
            },
        )),
{
    match state.phase {
        Phase::Opening(opening) => {
            lemma_nothing_leaks(opening, reply_of(event));
        },
        _ => {},
    }
}

/// When the work on the plan of a list of requests has finished, there is a
/// socket for every request, or one where the list is empty; the sockets
/// stand in the order of the queue, each of the kind of its request; and so
/// none stands before one of a lower rank.
pub proof fn lemma_finished(requests: Seq<RequestView>, base: int, state: ProvisionerView)
    requires
        is_plan_of(state.plan.targets, state.plan.failure, requests, base),
        state.wf(),
        state.phase is Finished,
    ensures
        state.bound.len() == if requests.len() == 0 {
            1
        } else {
            requests.len()
        },
        forall|i: int|
            0 <= i < state.bound.len() ==> (#[trigger] state.bound[i]).kind == queue_of(
                requests,
            )[i].kind && state.bound[i].requested.port == state.plan.targets[i].endpoint.port,
        forall|i: int, j: int|
            0 <= i <= j < state.bound.len() ==> rank_of(
                (#[trigger] state.bound[i]).kind,
            ) <= rank_of((#[trigger] state.bound[j]).kind),
{
    lemma_plan_order(requests, base, state.plan.targets, state.plan.failure);
    assert forall|i: int, j: int| 0 <= i <= j < state.bound.len() implies rank_of(
        (#[trigger] state.bound[i]).kind,
    ) <= rank_of((#[trigger] state.bound[j]).kind) by {
        assert(state.bound[i].kind == state.plan.targets[i].kind);
        assert(state.bound[j].kind == state.plan.targets[j].kind);
    }
}

impl Provisioner {
    /// Whether the state is one that the work can be in.
    pub open spec fn wf(&self) -> bool {
        self@.wf()
    }

    /// The target that is worked on.
    fn current(&self) -> (target: &Target)
        requires
            self.bound@.len() < self.plan.targets@.len(),
        ensures
            target@ == self@.plan.targets[self.bound@.len() as int],
            *target == self.plan.targets@[self.bound@.len() as int],
    {
        &self.plan.targets[self.bound.len()]
    }

    /// Closes the last socket that is still open, or reports the failure.
    fn unwind(&mut self, failure: Failure) -> (action: Action)
        ensures
            (final(self)@, action@) == old(self)@.unwind(failure@),
    {
        match self.bound.pop() {
            Some(socket) => {
                self.phase = Phase::Unwinding;
                self.failure = Some(failure);
                proof {
                    assert(final(self)@.bound =~= old(self)@.bound.drop_last());
                }
                Action::Call(Call::Close { fd: socket.descriptor })
            },
            None => {
                let report = failure.duplicate();
                self.phase = Phase::Failed;
                self.failure = Some(failure);
                Action::Abort(report)
            },
        }
    }

    /// Starts to open the socket for the current target.
    fn open(&mut self, address: Address) -> (action: Action)
        requires
            old(self).bound@.len() < old(self).plan.targets@.len(),
        ensures
            (final(self)@, action@) == old(self)@.open(address),
    {
        let kind = self.current().kind;
        let (opening, call) = on(address, kind);
        self.phase = Phase::Opening(opening);
        Action::Call(call)
    }

    /// Goes on with the current target, or ends the work.
    fn proceed(&mut self) -> (action: Action)
        requires
            old(self).bound@.len() <= old(self).plan.targets@.len(),
        ensures
            (final(self)@, action@) == old(self)@.proceed(),
    {
        if self.bound.len() < self.plan.targets.len() {
            let target = self.current();
            let port = target.endpoint.port;
            match &target.endpoint.host {
                Host::Ip(ip) => {
                    let address = Address { ip: *ip, port };
                    self.open(address)
                },
                Host::Name(name) => {
                    let host = name.clone();
                    self.phase = Phase::Resolving;
                    Action::Resolve { host }
                },
            }
        } else {
            let pending = match &self.plan.failure {
                Some(failure) => Some(failure.duplicate()),
                None => None,
            };
            match pending {
                Some(failure) => self.unwind(failure),
                None => {
                    self.phase = Phase::Finished;
                    Action::Finish
                },
            }
        }
    }

    /// Takes a socket as open and done with, and goes on.
    fn record(&mut self, socket: BoundSocket) -> (action: Action)
        requires
            old(self).bound@.len() < old(self).plan.targets@.len(),
        ensures
            (final(self)@, action@) == old(self)@.record(socket),
    {
        self.bound.push(socket);
        self.proceed()
    }

    /// Starts the work on a plan: the state, and the first action.
    pub fn begin(plan: Plan) -> (r: (Provisioner, Action))
        ensures
            (r.0@, r.1@) == ProvisionerView::start(plan@).proceed(),
            r.0.wf(),
    {
        let mut state = Provisioner {
            plan,
            bound: Vec::new(),
            phase: Phase::Finished,
            failure: None,
        };
        proof {
            assert(state@.bound =~= Seq::<BoundSocket>::empty());
            lemma_starts_well_formed(plan@);
        }
        let action = state.proceed();
        (state, action)
    }

    /// Takes the event that tells how the last action ended, and gives the
    /// next action.
    pub fn advance(&mut self, event: Event) -> (action: Action)
        requires
            old(self).wf(),
        ensures
            (final(self)@, action@) == old(self)@.after(event@),
            final(self).wf(),
    {
        proof {
            lemma_stays_well_formed(self@, event@);
        }
        match self.phase {
            Phase::Resolving => {
                let target = self.current();
                let kind = target.kind;
                let port = target.endpoint.port;
                let found = match &event {
                    Event::Resolved(candidates) => pick_address(candidates, kind.family),
                    _ => {
                        proof {
                            assert(first_of_family(Seq::<IpAddress>::empty(), kind.family) is None);
                        }
                        None
                    },
                };
                match found {
                    Some(ip) => self.open(Address { ip, port }),
                    None => {
                        let host = match &target.endpoint.host {
                            Host::Name(name) => name.clone(),
                            Host::Ip(_) => String::new(),
                        };
                        self.unwind(Failure::Resolution { host, kind })
                    },
                }
            },
            Phase::Opening(opening) => {
                let reply = match event {
                    Event::Returned(r) => r,
                    _ => Err(0),
                };
                let mut opening = opening;
                match opening.advance(reply) {
                    Progress::Call(call) => {
                        self.phase = Phase::Opening(opening);
                        Action::Call(call)
                    },
                    Progress::Ready(fd) => {
                        if opening.kind.binds() {
                            self.phase = Phase::Querying { fd, requested: opening.address };
                            Action::Query { fd }
                        } else {
                            self.record(
                                BoundSocket {
                                    descriptor: fd,
                                    kind: opening.kind,
                                    requested: opening.address,
                                    actual: None,
                                },
                            )
                        }
                    },
                    Progress::Failed(error) => self.unwind(Failure::Bind(error)),
                }
            },
            Phase::Querying { fd, requested } => {
                let kind = self.current().kind;
                let name = match event {
                    Event::Named(r) => r,
                    _ => Err(0),
                };
                match at(kind, requested, name) {
                    Ok(actual) => self.record(
                        BoundSocket { descriptor: fd, kind, requested, actual: Some(actual) },
                    ),
                    Err(error) => {
                        self.phase = Phase::Unwinding;
                        self.failure = Some(Failure::Bind(error));
                        Action::Call(Call::Close { fd })
                    },
                }
            },
            Phase::Unwinding => {
                let failure = match &self.failure {
                    Some(failure) => failure.duplicate(),
                    None => vstd::pervasive::unreached(),
                };
                self.unwind(failure)
            },
            Phase::Finished => Action::Finish,
            Phase::Failed => {
                let failure = match &self.failure {
                    Some(failure) => failure.duplicate(),
                    None => vstd::pervasive::unreached(),
                };
                Action::Abort(failure)
            },
        }
    }

    /// The sockets that are open and done with, in the order of the plan.
    pub fn sockets(&self) -> (sockets: &Vec<BoundSocket>)
        ensures
            sockets@ == self@.bound,
    {
        &self.bound
    }

    /// What the work waits for.
    pub fn phase(&self) -> (phase: Phase)
        ensures
            phase == self@.phase,
    {
        self.phase
    }

    /// What is to be opened.
    pub fn plan(&self) -> (plan: &Plan)
        ensures
            plan@ == self@.plan,
    {
        &self.plan
    }
}

/// Starts the work on a list of requests: plans them with automatic ports
/// from `base` on, and gives the state and the first action.
pub fn provision(requests: &Vec<Request>, base: u16) -> (r: (Provisioner, Action))
    ensures
        is_plan_of(r.0@.plan.targets, r.0@.plan.failure, views(requests@), base as int),
        (r.0@, r.1@) == ProvisionerView::start(r.0@.plan).proceed(),
        r.0.wf(),
{
    let p = plan(requests, base);
    proof {
        lemma_starts_well_formed(p@);
    }
    Provisioner::begin(p)
}

} // verus!
