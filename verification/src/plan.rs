//! What is to be opened: the targets that a list of requests stands for.
//!
//! The requests are served group by group. Each group has a port counter of
//! its own, which starts at the base, so that a request without a port gets
//! the base plus the number of such requests before it in its group. The
//! first request that cannot be read ends the plan.

use crate::addr::IpAddress;
use crate::failure::{Failure, FailureView};
use crate::kind::{lemma_rank_injective, rank_of, Family, Protocol, SocketKind, KINDS};
use crate::order::{
    arrange, lemma_grouped_members, lemma_grouped_order_free, lemma_grouped_sorted, of_rank,
    queue_of, views, Request, RequestView,
};
use crate::parse::{
    parse, parse_of, spec_of, upcoming_after, Endpoint, EndpointView, HostView, ParseError,
};
use crate::port::PortCursor;
use vstd::prelude::*;

verus! {

/// A socket to open: its kind, and where to bind it.
#[derive(Clone, Debug, PartialEq, Eq)]
pub struct Target {
    pub kind: SocketKind,
    pub endpoint: Endpoint,
}

/// A target, with the endpoint by its view.
pub struct TargetView {
    pub kind: SocketKind,
    pub endpoint: EndpointView,
}

impl View for Target {
    type V = TargetView;

    open spec fn view(&self) -> TargetView {
        TargetView { kind: self.kind, endpoint: self.endpoint@ }
    }
}

/// The targets to open, in order, and the failure that ends the list where a
/// request could not be read.
#[derive(Clone, Debug, PartialEq, Eq)]
pub struct Plan {
    pub targets: Vec<Target>,
    pub failure: Option<Failure>,
}

/// The targets by their views.
pub open spec fn target_views(targets: Seq<Target>) -> Seq<TargetView> {
    Seq::new(targets.len(), |i: int| targets[i]@)
}

/// Whether a request is read well and names no port, so that it is given
/// one.
pub open spec fn asks_port(r: RequestView) -> bool {
    spec_of(r.text, r.kind) is Ok && spec_of(r.text, r.kind)->Ok_0.port is None
}

/// The requests of a kind that are given a port.
pub open spec fn autos_of(requests: Seq<RequestView>, kind: SocketKind) -> Seq<RequestView> {
    requests.filter(|r: RequestView| r.kind == kind && asks_port(r))
}

/// The number of requests before place `i` that are given a port from the
/// counter of the group of the request at `i`.
pub open spec fn earlier_autos(queue: Seq<RequestView>, i: int) -> nat {
    autos_of(queue.take(i), queue[i].kind).len()
}

/// The port that the counter of its group holds when the request at place
/// `i` is read; 65536 once the counter is exhausted.
pub open spec fn upcoming_at(queue: Seq<RequestView>, base: int, i: int) -> int {
    if base + earlier_autos(queue, i) < 65536 {
        base + earlier_autos(queue, i)
    } else {
        65536
    }
}

/// The target that the request at place `i` of the queue stands for.
pub open spec fn target_at(queue: Seq<RequestView>, base: int, i: int) -> Result<
    TargetView,
    ParseError,
> {
    match parse_of(queue[i].text, queue[i].kind, upcoming_at(queue, base, i)) {
        Ok(endpoint) => Ok(TargetView { kind: queue[i].kind, endpoint }),
        Err(e) => Err(e),
    }
}

/// Whether a plan is the plan of the requests: it holds the targets of the
/// queue up to the first request that cannot be read, and fails with that
/// request if there is one.
pub open spec fn is_plan_of(
    targets: Seq<TargetView>,
    failure: Option<FailureView>,
    requests: Seq<RequestView>,
    base: int,
) -> bool {
    let queue = queue_of(requests);
    let n = targets.len() as int;
    &&& n <= queue.len()
    &&& forall|i: int| 0 <= i < n ==> target_at(queue, base, i) == Ok::<TargetView, ParseError>(
        #[trigger] targets[i],
    )
    &&& failure is None <==> n == queue.len()
    &&& n < queue.len() ==> target_at(queue, base, n) is Err && failure == Some(
        FailureView::Description {
            text: queue[n].text,
            kind: queue[n].kind,
            error: target_at(queue, base, n)->Err_0,
        },
    )
}

/// No kind stands before one of a lower rank.
pub open spec fn in_rank_order(queue: Seq<RequestView>) -> bool {
    forall|i: int, j: int|
        0 <= i <= j < queue.len() ==> rank_of((#[trigger] queue[i]).kind) <= rank_of(
            (#[trigger] queue[j]).kind,
        )
}

/// The queue of any list of requests is in rank order, and as long as the
/// list, or of length one where the list is empty.
pub proof fn lemma_queue(requests: Seq<RequestView>)
    ensures
        in_rank_order(queue_of(requests)),
        queue_of(requests).len() == if requests.len() == 0 {
            1
        } else {
            requests.len()
        },
{
    lemma_grouped_sorted(requests);
    lemma_grouped_members(requests);
}

/// The counter of a group goes from request to request: it starts at the
/// base where a group starts, and otherwise holds what the request before
/// left.
pub proof fn lemma_upcoming_step(queue: Seq<RequestView>, base: int, i: int)
    requires
        in_rank_order(queue),
        0 <= i < queue.len(),
        0 <= base < 65536,
    ensures
        upcoming_at(queue, base, i) == if i > 0 && queue[i - 1].kind == queue[i].kind {
            upcoming_after(queue[i - 1].text, queue[i - 1].kind, upcoming_at(queue, base, i - 1))
        } else {
            base
        },
{
    let kind = queue[i].kind;
    let pred = |r: RequestView| r.kind == kind && asks_port(r);
    if i > 0 && queue[i - 1].kind == kind {
        assert(queue.take(i) == queue.take(i - 1).push(queue[i - 1]));
        queue.take(i - 1).lemma_filter_push(queue[i - 1], pred);
    } else {
        assert forall|j: int| 0 <= j < queue.take(i).len() implies !pred(
            #[trigger] queue.take(i)[j],
        ) by {
            if queue[j].kind == kind {
                assert(rank_of(queue[j].kind) <= rank_of(queue[i - 1].kind));
                assert(rank_of(queue[i - 1].kind) <= rank_of(queue[i].kind));
                lemma_rank_injective(queue[i - 1].kind, kind);
            }
        }
        lemma_no_autos(queue.take(i), kind);
    }
}

/// Where no request is of a kind and given a port, there are no such
/// requests.
proof fn lemma_no_autos(s: Seq<RequestView>, kind: SocketKind)
    requires
        forall|j: int| 0 <= j < s.len() ==> !((#[trigger] s[j]).kind == kind && asks_port(s[j])),
    ensures
        autos_of(s, kind).len() == 0,
    decreases s.len(),
{
    reveal(Seq::filter);
    if s.len() > 0 {
        lemma_no_autos(s.drop_last(), kind);
    }
}

/// The requests of a kind that are given a port grow with the list.
proof fn lemma_autos_grow(s: Seq<RequestView>, kind: SocketKind, i: int, j: int)
    requires
        0 <= i <= j <= s.len(),
    ensures
        autos_of(s.take(i), kind).len() <= autos_of(s.take(j), kind).len(),
    decreases j - i,
{
    if i < j {
        lemma_autos_grow(s, kind, i, j - 1);
        assert(s.take(j) == s.take(j - 1).push(s[j - 1]));
        s.take(j - 1).lemma_filter_push(
            s[j - 1],
            |r: RequestView| r.kind == kind && asks_port(r),
        );
    }
}

/// Automatic ports start at the base and rise by one: a request that is
/// given a port gets the base plus the number of such requests before it in
/// its group. So of two such requests of one kind the later gets the higher
/// port, and no two get the same.
pub proof fn lemma_automatic_ports(queue: Seq<RequestView>, base: int, i: int, j: int)
    requires
        0 <= i < j < queue.len(),
        0 <= base < 65536,
        queue[i].kind == queue[j].kind,
        asks_port(queue[i]),
        asks_port(queue[j]),
        target_at(queue, base, i) is Ok,
        target_at(queue, base, j) is Ok,
    ensures
        target_at(queue, base, i)->Ok_0.endpoint.port == base + earlier_autos(queue, i),
        target_at(queue, base, j)->Ok_0.endpoint.port == base + earlier_autos(queue, j),
        earlier_autos(queue, i) < earlier_autos(queue, j),
        target_at(queue, base, i)->Ok_0.endpoint.port < target_at(
            queue,
            base,
            j,
        )->Ok_0.endpoint.port,
{
    let kind = queue[i].kind;
    assert(queue.take(i + 1) == queue.take(i).push(queue[i]));
    queue.take(i).lemma_filter_push(queue[i], |r: RequestView| r.kind == kind && asks_port(r));
    lemma_autos_grow(queue, kind, i + 1, j);
}

/// The first request of a group that is given a port gets the base.
pub proof fn lemma_first_automatic_port(queue: Seq<RequestView>, base: int, i: int)
    requires
        0 <= i < queue.len(),
        0 <= base < 65536,
        asks_port(queue[i]),
        forall|j: int| 0 <= j < i ==> !((#[trigger] queue[j]).kind == queue[i].kind && asks_port(
            queue[j],
        )),
    ensures
        target_at(queue, base, i) is Ok,
        target_at(queue, base, i)->Ok_0.endpoint.port == base,
{
    assert forall|j: int| 0 <= j < queue.take(i).len() implies !((#[trigger] queue.take(
        i,
    )[j]).kind == queue[i].kind && asks_port(queue.take(i)[j])) by {
        assert(queue.take(i)[j] == queue[j]);
    }
    lemma_no_autos(queue.take(i), queue[i].kind);
}

/// A list of requests has one plan.
pub proof fn lemma_one_plan(
    requests: Seq<RequestView>,
    base: int,
    targets: Seq<TargetView>,
    failure: Option<FailureView>,
    other_targets: Seq<TargetView>,
    other_failure: Option<FailureView>,
)
    requires
        is_plan_of(targets, failure, requests, base),
        is_plan_of(other_targets, other_failure, requests, base),
    ensures
        targets == other_targets,
        failure == other_failure,
{
    let queue = queue_of(requests);
    if targets.len() < other_targets.len() {
        assert(target_at(queue, base, targets.len() as int) == Ok::<TargetView, ParseError>(
            other_targets[targets.len() as int],
        ));
    } else if other_targets.len() < targets.len() {
        assert(target_at(queue, base, other_targets.len() as int) == Ok::<
            TargetView,
            ParseError,
        >(targets[other_targets.len() as int]));
    }
    assert(targets =~= other_targets) by {
        assert forall|i: int| 0 <= i < targets.len() implies targets[i] == other_targets[i] by {
            assert(target_at(queue, base, i) == Ok::<TargetView, ParseError>(targets[i]));
            assert(target_at(queue, base, i) == Ok::<TargetView, ParseError>(other_targets[i]));
        }
    }
}

/// The plan of a list of requests: the targets to open, in the order in
/// which they are opened. An empty list stands for one TCP socket on the
/// IPv4 loopback address, at the base port.
pub fn plan(requests: &Vec<Request>, base: u16) -> (p: Plan)
    ensures
        is_plan_of(p@.targets, p@.failure, views(requests@), base as int),
{
    let queue = arrange(requests);
    let ghost q = views(queue@);
    proof {
        lemma_queue(views(requests@));
    }
    let mut targets: Vec<Target> = Vec::new();
    let mut cursor = PortCursor::new(base);
    let mut i: usize = 0;
    while i < queue.len()
        invariant
            i <= queue@.len(),
            q == views(queue@),
            q == queue_of(views(requests@)),
            in_rank_order(q),
            targets@.len() == i,
            forall|j: int|
                0 <= j < i ==> target_at(q, base as int, j) == Ok::<TargetView, ParseError>(
                    (#[trigger] targets@[j])@,
                ),
            i > 0 ==> cursor@ == upcoming_after(
                q[i - 1].text,
                q[i - 1].kind,
                upcoming_at(q, base as int, i - 1),
            ),
        decreases queue.len() - i,
    {
        if i == 0 || !(queue[i - 1].kind == queue[i].kind) {
            cursor = PortCursor::new(base);
        }
        proof {
            lemma_upcoming_step(q, base as int, i as int);
            assert(q[i as int] == queue@[i as int]@);
            if i > 0 {
                assert(q[i - 1] == queue@[i - 1]@);
            }
        }
        let kind = queue[i].kind;
        match parse(queue[i].text.as_str(), kind, &mut cursor) {
            Ok(endpoint) => {
                targets.push(Target { kind, endpoint });
            },
            Err(error) => {
                let failure = Failure::Description { text: queue[i].text.clone(), kind, error };
                proof {
                    assert(target_views(targets@).len() == i);
                    assert forall|j: int| 0 <= j < i implies target_at(q, base as int, j) == Ok::<
                        TargetView,
                        ParseError,
                    >(#[trigger] target_views(targets@)[j]) by {
                        assert(target_views(targets@)[j] == targets@[j]@);
                    }
                }
                return Plan { targets, failure: Some(failure) };
            },
        }
        i = i + 1;
    }
    proof {
        assert forall|j: int| 0 <= j < i implies target_at(q, base as int, j) == Ok::<
            TargetView,
            ParseError,
        >(#[trigger] target_views(targets@)[j]) by {
            assert(target_views(targets@)[j] == targets@[j]@);
        }
    }
    Plan { targets, failure: None }
}

/// A plan, with its targets and its failure by their views.
pub struct PlanView {
    pub targets: Seq<TargetView>,
    pub failure: Option<FailureView>,
}

impl View for Plan {
    type V = PlanView;

    open spec fn view(&self) -> PlanView {
        PlanView {
            targets: target_views(self.targets@),
            failure: match self.failure {
                Some(f) => Some(f@),
                None => None,
            },
        }
    }
}

/// The plan of an empty list is one TCP socket on the IPv4 loopback address,
/// at the base port.
pub proof fn lemma_default_plan(base: int, targets: Seq<TargetView>, failure: Option<FailureView>)
    requires
        0 <= base < 65536,
        is_plan_of(targets, failure, Seq::<RequestView>::empty(), base),
    ensures
        failure is None,
        targets == seq![
            TargetView {
                kind: SocketKind { protocol: Protocol::Tcp, family: Family::V4 },
                endpoint: EndpointView {
                    host: HostView::Ip(IpAddress::V4(127, 0, 0, 1)),
                    port: base as u16,
                },
            },
        ],
{
    reveal(spec_of);
    let queue = queue_of(Seq::<RequestView>::empty());
    assert(queue.take(0) == Seq::<RequestView>::empty());
    lemma_no_autos(queue.take(0), queue[0].kind);
    assert(target_at(queue, base, 0) is Ok);
    assert(targets.len() == 1);
    assert(target_at(queue, base, 0) == Ok::<TargetView, ParseError>(targets[0]));
    assert(targets =~= seq![targets[0]]);
}

/// A plan follows the queue: its targets have the kinds of the queue, place
/// by place, so that no target stands before one of a lower rank; and where
/// every request can be read, there are as many targets as requests, or one
/// where there is no request.
pub proof fn lemma_plan_order(
    requests: Seq<RequestView>,
    base: int,
    targets: Seq<TargetView>,
    failure: Option<FailureView>,
)
    requires
        is_plan_of(targets, failure, requests, base),
    ensures
        forall|i: int|
            0 <= i < targets.len() ==> (#[trigger] targets[i]).kind == queue_of(requests)[i].kind,
        forall|i: int, j: int|
            0 <= i <= j < targets.len() ==> rank_of((#[trigger] targets[i]).kind) <= rank_of(
                (#[trigger] targets[j]).kind,
            ),
        failure is None ==> targets.len() == if requests.len() == 0 {
            1
        } else {
            requests.len()
        },
{
    let queue = queue_of(requests);
    lemma_queue(requests);
    assert forall|i: int| 0 <= i < targets.len() implies (#[trigger] targets[i]).kind
        == queue[i].kind by {
        assert(target_at(queue, base, i) == Ok::<TargetView, ParseError>(targets[i]));
    }
    assert forall|i: int, j: int| 0 <= i <= j < targets.len() implies rank_of(
        (#[trigger] targets[i]).kind,
    ) <= rank_of((#[trigger] targets[j]).kind) by {
        assert(rank_of(queue[i].kind) <= rank_of(queue[j].kind));
    }
}

/// A plan does not depend on how the groups are mixed in the list: two lists
/// with the same groups have the same plan.
pub proof fn lemma_plan_order_free(
    a: Seq<RequestView>,
    b: Seq<RequestView>,
    base: int,
    targets: Seq<TargetView>,
    failure: Option<FailureView>,
    other_targets: Seq<TargetView>,
    other_failure: Option<FailureView>,
)
    requires
        forall|rank: int| 0 <= rank < KINDS ==> of_rank(a, rank) == of_rank(b, rank),
        is_plan_of(targets, failure, a, base),
        is_plan_of(other_targets, other_failure, b, base),
    ensures
        targets == other_targets,
        failure == other_failure,
{
    lemma_grouped_order_free(a, b);
    lemma_grouped_members(a);
    lemma_grouped_members(b);
    assert(queue_of(a) == queue_of(b));
    lemma_one_plan(a, base, targets, failure, other_targets, other_failure);
}

} // verus!
