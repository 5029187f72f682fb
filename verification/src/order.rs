//! The order in which sockets are opened.
//!
//! Whatever the order of the requests, sockets are opened group by group: raw
//! before TCP before UDP, IPv4 before IPv6 within each, and within a group in
//! the order of the requests.

use crate::kind::{rank_of, Family, Protocol, SocketKind, KINDS};
use crate::parse::{auto_text, read_tag, tag_of};
use crate::text::chars_of;
use vstd::prelude::*;

verus! {

/// A request for one socket: its description, and the kind asked for.
#[derive(Clone, Debug, PartialEq, Eq)]
pub struct Request {
    pub text: String,
    pub kind: SocketKind,
}

/// A request, with the description as a sequence of characters.
pub struct RequestView {
    pub text: Seq<char>,
    pub kind: SocketKind,
}

impl View for Request {
    type V = RequestView;

    open spec fn view(&self) -> RequestView {
        RequestView { text: self.text@, kind: self.kind }
    }
}

impl Request {
    /// A request of the given kind.
    pub fn new(text: &str, kind: SocketKind) -> (r: Request)
        ensures
            r@ == (RequestView { text: text@, kind }),
    {
        Request { text: String::from_str(text), kind }
    }

    /// The request that a description makes which names its kind itself,
    /// such as `udp://:53`: the kind named, and the description behind
    /// `://`. None where the text does not start with the name of a kind
    /// and `://`.
    pub fn from_tagged(text: &str) -> (r: Option<Request>)
        ensures
            r is Some <==> tag_of(text@) is Some,
            r matches Some(request) ==> (tag_of(text@) matches Some((kind, start)) && request@
                == (RequestView { text: text@.skip(start), kind })),
    {
        let s = chars_of(text);
        match read_tag(&s) {
            Some((kind, start)) => {
                proof {
                    assert(text@.skip(start as int) == text@.subrange(
                        start as int,
                        text@.len() as int,
                    ));
                }
                let rest = text.substring_char(start, s.len());
                Some(Request { text: String::from_str(rest), kind })
            },
            None => None,
        }
    }

    /// A second request like this one.
    pub fn duplicate(&self) -> (r: Request)
        ensures
            r@ == self@,
    {
        Request { text: self.text.clone(), kind: self.kind }
    }
}

/// The requests by their views.
pub open spec fn views(requests: Seq<Request>) -> Seq<RequestView> {
    Seq::new(requests.len(), |i: int| requests[i]@)
}

/// The requests of the group with the given rank, in their order.
pub open spec fn of_rank(requests: Seq<RequestView>, rank: int) -> Seq<RequestView> {
    requests.filter(|r: RequestView| rank_of(r.kind) == rank)
}

/// The groups below the given rank, one after the other.
pub open spec fn grouped_upto(requests: Seq<RequestView>, rank: int) -> Seq<RequestView>
    decreases rank,
{
    if rank <= 0 {
        Seq::empty()
    } else {
        grouped_upto(requests, rank - 1) + of_rank(requests, rank - 1)
    }
}

/// The requests group by group.
pub open spec fn grouped(requests: Seq<RequestView>) -> Seq<RequestView> {
    grouped_upto(requests, KINDS as int)
}

/// The request that stands for an empty list: one TCP socket on the IPv4
/// loopback address, with an automatic port.
pub open spec fn default_request() -> RequestView {
    RequestView {
        text: auto_text(),
        kind: SocketKind { protocol: Protocol::Tcp, family: Family::V4 },
    }
}

/// The requests in the order in which they are served: group by group, and
/// the default request where there is none.
pub open spec fn queue_of(requests: Seq<RequestView>) -> Seq<RequestView> {
    if requests.len() == 0 {
        seq![default_request()]
    } else {
        grouped(requests)
    }
}

/// A group gains the request that is added to the list if it is of the
/// group's rank, and nothing else.
pub proof fn lemma_of_rank_push(requests: Seq<RequestView>, r: RequestView, rank: int)
    ensures
        of_rank(requests.push(r), rank) == if rank_of(r.kind) == rank {
            of_rank(requests, rank).push(r)
        } else {
            of_rank(requests, rank)
        },
{
    requests.lemma_filter_push(r, |r: RequestView| rank_of(r.kind) == rank);
}

/// Every request of a group has the group's rank.
pub proof fn lemma_of_rank_members(requests: Seq<RequestView>, rank: int)
    ensures
        forall|i: int|
            0 <= i < of_rank(requests, rank).len() ==> rank_of(
                (#[trigger] of_rank(requests, rank)[i]).kind,
            ) == rank,
{
    let pred = |r: RequestView| rank_of(r.kind) == rank;
    assert forall|i: int| 0 <= i < of_rank(requests, rank).len() implies rank_of(
        (#[trigger] of_rank(requests, rank)[i]).kind,
    ) == rank by {
        requests.lemma_filter_pred(pred, i);
    }
}

/// The requests of the groups below the given rank, in their order.
pub open spec fn below_rank(requests: Seq<RequestView>, rank: int) -> Seq<RequestView> {
    requests.filter(|r: RequestView| rank_of(r.kind) < rank)
}

/// Grouping changes the order of the requests and nothing else: the result
/// has the length of the list and holds each request as often as the list.
pub proof fn lemma_grouped_members(requests: Seq<RequestView>)
    ensures
        grouped(requests).len() == requests.len(),
        grouped(requests).to_multiset() == requests.to_multiset(),
{
    lemma_grouped_upto_members(requests, KINDS as int);
    lemma_below_all(requests);
}

/// Every request is of a rank below the number of kinds.
proof fn lemma_below_all(s: Seq<RequestView>)
    ensures
        below_rank(s, KINDS as int) == s,
    decreases s.len(),
{
    reveal(Seq::filter);
    if s.len() > 0 {
        lemma_below_all(s.drop_last());
        assert(s.drop_last().push(s.last()) == s);
    }
}

/// The requests below a rank and those of the rank are the requests below
/// the next rank.
proof fn lemma_below_step(s: Seq<RequestView>, rank: int)
    ensures
        below_rank(s, rank + 1).len() == below_rank(s, rank).len() + of_rank(s, rank).len(),
        below_rank(s, rank + 1).to_multiset() == below_rank(s, rank).to_multiset().add(
            of_rank(s, rank).to_multiset(),
        ),
    decreases s.len(),
{
    broadcast use vstd::seq_lib::group_to_multiset_ensures;

    reveal(Seq::filter);
    if s.len() > 0 {
        lemma_below_step(s.drop_last(), rank);
    }
    assert(below_rank(s, rank + 1).to_multiset() =~= below_rank(s, rank).to_multiset().add(
        of_rank(s, rank).to_multiset(),
    ));
}

/// The groups below a rank hold the requests below that rank: as many, and
/// each as often.
proof fn lemma_grouped_upto_members(requests: Seq<RequestView>, rank: int)
    requires
        0 <= rank,
    ensures
        grouped_upto(requests, rank).len() == below_rank(requests, rank).len(),
        grouped_upto(requests, rank).to_multiset() == below_rank(requests, rank).to_multiset(),
    decreases rank,
{
    broadcast use vstd::seq_lib::group_to_multiset_ensures;

    if rank == 0 {
        lemma_below_none(requests);
    } else {
        lemma_grouped_upto_members(requests, rank - 1);
        lemma_below_step(requests, rank - 1);
        vstd::seq_lib::lemma_multiset_commutative(
            grouped_upto(requests, rank - 1),
            of_rank(requests, rank - 1),
        );
    }
}

/// No request is of a rank below zero.
proof fn lemma_below_none(s: Seq<RequestView>)
    ensures
        below_rank(s, 0) == Seq::<RequestView>::empty(),
    decreases s.len(),
{
    reveal(Seq::filter);
    if s.len() > 0 {
        lemma_below_none(s.drop_last());
    }
}

/// Among requests that all have another rank, the group of a rank is empty;
/// among requests that all have the rank, it is all of them.
proof fn lemma_of_rank_uniform(s: Seq<RequestView>, of: int, rank: int)
    requires
        forall|i: int| 0 <= i < s.len() ==> rank_of((#[trigger] s[i]).kind) == of,
    ensures
        of_rank(s, rank) == if of == rank {
            s
        } else {
            Seq::<RequestView>::empty()
        },
    decreases s.len(),
{
    reveal(Seq::filter);
    if s.len() > 0 {
        lemma_of_rank_uniform(s.drop_last(), of, rank);
        assert(s.drop_last().push(s.last()) == s);
    }
}

/// Among the groups below a rank, the group of a rank is that group of the
/// list, or empty where the rank is not below.
proof fn lemma_grouped_upto_stable(requests: Seq<RequestView>, upto: int, rank: int)
    requires
        0 <= upto,
        0 <= rank,
    ensures
        of_rank(grouped_upto(requests, upto), rank) == if rank < upto {
            of_rank(requests, rank)
        } else {
            Seq::<RequestView>::empty()
        },
    decreases upto,
{
    let pred = |r: RequestView| rank_of(r.kind) == rank;
    if upto == 0 {
        reveal(Seq::filter);
    } else {
        lemma_grouped_upto_stable(requests, upto - 1, rank);
        lemma_of_rank_members(requests, upto - 1);
        lemma_of_rank_uniform(of_rank(requests, upto - 1), upto - 1, rank);
        Seq::filter_distributes_over_add(
            grouped_upto(requests, upto - 1),
            of_rank(requests, upto - 1),
            pred,
        );
    }
}

/// Grouping keeps the order within each group: each group of the grouped
/// order is that group of the list.
pub proof fn lemma_grouped_stable(requests: Seq<RequestView>, rank: int)
    requires
        0 <= rank < KINDS,
    ensures
        of_rank(grouped(requests), rank) == of_rank(requests, rank),
{
    lemma_grouped_upto_stable(requests, KINDS as int, rank);
}

/// Every request among the groups below a rank has a rank below it.
proof fn lemma_grouped_upto_ranks(requests: Seq<RequestView>, rank: int)
    requires
        0 <= rank,
    ensures
        forall|i: int|
            0 <= i < grouped_upto(requests, rank).len() ==> 0 <= rank_of(
                (#[trigger] grouped_upto(requests, rank)[i]).kind,
            ) < rank,
    decreases rank,
{
    if rank > 0 {
        lemma_grouped_upto_ranks(requests, rank - 1);
        lemma_of_rank_members(requests, rank - 1);
    }
}

/// The groups stand in the order of their ranks.
proof fn lemma_grouped_upto_sorted(requests: Seq<RequestView>, rank: int)
    requires
        0 <= rank,
    ensures
        forall|i: int, j: int|
            0 <= i <= j < grouped_upto(requests, rank).len() ==> rank_of(
                (#[trigger] grouped_upto(requests, rank)[i]).kind,
            ) <= rank_of((#[trigger] grouped_upto(requests, rank)[j]).kind),
    decreases rank,
{
    if rank > 0 {
        lemma_grouped_upto_sorted(requests, rank - 1);
        lemma_grouped_upto_ranks(requests, rank - 1);
        lemma_of_rank_members(requests, rank - 1);
    }
}

/// In the grouped order no request stands before one of a lower rank: raw
/// before TCP before UDP, and IPv4 before IPv6 within each.
pub proof fn lemma_grouped_sorted(requests: Seq<RequestView>)
    ensures
        forall|i: int, j: int|
            0 <= i <= j < grouped(requests).len() ==> rank_of(
                (#[trigger] grouped(requests)[i]).kind,
            ) <= rank_of((#[trigger] grouped(requests)[j]).kind),
{
    lemma_grouped_upto_sorted(requests, KINDS as int);
}

/// The grouped order depends on the order of the requests within each group
/// only: two lists with the same groups are served in the same order.
pub proof fn lemma_grouped_order_free(a: Seq<RequestView>, b: Seq<RequestView>)
    requires
        forall|rank: int| 0 <= rank < KINDS ==> of_rank(a, rank) == of_rank(b, rank),
    ensures
        grouped(a) == grouped(b),
{
    reveal_with_fuel(grouped_upto, 7);
}

/// The requests in the order in which they are served.
pub fn arrange(requests: &Vec<Request>) -> (queue: Vec<Request>)
    ensures
        views(queue@) == queue_of(views(requests@)),
{
    let ghost all = views(requests@);
    let mut queue: Vec<Request> = Vec::new();
    if requests.len() == 0 {
        proof {
            reveal_strlit("auto");
            assert("auto"@ =~= auto_text());
        }
        queue.push(Request::new("auto", SocketKind::new(Protocol::Tcp, Family::V4)));
        assert(views(queue@) =~= seq![default_request()]);
        return queue;
    }
    let mut rank: u8 = 0;
    while rank < KINDS
        invariant
            rank <= KINDS,
            all == views(requests@),
            views(queue@) == grouped_upto(all, rank as int),
        decreases KINDS - rank,
    {
        let ghost before = views(queue@);
        let mut i: usize = 0;
        proof {
            reveal(Seq::filter);
            assert(all.take(0) == Seq::<RequestView>::empty());
            assert(of_rank(all.take(0), rank as int) == Seq::<RequestView>::empty());
            assert(before + Seq::<RequestView>::empty() == before);
        }
        while i < requests.len()
            invariant
                i <= requests@.len(),
                rank < KINDS,
                all == views(requests@),
                before == grouped_upto(all, rank as int),
                views(queue@) == before + of_rank(all.take(i as int), rank as int),
            decreases requests.len() - i,
        {
            let ghost so_far = views(queue@);
            proof {
                assert(all.take(i + 1) == all.take(i as int).push(all[i as int]));
                lemma_of_rank_push(all.take(i as int), all[i as int], rank as int);
            }
            if requests[i].kind.rank() == rank {
                queue.push(requests[i].duplicate());
                proof {
                    assert(views(queue@) == so_far.push(all[i as int]));
                    assert(before + of_rank(all.take(i as int), rank as int).push(all[i as int])
                        == (before + of_rank(all.take(i as int), rank as int)).push(
                        all[i as int],
                    ));
                }
            }
            i = i + 1;
        }
        proof {
            assert(all.take(requests@.len() as int) == all);
        }
        rank = rank + 1;
    }
    queue
}

} // verus!
