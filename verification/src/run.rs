//! Whole runs of the work: what holds after any sequence of events.

use crate::plan::PlanView;
use crate::registry::{
    lemma_descriptors, lemma_ends, lemma_stays_well_formed, reply_of, ActionView, EventView,
    Phase, ProvisionerView,
};
use crate::sock::{lemma_nothing_leaks, Call, Stage};
use vstd::prelude::*;

verus! {

/// The state after a sequence of events.
pub open spec fn state_after(state: ProvisionerView, events: Seq<EventView>) -> ProvisionerView
    decreases events.len(),
{
    if events.len() == 0 {
        state
    } else {
        state_after(state, events.drop_last()).after(events.last()).0
    }
}

/// The descriptors of the sockets that the events report as created, in
/// their order.
pub open spec fn created_during(state: ProvisionerView, events: Seq<EventView>) -> Seq<i32>
    decreases events.len(),
{
    if events.len() == 0 {
        Seq::empty()
    } else {
        let before = state_after(state, events.drop_last());
        match before.created(events.last()) {
            Some(fd) => created_during(state, events.drop_last()).push(fd),
            None => created_during(state, events.drop_last()),
        }
    }
}

/// The descriptors for which a close was called for after one of the
/// events, in the order of the calls.
pub open spec fn closed_during(state: ProvisionerView, events: Seq<EventView>) -> Seq<i32>
    decreases events.len(),
{
    if events.len() == 0 {
        Seq::empty()
    } else {
        let before = state_after(state, events.drop_last());
        match before.after(events.last()).1 {
            ActionView::Call(Call::Close { fd }) => closed_during(state, events.drop_last()).push(
                fd,
            ),
            _ => closed_during(state, events.drop_last()),
        }
    }
}

/// Whether the work can only fail: a socket is being closed, or the work has
/// failed already.
pub open spec fn doomed(state: ProvisionerView) -> bool {
    match state.phase {
        Phase::Opening(opening) => opening.stage is Releasing,
        Phase::Unwinding => true,
        Phase::Failed => true,
        _ => false,
    }
}

/// Every socket is accounted for. After any events, the sockets that were
/// open at first and those created since are the sockets that are open now
/// and those for which a close was called for.
pub proof fn lemma_account(state: ProvisionerView, events: Seq<EventView>)
    requires
        state.wf(),
    ensures
        state_after(state, events).wf(),
        state_after(state, events).plan == state.plan,
        state.descriptors().to_multiset().add(created_during(state, events).to_multiset())
            == state_after(state, events).descriptors().to_multiset().add(
            closed_during(state, events).to_multiset(),
        ),
        closed_during(state, events).len() > 0 || doomed(state) ==> doomed(
            state_after(state, events),
        ),
        closed_during(state, events).len() == 0 ==> state_after(state, events).descriptors()
            == state.descriptors() + created_during(state, events),
    decreases events.len(),
{
    broadcast use vstd::seq_lib::group_to_multiset_ensures;

    if events.len() == 0 {
        assert(state.descriptors().to_multiset().add(Seq::<i32>::empty().to_multiset())
            =~= state.descriptors().to_multiset().add(Seq::<i32>::empty().to_multiset()));
        assert(state.descriptors() + Seq::<i32>::empty() =~= state.descriptors());
    } else {
        let earlier = events.drop_last();
        let event = events.last();
        let before = state_after(state, earlier);
        lemma_account(state, earlier);
        lemma_stays_well_formed(before, event);
        lemma_descriptors(before, event);
        lemma_doom_stays(before, event);
        let (now, action) = before.after(event);
        let open = state.descriptors().to_multiset();
        match action {
            ActionView::Call(Call::Close { fd }) => {
                assert(before.created(event) is None) by {
                    lemma_close_creates_nothing(before, event);
                }
                assert(open.add(created_during(state, events).to_multiset())
                    =~= now.descriptors().to_multiset().add(
                    closed_during(state, events).to_multiset(),
                ));
            },
            _ => {
                match before.created(event) {
                    Some(fd) => {
                        vstd::seq_lib::to_multiset_build(created_during(state, earlier), fd);
                        vstd::seq_lib::to_multiset_build(before.descriptors(), fd);
                        assert(created_during(state, events) == created_during(
                            state,
                            earlier,
                        ).push(fd));
                        assert(closed_during(state, events) == closed_during(state, earlier));
                        assert(now.descriptors() == before.descriptors().push(fd));
                        let made = created_during(state, earlier).to_multiset();
                        let kept = before.descriptors().to_multiset();
                        let shut = closed_during(state, earlier).to_multiset();
                        assert forall|v: i32|
                            open.add(made.insert(fd)).count(v) == kept.insert(fd).add(shut).count(
                                v,
                            ) by {
                            assert(open.add(made).count(v) == kept.add(shut).count(v));
                        }
                        assert(open.add(made.insert(fd)) =~= kept.insert(fd).add(shut));
                        if closed_during(state, events).len() == 0 {
                            assert(now.descriptors() =~= state.descriptors() + created_during(
                                state,
                                events,
                            ));
                        }
                    },
                    None => {},
                }
            },
        }
    }
}

/// An event that reports a socket as created is not followed by a close.
proof fn lemma_close_creates_nothing(state: ProvisionerView, event: EventView)
    requires
        state.wf(),
        state.after(event).1 matches ActionView::Call(Call::Close { .. }),
    ensures
        state.created(event) is None,
{
}

/// Once the work can only fail, it stays so; and a call for a close is
/// made only where it can only fail.
proof fn lemma_doom_stays(state: ProvisionerView, event: EventView)
    requires
        state.wf(),
    ensures
        doomed(state) ==> doomed(state.after(event).0),
        state.after(event).1 matches ActionView::Call(Call::Close { .. }) ==> doomed(
            state.after(event).0,
        ),
        doomed(state.after(event).0) ==> !(state.after(event).0.phase is Finished),
{
    match state.phase {
        Phase::Opening(opening) => {
            lemma_nothing_leaks(opening, reply_of(event));
        },
        _ => {},
    }
}

/// No socket is left open when the work fails. If the work started with no
/// socket open and has failed, then a close was called for on every socket
/// that was created, as often as it was created.
pub proof fn lemma_failed_run_closes_all(state: ProvisionerView, events: Seq<EventView>)
    requires
        state.wf(),
        state.descriptors().len() == 0,
        state_after(state, events).phase is Failed,
    ensures
        created_during(state, events).to_multiset() == closed_during(state, events).to_multiset(),
{
    broadcast use vstd::seq_lib::group_to_multiset_ensures;

    lemma_account(state, events);
    lemma_ends(state_after(state, events));
    let open = state.descriptors().to_multiset();
    let left = state_after(state, events).descriptors().to_multiset();
    assert(state.descriptors() =~= Seq::<i32>::empty());
    assert(state_after(state, events).descriptors() =~= Seq::<i32>::empty());
    assert(open.add(created_during(state, events).to_multiset()) =~= created_during(
        state,
        events,
    ).to_multiset());
    assert(left.add(closed_during(state, events).to_multiset()) =~= closed_during(
        state,
        events,
    ).to_multiset());
}

/// Every socket that was created is handed over when the work finishes. If
/// the work started with no socket open and has finished, then no close was
/// ever called for, and the sockets bound are those that were created, in
/// the order in which they were created.
pub proof fn lemma_finished_run_keeps_all(state: ProvisionerView, events: Seq<EventView>)
    requires
        state.wf(),
        state.descriptors().len() == 0,
        state_after(state, events).phase is Finished,
    ensures
        closed_during(state, events).len() == 0,
        created_during(state, events) == Seq::new(
            state_after(state, events).bound.len(),
            |i: int| state_after(state, events).bound[i].descriptor,
        ),
{
    lemma_account(state, events);
    lemma_ends(state_after(state, events));
    assert(state.descriptors() =~= Seq::<i32>::empty());
    assert(Seq::<i32>::empty() + created_during(state, events) =~= created_during(state, events));
}

/// A bound for the number of events after which the work has ended: ten
/// for each target that is not bound yet, less those that the current
/// target has taken already, and one for each socket that may have to be
/// closed.
pub open spec fn events_left(state: ProvisionerView) -> nat {
    let waiting = 10 * (state.plan.targets.len() - state.bound.len()) + state.bound.len();
    match state.phase {
        Phase::Finished => 0,
        Phase::Failed => 0,
        Phase::Unwinding => state.bound.len() + 1,
        Phase::Resolving => (waiting + 8) as nat,
        Phase::Opening(opening) => (waiting + match opening.stage {
            Stage::Creating => 7int,
            Stage::Configuring { .. } => 6int,
            Stage::Binding { .. } => 5int,
            Stage::Listening { .. } => 4int,
            _ => 2int,
        }) as nat,
        Phase::Querying { .. } => (waiting + 3) as nat,
    }
}

/// The bound is zero exactly when the work has finished or failed.
pub proof fn lemma_ended(state: ProvisionerView)
    requires
        state.wf(),
    ensures
        events_left(state) == 0 <==> state.phase is Finished || state.phase is Failed,
{
}

/// The work comes nearer to its end with every event, and stays as it is
/// once it has ended.
pub proof fn lemma_progress(state: ProvisionerView, event: EventView)
    requires
        state.wf(),
    ensures
        events_left(state) > 0 ==> events_left(state.after(event).0) < events_left(state),
        events_left(state) == 0 ==> state.after(event).0 == state,
{
    match state.phase {
        Phase::Opening(opening) => {
            lemma_nothing_leaks(opening, reply_of(event));
        },
        _ => {},
    }
}

/// The work ends. After as many events as the bound says, whatever they are,
/// the work has finished or failed, and further events change nothing.
pub proof fn lemma_ends_in_time(state: ProvisionerView, events: Seq<EventView>)
    requires
        state.wf(),
    ensures
        events_left(state_after(state, events)) + events.len() <= events_left(state)
            || events_left(state_after(state, events)) == 0,
        events.len() >= events_left(state) ==> state_after(state, events).phase is Finished
            || state_after(state, events).phase is Failed,
    decreases events.len(),
{
    if events.len() > 0 {
        let earlier = events.drop_last();
        lemma_ends_in_time(state, earlier);
        lemma_account(state, earlier);
        lemma_progress(state_after(state, earlier), events.last());
    }
    lemma_account(state, events);
    lemma_ended(state_after(state, events));
}

/// The work on a plan ends after ten events for each target, and eight
/// more, at the latest.
pub proof fn lemma_bound_at_start(plan: PlanView)
    ensures
        events_left(ProvisionerView::start(plan).proceed().0) <= 10 * plan.targets.len() + 8,
{
}

} // verus!
