//! Aggregates: the state of one stream, folded from its events by a projector.

use vstd::prelude::*;
use crate::event::{event_views, EventCommon, EventView};
use crate::partition::{PartitionKeys, PartitionKeysView};

verus! {

/// The state of an aggregate of some domain.
pub trait AggregatePayload: Sized {
    /// The state before any event.
    spec fn spec_empty() -> Self;

    /// The state before any event.
    fn empty() -> (r: Self)
        ensures
            r == Self::spec_empty(),
    ;

    /// A copy of the state.
    fn clone_payload(&self) -> (r: Self)
        ensures
            r == *self,
    ;
}

/// The state of an aggregate that no event has touched.
#[derive(Clone, Copy, Debug, PartialEq, Eq, Structural)]
pub struct EmptyAggregatePayload {}

/// A pure, total transition from a state and an event to the next state.
pub trait AggregateProjector<E, S>: Sized {
    /// The state after `event` is applied to `state`.
    spec fn transition(&self, state: S, event: EventView<E>) -> S;

    /// The label of the projection logic's version.
    spec fn schema_version(&self) -> Seq<char>;

    /// The state after `ev` is applied to `payload`.
    fn project(&self, payload: &S, ev: &EventCommon<E>) -> (r: S)
        ensures
            r == self.transition(*payload, ev@),
    ;

    /// The label of the projection logic's version, for caches of projections.
    fn get_version(&self) -> (r: &'static str)
        ensures
            r@ == self.schema_version(),
    ;

    /// A copy of the projector.
    fn clone_box(&self) -> (r: Self)
        ensures
            r == *self,
    ;
}

/// The current state of one stream.
#[derive(Debug)]
pub struct Aggregate<S> {
    pub payload: S,
    pub partition_keys: PartitionKeys,
    pub version: i64,
    pub last_sortable_unique_id: String,
}

/// The mathematical value of an aggregate.
pub struct AggregateView<S> {
    pub payload: S,
    pub partition_keys: PartitionKeysView,
    pub version: int,
    pub last_sortable_unique_id: Seq<char>,
}

impl<S> View for Aggregate<S> {
    type V = AggregateView<S>;

    open spec fn view(&self) -> AggregateView<S> {
        AggregateView {
            payload: self.payload,
            partition_keys: self.partition_keys@,
            version: self.version as int,
            last_sortable_unique_id: self.last_sortable_unique_id@,
        }
    }
}

/// The aggregate of a stream without events: the empty state at version 0.
pub open spec fn empty_aggregate<S: AggregatePayload>(pk: PartitionKeysView) -> AggregateView<S> {
    AggregateView {
        payload: S::spec_empty(),
        partition_keys: pk,
        version: 0,
        last_sortable_unique_id: Seq::empty(),
    }
}

/// The aggregate after one more event: the projector's next state, and the
/// event's version and id.
pub open spec fn project_one<E, S, P: AggregateProjector<E, S>>(
    p: P,
    a: AggregateView<S>,
    ev: EventView<E>,
) -> AggregateView<S> {
    AggregateView {
        payload: p.transition(a.payload, ev),
        partition_keys: a.partition_keys,
        version: ev.version,
        last_sortable_unique_id: ev.sortable_unique_id,
    }
}

/// The aggregate after the events `evs`, applied one by one in order.
pub open spec fn project_events<E, S, P: AggregateProjector<E, S>>(
    p: P,
    a: AggregateView<S>,
    evs: Seq<EventView<E>>,
) -> AggregateView<S>
    decreases evs.len(),
{
    if evs.len() == 0 {
        a
    } else {
        project_one(p, project_events(p, a, evs.drop_last()), evs.last())
    }
}

/// Replaying a sequence of events in two parts, the second from the state
/// that the first left, gives the same aggregate as replaying it whole; so
/// replay is deterministic and can resume from any point.
pub proof fn lemma_replay_in_parts<E, S, P: AggregateProjector<E, S>>(
    p: P,
    a: AggregateView<S>,
    s1: Seq<EventView<E>>,
    s2: Seq<EventView<E>>,
)
    ensures
        project_events(p, a, s1 + s2) == project_events(p, project_events(p, a, s1), s2),
    decreases s2.len(),
{
    if s2.len() == 0 {
        assert(s1 + s2 =~= s1);
    } else {
        assert((s1 + s2).drop_last() =~= s1 + s2.drop_last());
        lemma_replay_in_parts(p, a, s1, s2.drop_last());
    }
}

/// Projection never changes an aggregate's partition keys.
pub proof fn lemma_project_events_keeps_keys<E, S, P: AggregateProjector<E, S>>(
    p: P,
    a: AggregateView<S>,
    evs: Seq<EventView<E>>,
)
    ensures
        project_events(p, a, evs).partition_keys == a.partition_keys,
    decreases evs.len(),
{
    if evs.len() > 0 {
        lemma_project_events_keeps_keys(p, a, evs.drop_last());
    }
}

impl<S: AggregatePayload> Aggregate<S> {
    /// The aggregate of a stream without events.
    pub fn empty_from_partition_keys(partition_keys: PartitionKeys) -> (r: Self)
        ensures
            r@ == empty_aggregate::<S>(partition_keys@),
    {
        Aggregate {
            payload: S::empty(),
            partition_keys,
            version: 0,
            last_sortable_unique_id: String::new(),
        }
    }

    /// The aggregate after `ev`.
    pub fn project<E, P: AggregateProjector<E, S>>(&self, ev: &EventCommon<E>, projector: &P) -> (r: Self)
        ensures
            r@ == project_one(*projector, self@, ev@),
    {
        Aggregate {
            payload: projector.project(&self.payload, ev),
            partition_keys: self.partition_keys.clone(),
            version: ev.version,
            last_sortable_unique_id: ev.sortable_unique_id.clone(),
        }
    }

    /// The aggregate after all of `events`, in order.
    pub fn project_all<E, P: AggregateProjector<E, S>>(
        &self,
        events: &[EventCommon<E>],
        projector: &P,
    ) -> (r: Self)
        ensures
            r@ == project_events(*projector, self@, event_views(events@)),
    {
        let mut acc = self.clone();
        let mut i: usize = 0;
        while i < events.len()
            invariant
                i <= events.len(),
                acc@ == project_events(*projector, self@, event_views(events@.take(i as int))),
            decreases events.len() - i,
        {
            proof {
                let next = events@.take(i + 1);
                assert(event_views(next).drop_last() =~= event_views(events@.take(i as int)));
                assert(event_views(next).last() == events@[i as int]@);
            }
            acc = acc.project(&events[i], projector);
            i += 1;
        }
        assert(events@.take(events.len() as int) =~= events@);
        acc
    }
}

impl<S: AggregatePayload> Clone for Aggregate<S> {
    fn clone(&self) -> (r: Self)
        ensures
            r == *self,
    {
        Aggregate {
            payload: self.payload.clone_payload(),
            partition_keys: self.partition_keys.clone(),
            version: self.version,
            last_sortable_unique_id: self.last_sortable_unique_id.clone(),
        }
    }
}

} // verus!
