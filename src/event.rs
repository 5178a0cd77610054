//! Events: a payload recorded in one stream under a version and a sortable id.

use vstd::prelude::*;
use crate::partition::{PartitionKeys, PartitionKeysView};

verus! {

/// What an event of some domain carries.
pub trait EventPayload: Sized {
    /// A copy of the payload.
    fn clone_payload(&self) -> (r: Self)
        ensures
            r == *self,
    ;
}

/// An event as it is stored. Never changed once appended.
#[derive(Debug)]
pub struct EventCommon<E> {
    pub version: i64,
    pub sortable_unique_id: String,
    pub partition_keys: PartitionKeys,
    pub payload: E,
}

/// The mathematical value of an event.
pub struct EventView<E> {
    pub version: int,
    pub sortable_unique_id: Seq<char>,
    pub partition_keys: PartitionKeysView,
    pub payload: E,
}

impl<E> View for EventCommon<E> {
    type V = EventView<E>;

    open spec fn view(&self) -> EventView<E> {
        EventView {
            version: self.version as int,
            sortable_unique_id: self.sortable_unique_id@,
            partition_keys: self.partition_keys@,
            payload: self.payload,
        }
    }
}

/// The values of a sequence of events.
pub open spec fn event_views<E>(events: Seq<EventCommon<E>>) -> Seq<EventView<E>> {
    events.map_values(|e: EventCommon<E>| e@)
}

impl<E: EventPayload> EventCommon<E> {
    /// A copy of the event.
    pub fn clone_event_common(&self) -> (r: EventCommon<E>)
        ensures
            r == *self,
    {
        EventCommon {
            version: self.version,
            sortable_unique_id: self.sortable_unique_id.clone(),
            partition_keys: self.partition_keys.clone(),
            payload: self.payload.clone_payload(),
        }
    }
}

/// Copies of all the events of `events`, in order.
pub fn clone_events<E: EventPayload>(events: &Vec<EventCommon<E>>) -> (r: Vec<EventCommon<E>>)
    ensures
        r@ == events@,
{
    let mut out: Vec<EventCommon<E>> = Vec::new();
    let mut i: usize = 0;
    while i < events.len()
        invariant
            i <= events.len(),
            out@ == events@.take(i as int),
        decreases events.len() - i,
    {
        out.push(events[i].clone_event_common());
        assert(events@.take(i + 1) == events@.take(i as int).push(events@[i as int]));
        i += 1;
    }
    assert(events@.take(events.len() as int) == events@);
    out
}

} // verus!
