//! The command pipeline: load a stream's aggregate, let a handler emit
//! events against a context that re-projects after each one, then append the
//! batch under the version that was loaded.

use vstd::prelude::*;
use crate::aggregate::{
    empty_aggregate, lemma_project_events_keeps_keys, project_events, project_one, Aggregate, AggregatePayload, AggregateProjector, AggregateView,
};
use crate::error::EventSourcingError;
use crate::event::{clone_events, event_views, EventCommon, EventPayload, EventView};
use crate::partition::{PartitionKeys, PartitionKeysView};
use crate::repository::{
    lemma_stream_version_concat, loaded_aggregate, partition_events, sort_by_id, stream_version,
    batch_continues, ids_follow, ids_strictly_ascending, lemma_ids_follow_append,
    lemma_loaded_last_id, lemma_no_partition_events, lemma_loaded_version_is_stream_version,
    lemma_stream_version_bounded_store, streams_in_id_order, Repository,
};
use crate::digits::{lemma_lex_lt_transitive, lex_lt};
use crate::sortable_id::{is_sortable_id_text, malformed_last_id, SortableUniqueIdValue};

verus! {

/// A request to change one aggregate.
pub trait Command {

}

/// The payloads of a sequence of events, in order.
pub open spec fn payloads<E>(evs: Seq<EventView<E>>) -> Seq<E> {
    evs.map_values(|e: EventView<E>| e.payload)
}

/// The payload of `o` as a sequence of none or one.
pub open spec fn option_seq<E>(o: Option<E>) -> Seq<E> {
    match o {
        Some(x) => seq![x],
        None => Seq::empty(),
    }
}

/// A command that knows its stream and how to handle itself.
pub trait CommandWithHandler<E: EventPayload, S: AggregatePayload, P: AggregateProjector<E, S>>: Command {
    /// Whether `pk` is a stream that the command may address.
    spec fn addresses(&self, pk: PartitionKeysView) -> bool;

    /// Whether `batch` (the payloads emitted through the context, then the
    /// one returned) is what the command does to an aggregate at `before`.
    spec fn handled(&self, before: AggregateView<S>, batch: Seq<E>) -> bool;

    /// The stream that the command addresses.
    fn get_partition_keys(&self) -> (r: PartitionKeys)
        ensures
            self.addresses(r@),
    ;

    /// Emits events through `context` (each is projected at once), and
    /// returns the last event to emit, if any.
    fn command_handler(&self, context: &mut CommandContext<E, S, P>) -> (r: Option<E>)
        requires
            old(context).wf(),
        ensures
            final(context).wf(),
            final(context).loaded_view() == old(context).loaded_view(),
            final(context).projector_spec() == old(context).projector_spec(),
            old(context).events_view().len() <= final(context).events_view().len(),
            final(context).events_view().take(old(context).events_view().len() as int)
                == old(context).events_view(),
            self.handled(
                old(context).aggregate_view(),
                payloads(final(context).events_view().skip(old(context).events_view().len() as int))
                    + option_seq(r),
            ),
    ;
}

proof fn lemma_ids_follow_push<E>(
    last: Seq<char>,
    evs: Seq<EventView<E>>,
    current_last: Seq<char>,
    ev: EventView<E>,
)
    requires
        ids_follow(last, evs),
        evs.len() == 0 ==> current_last == last,
        evs.len() > 0 ==> current_last == evs.last().sortable_unique_id,
        lex_lt(current_last, ev.sortable_unique_id),
    ensures
        ids_follow(last, evs.push(ev)),
{
    let all = evs.push(ev);
    if evs.len() > 0 {
        assert(evs.last() == evs[evs.len() - 1]);
        lemma_lex_lt_transitive(last, current_last, ev.sortable_unique_id);
    }
    assert forall|i: int, j: int| 0 <= i < j < all.len() implies lex_lt(
        all[i].sortable_unique_id,
        all[j].sortable_unique_id,
    ) by {
        assert(all[i] == evs[i]);
        if j < evs.len() {
            assert(all[j] == evs[j]);
        } else if i < evs.len() - 1 {
            lemma_lex_lt_transitive(evs[i].sortable_unique_id, current_last, ev.sortable_unique_id);
        }
    }
    assert forall|i: int| 0 <= i < all.len() implies lex_lt(last, #[trigger] all[i].sortable_unique_id) by {
        if i < evs.len() {
            assert(all[i] == evs[i]);
        }
    }
}

/// A handler that leaves its context alone emits only what it returns.
pub proof fn lemma_nothing_emitted<E>(evs: Seq<EventView<E>>, last: Option<E>)
    ensures
        evs.take(evs.len() as int) == evs,
        payloads(evs.skip(evs.len() as int)) + option_seq(last) == option_seq(last),
{
    assert(evs.take(evs.len() as int) =~= evs);
    assert(payloads(evs.skip(evs.len() as int)) =~= Seq::<E>::empty());
    assert(Seq::<E>::empty() + option_seq(last) =~= option_seq(last));
}

/// Where a command's batch on the aggregate `a` would take the stream past
/// the largest version.
pub open spec fn batch_overflows<E: EventPayload, S: AggregatePayload, P: AggregateProjector<E, S>, C: CommandWithHandler<E, S, P>>(
    c: C,
    a: AggregateView<S>,
) -> bool {
    exists|batch: Seq<E>| c.handled(a, batch) && a.version + batch.len() > i64::MAX
}

/// Why handling `c` against `store` may fail: the clock is out of range, or,
/// for a stream the command addresses, its batch would pass the largest
/// version, or the stream's last id is malformed.
pub open spec fn handle_may_fail<E: EventPayload, S: AggregatePayload, P: AggregateProjector<E, S>, C: CommandWithHandler<E, S, P>>(
    c: C,
    p: P,
    store: Seq<EventView<E>>,
    e: EventSourcingError,
) -> bool {
    ||| e == EventSourcingError::ClockOutOfRange
    ||| exists|pk: PartitionKeysView|
        #[trigger] c.addresses(pk) && {
            ||| (e == EventSourcingError::StorageUnavailable && batch_overflows(
                c,
                loaded_aggregate(p, store, pk),
            ))
            ||| (e == EventSourcingError::MalformedSortableId && malformed_last_id(
                loaded_aggregate(p, store, pk).last_sortable_unique_id,
            ))
        }
}

/// The events of a batch that continues a stream: consecutive versions after
/// `loaded_version`, all in the stream `pk`, each with a well-formed id.
pub open spec fn continues_stream<E>(
    events: Seq<EventView<E>>,
    pk: PartitionKeysView,
    loaded_version: int,
) -> bool {
    forall|i: int|
        0 <= i < events.len() ==> {
            &&& (#[trigger] events[i]).version == loaded_version + i + 1
            &&& events[i].partition_keys == pk
            &&& is_sortable_id_text(events[i].sortable_unique_id)
        }
}

/// What a handler works against: the aggregate that was loaded, the events
/// emitted so far, and the aggregate with those events projected.
pub struct CommandContext<E, S, P> {
    loaded: Aggregate<S>,
    events: Vec<EventCommon<E>>,
    aggregate: Aggregate<S>,
    projector: P,
}

impl<E, S, P> CommandContext<E, S, P> {
    /// The aggregate that the command started from.
    pub closed spec fn loaded_view(&self) -> AggregateView<S> {
        self.loaded@
    }

    /// The events emitted so far.
    pub closed spec fn events_view(&self) -> Seq<EventView<E>> {
        event_views(self.events@)
    }

    /// The aggregate with the emitted events projected.
    pub closed spec fn aggregate_view(&self) -> AggregateView<S> {
        self.aggregate@
    }

    /// The projector in use.
    pub closed spec fn projector_spec(&self) -> P {
        self.projector
    }
}

impl<E: EventPayload, S: AggregatePayload, P: AggregateProjector<E, S>> CommandContext<E, S, P> {
    /// The emitted events continue the loaded stream, and the current
    /// aggregate is the loaded one with them projected.
    pub open spec fn wf(&self) -> bool {
        &&& continues_stream(
            self.events_view(),
            self.loaded_view().partition_keys,
            self.loaded_view().version,
        )
        &&& self.aggregate_view() == project_events(
            self.projector_spec(),
            self.loaded_view(),
            self.events_view(),
        )
        &&& self.aggregate_view().version == self.loaded_view().version + self.events_view().len()
        &&& ids_follow(self.loaded_view().last_sortable_unique_id, self.events_view())
    }

    /// A context for a command that starts from `aggregate`.
    pub fn new(aggregate: Aggregate<S>, projector: P) -> (r: Self)
        ensures
            r.wf(),
            r.loaded_view() == aggregate@,
            r.aggregate_view() == aggregate@,
            r.events_view() == Seq::<EventView<E>>::empty(),
            r.projector_spec() == projector,
    {
        let current = aggregate.clone();
        let r = CommandContext { loaded: aggregate, events: Vec::new(), aggregate: current, projector };
        assert(r.events_view() =~= Seq::<EventView<E>>::empty());
        r
    }

    /// The events emitted so far.
    pub fn get_events(&self) -> (r: &Vec<EventCommon<E>>)
        ensures
            event_views(r@) == self.events_view(),
    {
        &self.events
    }

    /// The aggregate with the emitted events projected.
    pub fn get_current_aggregate(&self) -> (r: Aggregate<S>)
        ensures
            r@ == self.aggregate_view(),
    {
        self.aggregate.clone()
    }

    /// Emits an event with `event_payload` under the next version and a fresh
    /// sortable id, and projects it onto the current aggregate.
    pub fn save_event(&mut self, event_payload: E) -> (r: Result<(), EventSourcingError>)
        requires
            old(self).wf(),
        ensures
            final(self).wf(),
            final(self).loaded_view() == old(self).loaded_view(),
            final(self).projector_spec() == old(self).projector_spec(),
            match r {
                Ok(_) => {
                    &&& final(self).events_view().len() == old(self).events_view().len() + 1
                    &&& final(self).events_view().drop_last() == old(self).events_view()
                    &&& final(self).events_view().last().payload == event_payload
                    &&& lex_lt(
                        old(self).aggregate_view().last_sortable_unique_id,
                        final(self).events_view().last().sortable_unique_id,
                    )
                    &&& final(self).aggregate_view() == project_one(
                        old(self).projector_spec(),
                        old(self).aggregate_view(),
                        final(self).events_view().last(),
                    )
                },
                Err(e) => {
                    &&& final(self).events_view() == old(self).events_view()
                    &&& final(self).aggregate_view() == old(self).aggregate_view()
                    &&& (e == EventSourcingError::StorageUnavailable <==> old(self).aggregate_view().version == i64::MAX)
                    &&& (e == EventSourcingError::ClockOutOfRange || e
                        == EventSourcingError::StorageUnavailable || (e
                        == EventSourcingError::MalformedSortableId && malformed_last_id(
                        old(self).aggregate_view().last_sortable_unique_id,
                    )))
                },
            },
            old(self).aggregate_view().version == i64::MAX ==> r == Err::<(), EventSourcingError>(
                EventSourcingError::StorageUnavailable,
            ),
    {
        let ghost before = self.events_view();
        let event = match self.next_event(event_payload) {
            Ok(ev) => ev,
            Err(e) => {
                return Err(e);
            },
        };
        proof {
            if before.len() > 0 {
                assert(before.last() == before[before.len() - 1]);
            }
            lemma_ids_follow_push(
                self.loaded_view().last_sortable_unique_id,
                before,
                self.aggregate_view().last_sortable_unique_id,
                event@,
            );
        }
        let next = self.aggregate.project(&event, &self.projector);
        self.aggregate = next;
        let ghost ev = event@;
        self.events.push(event);
        proof {
            assert(self.events_view() =~= before.push(ev));
            assert(self.events_view().drop_last() =~= before);
            assert(self.events_view().last() == ev);
            assert forall|i: int| 0 <= i < self.events_view().len() implies {
                &&& (#[trigger] self.events_view()[i]).version == self.loaded_view().version + i + 1
                &&& self.events_view()[i].partition_keys == self.loaded_view().partition_keys
                &&& is_sortable_id_text(self.events_view()[i].sortable_unique_id)
            } by {
                if i < before.len() {
                    assert(self.events_view()[i] == before[i]);
                }
            }
        }
        Ok(())
    }

    /// The event that would come next with `event_payload`.
    fn next_event(&self, event_payload: E) -> (r: Result<EventCommon<E>, EventSourcingError>)
        requires
            self.wf(),
        ensures
            match r {
                Ok(ev) => {
                    &&& ev.payload == event_payload
                    &&& ev@.version == self.aggregate_view().version + 1
                    &&& ev@.partition_keys == self.loaded_view().partition_keys
                    &&& is_sortable_id_text(ev@.sortable_unique_id)
                    &&& lex_lt(self.aggregate_view().last_sortable_unique_id, ev@.sortable_unique_id)
                    &&& self.aggregate_view().version != i64::MAX
                },
                Err(e) => {
                    &&& (e == EventSourcingError::StorageUnavailable <==> self.aggregate_view().version == i64::MAX)
                    &&& (e == EventSourcingError::ClockOutOfRange || e
                        == EventSourcingError::StorageUnavailable || (e
                        == EventSourcingError::MalformedSortableId && malformed_last_id(
                        self.aggregate_view().last_sortable_unique_id,
                    )))
                },
            },
    {
        if self.aggregate.version == i64::MAX {
            return Err(EventSourcingError::StorageUnavailable);
        }
        let id = match SortableUniqueIdValue::generate_after(self.aggregate.last_sortable_unique_id.as_str()) {
            Ok(id) => id,
            Err(e) => {
                return Err(e);
            },
        };
        Ok(
            EventCommon {
                version: self.aggregate.version + 1,
                sortable_unique_id: id.0,
                partition_keys: self.loaded.partition_keys.clone(),
                payload: event_payload,
            },
        )
    }

    /// Closes the context: the emitted events, then the handler's last event if
    /// it returned one, become the batch to append.
    pub fn into_pending(self, last: Option<E>) -> (r: Result<PendingCommand<E>, EventSourcingError>)
        requires
            self.wf(),
        ensures
            match r {
                Ok(pc) => {
                    &&& pc.wf()
                    &&& pc.partition_keys@ == self.loaded_view().partition_keys
                    &&& pc.loaded_version == self.loaded_view().version
                    &&& match last {
                        None => event_views(pc.events@) == self.events_view(),
                        Some(p) => {
                            &&& event_views(pc.events@).len() == self.events_view().len() + 1
                            &&& event_views(pc.events@).drop_last() == self.events_view()
                            &&& event_views(pc.events@).last().payload == p
                        },
                    }
                    &&& payloads(event_views(pc.events@)) == payloads(self.events_view()) + option_seq(last)
                    &&& ids_follow(self.loaded_view().last_sortable_unique_id, event_views(pc.events@))
                },
                Err(e) => {
                    &&& last is Some
                    &&& (e == EventSourcingError::ClockOutOfRange || (e
                        == EventSourcingError::StorageUnavailable
                        && self.aggregate_view().version == i64::MAX) || (e
                        == EventSourcingError::MalformedSortableId && malformed_last_id(
                        self.aggregate_view().last_sortable_unique_id,
                    )))
                },
            },
    {
        let mut ctx = self;
        let ghost before = ctx.events_view();
        let mut version = ctx.aggregate.version;
        match last {
            None => {},
            Some(payload) => {
                let event = match ctx.next_event(payload) {
                    Ok(ev) => ev,
                    Err(e) => {
                        return Err(e);
                    },
                };
                version = event.version;
                proof {
                    lemma_ids_follow_push(
                        ctx.loaded_view().last_sortable_unique_id,
                        before,
                        ctx.aggregate_view().last_sortable_unique_id,
                        event@,
                    );
                }
                let ghost ev = event@;
                ctx.events.push(event);
                assert(ctx.events_view() =~= before.push(ev));
                assert(ctx.events_view().drop_last() =~= before);
                assert(ctx.events_view().last() == ev);
                assert forall|i: int| 0 <= i < ctx.events_view().len() implies {
                    &&& (#[trigger] ctx.events_view()[i]).version == ctx.loaded_view().version + i + 1
                    &&& ctx.events_view()[i].partition_keys == ctx.loaded_view().partition_keys
                    &&& is_sortable_id_text(ctx.events_view()[i].sortable_unique_id)
                } by {
                    if i < before.len() {
                        assert(ctx.events_view()[i] == before[i]);
                    }
                }
            },
        }
        assert(payloads(ctx.events_view()) =~= payloads(before) + option_seq(last));
        Ok(
            PendingCommand {
                partition_keys: ctx.loaded.partition_keys,
                loaded_version: ctx.loaded.version,
                events: ctx.events,
                version,
            },
        )
    }
}

/// A handled command whose events are not yet appended.
pub struct PendingCommand<E> {
    pub partition_keys: PartitionKeys,
    pub loaded_version: i64,
    pub events: Vec<EventCommon<E>>,
    pub version: i64,
}

impl<E> PendingCommand<E> {
    /// The events continue the stream from the loaded version, and `version`
    /// is the version after the last of them.
    pub open spec fn wf(&self) -> bool {
        &&& self.version == self.loaded_version + self.events@.len()
        &&& continues_stream(event_views(self.events@), self.partition_keys@, self.loaded_version as int)
        &&& ids_strictly_ascending(event_views(self.events@))
    }
}

/// The reply to a command that was appended.
#[derive(Debug)]
pub struct CommandResponse<E> {
    pub partition_keys: PartitionKeys,
    pub events: Vec<EventCommon<E>>,
    pub version: i64,
}

/// Runs commands against a store.
pub struct CommandExecutor<E> {
    pub repository: Repository<E>,
}

impl<E: EventPayload> CommandExecutor<E> {
    /// An executor over an empty store.
    pub fn new() -> (r: Self)
        ensures
            r.repository@ == Seq::<EventView<E>>::empty(),
            r.repository.wf(),
    {
        CommandExecutor { repository: Repository::new() }
    }

    /// Loads the command's stream and lets the command handle itself; nothing
    /// is appended yet. The batch is the payloads that the handler emitted
    /// through the context, then the one it returned.
    pub fn handle<S: AggregatePayload, P: AggregateProjector<E, S>, C: CommandWithHandler<E, S, P>>(
        &self,
        command: &C,
        projector: &P,
    ) -> (r: Result<PendingCommand<E>, EventSourcingError>)
        ensures
            match r {
                Ok(pc) => {
                    &&& pc.wf()
                    &&& command.addresses(pc.partition_keys@)
                    &&& pc.loaded_version == loaded_aggregate(
                        *projector,
                        self.repository@,
                        pc.partition_keys@,
                    ).version
                    &&& command.handled(
                        loaded_aggregate(*projector, self.repository@, pc.partition_keys@),
                        payloads(event_views(pc.events@)),
                    )
                    &&& ids_follow(
                        loaded_aggregate(*projector, self.repository@, pc.partition_keys@).last_sortable_unique_id,
                        event_views(pc.events@),
                    )
                },
                Err(e) => handle_may_fail(*command, *projector, self.repository@, e),
            },
    {
        let partition_keys = command.get_partition_keys();
        let aggregate: Aggregate<S> = self.repository.load(&partition_keys, projector);
        let ghost pk = partition_keys@;
        let ghost loaded = aggregate@;
        proof {
            lemma_project_events_keeps_keys(
                *projector,
                empty_aggregate::<S>(partition_keys@),
                sort_by_id(partition_events(self.repository@, partition_keys@)),
            );
        }
        let mut context = CommandContext::new(aggregate, projector.clone_box());
        let last = command.command_handler(&mut context);
        let ghost emitted = context.events_view();
        let ghost current = context.aggregate_view();
        proof {
            assert(emitted.skip(0) =~= emitted);
        }
        let r = context.into_pending(last);
        proof {
            if r is Err {
                let e = r->Err_0;
                if e == EventSourcingError::StorageUnavailable {
                    let batch = payloads(emitted) + option_seq(last);
                    assert(command.handled(loaded, batch));
                    assert(batch_overflows(*command, loaded));
                    assert(command.addresses(pk));
                } else if e == EventSourcingError::MalformedSortableId {
                    if emitted.len() > 0 {
                        assert(current.last_sortable_unique_id == emitted.last().sortable_unique_id);
                        assert(emitted.last() == emitted[emitted.len() - 1]);
                    }
                    assert(command.addresses(pk));
                }
            }
        }
        r
    }

    /// Appends a handled command's events, provided the stream is still at
    /// the version the command loaded; otherwise nothing is appended and the
    /// conflict is reported, for the caller to retry.
    pub fn commit(&mut self, pending: PendingCommand<E>) -> (r: Result<CommandResponse<E>, EventSourcingError>)
        requires
            old(self).repository.wf(),
            pending.wf(),
        ensures
            final(self).repository.wf(),
            r is Ok <==> stream_version(old(self).repository@, pending.partition_keys@)
                == pending.loaded_version,
            match r {
                Ok(resp) => {
                    &&& final(self).repository@ == old(self).repository@ + event_views(pending.events@)
                    &&& event_views(resp.events@) == event_views(pending.events@)
                    &&& resp.partition_keys@ == pending.partition_keys@
                    &&& resp.version == pending.version
                },
                Err(e) => {
                    &&& final(self).repository@ == old(self).repository@
                    &&& e == EventSourcingError::VersionConflict {
                        expected: pending.loaded_version,
                        actual: stream_version(
                            old(self).repository@,
                            pending.partition_keys@,
                        ) as i64,
                    }
                },
            },
    {
        let tail = self.repository.current_version(&pending.partition_keys);
        proof {
            lemma_stream_version_bounded_store(&self.repository);
        }
        if pending.loaded_version < 0 || tail as u64 != pending.loaded_version as u64 {
            return Err(
                EventSourcingError::VersionConflict {
                    expected: pending.loaded_version,
                    actual: tail as i64,
                },
            );
        }
        let events = clone_events(&pending.events);
        proof {
            lemma_batch_continues(
                self.repository@,
                event_views(pending.events@),
                pending.partition_keys@,
                pending.loaded_version as int,
            );
        }
        let saved = self.repository.save_events(pending.events);
        assert(saved is Ok);
        Ok(CommandResponse { partition_keys: pending.partition_keys, events, version: pending.version })
    }

    /// Runs a command: load, handle, and append under the loaded version.
    /// It fails only where handling fails (the clock, a version past `i64`,
    /// a malformed last id) or where the stream's loaded version is not its
    /// stored version, which cannot happen while every stream's ids follow
    /// its versions.
    pub fn execute<S: AggregatePayload, P: AggregateProjector<E, S>, C: CommandWithHandler<E, S, P>>(
        &mut self,
        command: &C,
        projector: &P,
    ) -> (r: Result<CommandResponse<E>, EventSourcingError>)
        requires
            old(self).repository.wf(),
        ensures
            final(self).repository.wf(),
            match r {
                Ok(resp) => {
                    &&& command.addresses(resp.partition_keys@)
                    &&& final(self).repository@ == old(self).repository@ + event_views(resp.events@)
                    &&& command.handled(
                        loaded_aggregate(*projector, old(self).repository@, resp.partition_keys@),
                        payloads(event_views(resp.events@)),
                    )
                    &&& resp.version == loaded_aggregate(
                        *projector,
                        old(self).repository@,
                        resp.partition_keys@,
                    ).version + resp.events@.len()
                    &&& continues_stream(
                        event_views(resp.events@),
                        resp.partition_keys@,
                        loaded_aggregate(*projector, old(self).repository@, resp.partition_keys@).version,
                    )
                    &&& streams_in_id_order(old(self).repository@) ==> {
                        &&& streams_in_id_order(final(self).repository@)
                        &&& loaded_aggregate(
                            *projector,
                            final(self).repository@,
                            resp.partition_keys@,
                        ).version == resp.version
                    }
                },
                Err(e) => {
                    &&& final(self).repository@ == old(self).repository@
                    &&& (handle_may_fail(*command, *projector, old(self).repository@, e)
                        || exists|pk: PartitionKeysView|
                        #[trigger] command.addresses(pk) && e == EventSourcingError::VersionConflict {
                            expected: loaded_aggregate(*projector, old(self).repository@, pk).version as i64,
                            actual: stream_version(old(self).repository@, pk) as i64,
                        } && loaded_aggregate(*projector, old(self).repository@, pk).version
                            != stream_version(old(self).repository@, pk))
                    &&& e is VersionConflict ==> !streams_in_id_order(old(self).repository@)
                },
            },
    {
        let pending = match self.handle(command, projector) {
            Ok(pc) => pc,
            Err(e) => {
                return Err(e);
            },
        };
        let ghost pk = pending.partition_keys@;
        proof {
            if streams_in_id_order(self.repository@) {
                assert(ids_strictly_ascending(partition_events(self.repository@, pk)));
                lemma_loaded_version_is_stream_version(*projector, self.repository@, pk);
            }
            lemma_stream_version_bounded_store(&self.repository);
        }
        let ghost old_store = self.repository@;
        let ghost batch = event_views(pending.events@);
        let ghost loaded = loaded_aggregate(*projector, old_store, pk);
        let r = self.commit(pending);
        proof {
            if r is Err {
                assert(command.addresses(pk));
            } else if streams_in_id_order(old_store) {
                lemma_all_in_stream_of(batch, pk, loaded.version);
                assert forall|q: PartitionKeysView| ids_strictly_ascending(
                    #[trigger] partition_events(self.repository@, q),
                ) by {
                    lemma_stream_version_concat(old_store, batch, q);
                    assert(ids_strictly_ascending(partition_events(old_store, q)));
                    if q == pk {
                        lemma_loaded_last_id(*projector, old_store, pk);
                        lemma_ids_follow_append(partition_events(old_store, pk), batch);
                    } else {
                        assert forall|i: int| 0 <= i < batch.len() implies (#[trigger] batch[i]).partition_keys != q by {}
                        lemma_no_partition_events(batch, q);
                        assert(partition_events(old_store, q) + Seq::<EventView<E>>::empty()
                            =~= partition_events(old_store, q));
                    }
                }
                lemma_loaded_version_is_stream_version(*projector, self.repository@, pk);
                lemma_stream_version_concat(old_store, batch, pk);
            }
        }
        r
    }
}

proof fn lemma_batch_continues<E>(
    store: Seq<EventView<E>>,
    batch: Seq<EventView<E>>,
    pk: PartitionKeysView,
    loaded: int,
)
    requires
        stream_version(store, pk) == loaded,
        continues_stream(batch, pk, loaded),
    ensures
        batch_continues(store, batch),
{
    assert forall|i: int| 0 <= i < batch.len() implies #[trigger] batch[i].version == stream_version(
        store + batch.take(i),
        batch[i].partition_keys,
    ) + 1 by {
        lemma_stream_version_concat(store, batch.take(i), pk);
        lemma_all_in_stream(batch.take(i), pk);
    }
}

proof fn lemma_all_in_stream_of<E>(batch: Seq<EventView<E>>, pk: PartitionKeysView, loaded: int)
    requires
        continues_stream(batch, pk, loaded),
    ensures
        partition_events(batch, pk) == batch,
        stream_version(batch, pk) == batch.len(),
{
    assert forall|i: int| 0 <= i < batch.len() implies (#[trigger] batch[i]).partition_keys == pk by {}
    lemma_all_in_stream(batch, pk);
}

proof fn lemma_all_in_stream<E>(batch: Seq<EventView<E>>, pk: PartitionKeysView)
    requires
        forall|i: int| 0 <= i < batch.len() ==> (#[trigger] batch[i]).partition_keys == pk,
    ensures
        partition_events(batch, pk) == batch,
        stream_version(batch, pk) == batch.len(),
    decreases batch.len(),
{
    if batch.len() > 0 {
        assert forall|i: int| 0 <= i < batch.drop_last().len() implies (#[trigger] batch.drop_last()[i]).partition_keys == pk by {
            assert(batch.drop_last()[i] == batch[i]);
        }
        lemma_all_in_stream(batch.drop_last(), pk);
        assert(batch.last() == batch[batch.len() - 1]);
        assert(batch.drop_last().push(batch.last()) =~= batch);
    }
}

} // verus!
