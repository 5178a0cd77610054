//! The partitioned, append-only event store.

use vstd::prelude::*;
use crate::aggregate::{
    empty_aggregate, project_events, Aggregate, AggregatePayload, AggregateProjector,
    AggregateView,
};
use crate::digits::{
    lemma_lex_lt_asymmetric, lemma_lex_lt_irreflexive, lemma_lex_lt_total,
    lemma_lex_lt_transitive, lex_le, lex_lt,
};
use crate::error::EventSourcingError;
use crate::event::{event_views, EventCommon, EventPayload, EventView};
use crate::partition::{PartitionKeys, PartitionKeysView};
use crate::sortable_id::text_less_than;

verus! {

/// The stream version that a writer of an event with version `v` expects:
/// one less, or `i64::MIN` where there is none.
pub open spec fn version_before(v: i64) -> i64 {
    if v == i64::MIN {
        i64::MIN
    } else {
        (v - 1) as i64
    }
}

/// The events of `evs` that belong to the stream `pk`, in order.
pub open spec fn partition_events<E>(evs: Seq<EventView<E>>, pk: PartitionKeysView) -> Seq<
    EventView<E>,
>
    decreases evs.len(),
{
    if evs.len() == 0 {
        Seq::empty()
    } else {
        let rest = partition_events(evs.drop_last(), pk);
        if evs.last().partition_keys == pk {
            rest.push(evs.last())
        } else {
            rest
        }
    }
}

/// The version of the stream `pk` in `evs`: how many of its events there are.
pub open spec fn stream_version<E>(evs: Seq<EventView<E>>, pk: PartitionKeysView) -> nat {
    partition_events(evs, pk).len()
}

/// Each event's version is one more than the number of earlier events of its
/// stream: per stream the versions run 1, 2, 3, ... in append order.
pub open spec fn versions_gapless<E>(evs: Seq<EventView<E>>) -> bool {
    forall|i: int|
        0 <= i < evs.len() ==> #[trigger] evs[i].version == stream_version(
            evs.take(i),
            evs[i].partition_keys,
        ) + 1
}

/// Appending `batch` to `store` keeps every stream's versions gapless.
pub open spec fn batch_continues<E>(store: Seq<EventView<E>>, batch: Seq<EventView<E>>) -> bool {
    forall|i: int|
        0 <= i < batch.len() ==> #[trigger] batch[i].version == stream_version(
            store + batch.take(i),
            batch[i].partition_keys,
        ) + 1
}

/// The event at `i` is the first of `batch` whose version is not the next
/// of its stream.
pub open spec fn first_out_of_turn<E>(store: Seq<EventView<E>>, batch: Seq<EventView<E>>, i: int) -> bool {
    &&& batch[i].version != stream_version(store + batch.take(i), batch[i].partition_keys) + 1
    &&& forall|k: int|
        0 <= k < i ==> #[trigger] batch[k].version == stream_version(
            store + batch.take(k),
            batch[k].partition_keys,
        ) + 1
}

/// The conflict reported for the event at `i` of `batch`: the version its
/// writer expected, and its stream's version at that place (at most the
/// largest `i64`).
pub open spec fn batch_conflict<E>(store: Seq<EventView<E>>, batch: Seq<EventView<E>>, i: int) -> EventSourcingError {
    let actual = stream_version(store + batch.take(i), batch[i].partition_keys);
    EventSourcingError::VersionConflict {
        expected: version_before(batch[i].version as i64),
        actual: if actual > i64::MAX { i64::MAX } else { actual as i64 },
    }
}

/// `e` put into `sorted` after every event whose id is not greater than its own.
pub open spec fn insert_by_id<E>(sorted: Seq<EventView<E>>, e: EventView<E>) -> Seq<EventView<E>>
    decreases sorted.len(),
{
    if sorted.len() == 0 {
        seq![e]
    } else if lex_lt(e.sortable_unique_id, sorted[0].sortable_unique_id) {
        seq![e] + sorted
    } else {
        seq![sorted[0]] + insert_by_id(sorted.drop_first(), e)
    }
}

/// `evs` sorted by sortable id, ascending; events with equal ids keep their order.
pub open spec fn sort_by_id<E>(evs: Seq<EventView<E>>) -> Seq<EventView<E>>
    decreases evs.len(),
{
    if evs.len() == 0 {
        Seq::empty()
    } else {
        insert_by_id(sort_by_id(evs.drop_last()), evs.last())
    }
}

/// What `load` returns: the stream's events sorted by id, folded from the
/// empty aggregate.
pub open spec fn loaded_aggregate<E, S: AggregatePayload, P: AggregateProjector<E, S>>(
    p: P,
    store: Seq<EventView<E>>,
    pk: PartitionKeysView,
) -> AggregateView<S> {
    project_events(p, empty_aggregate::<S>(pk), sort_by_id(partition_events(store, pk)))
}

pub proof fn lemma_stream_version_concat<E>(
    a: Seq<EventView<E>>,
    b: Seq<EventView<E>>,
    pk: PartitionKeysView,
)
    ensures
        partition_events(a + b, pk) == partition_events(a, pk) + partition_events(b, pk),
        stream_version(a + b, pk) == stream_version(a, pk) + stream_version(b, pk),
    decreases b.len(),
{
    if b.len() == 0 {
        assert(a + b =~= a);
        assert(partition_events(a, pk) + partition_events(b, pk) =~= partition_events(a, pk));
    } else {
        assert((a + b).drop_last() =~= a + b.drop_last());
        lemma_stream_version_concat(a, b.drop_last(), pk);
        let pa = partition_events(a, pk);
        let pb = partition_events(b.drop_last(), pk);
        if b.last().partition_keys == pk {
            assert(pa + pb.push(b.last()) =~= (pa + pb).push(b.last()));
        }
    }
}

proof fn lemma_gapless_prefix<E>(evs: Seq<EventView<E>>, n: int)
    requires
        versions_gapless(evs),
        0 <= n <= evs.len(),
    ensures
        versions_gapless(evs.take(n)),
{
    assert forall|i: int| 0 <= i < evs.take(n).len() implies #[trigger] evs.take(n)[i].version
        == stream_version(evs.take(n).take(i), evs.take(n)[i].partition_keys) + 1 by {
        assert(evs.take(n).take(i) =~= evs.take(i));
        assert(evs.take(n)[i] == evs[i]);
    }
}

/// In a store whose versions are gapless, every stream's version fits in `i64`.
pub proof fn lemma_stream_version_bounded<E>(evs: Seq<EventView<E>>, pk: PartitionKeysView)
    requires
        versions_gapless(evs),
        forall|i: int| 0 <= i < evs.len() ==> #[trigger] evs[i].version <= i64::MAX,
    ensures
        stream_version(evs, pk) <= i64::MAX,
    decreases evs.len(),
{
    if evs.len() > 0 {
        let n = evs.len() - 1;
        assert(evs.take(n) =~= evs.drop_last());
        lemma_gapless_prefix(evs, n);
        assert forall|i: int| 0 <= i < evs.drop_last().len() implies #[trigger] evs.drop_last()[i].version
            <= i64::MAX by {
            assert(evs.drop_last()[i] == evs[i]);
        }
        lemma_stream_version_bounded(evs.drop_last(), pk);
        assert(evs[n].version == stream_version(evs.take(n), evs[n].partition_keys) + 1);
    }
}

proof fn lemma_gapless_append<E>(store: Seq<EventView<E>>, batch: Seq<EventView<E>>)
    requires
        versions_gapless(store),
        batch_continues(store, batch),
    ensures
        versions_gapless(store + batch),
{
    let all = store + batch;
    assert forall|i: int| 0 <= i < all.len() implies #[trigger] all[i].version == stream_version(
        all.take(i),
        all[i].partition_keys,
    ) + 1 by {
        if i < store.len() {
            assert(all.take(i) =~= store.take(i));
            assert(all[i] == store[i]);
        } else {
            let j = i - store.len();
            assert(all.take(i) =~= store + batch.take(j));
            assert(all[i] == batch[j]);
        }
    }
}

/// Where `pos` is the first place whose id is greater than `e`'s, inserting
/// `e` there is what `insert_by_id` does.
proof fn lemma_insert_by_id_at<E>(sorted: Seq<EventView<E>>, e: EventView<E>, pos: int)
    requires
        0 <= pos <= sorted.len(),
        forall|j: int| 0 <= j < pos ==> !lex_lt(e.sortable_unique_id, #[trigger] sorted[j].sortable_unique_id),
        pos < sorted.len() ==> lex_lt(e.sortable_unique_id, sorted[pos].sortable_unique_id),
    ensures
        insert_by_id(sorted, e) == sorted.insert(pos, e),
    decreases sorted.len(),
{
    if sorted.len() == 0 {
        assert(sorted.insert(pos, e) =~= seq![e]);
    } else if pos == 0 {
        assert(sorted.insert(pos, e) =~= seq![e] + sorted);
    } else {
        let rest = sorted.drop_first();
        assert forall|j: int| 0 <= j < pos - 1 implies !lex_lt(e.sortable_unique_id, #[trigger] rest[j].sortable_unique_id) by {
            assert(rest[j] == sorted[j + 1]);
        }
        assert(!lex_lt(e.sortable_unique_id, sorted[0].sortable_unique_id));
        if pos < sorted.len() {
            assert(rest[pos - 1] == sorted[pos]);
        }
        lemma_insert_by_id_at(rest, e, pos - 1);
        assert(sorted.insert(pos, e) =~= seq![sorted[0]] + rest.insert(pos - 1, e));
    }
}

/// No two events of `s` share a sortable id.
pub open spec fn distinct_ids<E>(s: Seq<EventView<E>>) -> bool {
    forall|i: int, j: int|
        0 <= i < s.len() && 0 <= j < s.len() && i != j ==> s[i].sortable_unique_id
            != s[j].sortable_unique_id
}

/// The ids of `s` never decrease.
pub open spec fn ids_ascending<E>(s: Seq<EventView<E>>) -> bool {
    forall|i: int, j: int|
        0 <= i < j < s.len() ==> lex_le(s[i].sortable_unique_id, s[j].sortable_unique_id)
}

/// The ids of `s` increase strictly.
pub open spec fn ids_strictly_ascending<E>(s: Seq<EventView<E>>) -> bool {
    forall|i: int, j: int|
        0 <= i < j < s.len() ==> lex_lt(s[i].sortable_unique_id, s[j].sortable_unique_id)
}

/// The ids of `evs` increase strictly and all come after `last`.
pub open spec fn ids_follow<E>(last: Seq<char>, evs: Seq<EventView<E>>) -> bool {
    &&& ids_strictly_ascending(evs)
    &&& forall|i: int| 0 <= i < evs.len() ==> lex_lt(last, #[trigger] evs[i].sortable_unique_id)
}

/// Appending to a stream whose ids are in order events whose ids follow its
/// last id keeps it in order.
pub proof fn lemma_ids_follow_append<E>(pe: Seq<EventView<E>>, batch: Seq<EventView<E>>)
    requires
        ids_strictly_ascending(pe),
        pe.len() > 0 ==> ids_follow(pe.last().sortable_unique_id, batch),
        pe.len() == 0 ==> ids_strictly_ascending(batch),
    ensures
        ids_strictly_ascending(pe + batch),
{
    let all = pe + batch;
    assert forall|i: int, j: int| 0 <= i < j < all.len() implies lex_lt(
        all[i].sortable_unique_id,
        all[j].sortable_unique_id,
    ) by {
        if j < pe.len() {
            assert(all[i] == pe[i] && all[j] == pe[j]);
        } else if i >= pe.len() {
            assert(all[i] == batch[i - pe.len()] && all[j] == batch[j - pe.len()]);
        } else {
            assert(all[i] == pe[i] && all[j] == batch[j - pe.len()]);
            assert(pe.last() == pe[pe.len() - 1]);
            assert(lex_lt(pe.last().sortable_unique_id, batch[j - pe.len()].sortable_unique_id));
            if i < pe.len() - 1 {
                lemma_lex_lt_transitive(
                    pe[i].sortable_unique_id,
                    pe.last().sortable_unique_id,
                    batch[j - pe.len()].sortable_unique_id,
                );
            }
        }
    }
}

/// Where `insert_by_id` puts `e` in `t`: before the first greater id.
pub open spec fn insert_pos<E>(t: Seq<EventView<E>>, e: EventView<E>) -> int
    decreases t.len(),
{
    if t.len() == 0 {
        0
    } else if lex_lt(e.sortable_unique_id, t[0].sortable_unique_id) {
        0
    } else {
        1 + insert_pos(t.drop_first(), e)
    }
}

proof fn lemma_insert_pos<E>(t: Seq<EventView<E>>, e: EventView<E>)
    ensures
        0 <= insert_pos(t, e) <= t.len(),
        insert_by_id(t, e) == t.insert(insert_pos(t, e), e),
        forall|j: int| 0 <= j < insert_pos(t, e) ==> !lex_lt(e.sortable_unique_id, #[trigger] t[j].sortable_unique_id),
        insert_pos(t, e) < t.len() ==> lex_lt(e.sortable_unique_id, t[insert_pos(t, e)].sortable_unique_id),
    decreases t.len(),
{
    if t.len() == 0 {
        assert(t.insert(0, e) =~= seq![e]);
    } else if lex_lt(e.sortable_unique_id, t[0].sortable_unique_id) {
        assert(t.insert(0, e) =~= seq![e] + t);
    } else {
        let rest = t.drop_first();
        lemma_insert_pos(rest, e);
        let p = insert_pos(rest, e);
        assert(t.insert(p + 1, e) =~= seq![t[0]] + rest.insert(p, e));
        assert forall|j: int| 0 <= j < p + 1 implies !lex_lt(e.sortable_unique_id, #[trigger] t[j].sortable_unique_id) by {
            if j > 0 {
                assert(t[j] == rest[j - 1]);
            }
        }
        if p < rest.len() {
            assert(t[p + 1] == rest[p]);
        }
    }
}

proof fn lemma_le_lt_transitive(a: Seq<char>, b: Seq<char>, c: Seq<char>)
    ensures
        lex_le(a, b) && lex_lt(b, c) ==> lex_lt(a, c),
        lex_lt(a, b) && lex_le(b, c) ==> lex_lt(a, c),
        lex_le(a, b) && lex_le(b, c) ==> lex_le(a, c),
{
    if lex_lt(a, b) && lex_lt(b, c) {
        lemma_lex_lt_transitive(a, b, c);
    }
}

/// Sorting keeps exactly the events it was given.
proof fn lemma_sort_by_id_multiset<E>(s: Seq<EventView<E>>)
    ensures
        sort_by_id(s).to_multiset() == s.to_multiset(),
        sort_by_id(s).len() == s.len(),
    decreases s.len(),
{
    broadcast use vstd::seq_lib::group_to_multiset_ensures;

    if s.len() > 0 {
        lemma_sort_by_id_multiset(s.drop_last());
        let t = sort_by_id(s.drop_last());
        lemma_insert_pos(t, s.last());
        vstd::seq_lib::to_multiset_insert(t, insert_pos(t, s.last()), s.last());
        assert(s.drop_last().push(s.last()) =~= s);
    }
}

/// Inserting keeps ids ascending.
proof fn lemma_insert_by_id_ascending<E>(t: Seq<EventView<E>>, e: EventView<E>)
    requires
        ids_ascending(t),
    ensures
        ids_ascending(insert_by_id(t, e)),
{
    lemma_insert_pos(t, e);
    let p = insert_pos(t, e);
    let r = t.insert(p, e);
    assert forall|i: int, j: int| 0 <= i < j < r.len() implies lex_le(
        r[i].sortable_unique_id,
        r[j].sortable_unique_id,
    ) by {
        if i < p {
            if t[i].sortable_unique_id != e.sortable_unique_id {
                lemma_lex_lt_total(t[i].sortable_unique_id, e.sortable_unique_id);
            }
            if j > p {
                lemma_le_lt_transitive(t[i].sortable_unique_id, e.sortable_unique_id, t[j - 1].sortable_unique_id);
                assert(lex_le(t[i].sortable_unique_id, t[j - 1].sortable_unique_id));
            }
        } else if i == p {
            assert(lex_lt(e.sortable_unique_id, t[p].sortable_unique_id));
            if j - 1 > p {
                lemma_le_lt_transitive(e.sortable_unique_id, t[p].sortable_unique_id, t[j - 1].sortable_unique_id);
            }
        } else {
            assert(lex_le(t[i - 1].sortable_unique_id, t[j - 1].sortable_unique_id));
        }
    }
}

/// Inserting an event whose id is new keeps ids strictly ascending.
proof fn lemma_insert_by_id_strict<E>(t: Seq<EventView<E>>, e: EventView<E>)
    requires
        ids_strictly_ascending(t),
        forall|k: int| 0 <= k < t.len() ==> (#[trigger] t[k]).sortable_unique_id != e.sortable_unique_id,
    ensures
        ids_strictly_ascending(insert_by_id(t, e)),
{
    lemma_insert_pos(t, e);
    let p = insert_pos(t, e);
    let r = t.insert(p, e);
    assert forall|i: int, j: int| 0 <= i < j < r.len() implies lex_lt(
        r[i].sortable_unique_id,
        r[j].sortable_unique_id,
    ) by {
        let ei = e.sortable_unique_id;
        if j > p && j - 1 > p {
            assert(lex_lt(t[p].sortable_unique_id, t[j - 1].sortable_unique_id));
            lemma_lex_lt_transitive(ei, t[p].sortable_unique_id, t[j - 1].sortable_unique_id);
        }
        if i < p {
            assert(r[i] == t[i]);
            lemma_lex_lt_total(t[i].sortable_unique_id, ei);
            if j < p {
                assert(r[j] == t[j]);
            } else if j > p {
                assert(r[j] == t[j - 1]);
                lemma_lex_lt_transitive(t[i].sortable_unique_id, ei, t[j - 1].sortable_unique_id);
            }
        } else if i == p {
            assert(r[j] == t[j - 1]);
        } else {
            assert(r[i] == t[i - 1] && r[j] == t[j - 1]);
        }
    }
}

/// Sorting always leaves ids ascending.
proof fn lemma_sort_by_id_ascending<E>(s: Seq<EventView<E>>)
    ensures
        ids_ascending(sort_by_id(s)),
    decreases s.len(),
{
    if s.len() > 0 {
        lemma_sort_by_id_ascending(s.drop_last());
        lemma_insert_by_id_ascending(sort_by_id(s.drop_last()), s.last());
    }
}

/// Sorting events with distinct ids leaves their ids strictly ascending.
proof fn lemma_sort_by_id_strict<E>(s: Seq<EventView<E>>)
    requires
        distinct_ids(s),
    ensures
        ids_strictly_ascending(sort_by_id(s)),
    decreases s.len(),
{
    broadcast use vstd::seq_lib::group_to_multiset_ensures;

    if s.len() > 0 {
        let d = s.drop_last();
        let e = s.last();
        assert forall|i: int, j: int| 0 <= i < d.len() && 0 <= j < d.len() && i != j implies d[i].sortable_unique_id
            != d[j].sortable_unique_id by {
            assert(d[i] == s[i] && d[j] == s[j]);
        }
        lemma_sort_by_id_strict(d);
        lemma_sort_by_id_multiset(d);
        let t = sort_by_id(d);
        assert forall|k: int| 0 <= k < t.len() implies (#[trigger] t[k]).sortable_unique_id != e.sortable_unique_id by {
            assert(t.to_multiset().count(t[k]) > 0);
            assert(d.to_multiset().count(t[k]) > 0);
            assert(d.contains(t[k]));
            let j = choose|j: int| 0 <= j < d.len() && d[j] == t[k];
            assert(s[j] == t[k]);
            assert(s[s.len() - 1] == e);
        }
        lemma_insert_by_id_strict(t, e);
    }
}

/// A sequence with strictly ascending ids and one with ascending ids that
/// hold the same events are the same sequence.
proof fn lemma_sorted_same_events<E>(x: Seq<EventView<E>>, y: Seq<EventView<E>>)
    requires
        ids_strictly_ascending(x),
        ids_ascending(y),
        x.to_multiset() == y.to_multiset(),
    ensures
        x == y,
    decreases x.len(),
{
    broadcast use vstd::seq_lib::group_to_multiset_ensures;
    broadcast use vstd::multiset::group_multiset_axioms;

    if x.len() == 0 {
        vstd::seq_lib::to_multiset_len(x);
        vstd::seq_lib::to_multiset_len(y);
        assert(y.len() == 0);
        assert(x =~= y);
    } else {
        vstd::seq_lib::to_multiset_len(x);
        vstd::seq_lib::to_multiset_len(y);
        assert(y.len() == x.len());
        assert(x.to_multiset().count(y[0]) > 0);
        assert(x.contains(y[0]));
        let i = choose|i: int| 0 <= i < x.len() && x[i] == y[0];
        assert(y.to_multiset().count(x[0]) > 0);
        assert(y.contains(x[0]));
        let j = choose|j: int| 0 <= j < y.len() && y[j] == x[0];
        if i > 0 {
            assert(lex_lt(x[0].sortable_unique_id, y[0].sortable_unique_id));
            if j > 0 {
                assert(lex_le(y[0].sortable_unique_id, x[0].sortable_unique_id));
            }
            lemma_lex_lt_irreflexive(x[0].sortable_unique_id);
            lemma_lex_lt_asymmetric(x[0].sortable_unique_id, y[0].sortable_unique_id);
            assert(false);
        }
        assert(x[0] == y[0]);
        assert(x.remove(0) =~= x.drop_first());
        assert(y.remove(0) =~= y.drop_first());
        assert(x.drop_first().to_multiset() == y.drop_first().to_multiset());
        lemma_sorted_same_events(x.drop_first(), y.drop_first());
        assert(x =~= seq![x[0]] + x.drop_first());
        assert(y =~= seq![y[0]] + y.drop_first());
    }
}

/// Whatever order a stream's events were appended in, `load` folds them in
/// the order of their sortable ids: two stores holding the same events of a
/// stream, appended in different orders, load the same aggregate, provided
/// no two of those events share an id.
pub proof fn lemma_load_ignores_append_order<E, S: AggregatePayload, P: AggregateProjector<E, S>>(
    p: P,
    s1: Seq<EventView<E>>,
    s2: Seq<EventView<E>>,
    pk: PartitionKeysView,
)
    requires
        partition_events(s1, pk).to_multiset() == partition_events(s2, pk).to_multiset(),
        distinct_ids(partition_events(s1, pk)),
    ensures
        sort_by_id(partition_events(s1, pk)) == sort_by_id(partition_events(s2, pk)),
        loaded_aggregate(p, s1, pk) == loaded_aggregate(p, s2, pk),
{
    let e1 = partition_events(s1, pk);
    let e2 = partition_events(s2, pk);
    lemma_sort_by_id_strict(e1);
    lemma_sort_by_id_ascending(e2);
    lemma_sort_by_id_multiset(e1);
    lemma_sort_by_id_multiset(e2);
    lemma_sorted_same_events(sort_by_id(e1), sort_by_id(e2));
}

/// In every stream of `store`, ids increase strictly in append order, so
/// append order, version order and projection order agree.
pub open spec fn streams_in_id_order<E>(store: Seq<EventView<E>>) -> bool {
    forall|pk: PartitionKeysView| ids_strictly_ascending(#[trigger] partition_events(store, pk))
}

proof fn lemma_partition_versions<E>(s: Seq<EventView<E>>, pk: PartitionKeysView)
    requires
        versions_gapless(s),
    ensures
        forall|k: int|
            0 <= k < partition_events(s, pk).len() ==> (#[trigger] partition_events(s, pk)[k]).version
                == k + 1,
    decreases s.len(),
{
    if s.len() > 0 {
        let n = s.len() - 1;
        assert(s.take(n) =~= s.drop_last());
        lemma_gapless_prefix(s, n);
        lemma_partition_versions(s.drop_last(), pk);
        assert(s[n] == s.last());
        let rest = partition_events(s.drop_last(), pk);
        assert(s[n].version == stream_version(s.take(n), s[n].partition_keys) + 1);
        assert forall|k: int| 0 <= k < partition_events(s, pk).len() implies (#[trigger] partition_events(s, pk)[k]).version
            == k + 1 by {
            if k < rest.len() {
                assert(partition_events(s, pk)[k] == rest[k]);
            }
        }
    }
}

proof fn lemma_sort_keeps_sorted<E>(x: Seq<EventView<E>>)
    requires
        ids_strictly_ascending(x),
    ensures
        sort_by_id(x) == x,
{
    lemma_sort_by_id_ascending(x);
    lemma_sort_by_id_multiset(x);
    lemma_sorted_same_events(x, sort_by_id(x));
}

/// Where a stream's ids increase with its versions, the loaded aggregate is
/// at the stream's version: `load` sees every event that was appended to it.
pub proof fn lemma_loaded_version_is_stream_version<
    E,
    S: AggregatePayload,
    P: AggregateProjector<E, S>,
>(p: P, store: Seq<EventView<E>>, pk: PartitionKeysView)
    requires
        versions_gapless(store),
        ids_strictly_ascending(partition_events(store, pk)),
    ensures
        loaded_aggregate(p, store, pk).version == stream_version(store, pk),
{
    let pe = partition_events(store, pk);
    lemma_sort_keeps_sorted(pe);
    lemma_partition_versions(store, pk);
    if pe.len() > 0 {
        assert(pe.last() == pe[pe.len() - 1]);
    }
}

/// Where a stream's ids are in order, the loaded aggregate's last id is its
/// last event's id, or empty where it has none.
pub proof fn lemma_loaded_last_id<E, S: AggregatePayload, P: AggregateProjector<E, S>>(
    p: P,
    store: Seq<EventView<E>>,
    pk: PartitionKeysView,
)
    requires
        ids_strictly_ascending(partition_events(store, pk)),
    ensures
        partition_events(store, pk).len() > 0 ==> loaded_aggregate(p, store, pk).last_sortable_unique_id
            == partition_events(store, pk).last().sortable_unique_id,
        partition_events(store, pk).len() == 0 ==> loaded_aggregate(p, store, pk).last_sortable_unique_id
            == Seq::<char>::empty(),
{
    lemma_sort_keeps_sorted(partition_events(store, pk));
}

/// The store: every event of every stream, in append order.
pub struct Repository<E> {
    events: Vec<EventCommon<E>>,
}

impl<E> View for Repository<E> {
    type V = Seq<EventView<E>>;

    closed spec fn view(&self) -> Seq<EventView<E>> {
        event_views(self.events@)
    }
}

impl<E: EventPayload> Repository<E> {
    /// Every stream's versions are gapless.
    pub open spec fn wf(&self) -> bool {
        versions_gapless(self@)
    }

    /// An empty store.
    pub fn new() -> (r: Self)
        ensures
            r@ == Seq::<EventView<E>>::empty(),
            r.wf(),
    {
        let r = Repository { events: Vec::new() };
        assert(r@ =~= Seq::<EventView<E>>::empty());
        r
    }

    /// How many events the store holds.
    pub fn len(&self) -> (r: usize)
        ensures
            r == self@.len(),
    {
        self.events.len()
    }

    /// The version of the stream `partition_keys`: how many events it has.
    pub fn current_version(&self, partition_keys: &PartitionKeys) -> (r: usize)
        ensures
            r == stream_version(self@, partition_keys@),
    {
        assert(self.events@.take(self.events.len() as int) =~= self.events@);
        count_stream(&self.events, self.events.len(), partition_keys)
    }

    /// Appends a batch of events all at once, provided each one's version is
    /// the next of its stream at its place in the batch; otherwise nothing is
    /// appended and the conflict is reported.
    pub fn save_events(&mut self, new_events: Vec<EventCommon<E>>) -> (r: Result<(), EventSourcingError>)
        requires
            old(self).wf(),
        ensures
            final(self).wf(),
            r is Ok <==> batch_continues(old(self)@, event_views(new_events@)),
            r is Ok ==> final(self)@ == old(self)@ + event_views(new_events@),
            match r {
                Ok(_) => true,
                Err(e) => final(self)@ == old(self)@ && exists|i: int|
                    0 <= i < new_events@.len() && first_out_of_turn(
                        old(self)@,
                        event_views(new_events@),
                        i,
                    ) && e == #[trigger] batch_conflict(old(self)@, event_views(new_events@), i),
            },
    {
        let ghost store = self@;
        let ghost batch = event_views(new_events@);
        proof {
            lemma_stream_version_bounded_store(self);
        }
        let mut i: usize = 0;
        while i < new_events.len()
            invariant
                i <= new_events.len(),
                store == self@,
                versions_gapless(store),
                batch == event_views(new_events@),
                forall|pk: PartitionKeysView| stream_version(store, pk) <= i64::MAX,
                forall|k: int|
                    0 <= k < i ==> #[trigger] batch[k].version == stream_version(
                        store + batch.take(k),
                        batch[k].partition_keys,
                    ) + 1,
            decreases new_events.len() - i,
        {
            let ev = &new_events[i];
            let in_store = self.current_version(&ev.partition_keys);
            let in_batch = count_stream(&new_events, i, &ev.partition_keys);
            proof {
                assert(batch.take(i as int) =~= event_views(new_events@.take(i as int)));
                lemma_stream_version_concat(store, batch.take(i as int), ev.partition_keys@);
                assert(batch[i as int] == ev@);
            }
            if ev.version < 1 || (ev.version - 1) as u128 != in_store as u128 + in_batch as u128 {
                let actual = in_store as u128 + in_batch as u128;
                assert(first_out_of_turn(store, batch, i as int));
                assert(!batch_continues(store, batch)) by {
                    assert(batch[i as int].version != stream_version(
                        store + batch.take(i as int),
                        batch[i as int].partition_keys,
                    ) + 1);
                }
                let conflict = EventSourcingError::VersionConflict {
                    expected: if ev.version == i64::MIN {
                        i64::MIN
                    } else {
                        ev.version - 1
                    },
                    actual: if actual > i64::MAX as u128 {
                        i64::MAX
                    } else {
                        actual as i64
                    },
                };
                assert(conflict == batch_conflict(store, batch, i as int));
                return Err(conflict);
            }
            i += 1;
        }
        let mut batch_vec = new_events;
        self.events.append(&mut batch_vec);
        proof {
            assert(self@ =~= store + batch);
            lemma_gapless_append(store, batch);
        }
        Ok(())
    }

    /// The stream's current aggregate: its events, sorted by sortable id,
    /// folded from the empty aggregate. A stream without events gives the
    /// empty aggregate at version 0.
    pub fn load<S: AggregatePayload, P: AggregateProjector<E, S>>(
        &self,
        partition_keys: &PartitionKeys,
        projector: &P,
    ) -> (r: Aggregate<S>)
        ensures
            r@ == loaded_aggregate(*projector, self@, partition_keys@),
    {
        let mut sorted: Vec<EventCommon<E>> = Vec::new();
        let mut i: usize = 0;
        while i < self.events.len()
            invariant
                i <= self.events.len(),
                event_views(sorted@) == sort_by_id(
                    partition_events(event_views(self.events@.take(i as int)), partition_keys@),
                ),
            decreases self.events.len() - i,
        {
            let ghost prefix = event_views(self.events@.take(i as int));
            proof {
                let next = event_views(self.events@.take(i + 1));
                assert(next.drop_last() =~= prefix);
                assert(next.last() == self.events@[i as int]@);
            }
            let ev = &self.events[i];
            if ev.partition_keys.same_partition(partition_keys) {
                let mut pos: usize = 0;
                while pos < sorted.len() && !text_less_than(
                    ev.sortable_unique_id.as_str(),
                    sorted[pos].sortable_unique_id.as_str(),
                )
                    invariant
                        pos <= sorted.len(),
                        forall|j: int|
                            0 <= j < pos ==> !lex_lt(
                                ev.sortable_unique_id@,
                                #[trigger] sorted@[j].sortable_unique_id@,
                            ),
                    decreases sorted.len() - pos,
                {
                    pos += 1;
                }
                let ghost before = event_views(sorted@);
                proof {
                    assert forall|j: int| 0 <= j < pos implies !lex_lt(
                        ev@.sortable_unique_id,
                        #[trigger] before[j].sortable_unique_id,
                    ) by {
                        assert(before[j] == sorted@[j]@);
                    }
                    lemma_insert_by_id_at(before, ev@, pos as int);
                }
                sorted.insert(pos, ev.clone_event_common());
                assert(event_views(sorted@) =~= before.insert(pos as int, ev@));
                proof {
                    let pe = partition_events(prefix, partition_keys@);
                    assert(pe.push(ev@).drop_last() =~= pe);
                    assert(pe.push(ev@).last() == ev@);
                }
            }
            i += 1;
        }
        assert(self.events@.take(self.events.len() as int) =~= self.events@);
        let empty = Aggregate::<S>::empty_from_partition_keys(partition_keys.clone());
        empty.project_all(sorted.as_slice(), projector)
    }

    /// Appends one event, provided its version is the next of its stream;
    /// otherwise the store is left as it was and the conflict is reported.
    pub fn save(&mut self, new_event: EventCommon<E>) -> (r: Result<(), EventSourcingError>)
        requires
            old(self).wf(),
        ensures
            final(self).wf(),
            r is Ok <==> new_event.version == stream_version(old(self)@, new_event.partition_keys@)
                + 1,
            r is Ok ==> final(self)@ == old(self)@.push(new_event@),
            match r {
                Ok(_) => true,
                Err(e) => final(self)@ == old(self)@ && e == EventSourcingError::VersionConflict {
                    expected: version_before(new_event.version),
                    actual: stream_version(old(self)@, new_event.partition_keys@) as i64,
                },
            },
    {
        let tail = self.current_version(&new_event.partition_keys);
        proof {
            lemma_stream_version_bounded_store(self);
        }
        if new_event.version < 1 || (new_event.version - 1) as u64 != tail as u64 {
            return Err(
                EventSourcingError::VersionConflict {
                    expected: if new_event.version == i64::MIN {
                        i64::MIN
                    } else {
                        new_event.version - 1
                    },
                    actual: tail as i64,
                },
            );
        }
        let ghost before = self@;
        self.events.push(new_event);
        proof {
            assert(self@ =~= before.push(self.events@.last()@));
            assert(before.push(self.events@.last()@) =~= before + seq![self.events@.last()@]);
            assert(seq![self.events@.last()@].take(0) =~= Seq::<EventView<E>>::empty());
            assert(before + Seq::<EventView<E>>::empty() =~= before);
            lemma_gapless_append(before, seq![self.events@.last()@]);
        }
        Ok(())
    }
}

/// How many of the first `upto` events of `events` belong to the stream `pk`.
fn count_stream<E>(events: &Vec<EventCommon<E>>, upto: usize, pk: &PartitionKeys) -> (r: usize)
    requires
        upto <= events.len(),
    ensures
        r == stream_version(event_views(events@.take(upto as int)), pk@),
        r <= upto,
{
    let mut count: usize = 0;
    let mut i: usize = 0;
    while i < upto
        invariant
            i <= upto <= events.len(),
            count == stream_version(event_views(events@.take(i as int)), pk@),
            count <= i,
        decreases upto - i,
    {
        proof {
            let next = event_views(events@.take(i + 1));
            assert(next.drop_last() =~= event_views(events@.take(i as int)));
            assert(next.last() == events@[i as int]@);
        }
        if events[i].partition_keys.same_partition(pk) {
            count += 1;
        }
        i += 1;
    }
    count
}

/// A stream to which no event was appended loads as the empty aggregate:
/// version 0, the empty state and no last id.
pub proof fn lemma_unwritten_stream_loads_empty<E, S: AggregatePayload, P: AggregateProjector<E, S>>(
    p: P,
    store: Seq<EventView<E>>,
    pk: PartitionKeysView,
)
    requires
        forall|i: int| 0 <= i < store.len() ==> (#[trigger] store[i]).partition_keys != pk,
    ensures
        loaded_aggregate(p, store, pk) == empty_aggregate::<S>(pk),
        loaded_aggregate(p, store, pk).version == 0,
        loaded_aggregate(p, store, pk).payload == S::spec_empty(),
{
    lemma_no_partition_events(store, pk);
    assert(sort_by_id(Seq::<EventView<E>>::empty()) =~= Seq::<EventView<E>>::empty());
}

pub proof fn lemma_no_partition_events<E>(store: Seq<EventView<E>>, pk: PartitionKeysView)
    requires
        forall|i: int| 0 <= i < store.len() ==> (#[trigger] store[i]).partition_keys != pk,
    ensures
        partition_events(store, pk) == Seq::<EventView<E>>::empty(),
    decreases store.len(),
{
    if store.len() > 0 {
        assert forall|i: int| 0 <= i < store.drop_last().len() implies (#[trigger] store.drop_last()[i]).partition_keys != pk by {
            assert(store.drop_last()[i] == store[i]);
        }
        lemma_no_partition_events(store.drop_last(), pk);
        assert(store.last() == store[store.len() - 1]);
    }
}

/// No stream of a well-formed store has a version beyond `i64`.
pub proof fn lemma_stream_version_bounded_store<E: EventPayload>(r: &Repository<E>)
    requires
        r.wf(),
    ensures
        forall|pk: PartitionKeysView| stream_version(#[trigger] r@, pk) <= i64::MAX,
{
    assert forall|pk: PartitionKeysView| stream_version(#[trigger] r@, pk) <= i64::MAX by {
        lemma_stream_version_bounded(r@, pk);
    }
}

} // verus!
