//! What holds across calls: listing after a create or a delete, and the
//! counter under at-least-once, unordered delivery.
use vstd::prelude::*;
use crate::commands::decode_all;
use crate::errors::DecodeFailure;
use crate::events::{spec_delta, DomainEvent, EventKind};
use crate::keys::{lemma_counter_is_not_item, is_prefix, item_prefix, partition_prefix, spec_item_sort_key, spec_partition_key};
use crate::model::{decode, lemma_decode_encode, lemma_lookup_with_attr, TodoModel};
use crate::service::{after_event, entry_records, item_key, list_counter, list_counter_key, put_item};
use crate::store::{count_attr, count_value, scan_result, spec_increment, Entry, Key, Table};
use crate::text::{lemma_lt_asymmetric, lemma_lt_common_prefix, lemma_lt_irreflexive, seq_lt};

verus! {

/// Every record under an item sort key that decodes is stored under the key
/// of the item it decodes to. The handlers keep this so.
pub open spec fn keyed_by_id(t: Table) -> bool {
    forall|k: Key|
        #[trigger] t.contains_key(k) && is_prefix(item_prefix(), k.1) && decode(t[k]) is Ok ==> k
            == item_key(decode(t[k])->Ok_0.list_id, decode(t[k])->Ok_0.id)
}

proof fn lemma_prefix_of_concat(p: Seq<char>, s: Seq<char>)
    ensures
        is_prefix(p, p + s),
{
    assert((p + s).subrange(0, p.len() as int) =~= p);
}

proof fn lemma_partition_key_injective(a: Seq<char>, b: Seq<char>)
    ensures
        spec_partition_key(a) == spec_partition_key(b) ==> a == b,
{
    let n = partition_prefix().len() as int;
    assert((partition_prefix() + a).subrange(n, n + a.len()) =~= a);
    assert((partition_prefix() + b).subrange(n, n + b.len()) =~= b);
}

proof fn lemma_item_sort_key_injective(a: Seq<char>, b: Seq<char>)
    ensures
        spec_item_sort_key(a) == spec_item_sort_key(b) ==> a == b,
{
    let n = item_prefix().len() as int;
    assert((item_prefix() + a).subrange(n, n + a.len()) =~= a);
    assert((item_prefix() + b).subrange(n, n + b.len()) =~= b);
}

/// Each listed item comes from an entry of the scan; when the entries are in
/// increasing sort-key order and each is keyed by its item's id, the items
/// are in increasing id order.
proof fn lemma_listed_items(es: Seq<Entry>)
    requires
        forall|i: int, j: int| 0 <= i < j < es.len() ==> seq_lt(es[i].sort@, es[j].sort@),
        forall|j: int|
            0 <= j < es.len() && (#[trigger] decode(es[j].record@)) is Ok ==> es[j].sort@
                == spec_item_sort_key(decode(es[j].record@)->Ok_0.id),
    ensures
        forall|a: int|
            0 <= a < decode_all(entry_records(es)).len() ==> exists|j: int|
                0 <= j < es.len() && decode(es[j].record@) == Ok::<TodoModel, DecodeFailure>(
                    #[trigger] decode_all(entry_records(es))[a],
                ),
        forall|a: int, b: int|
            0 <= a < b < decode_all(entry_records(es)).len() ==> seq_lt(
                decode_all(entry_records(es))[a].id,
                decode_all(entry_records(es))[b].id,
            ),
    decreases es.len(),
{
    if es.len() > 0 {
        let es0 = es.drop_last();
        assert(entry_records(es).drop_last() =~= entry_records(es0));
        lemma_listed_items(es0);
        let items0 = decode_all(entry_records(es0));
        let items = decode_all(entry_records(es));
        let last = es.len() - 1;
        assert(entry_records(es).last() == es[last].record@);
        assert forall|a: int| 0 <= a < items.len() implies exists|j: int|
            0 <= j < es.len() && decode(es[j].record@) == Ok::<TodoModel, DecodeFailure>(#[trigger] items[a]) by {
            if a < items0.len() {
                let j = choose|j: int|
                    0 <= j < es0.len() && decode(es0[j].record@) == Ok::<TodoModel, DecodeFailure>(items0[a]);
                assert(es[j] == es0[j]);
            } else {
                assert(decode(es[last].record@) == Ok::<TodoModel, DecodeFailure>(items[a]));
            }
        }
        assert forall|a: int, b: int| 0 <= a < b < items.len() implies seq_lt(
            items[a].id,
            items[b].id,
        ) by {
            if b >= items0.len() {
                let x = items[b];
                let j = choose|j: int|
                    0 <= j < es0.len() && decode(es0[j].record@) == Ok::<TodoModel, DecodeFailure>(items0[a]);
                assert(es[j] == es0[j]);
                assert(decode(es[j].record@) is Ok);
                assert(decode(es[last].record@) is Ok);
                assert(seq_lt(es[j].sort@, es[last].sort@));
                lemma_lt_common_prefix(item_prefix(), items[a].id, x.id);
            }
        }
    }
}

/// An entry that decodes gives an item of the list.
proof fn lemma_listed_entry(es: Seq<Entry>, j: int)
    requires
        0 <= j < es.len(),
        decode(es[j].record@) is Ok,
    ensures
        exists|a: int|
            0 <= a < decode_all(entry_records(es)).len() && decode_all(entry_records(es))[a]
                == decode(es[j].record@)->Ok_0,
    decreases es.len(),
{
    let es0 = es.drop_last();
    assert(entry_records(es).drop_last() =~= entry_records(es0));
    assert(entry_records(es).last() == es[es.len() - 1].record@);
    if j < es.len() - 1 {
        assert(es0[j] == es[j]);
        lemma_listed_entry(es0, j);
        let items0 = decode_all(entry_records(es0));
        let a = choose|a: int| 0 <= a < items0.len() && items0[a] == decode(es0[j].record@)->Ok_0;
        assert(decode_all(entry_records(es))[a] == items0[a]);
    } else {
        let items = decode_all(entry_records(es));
        assert(items[items.len() - 1] == decode(es[j].record@)->Ok_0);
    }
}

/// Scanning a list's items in a table keyed by id: the items come in
/// increasing id order, and each comes from an entry of the scan.
proof fn lemma_scan_keyed(t: Table, list_id: Seq<char>, es: Seq<Entry>)
    requires
        keyed_by_id(t),
        scan_result(t, spec_partition_key(list_id), item_prefix(), es),
    ensures
        forall|j: int|
            0 <= j < es.len() && (#[trigger] decode(es[j].record@)) is Ok ==> (es[j].partition@,
            es[j].sort@) == item_key(
                decode(es[j].record@)->Ok_0.list_id,
                decode(es[j].record@)->Ok_0.id,
            ),
        forall|a: int|
            0 <= a < decode_all(entry_records(es)).len() ==> exists|j: int|
                0 <= j < es.len() && decode(es[j].record@) == Ok::<TodoModel, DecodeFailure>(
                    #[trigger] decode_all(entry_records(es))[a],
                ),
        forall|a: int, b: int|
            0 <= a < b < decode_all(entry_records(es)).len() ==> seq_lt(
                decode_all(entry_records(es))[a].id,
                decode_all(entry_records(es))[b].id,
            ),
{
    assert forall|j: int|
        0 <= j < es.len() && (#[trigger] decode(es[j].record@)) is Ok implies (es[j].partition@,
        es[j].sort@) == item_key(
        decode(es[j].record@)->Ok_0.list_id,
        decode(es[j].record@)->Ok_0.id,
    ) by {
        let k = (es[j].partition@, es[j].sort@);
        assert(t.contains_key(k));
    }
    lemma_listed_items(es);
}

/// A table keyed by id stays so when an item is written under its own key.
pub proof fn lemma_put_item_keyed(t: Table, item: TodoModel)
    requires
        keyed_by_id(t),
    ensures
        keyed_by_id(put_item(t, item)),
{
    lemma_decode_encode(item);
}

/// A table keyed by id stays so when a record is removed.
pub proof fn lemma_remove_keyed(t: Table, k: Key)
    requires
        keyed_by_id(t),
    ensures
        keyed_by_id(t.remove(k)),
{
}

/// A table keyed by id stays so when the counter consumer applies an event.
pub proof fn lemma_event_keyed(t: Table, e: DomainEvent)
    requires
        keyed_by_id(t),
    ensures
        keyed_by_id(after_event(t, e)),
{
    lemma_counter_is_not_item();
}

/// Creating an item and then listing its list gives exactly one item with the
/// new id, the created one, among the list's items in increasing id order.
pub proof fn lemma_create_then_list(
    t: Table,
    list_id: Seq<char>,
    title: Seq<char>,
    description: Seq<char>,
    new_id: Seq<char>,
    es: Seq<Entry>,
)
    requires
        keyed_by_id(t),
        scan_result(
            put_item(t, TodoModel { id: new_id, list_id, title, description }),
            spec_partition_key(list_id),
            item_prefix(),
            es,
        ),
    ensures
        ({
            let item = TodoModel { id: new_id, list_id, title, description };
            let items = decode_all(entry_records(es));
            &&& exists|a: int| 0 <= a < items.len() && items[a] == item
            &&& forall|a: int| 0 <= a < items.len() && items[a].id == new_id ==> items[a] == item
            &&& forall|a: int, b: int|
                0 <= a < items.len() && 0 <= b < items.len() && items[a].id == new_id
                    && items[b].id == new_id ==> a == b
            &&& forall|a: int, b: int| 0 <= a < b < items.len() ==> seq_lt(items[a].id, items[b].id)
        }),
{
    let item = TodoModel { id: new_id, list_id, title, description };
    let t2 = put_item(t, item);
    let kn = item_key(list_id, new_id);
    let items = decode_all(entry_records(es));
    lemma_put_item_keyed(t, item);
    lemma_decode_encode(item);
    lemma_scan_keyed(t2, list_id, es);
    lemma_prefix_of_concat(item_prefix(), new_id);
    assert(t2.contains_key(kn));
    let j0 = choose|j: int| 0 <= j < es.len() && es[j].sort@ == kn.1;
    assert((es[j0].partition@, es[j0].sort@) == kn);
    lemma_listed_entry(es, j0);
    assert forall|a: int| 0 <= a < items.len() && items[a].id == new_id implies items[a] == item by {
        let j = choose|j: int| 0 <= j < es.len() && decode(es[j].record@) == Ok::<TodoModel, DecodeFailure>(items[a]);
        assert((es[j].partition@, es[j].sort@) == item_key(items[a].list_id, new_id));
        lemma_lt_irreflexive(es[j].sort@);
        if j != j0 {
            if j < j0 {
                assert(seq_lt(es[j].sort@, es[j0].sort@));
            } else {
                assert(seq_lt(es[j0].sort@, es[j].sort@));
            }
        }
    }
    assert forall|a: int, b: int|
        0 <= a < items.len() && 0 <= b < items.len() && items[a].id == new_id && items[b].id
            == new_id implies a == b by {
        lemma_lt_irreflexive(new_id);
        if a < b {
            assert(seq_lt(items[a].id, items[b].id));
        } else if b < a {
            assert(seq_lt(items[b].id, items[a].id));
        }
    }
}

/// When the new id sorts after the id of every item the list held before, the
/// created item is the last one listed.
pub proof fn lemma_create_then_list_last(
    t: Table,
    list_id: Seq<char>,
    title: Seq<char>,
    description: Seq<char>,
    new_id: Seq<char>,
    es: Seq<Entry>,
)
    requires
        keyed_by_id(t),
        scan_result(
            put_item(t, TodoModel { id: new_id, list_id, title, description }),
            spec_partition_key(list_id),
            item_prefix(),
            es,
        ),
        forall|k: Key|
            #[trigger] t.contains_key(k) && k.0 == spec_partition_key(list_id) && is_prefix(
                item_prefix(),
                k.1,
            ) && decode(t[k]) is Ok ==> seq_lt(decode(t[k])->Ok_0.id, new_id),
    ensures
        decode_all(entry_records(es)).len() > 0,
        decode_all(entry_records(es)).last() == (TodoModel { id: new_id, list_id, title, description }),
{
    let item = TodoModel { id: new_id, list_id, title, description };
    let t2 = put_item(t, item);
    let items = decode_all(entry_records(es));
    lemma_create_then_list(t, list_id, title, description, new_id, es);
    lemma_put_item_keyed(t, item);
    lemma_scan_keyed(t2, list_id, es);
    let a0 = choose|a: int| 0 <= a < items.len() && items[a] == item;
    let last = items.len() - 1;
    if a0 < last {
        let x = items[last];
        assert(seq_lt(new_id, x.id));
        lemma_lt_irreflexive(new_id);
        let j = choose|j: int| 0 <= j < es.len() && decode(es[j].record@) == Ok::<TodoModel, DecodeFailure>(x);
        let k = (es[j].partition@, es[j].sort@);
        assert(k != item_key(list_id, new_id));
        assert(t.contains_key(k));
        assert(is_prefix(item_prefix(), k.1));
        lemma_lt_asymmetric(x.id, new_id);
    }
}

/// After an item is deleted, listing its list never gives an item with its id.
pub proof fn lemma_delete_then_list(t: Table, list_id: Seq<char>, item_id: Seq<char>, es: Seq<Entry>)
    requires
        keyed_by_id(t),
        scan_result(t.remove(item_key(list_id, item_id)), spec_partition_key(list_id), item_prefix(), es),
    ensures
        forall|a: int|
            0 <= a < decode_all(entry_records(es)).len() ==> (#[trigger] decode_all(
                entry_records(es),
            )[a]).id != item_id,
{
    let t2 = t.remove(item_key(list_id, item_id));
    lemma_remove_keyed(t, item_key(list_id, item_id));
    lemma_scan_keyed(t2, list_id, es);
    let items = decode_all(entry_records(es));
    assert forall|a: int| 0 <= a < items.len() implies (#[trigger] items[a]).id != item_id by {
        let j = choose|j: int| 0 <= j < es.len() && decode(es[j].record@) == Ok::<TodoModel, DecodeFailure>(items[a]);
        assert(t2.contains_key((es[j].partition@, es[j].sort@)));
    }
}

/// The table after the counter consumer applied each event once, in order.
pub open spec fn replay(t: Table, events: Seq<DomainEvent>) -> Table
    decreases events.len(),
{
    if events.len() == 0 {
        t
    } else {
        after_event(replay(t, events.drop_last()), events.last())
    }
}

/// How many of `events` are of `kind` and concern list `list_id`.
pub open spec fn count_events(events: Seq<DomainEvent>, list_id: Seq<char>, kind: EventKind) -> int
    decreases events.len(),
{
    if events.len() == 0 {
        0
    } else {
        count_events(events.drop_last(), list_id, kind) + if events.last().payload.list_id@
            == list_id && events.last().kind == kind {
            1int
        } else {
            0int
        }
    }
}

proof fn lemma_count_after_increment(t: Table, k: Key, q: Key, delta: int)
    ensures
        count_value(spec_increment(t, k, delta), q) == if q == k {
            count_value(t, k) + delta
        } else {
            count_value(t, q)
        },
{
    let base = if t.contains_key(k) {
        t[k]
    } else {
        Seq::empty()
    };
    lemma_lookup_with_attr(base, count_attr(), crate::model::AttrModel::Number(count_value(t, k) + delta));
}

/// Given each event delivered once, in any order, a list's counter moves by
/// the number of its creations less the number of its deletions; from no
/// counter, it ends at that difference.
pub proof fn lemma_counter_converges(t: Table, events: Seq<DomainEvent>, list_id: Seq<char>)
    ensures
        list_counter(replay(t, events), list_id) == list_counter(t, list_id) + count_events(
            events,
            list_id,
            EventKind::ItemCreated,
        ) - count_events(events, list_id, EventKind::ItemDeleted),
        !t.contains_key(list_counter_key(list_id)) ==> list_counter(replay(t, events), list_id)
            == count_events(events, list_id, EventKind::ItemCreated) - count_events(
            events,
            list_id,
            EventKind::ItemDeleted,
        ),
    decreases events.len(),
{
    if events.len() > 0 {
        let e = events.last();
        lemma_counter_converges(t, events.drop_last(), list_id);
        lemma_partition_key_injective(e.payload.list_id@, list_id);
        lemma_count_after_increment(
            replay(t, events.drop_last()),
            list_counter_key(e.payload.list_id@),
            list_counter_key(list_id),
            spec_delta(e.kind),
        );
    }
}

proof fn lemma_count_remove(events: Seq<DomainEvent>, i: int, list_id: Seq<char>, kind: EventKind)
    requires
        0 <= i < events.len(),
    ensures
        count_events(events, list_id, kind) == count_events(events.remove(i), list_id, kind) + if
            events[i].payload.list_id@ == list_id && events[i].kind == kind {
            1int
        } else {
            0int
        },
    decreases events.len(),
{
    if i == events.len() - 1 {
        assert(events.remove(i) =~= events.drop_last());
    } else {
        assert(events.remove(i).drop_last() =~= events.drop_last().remove(i));
        assert(events.remove(i).last() == events.last());
        lemma_count_remove(events.drop_last(), i, list_id, kind);
    }
}

proof fn lemma_count_permutation(a: Seq<DomainEvent>, b: Seq<DomainEvent>, list_id: Seq<char>, kind: EventKind)
    requires
        a.to_multiset() == b.to_multiset(),
    ensures
        count_events(a, list_id, kind) == count_events(b, list_id, kind),
    decreases a.len(),
{
    broadcast use vstd::seq_lib::group_to_multiset_ensures;

    if a.len() == 0 {
        a.to_multiset_ensures();
        b.to_multiset_ensures();
        assert(b.len() == 0);
    } else {
        let x = a.last();
        let a0 = a.drop_last();
        assert(a0.push(x) =~= a);
        assert(a.to_multiset().count(x) > 0);
        assert(b.contains(x));
        let i = choose|i: int| 0 <= i < b.len() && b[i] == x;
        assert(b.remove(i).to_multiset() =~= a0.to_multiset());
        lemma_count_permutation(a0, b.remove(i), list_id, kind);
        lemma_count_remove(b, i, list_id, kind);
    }
}

/// The order in which events are delivered does not change where a list's
/// counter ends.
pub proof fn lemma_counter_order_independent(
    t: Table,
    events: Seq<DomainEvent>,
    reordered: Seq<DomainEvent>,
    list_id: Seq<char>,
)
    requires
        events.to_multiset() == reordered.to_multiset(),
    ensures
        list_counter(replay(t, events), list_id) == list_counter(replay(t, reordered), list_id),
{
    lemma_counter_converges(t, events, list_id);
    lemma_counter_converges(t, reordered, list_id);
    lemma_count_permutation(events, reordered, list_id, EventKind::ItemCreated);
    lemma_count_permutation(events, reordered, list_id, EventKind::ItemDeleted);
}

/// An event delivered twice is applied twice: the counter moves by twice its
/// delta.
pub proof fn lemma_duplicate_delivery_counts_twice(t: Table, e: DomainEvent)
    ensures
        list_counter(replay(t, seq![e, e]), e.payload.list_id@) == list_counter(
            t,
            e.payload.list_id@,
        ) + 2 * spec_delta(e.kind),
{
    let k = list_counter_key(e.payload.list_id@);
    assert(seq![e, e].drop_last() =~= seq![e]);
    assert(seq![e].drop_last() =~= Seq::<DomainEvent>::empty());
    assert(replay(t, Seq::<DomainEvent>::empty()) == t);
    assert(replay(t, seq![e]) == after_event(t, e));
    assert(replay(t, seq![e, e]) == after_event(after_event(t, e), e));
    lemma_count_after_increment(t, k, k, spec_delta(e.kind));
    lemma_count_after_increment(after_event(t, e), k, k, spec_delta(e.kind));
}

} // verus!
