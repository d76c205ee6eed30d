//! The handlers and the counter consumer run against the in-memory store:
//! each one is its plan, the store call, and its completion.
use vstd::prelude::*;
use crate::commands::{
    complete_create, complete_delete, complete_list, delete_outcome, given, plan_create,
    plan_delete, plan_list, records_view, todos_view, decode_all, NewTodo,
};
use crate::errors::{StorageError, StoreFailure, TodoError, ValidationError};
use crate::events::{counter_update, spec_delta, DomainEvent, EventKind};
use crate::keys::{counter_key, item_prefix, spec_item_sort_key, spec_partition_key};
use crate::model::{encode, Record, RecordModel, TodoModel};
use crate::store::{
    count_value, increment_ok, scan_result, spec_increment, Entry, Key, MemoryStore, Table,
};

verus! {

/// The key of an item.
pub open spec fn item_key(list_id: Seq<char>, item_id: Seq<char>) -> Key {
    (spec_partition_key(list_id), spec_item_sort_key(item_id))
}

/// The table after an item is written.
pub open spec fn put_item(t: Table, item: TodoModel) -> Table {
    t.insert(item_key(item.list_id, item.id), encode(item))
}

pub open spec fn entry_records(es: Seq<Entry>) -> Seq<RecordModel> {
    es.map_values(|e: Entry| e.record@)
}

/// The key of a list's counter.
pub open spec fn list_counter_key(list_id: Seq<char>) -> Key {
    (spec_partition_key(list_id), counter_key())
}

/// A list's counter as stored in `t`.
pub open spec fn list_counter(t: Table, list_id: Seq<char>) -> int {
    count_value(t, list_counter_key(list_id))
}

/// The table after the counter consumer applied one delivery of `e`.
pub open spec fn after_event(t: Table, e: DomainEvent) -> Table {
    spec_increment(t, list_counter_key(e.payload.list_id@), spec_delta(e.kind))
}

/// Creates an item with identifier `new_id`: writes it and returns its
/// creation event, whose payload is the created item.
pub fn create_todo(
    store: &mut MemoryStore,
    list_id: Option<String>,
    body: Option<NewTodo>,
    new_id: String,
) -> (r: Result<DomainEvent, TodoError>)
    requires
        old(store).wf(),
    ensures
        final(store).wf(),
        !given(list_id) ==> r == Err::<DomainEvent, TodoError>(
            TodoError::Validation(ValidationError::MissingListId),
        ) && final(store)@ == old(store)@,
        given(list_id) && body is None ==> r == Err::<DomainEvent, TodoError>(
            TodoError::Validation(ValidationError::InvalidBody),
        ) && final(store)@ == old(store)@,
        given(list_id) && body is Some ==> {
            &&& r is Ok
            &&& r->Ok_0.kind == EventKind::ItemCreated
            &&& r->Ok_0.payload@ == (TodoModel {
                id: new_id@,
                list_id: list_id->0@,
                title: body->0.title@,
                description: body->0.description@,
            })
            &&& final(store)@ == put_item(old(store)@, r->Ok_0.payload@)
        },
{
    let pending = match plan_create(list_id, body, new_id) {
        Ok(p) => p,
        Err(e) => return Err(e),
    };
    store.put(pending.put);
    complete_create(pending.todo, Ok(()))
}

/// Deletes an item and returns its deletion event, whose payload is the
/// removed item.
pub fn delete_todo(store: &mut MemoryStore, list_id: Option<String>, item_id: Option<String>) -> (r:
    Result<DomainEvent, TodoError>)
    requires
        old(store).wf(),
    ensures
        final(store).wf(),
        !given(list_id) ==> r == Err::<DomainEvent, TodoError>(
            TodoError::Validation(ValidationError::MissingListId),
        ) && final(store)@ == old(store)@,
        given(list_id) && !given(item_id) ==> r == Err::<DomainEvent, TodoError>(
            TodoError::Validation(ValidationError::MissingItemId),
        ) && final(store)@ == old(store)@,
        given(list_id) && given(item_id) ==> {
            let k = item_key(list_id->0@, item_id->0@);
            &&& final(store)@ == old(store)@.remove(k)
            &&& !old(store)@.contains_key(k) ==> r == Err::<DomainEvent, TodoError>(
                TodoError::Storage(StorageError::InconsistentState),
            )
            &&& delete_outcome(
                if old(store)@.contains_key(k) {
                    Ok(Some(old(store)@[k]))
                } else {
                    Ok(None)
                },
                r,
            )
        },
{
    let key = match plan_delete(list_id, item_id) {
        Ok(k) => k,
        Err(e) => return Err(e),
    };
    let old_record = store.delete(&key);
    complete_delete(Ok(old_record))
}

/// Lists the items of a list, in sort-key order; records that do not decode
/// are left out.
pub fn list_todos(store: &MemoryStore, list_id: Option<String>) -> (r: Result<Vec<crate::model::Todo>, TodoError>)
    requires
        store.wf(),
    ensures
        !given(list_id) ==> r == Err::<Vec<crate::model::Todo>, TodoError>(
            TodoError::Validation(ValidationError::MissingListId),
        ),
        given(list_id) ==> r is Ok && exists|es: Seq<Entry>|
            {
                &&& scan_result(store@, spec_partition_key(list_id->0@), item_prefix(), es)
                &&& todos_view(r->Ok_0@) == decode_all(entry_records(es))
            },
{
    let query = match plan_list(list_id) {
        Ok(q) => q,
        Err(e) => return Err(e),
    };
    let found = store.query(&query);
    let mut records: Vec<Record> = Vec::new();
    let n = found.len();
    let mut i: usize = 0;
    while i < n
        invariant
            n == found@.len(),
            i <= n,
            records@.len() == i,
            records_view(records@) =~= entry_records(found@.subrange(0, i as int)),
        decreases n - i,
    {
        let c = found[i].record.copied();
        let ghost prev = records@;
        records.push(c);
        assert forall|j: int| 0 <= j <= i implies #[trigger] records_view(records@)[j]
            == found@[j].record@ by {
            if j < i {
                assert(records@[j] == prev[j]);
                assert(records_view(prev)[j] == entry_records(found@.subrange(0, i as int))[j]);
            }
        }
        assert(records_view(records@) =~= entry_records(found@.subrange(0, i + 1)));
        i = i + 1;
    }
    assert(found@.subrange(0, n as int) =~= found@);
    complete_list(Ok(records))
}

/// The counter consumer: applies one delivered event to its list's counter.
/// A failure fails the delivery and changes nothing.
pub fn consume_event(store: &mut MemoryStore, event: &DomainEvent) -> (r: Result<(), StoreFailure>)
    requires
        old(store).wf(),
    ensures
        final(store).wf(),
        r is Ok <==> increment_ok(
            old(store)@,
            list_counter_key(event.payload.list_id@),
            spec_delta(event.kind),
        ),
        r is Ok ==> final(store)@ == after_event(old(store)@, *event),
        r is Err ==> final(store)@ == old(store)@,
{
    let req = counter_update(event);
    store.increment(&req)
}

} // verus!
