//! The command handlers' decisions. Each handler is split at its store call:
//! a plan, from the request to what the store is asked, and a completion,
//! from what the store answered to the result and the event to announce.
use vstd::prelude::*;
use crate::errors::{StorageError, StoreFailure, TodoError, ValidationError};
use crate::events::{DomainEvent, EventKind};
use crate::ids::{is_crockford_digit, new_item_id};
use crate::keys::{
    item_prefix, item_sort_key, item_sort_prefix, partition_key, spec_item_sort_key,
    spec_partition_key,
};
use crate::model::{decode, encode, Record, RecordModel, Todo, TodoModel};

verus! {

pub const CREATED: u16 = 201;

pub const NO_CONTENT: u16 = 204;

pub const OK: u16 = 200;

/// The body of a create request.
#[derive(Clone, Debug)]
pub struct NewTodo {
    pub title: String,
    pub description: String,
}

/// Write one record under a key.
#[derive(Debug)]
pub struct PutRequest {
    pub partition: String,
    pub sort: String,
    pub record: Record,
}

/// The key of one record.
#[derive(Debug)]
pub struct KeyRequest {
    pub partition: String,
    pub sort: String,
}

/// Scan one partition, in sort-key order, for keys that start with a prefix.
#[derive(Debug)]
pub struct QueryRequest {
    pub partition: String,
    pub prefix: String,
}

/// A create that has been validated and waits for its write.
#[derive(Debug)]
pub struct PendingCreate {
    pub todo: Todo,
    pub put: PutRequest,
}

/// An identifier given in a request: present and not empty.
pub open spec fn given(id: Option<String>) -> bool {
    id is Some && id->0@.len() > 0
}

fn is_given(id: &Option<String>) -> (r: bool)
    ensures
        r == given(*id),
{
    match id {
        Some(s) => !s.as_str().is_empty(),
        None => false,
    }
}

/// The write that stores an item: its record under its list's partition and
/// its own sort key.
pub open spec fn stores_item(put: PutRequest, t: TodoModel) -> bool {
    &&& put.partition@ == spec_partition_key(t.list_id)
    &&& put.sort@ == spec_item_sort_key(t.id)
    &&& put.record@ == encode(t)
}

/// The result of a create request, for a given new identifier.
pub open spec fn create_outcome(
    list_id: Option<String>,
    body: Option<NewTodo>,
    new_id: Seq<char>,
    r: Result<PendingCreate, TodoError>,
) -> bool {
    if !given(list_id) {
        r == Err::<PendingCreate, TodoError>(TodoError::Validation(ValidationError::MissingListId))
    } else if body is None {
        r == Err::<PendingCreate, TodoError>(TodoError::Validation(ValidationError::InvalidBody))
    } else {
        &&& r is Ok
        &&& r->Ok_0.todo@ == (TodoModel {
            id: new_id,
            list_id: list_id->0@,
            title: body->0.title@,
            description: body->0.description@,
        })
        &&& stores_item(r->Ok_0.put, r->Ok_0.todo@)
    }
}

/// Validates a create request and builds the item it creates, with `new_id`
/// as the item's identifier.
pub fn plan_create(list_id: Option<String>, body: Option<NewTodo>, new_id: String) -> (r: Result<
    PendingCreate,
    TodoError,
>)
    ensures
        create_outcome(list_id, body, new_id@, r),
{
    if !is_given(&list_id) {
        return Err(TodoError::Validation(ValidationError::MissingListId));
    }
    let list_id = match list_id {
        Some(s) => s,
        None => return Err(TodoError::Validation(ValidationError::MissingListId)),
    };
    let body = match body {
        Some(b) => b,
        None => return Err(TodoError::Validation(ValidationError::InvalidBody)),
    };
    let todo = Todo { id: new_id, list_id, title: body.title, description: body.description };
    let put = PutRequest {
        partition: partition_key(todo.list_id.as_str()),
        sort: item_sort_key(todo.id.as_str()),
        record: todo.to_record(),
    };
    Ok(PendingCreate { todo, put })
}

/// Validates a create request and builds the item it creates under a fresh
/// identifier.
pub fn begin_create(list_id: Option<String>, body: Option<NewTodo>) -> (r: Result<
    PendingCreate,
    TodoError,
>)
    ensures
        exists|id: Seq<char>| create_outcome(list_id, body, id, r),
        r is Ok ==> r->Ok_0.todo.id@.len() == 26,
        r is Ok ==> forall|i: int|
            0 <= i < r->Ok_0.todo.id@.len() ==> is_crockford_digit(#[trigger] r->Ok_0.todo.id@[i]),
{
    let new_id = new_item_id();
    plan_create(list_id, body, new_id)
}

/// A create's result once its write was answered: the stored item, announced
/// as created, or the failed write.
pub fn complete_create(todo: Todo, stored: Result<(), StoreFailure>) -> (r: Result<
    DomainEvent,
    TodoError,
>)
    ensures
        match stored {
            Ok(_) => r is Ok && r->Ok_0.kind == EventKind::ItemCreated && r->Ok_0.payload@
                == todo@,
            Err(_) => r == Err::<DomainEvent, TodoError>(TodoError::Storage(StorageError::WriteFailed)),
        },
{
    match stored {
        Ok(_) => Ok(DomainEvent { kind: EventKind::ItemCreated, payload: todo }),
        Err(_) => Err(TodoError::Storage(StorageError::WriteFailed)),
    }
}

/// Validates a delete request and builds the key it deletes.
pub fn plan_delete(list_id: Option<String>, item_id: Option<String>) -> (r: Result<
    KeyRequest,
    TodoError,
>)
    ensures
        !given(list_id) ==> r == Err::<KeyRequest, TodoError>(
            TodoError::Validation(ValidationError::MissingListId),
        ),
        given(list_id) && !given(item_id) ==> r == Err::<KeyRequest, TodoError>(
            TodoError::Validation(ValidationError::MissingItemId),
        ),
        given(list_id) && given(item_id) ==> {
            &&& r is Ok
            &&& r->Ok_0.partition@ == spec_partition_key(list_id->0@)
            &&& r->Ok_0.sort@ == spec_item_sort_key(item_id->0@)
        },
{
    if !is_given(&list_id) {
        return Err(TodoError::Validation(ValidationError::MissingListId));
    }
    if !is_given(&item_id) {
        return Err(TodoError::Validation(ValidationError::MissingItemId));
    }
    match (list_id, item_id) {
        (Some(l), Some(i)) => Ok(
            KeyRequest { partition: partition_key(l.as_str()), sort: item_sort_key(i.as_str()) },
        ),
        _ => Err(TodoError::Validation(ValidationError::MissingListId)),
    }
}

/// The result of a delete, from what the store returned as the old record.
pub open spec fn delete_outcome(
    old: Result<Option<RecordModel>, ()>,
    r: Result<DomainEvent, TodoError>,
) -> bool {
    match old {
        Err(_) => r == Err::<DomainEvent, TodoError>(TodoError::Storage(StorageError::DeleteFailed)),
        Ok(None) => r == Err::<DomainEvent, TodoError>(
            TodoError::Storage(StorageError::InconsistentState),
        ),
        Ok(Some(rec)) => match decode(rec) {
            Ok(t) => r is Ok && r->Ok_0.kind == EventKind::ItemDeleted && r->Ok_0.payload@ == t,
            Err(f) => match r {
                Err(TodoError::Storage(StorageError::MalformedRecord(e))) => e@ == f,
                _ => false,
            },
        },
    }
}

pub open spec fn old_record_view(old: Result<Option<Record>, StoreFailure>) -> Result<
    Option<RecordModel>,
    (),
> {
    match old {
        Err(_) => Err(()),
        Ok(None) => Ok(None),
        Ok(Some(rec)) => Ok(Some(rec@)),
    }
}

/// A delete's result once the store answered with the record it removed: the
/// removed item, announced as deleted; or the failure, when the store failed,
/// removed nothing, or removed something that is not an item.
pub fn complete_delete(old: Result<Option<Record>, StoreFailure>) -> (r: Result<
    DomainEvent,
    TodoError,
>)
    ensures
        delete_outcome(old_record_view(old), r),
{
    match old {
        Err(_) => Err(TodoError::Storage(StorageError::DeleteFailed)),
        Ok(None) => Err(TodoError::Storage(StorageError::InconsistentState)),
        Ok(Some(rec)) => match Todo::try_from(&rec) {
            Ok(t) => Ok(DomainEvent { kind: EventKind::ItemDeleted, payload: t }),
            Err(e) => Err(TodoError::Storage(StorageError::MalformedRecord(e))),
        },
    }
}

/// Validates a list request and builds the scan of the list's items.
pub fn plan_list(list_id: Option<String>) -> (r: Result<QueryRequest, TodoError>)
    ensures
        !given(list_id) ==> r == Err::<QueryRequest, TodoError>(
            TodoError::Validation(ValidationError::MissingListId),
        ),
        given(list_id) ==> {
            &&& r is Ok
            &&& r->Ok_0.partition@ == spec_partition_key(list_id->0@)
            &&& r->Ok_0.prefix@ == item_prefix()
        },
{
    if !is_given(&list_id) {
        return Err(TodoError::Validation(ValidationError::MissingListId));
    }
    match list_id {
        Some(l) => Ok(QueryRequest { partition: partition_key(l.as_str()), prefix: item_sort_prefix() }),
        None => Err(TodoError::Validation(ValidationError::MissingListId)),
    }
}

/// The items that decode from `recs`, in order; the others are left out.
pub open spec fn decode_all(recs: Seq<RecordModel>) -> Seq<TodoModel>
    decreases recs.len(),
{
    if recs.len() == 0 {
        Seq::empty()
    } else {
        let rest = decode_all(recs.drop_last());
        match decode(recs.last()) {
            Ok(t) => rest.push(t),
            Err(_) => rest,
        }
    }
}

pub open spec fn records_view(recs: Seq<Record>) -> Seq<RecordModel> {
    recs.map_values(|r: Record| r@)
}

pub open spec fn todos_view(ts: Seq<Todo>) -> Seq<TodoModel> {
    ts.map_values(|t: Todo| t@)
}

/// A list's result from the records its scan returned: every record that
/// decodes, in scan order. A record that does not decode is left out.
pub fn complete_list(found: Result<Vec<Record>, StoreFailure>) -> (r: Result<Vec<Todo>, TodoError>)
    ensures
        match found {
            Err(_) => r == Err::<Vec<Todo>, TodoError>(TodoError::Storage(StorageError::QueryFailed)),
            Ok(recs) => r is Ok && todos_view(r->Ok_0@) == decode_all(records_view(recs@)),
        },
{
    let recs = match found {
        Ok(recs) => recs,
        Err(_) => return Err(TodoError::Storage(StorageError::QueryFailed)),
    };
    let mut todos: Vec<Todo> = Vec::new();
    let n = recs.len();
    let mut i: usize = 0;
    while i < n
        invariant
            n == recs@.len(),
            i <= n,
            todos_view(todos@) == decode_all(records_view(recs@.subrange(0, i as int))),
        decreases n - i,
    {
        assert(records_view(recs@.subrange(0, i + 1)).drop_last() =~= records_view(
            recs@.subrange(0, i as int),
        ));
        match Todo::try_from(&recs[i]) {
            Ok(t) => {
                todos.push(t);
                assert(todos_view(todos@) =~= todos_view(todos@.drop_last()).push(t@));
            },
            Err(_) => {},
        }
        i = i + 1;
    }
    assert(recs@.subrange(0, n as int) =~= recs@);
    Ok(todos)
}

} // verus!
