use todo_lists::commands::{
    begin_create, complete_create, complete_delete, complete_list, plan_create, plan_delete,
    plan_list, NewTodo, CREATED, NO_CONTENT, OK,
};
use todo_lists::errors::{DynamoDBError, StorageError, StoreFailure, TodoError, ValidationError};
use todo_lists::events::{counter_update, DomainEvent, EventKind};
use todo_lists::model::{AttrValue, Attribute, Record, Todo};

fn body(title: &str, description: &str) -> Option<NewTodo> {
    Some(NewTodo { title: title.to_string(), description: description.to_string() })
}

fn text(name: &str, value: &str) -> Attribute {
    Attribute { name: name.to_string(), value: AttrValue::Text(value.to_string()) }
}

fn item_record(id: &str, list_id: &str, title: &str, description: &str) -> Record {
    Record {
        attributes: vec![
            text("PK", &format!("ITEM#{list_id}")),
            text("SK", &format!("ID#{id}")),
            text("id", id),
            text("list_id", list_id),
            text("title", title),
            text("description", description),
        ],
    }
}

#[test]
fn test_handler() {
    let pending = begin_create(
        Some("toto".to_string()),
        body("Toto todo", "This is a great description"),
    )
    .expect("failed to handle event");
    let event = complete_create(pending.todo, Ok(())).expect("failed to handle event");
    assert_eq!(CREATED, 201);
    assert_eq!(event.payload.title, "Toto todo");
    assert_eq!(event.payload.description, "This is a great description");
}

#[test]
fn create_with_fresh_id_gives_a_ulid() {
    let pending = begin_create(Some("L1".to_string()), body("Buy milk", "2%")).unwrap();
    let id = pending.todo.id.clone();
    assert_eq!(id.len(), 26);
    assert!(id.chars().all(|c| "0123456789ABCDEFGHJKMNPQRSTVWXYZ".contains(c)));
    assert_eq!(pending.todo.list_id, "L1");
    assert_eq!(pending.put.sort, format!("ID#{id}"));
    let other = begin_create(Some("L1".to_string()), body("Buy milk", "2%")).unwrap();
    assert_ne!(other.todo.id, id);
}

#[test]
fn plan_create_builds_keys_and_record() {
    let pending = plan_create(Some("L1".to_string()), body("Buy milk", "2%"), "01ABC".to_string()).unwrap();
    assert_eq!(pending.todo.id, "01ABC");
    assert_eq!(pending.todo.list_id, "L1");
    assert_eq!(pending.todo.title, "Buy milk");
    assert_eq!(pending.todo.description, "2%");
    assert_eq!(pending.put.partition, "ITEM#L1");
    assert_eq!(pending.put.sort, "ID#01ABC");
    let names: Vec<&str> = pending.put.record.attributes.iter().map(|a| a.name.as_str()).collect();
    assert_eq!(names, vec!["id", "list_id", "title", "description"]);
}

#[test]
fn create_accepts_empty_title_and_description() {
    let pending = plan_create(Some("L1".to_string()), body("", ""), "X".to_string()).unwrap();
    assert_eq!(pending.todo.title, "");
    assert_eq!(pending.todo.description, "");
}

#[test]
fn create_without_list_id_is_rejected() {
    let r = plan_create(None, body("a", "b"), "X".to_string());
    assert!(matches!(r, Err(TodoError::Validation(ValidationError::MissingListId))));
    let r = plan_create(Some(String::new()), body("a", "b"), "X".to_string());
    assert!(matches!(r, Err(TodoError::Validation(ValidationError::MissingListId))));
}

#[test]
fn create_without_body_is_rejected() {
    let r = plan_create(Some("L1".to_string()), None, "X".to_string());
    assert!(matches!(r, Err(TodoError::Validation(ValidationError::InvalidBody))));
    let r = plan_create(None, None, "X".to_string());
    assert!(matches!(r, Err(TodoError::Validation(ValidationError::MissingListId))));
}

#[test]
fn create_fails_when_the_write_fails() {
    let pending = plan_create(Some("L1".to_string()), body("a", "b"), "X".to_string()).unwrap();
    let r = complete_create(pending.todo, Err(StoreFailure { message: "down".to_string() }));
    assert!(matches!(r, Err(TodoError::Storage(StorageError::WriteFailed))));
}

#[test]
fn created_event_carries_the_item() {
    let pending = plan_create(Some("L1".to_string()), body("Buy milk", "2%"), "X".to_string()).unwrap();
    let event = complete_create(pending.todo, Ok(())).unwrap();
    assert_eq!(event.kind, EventKind::ItemCreated);
    assert_eq!(event.payload.id, "X");
    assert_eq!(event.payload.list_id, "L1");
}

#[test]
fn plan_delete_builds_the_item_key() {
    let key = plan_delete(Some("L1".to_string()), Some("X".to_string())).unwrap();
    assert_eq!(key.partition, "ITEM#L1");
    assert_eq!(key.sort, "ID#X");
}

#[test]
fn delete_without_ids_is_rejected() {
    let r = plan_delete(None, Some("X".to_string()));
    assert!(matches!(r, Err(TodoError::Validation(ValidationError::MissingListId))));
    let r = plan_delete(Some("L1".to_string()), None);
    assert!(matches!(r, Err(TodoError::Validation(ValidationError::MissingItemId))));
    let r = plan_delete(Some("L1".to_string()), Some(String::new()));
    assert!(matches!(r, Err(TodoError::Validation(ValidationError::MissingItemId))));
}

#[test]
fn delete_of_nothing_is_a_storage_error() {
    let r = complete_delete(Ok(None));
    assert!(matches!(r, Err(TodoError::Storage(StorageError::InconsistentState))));
}

#[test]
fn delete_fails_when_the_store_fails() {
    let r = complete_delete(Err(StoreFailure { message: "down".to_string() }));
    assert!(matches!(r, Err(TodoError::Storage(StorageError::DeleteFailed))));
}

#[test]
fn delete_of_a_malformed_record_names_the_field() {
    let mut rec = item_record("X", "L1", "t", "d");
    rec.attributes.retain(|a| a.name != "title");
    let r = complete_delete(Ok(Some(rec)));
    match r {
        Err(TodoError::Storage(StorageError::MalformedRecord(DynamoDBError::MissingAttribute { attribute }))) => {
            assert_eq!(attribute, "title")
        }
        other => panic!("unexpected {other:?}"),
    }
    let mut rec = item_record("X", "L1", "t", "d");
    rec.attributes[5].value = AttrValue::Number(3);
    let r = complete_delete(Ok(Some(rec)));
    match r {
        Err(TodoError::Storage(StorageError::MalformedRecord(DynamoDBError::InvalidAttribute { attribute }))) => {
            assert_eq!(attribute, "description")
        }
        other => panic!("unexpected {other:?}"),
    }
}

#[test]
fn deleted_event_carries_the_removed_item() {
    let event = complete_delete(Ok(Some(item_record("X", "L1", "t", "d")))).unwrap();
    assert_eq!(event.kind, EventKind::ItemDeleted);
    assert_eq!(event.payload.id, "X");
    assert_eq!(event.payload.title, "t");
    assert_eq!(NO_CONTENT, 204);
}

#[test]
fn plan_list_scans_the_list_partition() {
    let q = plan_list(Some("L1".to_string())).unwrap();
    assert_eq!(q.partition, "ITEM#L1");
    assert_eq!(q.prefix, "ID#");
    assert!(matches!(plan_list(None), Err(TodoError::Validation(ValidationError::MissingListId))));
}

#[test]
fn list_drops_records_that_do_not_decode() {
    let mut bad = item_record("B", "L1", "t", "d");
    bad.attributes.retain(|a| a.name != "id");
    let good = item_record("A", "L1", "first", "x");
    let last = item_record("C", "L1", "third", "z");
    let items = complete_list(Ok(vec![good, bad, last])).unwrap();
    assert_eq!(items.len(), 2);
    assert_eq!(items[0].id, "A");
    assert_eq!(items[1].id, "C");
    assert_eq!(OK, 200);
}

#[test]
fn list_of_nothing_is_empty() {
    let items = complete_list(Ok(vec![])).unwrap();
    assert!(items.is_empty());
}

#[test]
fn list_fails_when_the_scan_fails() {
    let r = complete_list(Err(StoreFailure { message: "down".to_string() }));
    assert!(matches!(r, Err(TodoError::Storage(StorageError::QueryFailed))));
}

#[test]
fn failures_map_to_status_and_message() {
    let f = TodoError::Validation(ValidationError::MissingListId).to_failure();
    assert_eq!(f.status_code, 400);
    assert_eq!(f.body, "Missing list id");
    let f = TodoError::Validation(ValidationError::InvalidBody).to_failure();
    assert_eq!(f.status_code, 400);
    assert_eq!(f.body, "Invalid request");
    let f = TodoError::Validation(ValidationError::MissingItemId).to_failure();
    assert_eq!(f.status_code, 400);
    let f = TodoError::Storage(StorageError::WriteFailed).to_failure();
    assert_eq!(f.status_code, 500);
    assert_eq!(f.body, "Unable to set todo");
    let f = TodoError::Storage(StorageError::DeleteFailed).to_failure();
    assert_eq!(f.body, "Unable to delete todo");
    let f = TodoError::Storage(StorageError::QueryFailed).to_failure();
    assert_eq!(f.body, "Unable to query todos");
    let f = TodoError::Storage(StorageError::InconsistentState).to_failure();
    assert_eq!(f.status_code, 500);
    assert_eq!(f.body, "Unable to deserialize todo");
    let f = TodoError::Storage(StorageError::MalformedRecord(DynamoDBError::MissingAttribute {
        attribute: "id".to_string(),
    }))
    .to_failure();
    assert_eq!(f.body, "Unable to deserialize todo");
    let f = TodoError::Publish("bus down".to_string()).to_failure();
    assert_eq!(f.status_code, 500);
    assert_eq!(f.body, "Unable to send confirmation event");
}

#[test]
fn event_kinds_have_names() {
    assert_eq!(EventKind::ItemCreated.name(), "ITEM_CREATED");
    assert_eq!(EventKind::ItemDeleted.name(), "ITEM_DELETED");
    assert_eq!(EventKind::from_name("ITEM_CREATED"), Some(EventKind::ItemCreated));
    assert_eq!(EventKind::from_name("ITEM_DELETED"), Some(EventKind::ItemDeleted));
    assert_eq!(EventKind::from_name("TODO_CREATED"), None);
}

#[test]
fn counter_update_moves_the_list_counter() {
    let todo = Todo {
        id: "X".to_string(),
        list_id: "L1".to_string(),
        title: "t".to_string(),
        description: "d".to_string(),
    };
    let created = counter_update(&DomainEvent { kind: EventKind::ItemCreated, payload: todo.clone() });
    assert_eq!(created.partition, "ITEM#L1");
    assert_eq!(created.sort, "COUNTER");
    assert_eq!(created.delta, 1);
    let deleted = counter_update(&DomainEvent { kind: EventKind::ItemDeleted, payload: todo });
    assert_eq!(deleted.delta, -1);
}
