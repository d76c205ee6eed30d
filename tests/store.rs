use todo_lists::commands::{KeyRequest, NewTodo, PutRequest, QueryRequest};
use todo_lists::errors::{StorageError, TodoError};
use todo_lists::events::{DomainEvent, EventKind, IncrementRequest};
use todo_lists::keys::{counter_sort_key, item_sort_key, item_sort_prefix, partition_key};
use todo_lists::model::{find_attribute, AttrValue, Attribute, Record, Todo};
use todo_lists::service::{consume_event, create_todo, delete_todo, list_todos};
use todo_lists::store::MemoryStore;
use todo_lists::text::{str_lt, str_starts_with};

fn body(title: &str, description: &str) -> Option<NewTodo> {
    Some(NewTodo { title: title.to_string(), description: description.to_string() })
}

fn some(s: &str) -> Option<String> {
    Some(s.to_string())
}

fn counter(store: &MemoryStore, list_id: &str) -> Option<i64> {
    let rec = store.get(&partition_key(list_id), &counter_sort_key())?;
    match find_attribute(rec, "count") {
        Some(AttrValue::Number(n)) => Some(*n),
        _ => None,
    }
}

fn event(kind: EventKind, id: &str, list_id: &str) -> DomainEvent {
    DomainEvent {
        kind,
        payload: Todo {
            id: id.to_string(),
            list_id: list_id.to_string(),
            title: "t".to_string(),
            description: "d".to_string(),
        },
    }
}

#[test]
fn keys_follow_the_scheme() {
    assert_eq!(partition_key("L1"), "ITEM#L1");
    assert_eq!(item_sort_key("01H"), "ID#01H");
    assert_eq!(item_sort_prefix(), "ID#");
    assert_eq!(counter_sort_key(), "COUNTER");
}

#[test]
fn key_order_is_by_code_point() {
    assert!(str_lt("ID#A", "ID#B"));
    assert!(!str_lt("ID#B", "ID#A"));
    assert!(str_lt("ID#", "ID#A"));
    assert!(!str_lt("ID#A", "ID#A"));
    assert!(str_lt("Z", "a"));
    assert!(str_starts_with("ID#01", "ID#"));
    assert!(!str_starts_with("COUNTER", "ID#"));
    assert!(str_starts_with("x", ""));
    assert!(!str_starts_with("ID", "ID#"));
}

#[test]
fn concrete_scenario_create_list_delete_count() {
    let mut store = MemoryStore::new();
    let created = create_todo(&mut store, some("L1"), body("Buy milk", "2%"), "01HZX".to_string()).unwrap();
    assert_eq!(created.payload.id, "01HZX");
    assert_eq!(created.payload.list_id, "L1");
    let items = list_todos(&store, some("L1")).unwrap();
    assert_eq!(items.len(), 1);
    assert_eq!(items[0].id, "01HZX");
    assert_eq!(items[0].title, "Buy milk");
    assert_eq!(items[0].description, "2%");
    let deleted = delete_todo(&mut store, some("L1"), some("01HZX")).unwrap();
    assert_eq!(deleted.kind, EventKind::ItemDeleted);
    let items = list_todos(&store, some("L1")).unwrap();
    assert!(items.is_empty());
    consume_event(&mut store, &created).unwrap();
    assert_eq!(counter(&store, "L1"), Some(1));
    consume_event(&mut store, &deleted).unwrap();
    assert_eq!(counter(&store, "L1"), Some(0));
}

#[test]
fn list_of_a_list_never_written_is_empty() {
    let store = MemoryStore::new();
    let items = list_todos(&store, some("nobody")).unwrap();
    assert!(items.is_empty());
}

#[test]
fn create_then_list_gives_the_item_once_in_id_order() {
    let mut store = MemoryStore::new();
    create_todo(&mut store, some("L1"), body("second", "b"), "01B".to_string()).unwrap();
    create_todo(&mut store, some("L1"), body("first", "a"), "01A".to_string()).unwrap();
    create_todo(&mut store, some("L2"), body("elsewhere", "c"), "01C".to_string()).unwrap();
    create_todo(&mut store, some("L1"), body("third", "d"), "01D".to_string()).unwrap();
    let items = list_todos(&store, some("L1")).unwrap();
    let ids: Vec<&str> = items.iter().map(|t| t.id.as_str()).collect();
    assert_eq!(ids, vec!["01A", "01B", "01D"]);
    assert_eq!(items.iter().filter(|t| t.id == "01D").count(), 1);
    assert_eq!(items[2].title, "third");
    assert_eq!(items[2].description, "d");
}

#[test]
fn deleted_item_is_not_listed() {
    let mut store = MemoryStore::new();
    create_todo(&mut store, some("L1"), body("a", "a"), "01A".to_string()).unwrap();
    create_todo(&mut store, some("L1"), body("b", "b"), "01B".to_string()).unwrap();
    delete_todo(&mut store, some("L1"), some("01A")).unwrap();
    let items = list_todos(&store, some("L1")).unwrap();
    assert_eq!(items.len(), 1);
    assert!(items.iter().all(|t| t.id != "01A"));
}

#[test]
fn deleting_a_missing_item_is_a_storage_error() {
    let mut store = MemoryStore::new();
    let r = delete_todo(&mut store, some("L1"), some("nope"));
    assert!(matches!(r, Err(TodoError::Storage(StorageError::InconsistentState))));
    create_todo(&mut store, some("L1"), body("a", "a"), "01A".to_string()).unwrap();
    delete_todo(&mut store, some("L1"), some("01A")).unwrap();
    let r = delete_todo(&mut store, some("L1"), some("01A"));
    assert!(matches!(r, Err(TodoError::Storage(StorageError::InconsistentState))));
}

#[test]
fn counter_converges_regardless_of_order() {
    let events = vec![
        event(EventKind::ItemCreated, "1", "L1"),
        event(EventKind::ItemCreated, "2", "L1"),
        event(EventKind::ItemDeleted, "1", "L1"),
        event(EventKind::ItemCreated, "3", "L1"),
        event(EventKind::ItemCreated, "9", "L2"),
    ];
    let orders: [[usize; 5]; 3] = [[0, 1, 2, 3, 4], [2, 4, 3, 1, 0], [4, 2, 0, 3, 1]];
    for order in orders.iter() {
        let mut store = MemoryStore::new();
        for &i in order.iter() {
            consume_event(&mut store, &events[i]).unwrap();
        }
        assert_eq!(counter(&store, "L1"), Some(2));
        assert_eq!(counter(&store, "L2"), Some(1));
    }
}

#[test]
fn duplicate_delivery_is_applied_twice() {
    let mut store = MemoryStore::new();
    let e = event(EventKind::ItemCreated, "1", "L1");
    consume_event(&mut store, &e).unwrap();
    consume_event(&mut store, &e).unwrap();
    assert_eq!(counter(&store, "L1"), Some(2));
}

#[test]
fn counter_lives_beside_items_but_is_not_listed() {
    let mut store = MemoryStore::new();
    let created = create_todo(&mut store, some("L1"), body("a", "a"), "01A".to_string()).unwrap();
    consume_event(&mut store, &created).unwrap();
    let items = list_todos(&store, some("L1")).unwrap();
    assert_eq!(items.len(), 1);
    assert_eq!(counter(&store, "L1"), Some(1));
}

#[test]
fn validation_errors_leave_the_store_alone() {
    let mut store = MemoryStore::new();
    let r = create_todo(&mut store, None, body("a", "a"), "01A".to_string());
    assert!(matches!(r, Err(TodoError::Validation(_))));
    let r = create_todo(&mut store, some("L1"), None, "01A".to_string());
    assert!(matches!(r, Err(TodoError::Validation(_))));
    assert!(list_todos(&store, some("L1")).unwrap().is_empty());
    assert!(matches!(list_todos(&store, None), Err(TodoError::Validation(_))));
    let r = delete_todo(&mut store, some("L1"), None);
    assert!(matches!(r, Err(TodoError::Validation(_))));
}

#[test]
fn put_replaces_and_delete_returns_the_old_record() {
    let mut store = MemoryStore::new();
    let rec = |v: &str| Record {
        attributes: vec![Attribute { name: "v".to_string(), value: AttrValue::Text(v.to_string()) }],
    };
    store.put(PutRequest { partition: "P".to_string(), sort: "S".to_string(), record: rec("one") });
    store.put(PutRequest { partition: "P".to_string(), sort: "S".to_string(), record: rec("two") });
    let got = store.get("P", "S").unwrap();
    assert!(matches!(find_attribute(got, "v"), Some(AttrValue::Text(s)) if s == "two"));
    let old = store.delete(&KeyRequest { partition: "P".to_string(), sort: "S".to_string() }).unwrap();
    assert!(matches!(find_attribute(&old, "v"), Some(AttrValue::Text(s)) if s == "two"));
    assert!(store.get("P", "S").is_none());
    assert!(store.delete(&KeyRequest { partition: "P".to_string(), sort: "S".to_string() }).is_none());
}

#[test]
fn query_is_ordered_and_stays_in_its_partition() {
    let mut store = MemoryStore::new();
    for (p, s) in [("A", "ID#3"), ("B", "ID#1"), ("A", "ID#1"), ("A", "COUNTER"), ("A", "ID#2"), ("AB", "ID#0")] {
        store.put(PutRequest { partition: p.to_string(), sort: s.to_string(), record: Record { attributes: vec![] } });
    }
    let found = store.query(&QueryRequest { partition: "A".to_string(), prefix: "ID#".to_string() });
    let sorts: Vec<&str> = found.iter().map(|e| e.sort.as_str()).collect();
    assert_eq!(sorts, vec!["ID#1", "ID#2", "ID#3"]);
}

#[test]
fn increment_creates_then_adds() {
    let mut store = MemoryStore::new();
    let req = |d: i64| IncrementRequest { partition: "P".to_string(), sort: "COUNTER".to_string(), delta: d };
    store.increment(&req(-1)).unwrap();
    assert!(matches!(find_attribute(store.get("P", "COUNTER").unwrap(), "count"), Some(AttrValue::Number(-1))));
    store.increment(&req(5)).unwrap();
    assert!(matches!(find_attribute(store.get("P", "COUNTER").unwrap(), "count"), Some(AttrValue::Number(4))));
}

#[test]
fn increment_refuses_a_non_number_and_overflow() {
    let mut store = MemoryStore::new();
    store.put(PutRequest {
        partition: "P".to_string(),
        sort: "T".to_string(),
        record: Record { attributes: vec![Attribute { name: "count".to_string(), value: AttrValue::Text("x".to_string()) }] },
    });
    assert!(store.increment(&IncrementRequest { partition: "P".to_string(), sort: "T".to_string(), delta: 1 }).is_err());
    let req = |d: i64| IncrementRequest { partition: "P".to_string(), sort: "N".to_string(), delta: d };
    store.increment(&req(i64::MAX)).unwrap();
    assert!(store.increment(&req(1)).is_err());
    assert!(matches!(find_attribute(store.get("P", "N").unwrap(), "count"), Some(AttrValue::Number(n)) if *n == i64::MAX));
}
