use todo_lists::errors::DynamoDBError;
use todo_lists::model::{find_attribute, AttrValue, Attribute, Record, Todo};

fn text(name: &str, value: &str) -> Attribute {
    Attribute { name: name.to_string(), value: AttrValue::Text(value.to_string()) }
}

#[test]
fn record_round_trip() {
    let t = Todo {
        id: "01A".to_string(),
        list_id: "L1".to_string(),
        title: "Buy milk".to_string(),
        description: "2%".to_string(),
    };
    let back = Todo::try_from(&t.to_record()).unwrap();
    assert_eq!(back.id, "01A");
    assert_eq!(back.list_id, "L1");
    assert_eq!(back.title, "Buy milk");
    assert_eq!(back.description, "2%");
}

#[test]
fn decode_ignores_extra_attributes_and_order() {
    let rec = Record {
        attributes: vec![
            text("description", "d"),
            text("PK", "ITEM#L"),
            text("title", "t"),
            text("list_id", "L"),
            text("id", "I"),
        ],
    };
    let t = Todo::try_from(&rec).unwrap();
    assert_eq!((t.id.as_str(), t.list_id.as_str(), t.title.as_str(), t.description.as_str()), ("I", "L", "t", "d"));
}

#[test]
fn decode_reports_the_first_bad_field() {
    let r = Todo::try_from(&Record { attributes: vec![] });
    assert!(matches!(r, Err(DynamoDBError::MissingAttribute { attribute }) if attribute == "id"));
    let rec = Record { attributes: vec![text("id", "I"), Attribute { name: "list_id".to_string(), value: AttrValue::Other }] };
    assert!(matches!(Todo::try_from(&rec), Err(DynamoDBError::InvalidAttribute { attribute }) if attribute == "list_id"));
    let rec = Record { attributes: vec![text("id", "I"), text("list_id", "L"), text("title", "t")] };
    assert!(matches!(Todo::try_from(&rec), Err(DynamoDBError::MissingAttribute { attribute }) if attribute == "description"));
}

#[test]
fn first_attribute_of_a_name_wins() {
    let mut rec = Record { attributes: vec![text("a", "1"), text("a", "2")] };
    assert!(matches!(find_attribute(&rec, "a"), Some(AttrValue::Text(s)) if s == "1"));
    rec.set_attribute("a".to_string(), AttrValue::Number(7));
    assert!(matches!(find_attribute(&rec, "a"), Some(AttrValue::Number(7))));
    assert_eq!(rec.attributes.len(), 2);
    rec.set_attribute("b".to_string(), AttrValue::Other);
    assert_eq!(rec.attributes.len(), 3);
    assert!(find_attribute(&rec, "c").is_none());
}
