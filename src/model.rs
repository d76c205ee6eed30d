//! Stored records and the item entity.
//!
//! A record is a list of named attributes, read from and written to the
//! store. An item decodes from a record only when each of its four fields is
//! present as a text attribute; every other shape is a specific error.
use vstd::prelude::*;
use vstd::string::StringExecFns;
use crate::errors::{DecodeFailure, DynamoDBError};

verus! {

/// The value of one stored attribute, as far as this library reads it.
#[derive(Clone, Debug)]
pub enum AttrValue {
    Text(String),
    Number(i64),
    Other,
}

pub enum AttrModel {
    Text(Seq<char>),
    Number(int),
    Other,
}

impl View for AttrValue {
    type V = AttrModel;

    open spec fn view(&self) -> AttrModel {
        match self {
            AttrValue::Text(s) => AttrModel::Text(s@),
            AttrValue::Number(n) => AttrModel::Number(*n as int),
            AttrValue::Other => AttrModel::Other,
        }
    }
}

#[derive(Clone, Debug)]
pub struct Attribute {
    pub name: String,
    pub value: AttrValue,
}

impl View for Attribute {
    type V = (Seq<char>, AttrModel);

    open spec fn view(&self) -> (Seq<char>, AttrModel) {
        (self.name@, self.value@)
    }
}

/// A stored record: its attributes in the order they were given.
#[derive(Clone, Debug)]
pub struct Record {
    pub attributes: Vec<Attribute>,
}

pub type RecordModel = Seq<(Seq<char>, AttrModel)>;

impl View for Record {
    type V = RecordModel;

    open spec fn view(&self) -> RecordModel {
        attrs_view(self.attributes@)
    }
}

pub open spec fn attrs_view(attrs: Seq<Attribute>) -> RecordModel {
    attrs.map_values(|a: Attribute| a@)
}

/// The value of the first attribute named `name`, if any.
pub open spec fn lookup(rec: RecordModel, name: Seq<char>) -> Option<AttrModel>
    decreases rec.len(),
{
    if rec.len() == 0 {
        None
    } else if rec[0].0 == name {
        Some(rec[0].1)
    } else {
        lookup(rec.drop_first(), name)
    }
}

/// A field of an item: present and holding text, or the failure it gives.
pub open spec fn text_field(rec: RecordModel, name: Seq<char>) -> Result<Seq<char>, DecodeFailure> {
    match lookup(rec, name) {
        None => Err(DecodeFailure::MissingAttribute(name)),
        Some(AttrModel::Text(s)) => Ok(s),
        Some(_) => Err(DecodeFailure::InvalidAttribute(name)),
    }
}

pub struct TodoModel {
    pub id: Seq<char>,
    pub list_id: Seq<char>,
    pub title: Seq<char>,
    pub description: Seq<char>,
}

/// An item of a list.
#[derive(Clone, Debug)]
pub struct Todo {
    pub id: String,
    pub list_id: String,
    pub title: String,
    pub description: String,
}

impl View for Todo {
    type V = TodoModel;

    open spec fn view(&self) -> TodoModel {
        TodoModel {
            id: self.id@,
            list_id: self.list_id@,
            title: self.title@,
            description: self.description@,
        }
    }
}

/// Decoding a record: the fields are read in the order `id`, `list_id`,
/// `title`, `description`, and the first one that fails decides the error.
pub open spec fn decode(rec: RecordModel) -> Result<TodoModel, DecodeFailure> {
    match text_field(rec, "id"@) {
        Err(e) => Err(e),
        Ok(id) => match text_field(rec, "list_id"@) {
            Err(e) => Err(e),
            Ok(list_id) => match text_field(rec, "title"@) {
                Err(e) => Err(e),
                Ok(title) => match text_field(rec, "description"@) {
                    Err(e) => Err(e),
                    Ok(description) => Ok(TodoModel { id, list_id, title, description }),
                },
            },
        },
    }
}

/// The record written for an item: its four fields as text attributes.
pub open spec fn encode(t: TodoModel) -> RecordModel {
    seq![
        ("id"@, AttrModel::Text(t.id)),
        ("list_id"@, AttrModel::Text(t.list_id)),
        ("title"@, AttrModel::Text(t.title)),
        ("description"@, AttrModel::Text(t.description)),
    ]
}

/// The first attribute of `rec` named `name`.
pub fn find_attribute<'a>(rec: &'a Record, name: &str) -> (r: Option<&'a AttrValue>)
    ensures
        match r {
            None => lookup(rec@, name@) is None,
            Some(v) => lookup(rec@, name@) == Some(v@),
        },
{
    let wanted = String::from_str(name);
    let n = rec.attributes.len();
    let mut i: usize = 0;
    assert(rec@.subrange(0, n as int) =~= rec@);
    while i < n
        invariant
            n == rec.attributes@.len(),
            i <= n,
            wanted@ == name@,
            lookup(rec@, name@) == lookup(rec@.subrange(i as int, n as int), name@),
        decreases n - i,
    {
        let a = &rec.attributes[i];
        assert(rec@.subrange(i as int, n as int).drop_first() =~= rec@.subrange(i + 1, n as int));
        if a.name == wanted {
            return Some(&a.value);
        }
        i = i + 1;
    }
    None
}

/// The text of field `name`, or the decoding error it gives.
fn text_attribute(rec: &Record, name: &str) -> (r: Result<String, DynamoDBError>)
    ensures
        match r {
            Ok(s) => text_field(rec@, name@) == Ok::<Seq<char>, DecodeFailure>(s@),
            Err(e) => text_field(rec@, name@) == Err::<Seq<char>, DecodeFailure>(e@),
        },
{
    match find_attribute(rec, name) {
        None => Err(DynamoDBError::MissingAttribute { attribute: String::from_str(name) }),
        Some(AttrValue::Text(s)) => Ok(s.clone()),
        Some(_) => Err(DynamoDBError::InvalidAttribute { attribute: String::from_str(name) }),
    }
}

impl Todo {
    /// Decodes an item from a stored record.
    pub fn try_from(rec: &Record) -> (r: Result<Todo, DynamoDBError>)
        ensures
            match r {
                Ok(t) => decode(rec@) == Ok::<TodoModel, DecodeFailure>(t@),
                Err(e) => decode(rec@) == Err::<TodoModel, DecodeFailure>(e@),
            },
    {
        let id = match text_attribute(rec, "id") {
            Ok(s) => s,
            Err(e) => return Err(e),
        };
        let list_id = match text_attribute(rec, "list_id") {
            Ok(s) => s,
            Err(e) => return Err(e),
        };
        let title = match text_attribute(rec, "title") {
            Ok(s) => s,
            Err(e) => return Err(e),
        };
        let description = match text_attribute(rec, "description") {
            Ok(s) => s,
            Err(e) => return Err(e),
        };
        Ok(Todo { id, list_id, title, description })
    }

    /// The record stored for this item.
    pub fn to_record(&self) -> (r: Record)
        ensures
            r@ == encode(self@),
    {
        let mut attributes: Vec<Attribute> = Vec::new();
        attributes.push(Attribute { name: String::from_str("id"), value: AttrValue::Text(self.id.clone()) });
        attributes.push(Attribute { name: String::from_str("list_id"), value: AttrValue::Text(self.list_id.clone()) });
        attributes.push(Attribute { name: String::from_str("title"), value: AttrValue::Text(self.title.clone()) });
        attributes.push(
            Attribute { name: String::from_str("description"), value: AttrValue::Text(self.description.clone()) },
        );
        let r = Record { attributes };
        assert(r@ =~= encode(self@));
        r
    }
}

/// Decoding what was encoded gives the item back.
pub proof fn lemma_decode_encode(t: TodoModel)
    ensures
        decode(encode(t)) == Ok::<TodoModel, DecodeFailure>(t),
{
    reveal_with_fuel(lookup, 5);
    reveal_strlit("id");
    reveal_strlit("list_id");
    reveal_strlit("title");
    reveal_strlit("description");
    let r = encode(t);
    assert(r.drop_first() =~= seq![r[1], r[2], r[3]]);
    assert(r.drop_first().drop_first() =~= seq![r[2], r[3]]);
    assert(r.drop_first().drop_first().drop_first() =~= seq![r[3]]);
    assert("id"@.len() == 2 && "list_id"@.len() == 7);
    assert("title"@.len() == 5 && "description"@.len() == 11);
}

/// `rec` with the first attribute named `name` set to `v`, or with it added
/// at the end when there is none.
pub open spec fn with_attr(rec: RecordModel, name: Seq<char>, v: AttrModel) -> RecordModel
    decreases rec.len(),
{
    if rec.len() == 0 {
        seq![(name, v)]
    } else if rec[0].0 == name {
        rec.update(0, (name, v))
    } else {
        seq![rec[0]] + with_attr(rec.drop_first(), name, v)
    }
}

pub proof fn lemma_lookup_with_attr(rec: RecordModel, name: Seq<char>, v: AttrModel)
    ensures
        lookup(with_attr(rec, name, v), name) == Some(v),
    decreases rec.len(),
{
    if rec.len() > 0 && rec[0].0 != name {
        lemma_lookup_with_attr(rec.drop_first(), name, v);
        assert((seq![rec[0]] + with_attr(rec.drop_first(), name, v)).drop_first() =~= with_attr(
            rec.drop_first(),
            name,
            v,
        ));
    }
}

proof fn lemma_with_attr_at(rec: RecordModel, name: Seq<char>, v: AttrModel, i: int)
    requires
        0 <= i <= rec.len(),
        forall|j: int| 0 <= j < i ==> rec[j].0 != name,
        i < rec.len() ==> rec[i].0 == name,
    ensures
        with_attr(rec, name, v) == if i < rec.len() {
            rec.update(i, (name, v))
        } else {
            rec.push((name, v))
        },
    decreases rec.len(),
{
    if rec.len() == 0 {
        assert(rec.push((name, v)) =~= seq![(name, v)]);
    } else if i > 0 {
        lemma_with_attr_at(rec.drop_first(), name, v, i - 1);
        if i < rec.len() {
            assert(seq![rec[0]] + rec.drop_first().update(i - 1, (name, v)) =~= rec.update(i, (name, v)));
        } else {
            assert(seq![rec[0]] + rec.drop_first().push((name, v)) =~= rec.push((name, v)));
        }
    }
}

impl AttrValue {
    /// A copy of this value.
    pub fn copied(&self) -> (r: AttrValue)
        ensures
            r@ == self@,
    {
        match self {
            AttrValue::Text(s) => AttrValue::Text(s.clone()),
            AttrValue::Number(n) => AttrValue::Number(*n),
            AttrValue::Other => AttrValue::Other,
        }
    }
}

impl Record {
    /// A record with no attributes.
    pub fn new() -> (r: Record)
        ensures
            r@ == Seq::<(Seq<char>, AttrModel)>::empty(),
    {
        let r = Record { attributes: Vec::new() };
        assert(r@ =~= Seq::<(Seq<char>, AttrModel)>::empty());
        r
    }

    /// A copy of this record.
    pub fn copied(&self) -> (r: Record)
        ensures
            r@ == self@,
    {
        let mut attributes: Vec<Attribute> = Vec::new();
        let n = self.attributes.len();
        let mut i: usize = 0;
        while i < n
            invariant
                n == self.attributes@.len(),
                i <= n,
                attributes@.len() == i,
                attrs_view(attributes@) =~= self@.subrange(0, i as int),
            decreases n - i,
        {
            let a = &self.attributes[i];
            let copy = Attribute { name: a.name.clone(), value: a.value.copied() };
            assert(copy@ == self@[i as int]);
            let ghost prev = attributes@;
            attributes.push(copy);
            assert forall|j: int| 0 <= j <= i implies #[trigger] attrs_view(attributes@)[j]
                == self@[j] by {
                if j < i {
                    assert(attributes@[j] == prev[j]);
                    assert(attrs_view(prev)[j] == self@.subrange(0, i as int)[j]);
                }
            }
            assert(attrs_view(attributes@) =~= self@.subrange(0, i + 1));
            i = i + 1;
        }
        Record { attributes }
    }

    /// Sets the first attribute named `name` to `value`, or adds it at the end.
    pub fn set_attribute(&mut self, name: String, value: AttrValue)
        ensures
            final(self)@ == with_attr(old(self)@, name@, value@),
    {
        let n = self.attributes.len();
        let mut i: usize = 0;
        while i < n && !(self.attributes[i].name == name)
            invariant
                n == self.attributes@.len(),
                i <= n,
                forall|j: int| 0 <= j < i ==> self@[j].0 != name@,
            decreases n - i,
        {
            i = i + 1;
        }
        proof {
            lemma_with_attr_at(self@, name@, value@, i as int);
        }
        let ghost nv = (name@, value@);
        if i < n {
            self.attributes.set(i, Attribute { name, value });
            assert(self@ =~= old(self)@.update(i as int, nv));
        } else {
            self.attributes.push(Attribute { name, value });
            assert(self@ =~= old(self)@.push(nv));
        }
    }
}

} // verus!
