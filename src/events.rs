//! Domain events and the counter they maintain.
use vstd::prelude::*;
use vstd::string::StringExecFns;
use crate::keys::{counter_key, counter_sort_key, partition_key, spec_partition_key};
use crate::model::Todo;

verus! {

/// The two mutations that are announced.
#[derive(Clone, Copy, Debug, PartialEq, Eq, Structural)]
pub enum EventKind {
    ItemCreated,
    ItemDeleted,
}

pub open spec fn spec_kind_name(k: EventKind) -> Seq<char> {
    match k {
        EventKind::ItemCreated => "ITEM_CREATED"@,
        EventKind::ItemDeleted => "ITEM_DELETED"@,
    }
}

impl EventKind {
    /// The event type written on the bus.
    pub fn name(&self) -> (r: String)
        ensures
            r@ == spec_kind_name(*self),
    {
        match self {
            EventKind::ItemCreated => String::from_str("ITEM_CREATED"),
            EventKind::ItemDeleted => String::from_str("ITEM_DELETED"),
        }
    }

    /// The kind whose name is `name`, if any.
    pub fn from_name(name: &str) -> (r: Option<EventKind>)
        ensures
            match r {
                Some(k) => spec_kind_name(k) == name@,
                None => name@ != spec_kind_name(EventKind::ItemCreated) && name@
                    != spec_kind_name(EventKind::ItemDeleted),
            },
    {
        let given = String::from_str(name);
        if given == String::from_str("ITEM_CREATED") {
            Some(EventKind::ItemCreated)
        } else if given == String::from_str("ITEM_DELETED") {
            Some(EventKind::ItemDeleted)
        } else {
            None
        }
    }
}

/// A mutation, announced once with the item it concerns.
#[derive(Clone, Debug)]
pub struct DomainEvent {
    pub kind: EventKind,
    pub payload: Todo,
}

/// How much an event moves its list's counter.
pub open spec fn spec_delta(k: EventKind) -> int {
    match k {
        EventKind::ItemCreated => 1,
        EventKind::ItemDeleted => -1,
    }
}

/// An atomic increment of a numeric attribute, creating the target if absent.
#[derive(Debug)]
pub struct IncrementRequest {
    pub partition: String,
    pub sort: String,
    pub delta: i64,
}

/// What the counter consumer asks of the store for one delivered event: add
/// the event's delta to the counter of the item's list.
pub fn counter_update(event: &DomainEvent) -> (r: IncrementRequest)
    ensures
        r.partition@ == spec_partition_key(event.payload.list_id@),
        r.sort@ == counter_key(),
        r.delta as int == spec_delta(event.kind),
{
    let delta: i64 = match event.kind {
        EventKind::ItemCreated => 1,
        EventKind::ItemDeleted => -1,
    };
    IncrementRequest {
        partition: partition_key(event.payload.list_id.as_str()),
        sort: counter_sort_key(),
        delta,
    }
}

} // verus!
