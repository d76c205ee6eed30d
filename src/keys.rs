//! Key scheme: every item of a list and the list's counter share one
//! partition, `ITEM#<list_id>`; items are sorted by `ID#<item_id>`.
use vstd::prelude::*;
use vstd::string::StringExecFns;

verus! {

/// Prefix of every list partition key.
pub open spec fn partition_prefix() -> Seq<char> {
    seq!['I', 'T', 'E', 'M', '#']
}

/// Prefix of every item sort key.
pub open spec fn item_prefix() -> Seq<char> {
    seq!['I', 'D', '#']
}

/// Sort key reserved for a list's counter.
pub open spec fn counter_key() -> Seq<char> {
    seq!['C', 'O', 'U', 'N', 'T', 'E', 'R']
}

pub open spec fn spec_partition_key(list_id: Seq<char>) -> Seq<char> {
    partition_prefix() + list_id
}

pub open spec fn spec_item_sort_key(item_id: Seq<char>) -> Seq<char> {
    item_prefix() + item_id
}

/// The partition key of a list: `ITEM#<list_id>`.
pub fn partition_key(list_id: &str) -> (r: String)
    ensures
        r@ == spec_partition_key(list_id@),
{
    let mut k = String::from_str("ITEM#");
    proof {
        reveal_strlit("ITEM#");
    }
    k.append(list_id);
    k
}

/// The sort key of an item: `ID#<item_id>`.
pub fn item_sort_key(item_id: &str) -> (r: String)
    ensures
        r@ == spec_item_sort_key(item_id@),
{
    let mut k = String::from_str("ID#");
    proof {
        reveal_strlit("ID#");
    }
    k.append(item_id);
    k
}

/// The prefix that selects a partition's items in a scan: `ID#`.
pub fn item_sort_prefix() -> (r: String)
    ensures
        r@ == item_prefix(),
{
    proof {
        reveal_strlit("ID#");
    }
    String::from_str("ID#")
}

/// The sort key of a list's counter: `COUNTER`.
pub fn counter_sort_key() -> (r: String)
    ensures
        r@ == counter_key(),
{
    proof {
        reveal_strlit("COUNTER");
    }
    String::from_str("COUNTER")
}

/// The counter's sort key is not an item sort key.
pub proof fn lemma_counter_is_not_item()
    ensures
        !is_prefix(item_prefix(), counter_key()),
{
    assert(counter_key().subrange(0, 3)[0] != item_prefix()[0]);
}

pub open spec fn is_prefix(p: Seq<char>, s: Seq<char>) -> bool {
    p.len() <= s.len() && s.subrange(0, p.len() as int) == p
}

} // verus!
