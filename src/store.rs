//! An in-memory store with the adapter's operations: put, delete returning
//! the old record, ordered prefix scan within a partition, and atomic
//! increment. Records are kept sorted by (partition, sort key); its view is
//! the map from keys to records.
use vstd::prelude::*;
use vstd::string::StringExecFns;
use crate::commands::{KeyRequest, PutRequest, QueryRequest};
use crate::errors::StoreFailure;
use crate::events::IncrementRequest;
use crate::keys::is_prefix;
use crate::model::{find_attribute, lookup, with_attr, AttrModel, AttrValue, Record, RecordModel};
use crate::text::{
    lemma_lt_irreflexive, lemma_lt_total, lemma_lt_transitive, seq_lt,
    str_lt, str_starts_with,
};

verus! {

/// A record with its key.
#[derive(Debug)]
pub struct Entry {
    pub partition: String,
    pub sort: String,
    pub record: Record,
}

pub type Key = (Seq<char>, Seq<char>);

pub type Table = Map<Key, RecordModel>;

pub open spec fn entry_key(e: Entry) -> Key {
    (e.partition@, e.sort@)
}

/// Keys order by partition, then by sort key.
pub open spec fn key_lt(a: Key, b: Key) -> bool {
    seq_lt(a.0, b.0) || (a.0 == b.0 && seq_lt(a.1, b.1))
}

proof fn lemma_key_irreflexive(a: Key)
    ensures
        !key_lt(a, a),
{
    lemma_lt_irreflexive(a.0);
    lemma_lt_irreflexive(a.1);
}

proof fn lemma_key_total(a: Key, b: Key)
    ensures
        a != b ==> key_lt(a, b) || key_lt(b, a),
{
    lemma_lt_total(a.0, b.0);
    lemma_lt_total(a.1, b.1);
}

proof fn lemma_key_transitive(a: Key, b: Key, c: Key)
    requires
        key_lt(a, b),
        key_lt(b, c),
    ensures
        key_lt(a, c),
{
    if seq_lt(a.0, b.0) && seq_lt(b.0, c.0) {
        lemma_lt_transitive(a.0, b.0, c.0);
    } else if seq_lt(a.1, b.1) && seq_lt(b.1, c.1) && a.0 == b.0 && b.0 == c.0 {
        lemma_lt_transitive(a.1, b.1, c.1);
    }
}

pub open spec fn sorted(s: Seq<Entry>) -> bool {
    forall|i: int, j: int| 0 <= i < j < s.len() ==> key_lt(entry_key(s[i]), entry_key(s[j]))
}

pub open spec fn has_key(s: Seq<Entry>, k: Key) -> bool {
    exists|i: int| 0 <= i < s.len() && entry_key(s[i]) == k
}

/// The map that a sequence of entries stands for.
pub open spec fn table_of(s: Seq<Entry>) -> Table {
    Map::new(
        |k: Key| has_key(s, k),
        |k: Key| s[choose|i: int| 0 <= i < s.len() && entry_key(s[i]) == k].record@,
    )
}

proof fn lemma_sorted_unique(s: Seq<Entry>, i: int, j: int)
    requires
        sorted(s),
        0 <= i < s.len(),
        0 <= j < s.len(),
        entry_key(s[i]) == entry_key(s[j]),
    ensures
        i == j,
{
    lemma_key_irreflexive(entry_key(s[i]));
}

proof fn lemma_table_at(s: Seq<Entry>, i: int)
    requires
        sorted(s),
        0 <= i < s.len(),
    ensures
        table_of(s).contains_key(entry_key(s[i])),
        table_of(s)[entry_key(s[i])] == s[i].record@,
{
    let k = entry_key(s[i]);
    assert(has_key(s, k));
    let j = choose|j: int| 0 <= j < s.len() && entry_key(s[j]) == k;
    lemma_sorted_unique(s, i, j);
}

/// A sorted sequence stands for `t` when it holds each of `t`'s keys with its
/// record, and nothing else.
proof fn lemma_table_ext(s: Seq<Entry>, t: Table)
    requires
        sorted(s),
        forall|i: int|
            0 <= i < s.len() ==> t.contains_key(entry_key(#[trigger] s[i])) && t[entry_key(s[i])]
                == s[i].record@,
        forall|k: Key| t.contains_key(k) ==> has_key(s, k),
    ensures
        table_of(s) == t,
{
    assert forall|k: Key| #[trigger] table_of(s).contains_key(k) <==> t.contains_key(k) by {}
    assert forall|k: Key| table_of(s).contains_key(k) implies #[trigger] table_of(s)[k] == t[k] by {
        let i = choose|i: int| 0 <= i < s.len() && entry_key(s[i]) == k;
        lemma_table_at(s, i);
    }
    assert(table_of(s) =~= t);
}

/// A key that `locate` did not find is not in the table.
proof fn lemma_absent(s: Seq<Entry>, pos: int, k: Key)
    requires
        sorted(s),
        0 <= pos <= s.len(),
        forall|j: int| 0 <= j < pos ==> key_lt(entry_key(#[trigger] s[j]), k),
        pos < s.len() ==> !key_lt(entry_key(s[pos]), k),
        !(pos < s.len() && entry_key(s[pos]) == k),
    ensures
        !table_of(s).contains_key(k),
{
    if table_of(s).contains_key(k) {
        let i = choose|i: int| 0 <= i < s.len() && entry_key(s[i]) == k;
        lemma_key_irreflexive(k);
        if i > pos {
            lemma_key_total(entry_key(s[pos]), k);
            lemma_key_transitive(k, entry_key(s[pos]), k);
        }
    }
}

/// After looking at the first `i` entries: `out` holds those of them that
/// match, in order, and `idx` says where each came from.
#[verifier::opaque]
spec fn scan_inv(s: Seq<Entry>, out: Seq<Entry>, idx: Seq<int>, p: Seq<char>, prefix: Seq<char>, i: int) -> bool {
    &&& out.len() == idx.len()
    &&& forall|j: int| 0 <= j < idx.len() ==> 0 <= #[trigger] idx[j] < i
    &&& forall|a: int, b: int| 0 <= a < b < idx.len() ==> idx[a] < idx[b]
    &&& forall|j: int|
        0 <= j < out.len() ==> {
            &&& entry_key(#[trigger] out[j]) == entry_key(s[idx[j]])
            &&& out[j].record@ == s[idx[j]].record@
            &&& out[j].partition@ == p
            &&& is_prefix(prefix, out[j].sort@)
        }
    &&& forall|m: int|
        0 <= m < i && (#[trigger] s[m]).partition@ == p && is_prefix(prefix, s[m].sort@) ==> exists|
            j: int,
        | 0 <= j < out.len() && out[j].sort@ == s[m].sort@
}

proof fn lemma_scan_push(
    s: Seq<Entry>,
    out: Seq<Entry>,
    idx: Seq<int>,
    c: Entry,
    p: Seq<char>,
    prefix: Seq<char>,
    i: int,
)
    requires
        scan_inv(s, out, idx, p, prefix, i),
        0 <= i < s.len(),
        entry_key(c) == entry_key(s[i]),
        c.record@ == s[i].record@,
        c.partition@ == p,
        is_prefix(prefix, c.sort@),
    ensures
        scan_inv(s, out.push(c), idx.push(i), p, prefix, i + 1),
{
    reveal(scan_inv);
    let out2 = out.push(c);
    let idx2 = idx.push(i);
    assert forall|j: int| 0 <= j < out2.len() implies {
        &&& entry_key(#[trigger] out2[j]) == entry_key(s[idx2[j]])
        &&& out2[j].record@ == s[idx2[j]].record@
        &&& out2[j].partition@ == p
        &&& is_prefix(prefix, out2[j].sort@)
    } by {
        if j < out.len() {
            assert(out2[j] == out[j] && idx2[j] == idx[j]);
        }
    }
    assert forall|m: int|
        0 <= m < i + 1 && (#[trigger] s[m]).partition@ == p && is_prefix(
            prefix,
            s[m].sort@,
        ) implies exists|j: int| 0 <= j < out2.len() && out2[j].sort@ == s[m].sort@ by {
        if m < i {
            let j = choose|j: int| 0 <= j < out.len() && out[j].sort@ == s[m].sort@;
            assert(out2[j] == out[j]);
        } else {
            assert(out2[out.len() as int] == c);
        }
    }
    assert forall|j: int| 0 <= j < idx2.len() implies 0 <= #[trigger] idx2[j] < i + 1 by {
        if j < idx.len() {
            assert(idx2[j] == idx[j]);
        }
    }
    assert forall|a: int, b: int| 0 <= a < b < idx2.len() implies idx2[a] < idx2[b] by {
        if b < idx.len() {
            assert(idx2[a] == idx[a] && idx2[b] == idx[b]);
        } else {
            assert(idx2[a] == idx[a]);
        }
    }
}

proof fn lemma_scan_skip(s: Seq<Entry>, out: Seq<Entry>, idx: Seq<int>, p: Seq<char>, prefix: Seq<char>, i: int)
    requires
        scan_inv(s, out, idx, p, prefix, i),
        0 <= i < s.len(),
        !(s[i].partition@ == p && is_prefix(prefix, s[i].sort@)),
    ensures
        scan_inv(s, out, idx, p, prefix, i + 1),
{
    reveal(scan_inv);
}

proof fn lemma_scan_done(s: Seq<Entry>, out: Seq<Entry>, idx: Seq<int>, p: Seq<char>, prefix: Seq<char>)
    requires
        sorted(s),
        scan_inv(s, out, idx, p, prefix, s.len() as int),
    ensures
        scan_result(table_of(s), p, prefix, out),
{
    reveal(scan_inv);
    assert forall|a: int, b: int| 0 <= a < b < out.len() implies seq_lt(out[a].sort@, out[b].sort@) by {
        assert(key_lt(entry_key(s[idx[a]]), entry_key(s[idx[b]])));
        lemma_lt_irreflexive(p);
    }
    assert forall|j: int| 0 <= j < out.len() implies table_of(s).contains_key(
        entry_key(#[trigger] out[j]),
    ) && table_of(s)[entry_key(out[j])] == out[j].record@ by {
        lemma_table_at(s, idx[j]);
    }
    assert forall|k: Key|
        k.0 == p && is_prefix(prefix, k.1) && #[trigger] table_of(s).contains_key(
            k,
        ) implies exists|j: int| 0 <= j < out.len() && out[j].sort@ == k.1 by {
        let m = choose|m: int| 0 <= m < s.len() && entry_key(s[m]) == k;
        assert(s[m].partition@ == p);
    }
}

/// What a prefix scan returns: the partition's records whose sort key starts
/// with the prefix, each once, in strictly increasing sort-key order.
pub open spec fn scan_result(t: Table, partition: Seq<char>, prefix: Seq<char>, r: Seq<Entry>) -> bool {
    &&& forall|i: int, j: int| 0 <= i < j < r.len() ==> seq_lt(r[i].sort@, r[j].sort@)
    &&& forall|i: int|
        0 <= i < r.len() ==> {
            &&& (#[trigger] r[i]).partition@ == partition
            &&& is_prefix(prefix, r[i].sort@)
            &&& t.contains_key(entry_key(r[i]))
            &&& t[entry_key(r[i])] == r[i].record@
        }
    &&& forall|k: Key|
        k.0 == partition && is_prefix(prefix, k.1) && #[trigger] t.contains_key(k) ==> exists|i: int|
            0 <= i < r.len() && r[i].sort@ == k.1
}

/// The attribute that holds a counter's value.
pub open spec fn count_attr() -> Seq<char> {
    "count"@
}

/// The value of the counter under `k`: 0 when absent, `None` when the
/// attribute holds something other than a number.
pub open spec fn stored_count(t: Table, k: Key) -> Option<int> {
    if !t.contains_key(k) {
        Some(0)
    } else {
        match lookup(t[k], count_attr()) {
            None => Some(0),
            Some(AttrModel::Number(n)) => Some(n),
            Some(_) => None,
        }
    }
}

pub open spec fn count_value(t: Table, k: Key) -> int {
    match stored_count(t, k) {
        Some(n) => n,
        None => 0,
    }
}

/// An increment succeeds when the target holds a number, or nothing, and the
/// sum fits in 64 bits.
pub open spec fn increment_ok(t: Table, k: Key, delta: int) -> bool {
    &&& stored_count(t, k) is Some
    &&& i64::MIN <= stored_count(t, k)->0 + delta <= i64::MAX
}

/// The table after adding `delta` to the counter under `k`, which is created
/// when absent.
pub open spec fn spec_increment(t: Table, k: Key, delta: int) -> Table {
    let base = if t.contains_key(k) {
        t[k]
    } else {
        Seq::empty()
    };
    t.insert(k, with_attr(base, count_attr(), AttrModel::Number(count_value(t, k) + delta)))
}

/// The in-memory store.
pub struct MemoryStore {
    entries: Vec<Entry>,
}

impl View for MemoryStore {
    type V = Table;

    closed spec fn view(&self) -> Table {
        table_of(self.entries@)
    }
}

fn key_before(ap: &String, asort: &String, bp: &String, bsort: &String) -> (r: bool)
    ensures
        r == key_lt((ap@, asort@), (bp@, bsort@)),
{
    str_lt(ap.as_str(), bp.as_str()) || (*ap == *bp && str_lt(asort.as_str(), bsort.as_str()))
}

impl Entry {
    fn copied(&self) -> (r: Entry)
        ensures
            entry_key(r) == entry_key(*self),
            r.record@ == self.record@,
    {
        Entry { partition: self.partition.clone(), sort: self.sort.clone(), record: self.record.copied() }
    }
}

impl MemoryStore {
    /// The entries are sorted by key, so each key is held once.
    pub closed spec fn wf(&self) -> bool {
        sorted(self.entries@)
    }

    /// An empty store.
    pub fn new() -> (r: MemoryStore)
        ensures
            r.wf(),
            r@ == Map::<Key, RecordModel>::empty(),
    {
        let r = MemoryStore { entries: Vec::new() };
        assert(r@ =~= Map::<Key, RecordModel>::empty());
        r
    }

    /// The position where key `(p, s)` is or would go, and whether it is there.
    fn locate(&self, p: &String, s: &String) -> (r: (usize, bool))
        ensures
            r.0 <= self.entries@.len(),
            forall|j: int| 0 <= j < r.0 ==> key_lt(entry_key(#[trigger] self.entries@[j]), (p@, s@)),
            r.0 < self.entries@.len() ==> !key_lt(entry_key(self.entries@[r.0 as int]), (p@, s@)),
            r.1 == (r.0 < self.entries@.len() && entry_key(self.entries@[r.0 as int]) == (p@, s@)),
    {
        let n = self.entries.len();
        let mut i: usize = 0;
        while i < n && key_before(&self.entries[i].partition, &self.entries[i].sort, p, s)
            invariant
                n == self.entries@.len(),
                i <= n,
                forall|j: int| 0 <= j < i ==> key_lt(entry_key(#[trigger] self.entries@[j]), (p@, s@)),
            decreases n - i,
        {
            i = i + 1;
        }
        let found = i < n && self.entries[i].partition == *p && self.entries[i].sort == *s;
        (i, found)
    }

    /// Stores `e` at the position that `locate` gave for its key.
    fn store_at(&mut self, pos: usize, found: bool, e: Entry)
        requires
            old(self).wf(),
            pos <= old(self).entries@.len(),
            forall|j: int|
                0 <= j < pos ==> key_lt(entry_key(#[trigger] old(self).entries@[j]), entry_key(e)),
            pos < old(self).entries@.len() ==> !key_lt(
                entry_key(old(self).entries@[pos as int]),
                entry_key(e),
            ),
            found == (pos < old(self).entries@.len() && entry_key(old(self).entries@[pos as int])
                == entry_key(e)),
        ensures
            final(self).wf(),
            final(self)@ == old(self)@.insert(entry_key(e), e.record@),
    {
        let ghost s = self.entries@;
        let ghost k = entry_key(e);
        let ghost t = table_of(s).insert(k, e.record@);
        if found {
            self.entries.set(pos, e);
            let ghost s2 = self.entries@;
            assert(s2 =~= s.update(pos as int, e));
            assert(sorted(s2)) by {
                assert forall|i: int, j: int| 0 <= i < j < s2.len() implies key_lt(
                    entry_key(s2[i]),
                    entry_key(s2[j]),
                ) by {
                    assert(entry_key(s2[i]) == entry_key(s[i]));
                    assert(entry_key(s2[j]) == entry_key(s[j]));
                }
            }
            assert forall|i: int| 0 <= i < s2.len() implies t.contains_key(
                entry_key(#[trigger] s2[i]),
            ) && t[entry_key(s2[i])] == s2[i].record@ by {
                if i != pos {
                    lemma_table_at(s, i);
                    if entry_key(s[i]) == k {
                        lemma_sorted_unique(s, i, pos as int);
                    }
                }
            }
            assert forall|q: Key| t.contains_key(q) implies has_key(s2, q) by {
                if q != k {
                    let i = choose|i: int| 0 <= i < s.len() && entry_key(s[i]) == q;
                    assert(entry_key(s2[i]) == q);
                } else {
                    assert(entry_key(s2[pos as int]) == q);
                }
            }
            proof {
                lemma_table_ext(s2, t);
            }
        } else {
            self.entries.insert(pos, e);
            let ghost s2 = self.entries@;
            assert(s2 =~= s.insert(pos as int, e));
            proof {
                if pos < s.len() {
                    lemma_key_total(entry_key(s[pos as int]), k);
                }
            }
            assert(sorted(s2)) by {
                assert forall|i: int, j: int| 0 <= i < j < s2.len() implies key_lt(
                    entry_key(s2[i]),
                    entry_key(s2[j]),
                ) by {
                    if j < pos {
                        assert(s2[i] == s[i] && s2[j] == s[j]);
                    } else if i < pos && j == pos {
                    } else if i < pos && j > pos {
                        assert(entry_key(s2[j]) == entry_key(s[j - 1]));
                    } else if i == pos {
                        assert(entry_key(s2[j]) == entry_key(s[j - 1]));
                        if j - 1 > pos {
                            lemma_key_transitive(k, entry_key(s[pos as int]), entry_key(s[j - 1]));
                        }
                    } else {
                        assert(entry_key(s2[i]) == entry_key(s[i - 1]));
                        assert(entry_key(s2[j]) == entry_key(s[j - 1]));
                    }
                }
            }
            assert forall|i: int| 0 <= i < s2.len() implies t.contains_key(
                entry_key(#[trigger] s2[i]),
            ) && t[entry_key(s2[i])] == s2[i].record@ by {
                if i != pos {
                    let oi = if i < pos {
                        i
                    } else {
                        i - 1
                    };
                    assert(s2[i] == s[oi]);
                    lemma_table_at(s, oi);
                    lemma_key_irreflexive(k);
                    if oi >= pos && oi > pos {
                        lemma_key_transitive(k, entry_key(s[pos as int]), entry_key(s[oi]));
                    }
                }
            }
            assert forall|q: Key| t.contains_key(q) implies has_key(s2, q) by {
                if q != k {
                    let i = choose|i: int| 0 <= i < s.len() && entry_key(s[i]) == q;
                    if i < pos {
                        assert(entry_key(s2[i]) == q);
                    } else {
                        assert(entry_key(s2[i + 1]) == q);
                    }
                } else {
                    assert(entry_key(s2[pos as int]) == q);
                }
            }
            proof {
                lemma_table_ext(s2, t);
            }
        }
    }

    /// Writes a record under its key, replacing what was there.
    pub fn put(&mut self, req: PutRequest)
        requires
            old(self).wf(),
        ensures
            final(self).wf(),
            final(self)@ == old(self)@.insert((req.partition@, req.sort@), req.record@),
    {
        let (pos, found) = self.locate(&req.partition, &req.sort);
        self.store_at(pos, found, Entry { partition: req.partition, sort: req.sort, record: req.record });
    }

    /// The record under a key, if any.
    pub fn get(&self, partition: &str, sort: &str) -> (r: Option<&Record>)
        requires
            self.wf(),
        ensures
            match r {
                None => !self@.contains_key((partition@, sort@)),
                Some(rec) => self@.contains_key((partition@, sort@)) && rec@ == self@[(
                    partition@,
                    sort@,
                )],
            },
    {
        let p = String::from_str(partition);
        let s = String::from_str(sort);
        let (pos, found) = self.locate(&p, &s);
        proof {
            if found {
                lemma_table_at(self.entries@, pos as int);
            } else {
                lemma_absent(self.entries@, pos as int, (p@, s@));
            }
        }
        if found {
            Some(&self.entries[pos].record)
        } else {
            None
        }
    }

    /// Removes the record under a key and returns it; nothing is removed, and
    /// `None` returned, when the key holds no record.
    pub fn delete(&mut self, req: &KeyRequest) -> (r: Option<Record>)
        requires
            old(self).wf(),
        ensures
            final(self).wf(),
            final(self)@ == old(self)@.remove((req.partition@, req.sort@)),
            match r {
                None => !old(self)@.contains_key((req.partition@, req.sort@)),
                Some(rec) => old(self)@.contains_key((req.partition@, req.sort@)) && rec@ == old(
                    self,
                )@[(req.partition@, req.sort@)],
            },
    {
        let ghost k = (req.partition@, req.sort@);
        let ghost s = self.entries@;
        let (pos, found) = self.locate(&req.partition, &req.sort);
        if !found {
            proof {
                lemma_absent(s, pos as int, k);
                assert(table_of(s).remove(k) =~= table_of(s));
            }
            return None;
        }
        proof {
            lemma_table_at(s, pos as int);
        }
        let e = self.entries.remove(pos);
        let ghost s2 = self.entries@;
        let ghost t = table_of(s).remove(k);
        assert(s2 =~= s.remove(pos as int));
        assert(sorted(s2)) by {
            assert forall|i: int, j: int| 0 <= i < j < s2.len() implies key_lt(
                entry_key(s2[i]),
                entry_key(s2[j]),
            ) by {
                let oi = if i < pos {
                    i
                } else {
                    i + 1
                };
                let oj = if j < pos {
                    j
                } else {
                    j + 1
                };
                assert(s2[i] == s[oi] && s2[j] == s[oj]);
            }
        }
        assert forall|i: int| 0 <= i < s2.len() implies t.contains_key(entry_key(#[trigger] s2[i]))
            && t[entry_key(s2[i])] == s2[i].record@ by {
            let oi = if i < pos {
                i
            } else {
                i + 1
            };
            assert(s2[i] == s[oi]);
            lemma_table_at(s, oi);
            if entry_key(s[oi]) == k {
                lemma_sorted_unique(s, oi, pos as int);
            }
        }
        assert forall|q: Key| t.contains_key(q) implies has_key(s2, q) by {
            let i = choose|i: int| 0 <= i < s.len() && entry_key(s[i]) == q;
            if i < pos {
                assert(entry_key(s2[i]) == q);
            } else {
                assert(i != pos);
                assert(entry_key(s2[i - 1]) == q);
            }
        }
        proof {
            lemma_table_ext(s2, t);
        }
        Some(e.record)
    }

    /// The records of one partition whose sort key starts with a prefix, in
    /// sort-key order.
    pub fn query(&self, req: &QueryRequest) -> (r: Vec<Entry>)
        requires
            self.wf(),
        ensures
            scan_result(self@, req.partition@, req.prefix@, r@),
    {
        let ghost s = self.entries@;
        let ghost p = req.partition@;
        let ghost prefix = req.prefix@;
        let mut out: Vec<Entry> = Vec::new();
        let ghost mut idx: Seq<int> = Seq::empty();
        let n = self.entries.len();
        let mut i: usize = 0;
        proof {
            reveal(scan_inv);
        }
        while i < n
            invariant
                s == self.entries@,
                p == req.partition@,
                prefix == req.prefix@,
                sorted(s),
                n == s.len(),
                i <= n,
                scan_inv(s, out@, idx, p, prefix, i as int),
            decreases n - i,
        {
            let e = &self.entries[i];
            let same_partition = e.partition == req.partition;
            let matches_prefix = str_starts_with(e.sort.as_str(), req.prefix.as_str());
            if same_partition && matches_prefix {
                let c = e.copied();
                let ghost prev = out@;
                let ghost prev_idx = idx;
                out.push(c);
                proof {
                    idx = idx.push(i as int);
                    lemma_scan_push(s, prev, prev_idx, c, p, prefix, i as int);
                    assert(out@ == prev.push(c));
                }
            } else {
                proof {
                    lemma_scan_skip(s, out@, idx, p, prefix, i as int);
                }
            }
            i = i + 1;
        }
        proof {
            lemma_scan_done(s, out@, idx, p, prefix);
        }
        out
    }

    /// Adds `delta` to the numeric `count` attribute of the record under a
    /// key, creating the record or the attribute when absent. Fails, and
    /// changes nothing, when the attribute holds something other than a
    /// number or the sum leaves 64 bits.
    pub fn increment(&mut self, req: &IncrementRequest) -> (r: Result<(), StoreFailure>)
        requires
            old(self).wf(),
        ensures
            final(self).wf(),
            r is Ok <==> increment_ok(old(self)@, (req.partition@, req.sort@), req.delta as int),
            r is Ok ==> final(self)@ == spec_increment(
                old(self)@,
                (req.partition@, req.sort@),
                req.delta as int,
            ),
            r is Err ==> final(self)@ == old(self)@,
    {
        let ghost k = (req.partition@, req.sort@);
        let ghost t = self@;
        let (pos, found) = self.locate(&req.partition, &req.sort);
        let mut rec: Record;
        let next: i64;
        if found {
            proof {
                lemma_table_at(self.entries@, pos as int);
            }
            let cur: i64 = match find_attribute(&self.entries[pos].record, "count") {
                None => 0,
                Some(AttrValue::Number(n)) => *n,
                Some(_) => {
                    return Err(StoreFailure { message: String::from_str("count is not a number") });
                },
            };
            next = match cur.checked_add(req.delta) {
                Some(v) => v,
                None => {
                    return Err(StoreFailure { message: String::from_str("count out of range") });
                },
            };
            rec = self.entries[pos].record.copied();
        } else {
            proof {
                lemma_absent(self.entries@, pos as int, k);
            }
            next = req.delta;
            rec = Record::new();
        }
        rec.set_attribute(String::from_str("count"), AttrValue::Number(next));
        self.store_at(
            pos,
            found,
            Entry { partition: req.partition.clone(), sort: req.sort.clone(), record: rec },
        );
        Ok(())
    }
}

} // verus!
