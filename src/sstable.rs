//! Table handles and the building of a table from records: key order, the
//! ordering key of each value, the ordering-key range, and the bytes to store.

use vstd::prelude::*;
use crate::codec::{encode_all, encode_records, lengths_fit};
use crate::error::LsmError;
use crate::records::{Record, as_map, insert_record, keys_sorted, records_view};

verus! {

/// A handle on an immutable table file: its path and the range of ordering
/// keys of its records (`(0, 0)` for a table without records).
pub struct SSTable {
    pub file_path: String,
    pub timestamp_range: (u64, u64),
}

impl View for SSTable {
    type V = (Seq<char>, (u64, u64));

    open spec fn view(&self) -> (Seq<char>, (u64, u64)) {
        (self.file_path@, self.timestamp_range)
    }
}

impl SSTable {
    /// A handle on the table at `file_path` with the given ordering-key range.
    pub fn new(file_path: &str, timestamp_range: (u64, u64)) -> (r: Self)
        ensures
            r@ == (file_path@, timestamp_range),
    {
        SSTable { file_path: file_path.to_owned(), timestamp_range }
    }

    /// A handle equal to this one.
    pub fn duplicate(&self) -> (r: Self)
        ensures
            r@ == self@,
    {
        SSTable { file_path: self.file_path.clone(), timestamp_range: self.timestamp_range }
    }

    /// Builds the table that `source` describes: its records are filed into a
    /// key-sorted set (a later duplicate key wins), then handed to
    /// [`build_table`].
    pub fn write<D: DataSource>(source: &D, file_path: &str) -> (r: Result<BuiltTable, LsmError>)
        ensures
            r is Ok <==> map_lengths_fit(as_map(source.entries_view())) && map_keyed(
                as_map(source.entries_view()),
            ),
            !map_lengths_fit(as_map(source.entries_view())) ==> r == Err::<BuiltTable, LsmError>(
                LsmError::RecordTooLarge,
            ),
            map_lengths_fit(as_map(source.entries_view())) && !map_keyed(
                as_map(source.entries_view()),
            ) ==> r == Err::<BuiltTable, LsmError>(LsmError::OrderingKeyExtraction),
            r matches Ok(b) ==> built_from(b, file_path@) && as_map(records_view(b.records@))
                == as_map(source.entries_view()),
    {
        let entries = source.iter();
        let ghost ev = records_view(entries@);
        let mut sorted: Vec<Record> = Vec::new();
        let mut i: usize = 0;
        assert(as_map(records_view(sorted@)) =~= as_map(ev.take(0)));
        while i < entries.len()
            invariant
                i <= entries@.len(),
                ev == records_view(entries@),
                keys_sorted(records_view(sorted@)),
                as_map(records_view(sorted@)) == as_map(ev.take(i as int)),
            decreases entries@.len() - i,
        {
            let key = crate::records::copy_bytes(&entries[i].0);
            let value = crate::records::copy_bytes(&entries[i].1);
            insert_record(&mut sorted, key, value);
            assert(ev.take(i + 1).drop_last() =~= ev.take(i as int));
            i = i + 1;
        }
        assert(ev.take(i as int) =~= ev);
        proof {
            lemma_sorted_map_conditions(records_view(sorted@));
        }
        build_table(file_path, sorted)
    }
}

/// A source of key/value records to store as a table.
pub trait DataSource {
    /// The records the source holds, in the order it yields them.
    spec fn entries_view(&self) -> Seq<(Seq<u8>, Seq<u8>)>;

    /// The records, in any order.
    fn iter(&self) -> (r: Vec<Record>)
        ensures
            records_view(r@) == self.entries_view(),
    ;
}

impl DataSource for Vec<Record> {
    open spec fn entries_view(&self) -> Seq<(Seq<u8>, Seq<u8>)> {
        records_view(self@)
    }

    fn iter(&self) -> (r: Vec<Record>) {
        let mut out: Vec<Record> = Vec::new();
        let mut i: usize = 0;
        while i < self.len()
            invariant
                i <= self@.len(),
                out@.len() == i,
                records_view(out@) == records_view(self@).take(i as int),
            decreases self@.len() - i,
        {
            let key = crate::records::copy_bytes(&self[i].0);
            let value = crate::records::copy_bytes(&self[i].1);
            out.push((key, value));
            assert(out@[i as int].0@ == self@[i as int].0@ && out@[i as int].1@ == self@[i as int].1@);
            assert(records_view(out@) =~= records_view(self@).take(i + 1));
            i = i + 1;
        }
        assert(records_view(self@).take(i as int) =~= records_view(self@));
        out
    }
}

/// A table ready to be stored: its handle, its key-sorted records and the
/// bytes of its file.
pub struct BuiltTable {
    pub table: SSTable,
    pub records: Vec<Record>,
    pub bytes: Vec<u8>,
}

/// `b` is the table at `path` built from its key-sorted records.
pub open spec fn built_from(b: BuiltTable, path: Seq<char>) -> bool {
    let rv = records_view(b.records@);
    &&& keys_sorted(rv)
    &&& lengths_fit(rv)
    &&& all_keyed(rv)
    &&& b.bytes@ == encode_all(rv)
    &&& b.table@ == (path, key_range(ordering_keys_of(rv)))
}

/// The text of the string member `field` of the JSON document in `json`, as
/// serde_json reads it.
pub uninterp spec fn json_string_member(json: Seq<u8>, field: Seq<char>) -> Option<Seq<char>>;

/// The Unix time in seconds of an RFC 3339 timestamp, as chrono reads it.
pub uninterp spec fn rfc3339_seconds(text: Seq<char>) -> Option<int>;

/// Relies on serde_json::from_slice to parse a JSON document, then on
/// Value::get and Value::as_str to read one of its string members.
#[verifier::external_body]
fn json_string_field(json: &[u8], field: &str) -> (r: Option<String>)
    ensures
        match r {
            Some(s) => json_string_member(json@, field@) == Some(s@),
            None => json_string_member(json@, field@) is None,
        },
{
    match serde_json::from_slice::<serde_json::Value>(json) {
        Ok(v) => v.get(field).and_then(|m| m.as_str()).map(|s| s.to_owned()),
        Err(_) => None,
    }
}

/// Relies on chrono's DateTime::parse_from_rfc3339 to parse a timestamp and on
/// DateTime::timestamp for its Unix time in seconds.
#[verifier::external_body]
fn parse_rfc3339_seconds(text: &str) -> (r: Option<i64>)
    ensures
        match r {
            Some(t) => rfc3339_seconds(text@) == Some(t as int),
            None => rfc3339_seconds(text@) is None,
        },
{
    chrono::DateTime::parse_from_rfc3339(text).ok().map(|d| d.timestamp())
}

/// The ordering key that a number of seconds gives: none before the epoch.
pub open spec fn seconds_key(secs: Option<int>) -> Option<u64> {
    match secs {
        Some(t) => if 0 <= t <= u64::MAX {
            Some(t as u64)
        } else {
            None
        },
        None => None,
    }
}

/// The ordering key of a value: the RFC 3339 `timestamp` member of the JSON
/// document it holds, in Unix seconds.
pub open spec fn timestamp_key(value: Seq<u8>) -> Option<u64> {
    match json_string_member(value, "timestamp"@) {
        Some(text) => seconds_key(rfc3339_seconds(text)),
        None => None,
    }
}

/// The ordering key for the seconds a timestamp parsed to.
pub fn key_from_seconds(secs: Option<i64>) -> (r: Option<u64>)
    ensures
        r == seconds_key(
            match secs {
                Some(t) => Some(t as int),
                None => None,
            },
        ),
{
    match secs {
        Some(t) => if t >= 0 {
            Some(t as u64)
        } else {
            None
        },
        None => None,
    }
}

/// Extracts the ordering key of a value.
pub fn timestamp_ordering_key(value: &Vec<u8>) -> (r: Option<u64>)
    ensures
        r == timestamp_key(value@),
{
    proof {
        reveal_strlit("timestamp");
    }
    match json_string_field(value.as_slice(), "timestamp") {
        Some(text) => key_from_seconds(parse_rfc3339_seconds(text.as_str())),
        None => None,
    }
}

/// The smallest of a sequence of ordering keys.
pub open spec fn seq_min(s: Seq<u64>) -> u64
    decreases s.len(),
{
    if s.len() == 0 {
        0
    } else if s.len() == 1 {
        s[0]
    } else if s.last() < seq_min(s.drop_last()) {
        s.last()
    } else {
        seq_min(s.drop_last())
    }
}

/// The largest of a sequence of ordering keys.
pub open spec fn seq_max(s: Seq<u64>) -> u64
    decreases s.len(),
{
    if s.len() == 0 {
        0
    } else if s.len() == 1 {
        s[0]
    } else if s.last() > seq_max(s.drop_last()) {
        s.last()
    } else {
        seq_max(s.drop_last())
    }
}

/// The ordering-key range of a table: `(0, 0)` when it has no records.
pub open spec fn key_range(s: Seq<u64>) -> (u64, u64) {
    if s.len() == 0 {
        (0, 0)
    } else {
        (seq_min(s), seq_max(s))
    }
}

/// Every record's value carries an ordering key.
pub open spec fn all_keyed(s: Seq<(Seq<u8>, Seq<u8>)>) -> bool {
    forall|i: int| 0 <= i < s.len() ==> (#[trigger] timestamp_key(s[i].1)) is Some
}

/// The ordering keys of the records' values, in record order.
pub open spec fn ordering_keys_of(s: Seq<(Seq<u8>, Seq<u8>)>) -> Seq<u64> {
    s.map_values(|r: (Seq<u8>, Seq<u8>)| timestamp_key(r.1)->Some_0)
}

/// Every key and value of the mapping fits a `u32` length prefix.
pub open spec fn map_lengths_fit(m: Map<Seq<u8>, Seq<u8>>) -> bool {
    forall|k: Seq<u8>| #[trigger] m.contains_key(k) ==> k.len() <= u32::MAX && m[k].len() <= u32::MAX
}

/// Every value of the mapping carries an ordering key.
pub open spec fn map_keyed(m: Map<Seq<u8>, Seq<u8>>) -> bool {
    forall|k: Seq<u8>| #[trigger] m.contains_key(k) ==> timestamp_key(m[k]) is Some
}

/// For a key-sorted sequence, the conditions on its records are those on the
/// mapping it denotes.
pub proof fn lemma_sorted_map_conditions(rv: Seq<(Seq<u8>, Seq<u8>)>)
    requires
        keys_sorted(rv),
    ensures
        lengths_fit(rv) <==> map_lengths_fit(as_map(rv)),
        all_keyed(rv) <==> map_keyed(as_map(rv)),
{
    let m = as_map(rv);
    crate::records::lemma_as_map_sorted(rv);
    if lengths_fit(rv) {
        assert forall|k: Seq<u8>| #[trigger] m.contains_key(k) implies k.len() <= u32::MAX
            && m[k].len() <= u32::MAX by {
            let i = choose|i: int| 0 <= i < rv.len() && rv[i].0 == k;
            assert(rv[i].0.len() <= u32::MAX);
        }
    } else {
        let i = choose|i: int|
            0 <= i < rv.len() && !(#[trigger] rv[i].0.len() <= u32::MAX && rv[i].1.len()
                <= u32::MAX);
        assert(m.contains_key(rv[i].0));
    }
    if all_keyed(rv) {
        assert forall|k: Seq<u8>| #[trigger] m.contains_key(k) implies timestamp_key(m[k]) is Some by {
            let i = choose|i: int| 0 <= i < rv.len() && rv[i].0 == k;
            assert(timestamp_key(rv[i].1) is Some);
        }
    } else {
        let i = choose|i: int| 0 <= i < rv.len() && !((#[trigger] timestamp_key(rv[i].1)) is Some);
        assert(m.contains_key(rv[i].0));
    }
}

/// The ordering-key range of a table whose records have these keys.
pub fn ordering_range(keys: &Vec<u64>) -> (r: (u64, u64))
    ensures
        r == key_range(keys@),
{
    if keys.len() == 0 {
        return (0, 0);
    }
    let mut lo = keys[0];
    let mut hi = keys[0];
    let mut i: usize = 1;
    assert(keys@.take(1).drop_last() =~= Seq::<u64>::empty());
    while i < keys.len()
        invariant
            1 <= i <= keys@.len(),
            lo == seq_min(keys@.take(i as int)),
            hi == seq_max(keys@.take(i as int)),
        decreases keys@.len() - i,
    {
        assert(keys@.take(i + 1).drop_last() =~= keys@.take(i as int));
        if keys[i] < lo {
            lo = keys[i];
        }
        if keys[i] > hi {
            hi = keys[i];
        }
        i = i + 1;
    }
    assert(keys@.take(i as int) =~= keys@);
    (lo, hi)
}

/// Builds a table from key-sorted records: the ordering key of each value,
/// their range, and the encoded bytes. Fails with `RecordTooLarge` when a key
/// or value exceeds a `u32` length, otherwise with `OrderingKeyExtraction`
/// when a value carries no ordering key.
pub fn build_table(file_path: &str, recs: Vec<Record>) -> (r: Result<BuiltTable, LsmError>)
    requires
        keys_sorted(records_view(recs@)),
    ensures
        r is Ok <==> lengths_fit(records_view(recs@)) && all_keyed(records_view(recs@)),
        !lengths_fit(records_view(recs@)) ==> r == Err::<BuiltTable, LsmError>(
            LsmError::RecordTooLarge,
        ),
        lengths_fit(records_view(recs@)) && !all_keyed(records_view(recs@)) ==> r == Err::<
            BuiltTable,
            LsmError,
        >(LsmError::OrderingKeyExtraction),
        r matches Ok(b) ==> {
            &&& records_view(b.records@) == records_view(recs@)
            &&& b.bytes@ == encode_all(records_view(recs@))
            &&& b.table@ == (file_path@, key_range(ordering_keys_of(records_view(recs@))))
        },
{
    let ghost rv = records_view(recs@);
    let mut i: usize = 0;
    while i < recs.len()
        invariant
            i <= recs@.len(),
            rv == records_view(recs@),
            forall|j: int|
                0 <= j < i ==> #[trigger] rv[j].0.len() <= u32::MAX && rv[j].1.len() <= u32::MAX,
        decreases recs@.len() - i,
    {
        assert(rv[i as int] == (recs@[i as int].0@, recs@[i as int].1@));
        if recs[i].0.len() > u32::MAX as usize || recs[i].1.len() > u32::MAX as usize {
            assert(!(rv[i as int].0.len() <= u32::MAX && rv[i as int].1.len() <= u32::MAX));
            assert(!lengths_fit(rv));
            return Err(LsmError::RecordTooLarge);
        }
        i = i + 1;
    }
    assert(lengths_fit(rv));
    let mut keys: Vec<u64> = Vec::new();
    let mut i: usize = 0;
    while i < recs.len()
        invariant
            i <= recs@.len(),
            rv == records_view(recs@),
            lengths_fit(rv),
            keys@.len() == i,
            forall|j: int|
                0 <= j < i ==> (#[trigger] timestamp_key(rv[j].1)) is Some && keys@[j]
                    == timestamp_key(rv[j].1)->Some_0,
        decreases recs@.len() - i,
    {
        assert(rv[i as int] == (recs@[i as int].0@, recs@[i as int].1@));
        match timestamp_ordering_key(&recs[i].1) {
            Some(k) => keys.push(k),
            None => {
                assert(timestamp_key(rv[i as int].1) is None);
                assert(!all_keyed(rv));
                return Err(LsmError::OrderingKeyExtraction);
            },
        }
        i = i + 1;
    }
    assert(keys@ =~= ordering_keys_of(rv));
    assert(all_keyed(rv));
    let range = ordering_range(&keys);
    let bytes = encode_records(&recs);
    Ok(BuiltTable { table: SSTable::new(file_path, range), records: recs, bytes })
}

} // verus!
