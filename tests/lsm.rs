use std::collections::HashMap;

use milodb_lsm::codec::{decode_records, encode_records};
use milodb_lsm::compaction::{compact_tables, Compaction, TieredStorage};
use milodb_lsm::error::LsmError;
use milodb_lsm::records::{compare_keys, insert_record, merge_tables, Record};
use milodb_lsm::sstable::{
    build_table, key_from_seconds, ordering_range, timestamp_ordering_key, DataSource, SSTable,
};

fn rec(k: &str, v: &str) -> Record {
    (k.as_bytes().to_vec(), v.as_bytes().to_vec())
}

fn msg(ts: &str) -> Vec<u8> {
    format!("{{\"message\":\"hi\",\"timestamp\":\"{}\"}}", ts).into_bytes()
}

/// Files and compacts through an in-memory file store.
fn run_jobs(storage: &mut TieredStorage, disk: &mut HashMap<String, Vec<u8>>, first: Option<Compaction>) {
    let mut job = first;
    while let Some(c) = job {
        let contents: Vec<Vec<Record>> = c
            .inputs
            .iter()
            .map(|t| decode_records(&disk[&t.file_path]).unwrap())
            .collect();
        let path = format!("tier_{}_{}.sst", c.tier, c.sequence);
        let built = compact_tables(&contents, &path).unwrap();
        disk.insert(path, built.bytes.clone());
        let count = built.records.len() as u64;
        job = storage.finish_compaction(c.tier, built.table, count);
    }
}

#[test]
fn encode_layout_is_length_prefixed_big_endian() {
    let bytes = encode_records(&vec![rec("ab", "xyz")]);
    assert_eq!(bytes, vec![0, 0, 0, 2, b'a', b'b', 0, 0, 0, 3, b'x', b'y', b'z']);
}

#[test]
fn round_trip_sorted_records() {
    let recs = vec![rec("a", "1"), rec("b", ""), rec("c", "333")];
    let bytes = encode_records(&recs);
    assert_eq!(decode_records(&bytes).unwrap(), recs);
}

#[test]
fn round_trip_empty() {
    let bytes = encode_records(&vec![]);
    assert!(bytes.is_empty());
    assert_eq!(decode_records(&bytes).unwrap(), Vec::<Record>::new());
}

#[test]
fn decode_sorts_and_keeps_later_duplicate() {
    let bytes = encode_records(&vec![rec("b", "1"), rec("a", "2"), rec("b", "3")]);
    assert_eq!(decode_records(&bytes).unwrap(), vec![rec("a", "2"), rec("b", "3")]);
}

#[test]
fn truncated_value_is_corrupt() {
    let mut bytes = encode_records(&vec![rec("Key1", "Value1")]);
    bytes.truncate(bytes.len() - 2);
    assert_eq!(decode_records(&bytes), Err(LsmError::CorruptData));
}

#[test]
fn truncated_length_prefix_is_corrupt() {
    let mut bytes = encode_records(&vec![rec("k", "v")]);
    bytes.extend_from_slice(&[0, 0]);
    assert_eq!(decode_records(&bytes), Err(LsmError::CorruptData));
    assert_eq!(decode_records(&vec![0, 0, 0, 9, 1]), Err(LsmError::CorruptData));
}

#[test]
fn key_order_is_lexicographic() {
    assert!(compare_keys(&b"ab".to_vec(), &b"b".to_vec()) < 0);
    assert!(compare_keys(&b"ab".to_vec(), &b"a".to_vec()) > 0);
    assert_eq!(compare_keys(&b"ab".to_vec(), &b"ab".to_vec()), 0);
    assert!(compare_keys(&vec![], &vec![0]) < 0);
}

#[test]
fn insert_keeps_order_and_replaces() {
    let mut recs = Vec::new();
    insert_record(&mut recs, b"m".to_vec(), b"1".to_vec());
    insert_record(&mut recs, b"a".to_vec(), b"2".to_vec());
    insert_record(&mut recs, b"z".to_vec(), b"3".to_vec());
    insert_record(&mut recs, b"m".to_vec(), b"4".to_vec());
    assert_eq!(recs, vec![rec("a", "2"), rec("m", "4"), rec("z", "3")]);
}

#[test]
fn merge_newer_table_wins() {
    let a = vec![rec("Key1", "Value1"), rec("Key2", "Value2")];
    let b = vec![rec("Key2", "Value3"), rec("Key3", "Value4")];
    let merged = merge_tables(&vec![a, b]);
    assert_eq!(merged, vec![rec("Key1", "Value1"), rec("Key2", "Value3"), rec("Key3", "Value4")]);
}

#[test]
fn merge_disjoint_is_union() {
    let a = vec![rec("c", "1")];
    let b = vec![rec("a", "2")];
    assert_eq!(merge_tables(&vec![a, b]), vec![rec("a", "2"), rec("c", "1")]);
}

#[test]
fn merge_single_table_is_identity() {
    let t = vec![rec("a", "1"), rec("b", "2")];
    assert_eq!(merge_tables(&vec![t.clone()]), t);
}

#[test]
fn timestamp_key_is_unix_seconds() {
    assert_eq!(timestamp_ordering_key(&msg("2024-01-01T00:00:00Z")), Some(1704067200));
    assert_eq!(timestamp_ordering_key(&msg("2024-01-01T01:00:00+01:00")), Some(1704067200));
    assert_eq!(timestamp_ordering_key(&msg("1970-01-01T00:00:10Z")), Some(10));
}

#[test]
fn timestamp_key_missing_or_malformed() {
    assert_eq!(timestamp_ordering_key(&b"not json".to_vec()), None);
    assert_eq!(timestamp_ordering_key(&b"{\"time\":\"2024-01-01T00:00:00Z\"}".to_vec()), None);
    assert_eq!(timestamp_ordering_key(&b"{\"timestamp\":12}".to_vec()), None);
    assert_eq!(timestamp_ordering_key(&msg("yesterday")), None);
    assert_eq!(timestamp_ordering_key(&msg("1969-12-31T23:59:59Z")), None);
}

#[test]
fn seconds_before_epoch_give_no_key() {
    assert_eq!(key_from_seconds(Some(-1)), None);
    assert_eq!(key_from_seconds(Some(0)), Some(0));
    assert_eq!(key_from_seconds(Some(i64::MAX)), Some(i64::MAX as u64));
    assert_eq!(key_from_seconds(None), None);
}

#[test]
fn range_of_keys() {
    assert_eq!(ordering_range(&vec![]), (0, 0));
    assert_eq!(ordering_range(&vec![7]), (7, 7));
    assert_eq!(ordering_range(&vec![5, 2, 9, 3]), (2, 9));
}

#[test]
fn build_table_range_and_bytes() {
    let recs = vec![
        (b"a".to_vec(), msg("1970-01-01T00:01:40Z")),
        (b"b".to_vec(), msg("1970-01-01T00:00:50Z")),
    ];
    let built = build_table("t.sst", recs.clone()).ok().unwrap();
    assert_eq!(built.table.file_path, "t.sst");
    assert_eq!(built.table.timestamp_range, (50, 100));
    assert_eq!(built.bytes, encode_records(&recs));
    assert_eq!(built.records, recs);
}

#[test]
fn build_table_without_timestamp_fails() {
    let recs = vec![(b"a".to_vec(), b"{}".to_vec())];
    assert!(matches!(build_table("t.sst", recs), Err(LsmError::OrderingKeyExtraction)));
}

#[test]
fn write_sorts_source_records() {
    let source = vec![
        (b"z".to_vec(), msg("1970-01-01T00:00:30Z")),
        (b"a".to_vec(), msg("1970-01-01T00:00:20Z")),
    ];
    assert_eq!(source.iter().len(), 2);
    let built = SSTable::write(&source, "w.sst").ok().unwrap();
    assert_eq!(built.records[0].0, b"a".to_vec());
    assert_eq!(built.table.timestamp_range, (20, 30));
    assert_eq!(decode_records(&built.bytes).unwrap(), built.records);
}

#[test]
fn merged_range_ignores_overwritten_records() {
    let a = vec![(b"k".to_vec(), msg("1970-01-01T00:16:40Z"))];
    let b = vec![(b"k".to_vec(), msg("1970-01-01T00:00:10Z"))];
    let built = compact_tables(&vec![a, b], "m.sst").ok().unwrap();
    assert_eq!(built.table.timestamp_range, (10, 10));
    assert_eq!(built.records.len(), 1);
}

#[test]
fn tier_assignment_by_max_key() {
    let s = TieredStorage::new(vec![1, 5, 10]);
    assert_eq!(s.tiers.len(), 3);
    assert_eq!(s.tier_for_key(0), 0);
    assert_eq!(s.tier_for_key(1), 0);
    assert_eq!(s.tier_for_key(3), 1);
    assert_eq!(s.tier_for_key(10), 2);
    assert_eq!(s.tier_for_key(11), 2);
    let big = TieredStorage::new(vec![1, 2, 3, 4]);
    assert_eq!(big.tiers.len(), 4);
    assert_eq!(big.tier_for_key(100), 3);
    assert_eq!(TieredStorage::new(vec![]).tier_for_key(100), 0);
}

#[test]
fn add_sstable_files_without_compaction() {
    let mut s = TieredStorage::new(vec![1, 5, 10]);
    assert!(s.add_sstable(SSTable::new("a.sst", (0, 4))).is_none());
    assert!(s.add_sstable(SSTable::new("b.sst", (0, 40))).is_none());
    assert_eq!(s.tiers[1].len(), 1);
    assert_eq!(s.tiers[1][0].file_path, "a.sst");
    assert_eq!(s.tiers[2][0].file_path, "b.sst");
}

#[test]
fn fourth_table_makes_compaction_due() {
    let mut s = TieredStorage::new(vec![]);
    for i in 0..3 {
        assert!(s.add_sstable(SSTable::new(&format!("{}.sst", i), (1, 1))).is_none());
    }
    let job = s.add_sstable(SSTable::new("3.sst", (1, 1))).unwrap();
    assert_eq!(job.tier, 0);
    assert_eq!(job.inputs.len(), 4);
    assert_eq!(job.inputs[3].file_path, "3.sst");
    assert_eq!(job.sequence, 0);
    assert_eq!(s.next_sequence, 1);
    assert_eq!(s.tiers[0].len(), 4);
}

#[test]
fn finish_compaction_replaces_and_promotes() {
    let mut s = TieredStorage::new(vec![]);
    for i in 0..3 {
        s.add_sstable(SSTable::new(&format!("{}.sst", i), (1, 1)));
    }
    let r = s.finish_compaction(0, SSTable::new("big.sst", (1, 1)), 11);
    assert!(r.is_none());
    assert_eq!(s.tiers[0].len(), 0);
    assert_eq!(s.tiers[2].len(), 1);
    s.finish_compaction(2, SSTable::new("mid.sst", (1, 1)), 6);
    assert_eq!(s.tiers[2].len(), 0);
    assert_eq!(s.tiers[1][0].file_path, "mid.sst");
    assert!(s.finish_compaction(9, SSTable::new("x.sst", (1, 1)), 1).is_none());
    assert_eq!(s.tiers[1].len(), 1);
}

#[test]
fn four_tables_compact_to_one() {
    let mut storage = TieredStorage::new(vec![]);
    let mut disk: HashMap<String, Vec<u8>> = HashMap::new();
    let mut expected = Vec::new();
    for i in 1..=4 {
        let key = format!("msg{}", i).into_bytes();
        let value = msg(&format!("1970-01-01T00:00:0{}Z", i));
        expected.push((key.clone(), value.clone()));
        let path = format!("sstable_{}.sst", i);
        let (built, job) = storage.add_data_source(vec![(key, value)], &path).ok().unwrap();
        disk.insert(path, built.bytes.clone());
        assert_eq!(job.is_some(), i == 4);
        run_jobs(&mut storage, &mut disk, job);
    }
    assert_eq!(storage.tiers[0].len(), 1);
    let table = &storage.tiers[0][0];
    assert_eq!(table.timestamp_range, (1, 4));
    assert_eq!(decode_records(&disk[&table.file_path]).unwrap(), expected);
}

#[test]
fn no_tier_over_threshold_after_many_adds() {
    let mut storage = TieredStorage::new(vec![1, 5, 10]);
    let mut disk: HashMap<String, Vec<u8>> = HashMap::new();
    for i in 0..40u32 {
        let key = format!("k{:02}", i).into_bytes();
        let value = msg(&format!("1970-01-01T00:00:{:02}Z", i % 12));
        let path = format!("in_{}.sst", i);
        let (built, job) = storage.add_data_source(vec![(key, value)], &path).ok().unwrap();
        disk.insert(path, built.bytes);
        run_jobs(&mut storage, &mut disk, job);
        assert!(storage.tiers.iter().all(|t| t.len() <= 3));
    }
    let total: usize = storage
        .tiers
        .iter()
        .flatten()
        .map(|t| decode_records(&disk[&t.file_path]).unwrap().len())
        .sum();
    assert_eq!(total, 40);
}

#[test]
fn duplicate_handle_is_equal() {
    let t = SSTable::new("p.sst", (3, 9));
    let d = t.duplicate();
    assert_eq!(d.file_path, "p.sst");
    assert_eq!(d.timestamp_range, (3, 9));
}

#[test]
fn add_data_source_without_timestamp_files_nothing() {
    let mut storage = TieredStorage::new(vec![1, 5, 10]);
    let r = storage.add_data_source(vec![rec("k", "{\"message\":\"x\"}")], "bad.sst");
    assert!(matches!(r, Err(LsmError::OrderingKeyExtraction)));
    assert!(storage.tiers.iter().all(|t| t.is_empty()));
}

#[test]
fn compacting_single_table_keeps_content() {
    let t = vec![
        (b"a".to_vec(), msg("1970-01-01T00:00:03Z")),
        (b"b".to_vec(), msg("1970-01-01T00:00:01Z")),
    ];
    let built = compact_tables(&vec![t.clone()], "one.sst").ok().unwrap();
    assert_eq!(built.records, t);
    assert_eq!(decode_records(&built.bytes).unwrap(), t);
    assert_eq!(built.table.timestamp_range, (1, 3));
}
