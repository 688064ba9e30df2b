use kvs::command::Command;
use kvs::error::KvsError;
use kvs::index::CommandPos;
use kvs::log_dir::{DiskOp, LogDir, LogFile};
use kvs::store::{KvStore, COMPACTION_THRESHOLD};
use std::collections::BTreeMap;

fn text(s: &str) -> String {
    s.to_string()
}

fn fresh() -> KvStore {
    KvStore::open(LogDir::new()).unwrap()
}

fn reopen(store: KvStore) -> KvStore {
    KvStore::open(store.into_dir()).unwrap()
}

fn total_size(store: &KvStore) -> usize {
    let dir = store.dir();
    (0..dir.len()).map(|i| dir.file(i).data.len()).sum()
}

#[test]
fn get_returns_stored_value_and_none_for_missing_key() {
    let mut store = fresh();
    store.set(text("k1"), text("v1")).unwrap();
    assert_eq!(store.get(text("k1")).unwrap(), Some(text("v1")));
    assert_eq!(store.get(text("missing")).unwrap(), None);
}

#[test]
fn value_survives_reopen() {
    let mut store = fresh();
    store.set(text("a"), text("1")).unwrap();
    let store = reopen(store);
    assert_eq!(store.get(text("a")).unwrap(), Some(text("1")));
}

#[test]
fn removed_key_stays_removed_after_reopen() {
    let mut store = fresh();
    store.set(text("a"), text("1")).unwrap();
    store.set(text("a"), text("2")).unwrap();
    store.remove(text("a")).unwrap();
    let mut store = reopen(store);
    assert_eq!(store.get(text("a")).unwrap(), None);
    assert!(matches!(store.remove(text("a")), Err(KvsError::KeyNotFound)));
}

#[test]
fn overwrite_keeps_last_value() {
    let mut store = fresh();
    store.set(text("k"), text("v1")).unwrap();
    store.set(text("k"), text("v2")).unwrap();
    assert_eq!(store.get(text("k")).unwrap(), Some(text("v2")));
}

#[test]
fn remove_then_get_is_none_and_second_remove_fails() {
    let mut store = fresh();
    store.set(text("k"), text("v")).unwrap();
    store.remove(text("k")).unwrap();
    assert_eq!(store.get(text("k")).unwrap(), None);
    assert!(matches!(store.remove(text("k")), Err(KvsError::KeyNotFound)));
}

#[test]
fn remove_of_unknown_key_changes_nothing() {
    let mut store = fresh();
    store.set(text("k"), text("v")).unwrap();
    let size = total_size(&store);
    assert!(matches!(store.remove(text("other")), Err(KvsError::KeyNotFound)));
    assert_eq!(total_size(&store), size);
    assert_eq!(store.uncompacted(), 0);
    assert_eq!(store.get(text("k")).unwrap(), Some(text("v")));
}

#[test]
fn open_starts_at_generation_one() {
    let store = fresh();
    assert_eq!(store.current_gen(), 1);
    assert_eq!(store.safe_point(), 0);
    assert_eq!(store.uncompacted(), 0);
    assert_eq!(store.dir().len(), 1);
    assert_eq!(store.dir().file(0).gen, 1);
    assert!(store.dir().file(0).data.is_empty());
}

#[test]
fn reopen_writes_to_the_next_generation() {
    let mut store = fresh();
    store.set(text("a"), text("1")).unwrap();
    let store = reopen(store);
    assert_eq!(store.current_gen(), 2);
    assert_eq!(store.dir().len(), 2);
    assert_eq!(store.dir().file(1).gen, 2);
    assert!(store.dir().file(1).data.is_empty());
}

#[test]
fn set_record_has_the_documented_bytes() {
    let mut store = fresh();
    store.set(text("k"), text("vw")).unwrap();
    let expected = br#"{"Set":{"key":"k","value":"vw"}}"#.to_vec();
    assert_eq!(store.dir().file(0).data, expected);
    assert_eq!(expected.len(), 32);
}

#[test]
fn overwrite_counts_the_old_record() {
    let mut store = fresh();
    store.set(text("k"), text("vw")).unwrap();
    assert_eq!(store.uncompacted(), 0);
    store.set(text("k"), text("x")).unwrap();
    assert_eq!(store.uncompacted(), 32);
}

#[test]
fn remove_counts_the_old_record_and_its_own() {
    let mut store = fresh();
    store.set(text("k"), text("vw")).unwrap();
    store.remove(text("k")).unwrap();
    // 32 bytes of the record that binds, 22 of the record that drops.
    assert_eq!(store.uncompacted(), 54);
}

#[test]
fn reopen_counts_what_the_logs_waste() {
    let mut store = fresh();
    store.set(text("k"), text("vw")).unwrap();
    store.set(text("k"), text("x")).unwrap();
    store.remove(text("k")).unwrap();
    let store = reopen(store);
    // 32 for the first record, 31 for the second, 22 for the remove record.
    assert_eq!(store.uncompacted(), 85);
}

#[test]
fn compaction_keeps_only_the_last_value() {
    let mut store = fresh();
    let value = "X".repeat(20);
    let record = 29 + 1 + 20;
    for _ in 0..100 {
        store.set(text("k"), value.clone()).unwrap();
    }
    assert_eq!(store.get(text("k")).unwrap(), Some(value));
    assert!(store.current_gen() > 1);
    assert!(store.uncompacted() <= COMPACTION_THRESHOLD);
    // One live record, and at most a threshold's worth of stale ones.
    assert!(total_size(&store) <= record + COMPACTION_THRESHOLD as usize + record);
}

#[test]
fn compaction_shrinks_the_logs_to_the_live_records() {
    let mut store = fresh();
    let value = "X".repeat(20);
    let record = 29 + 1 + 20;
    let mut compacted = false;
    for _ in 0..100 {
        let gen = store.current_gen();
        let size = total_size(&store);
        store.set(text("k"), value.clone()).unwrap();
        if store.current_gen() != gen {
            compacted = true;
            assert_eq!(store.current_gen(), gen + 2);
            assert_eq!(store.safe_point(), gen + 1);
            assert_eq!(store.uncompacted(), 0);
            assert_eq!(store.dir().len(), 2);
            assert_eq!(store.dir().file(0).gen, gen + 1);
            assert_eq!(store.dir().file(1).gen, gen + 2);
            assert!(store.dir().file(1).data.is_empty());
            assert_eq!(total_size(&store), record);
            assert!(total_size(&store) < 2 * record);
            assert!(total_size(&store) < size);
            assert_eq!(store.get(text("k")).unwrap(), Some(value.clone()));
        }
    }
    assert!(compacted);
}

#[test]
fn compaction_frees_at_least_what_was_counted() {
    let mut store = fresh();
    let value = "X".repeat(20);
    let record = 29 + 1 + 20;
    store.set(text("k"), value.clone()).unwrap();
    let mut compacted = false;
    for _ in 0..60 {
        let gen = store.current_gen();
        let counted = store.uncompacted() as usize + record;
        let written = total_size(&store) + record;
        store.set(text("k"), value.clone()).unwrap();
        if store.current_gen() != gen {
            compacted = true;
            assert!(counted > COMPACTION_THRESHOLD as usize);
            assert!(total_size(&store) + counted <= written);
        } else {
            assert!(counted <= COMPACTION_THRESHOLD as usize);
            assert_eq!(store.uncompacted() as usize, counted);
            assert_eq!(total_size(&store), written);
        }
    }
    assert!(compacted);
}

#[test]
fn compaction_keeps_every_live_key() {
    let mut store = fresh();
    for i in 0..50 {
        store.set(format!("key{}", i), format!("value{}", i)).unwrap();
    }
    for round in 0..40 {
        store.set(text("hot"), format!("round{}", round)).unwrap();
        store.set(text("gone"), text("soon")).unwrap();
        store.remove(text("gone")).unwrap();
    }
    assert!(store.current_gen() > 1);
    for i in 0..50 {
        assert_eq!(store.get(format!("key{}", i)).unwrap(), Some(format!("value{}", i)));
    }
    assert_eq!(store.get(text("hot")).unwrap(), Some(text("round39")));
    assert_eq!(store.get(text("gone")).unwrap(), None);
    let store = reopen(store);
    for i in 0..50 {
        assert_eq!(store.get(format!("key{}", i)).unwrap(), Some(format!("value{}", i)));
    }
    assert_eq!(store.get(text("hot")).unwrap(), Some(text("round39")));
    assert_eq!(store.get(text("gone")).unwrap(), None);
}

#[test]
fn reopen_answers_as_the_live_store_did() {
    let mut store = fresh();
    let keys = ["a", "b", "c", "", "ключ", "d"];
    store.set(text("a"), text("1")).unwrap();
    store.set(text("b"), text("2")).unwrap();
    store.set(text("a"), text("3")).unwrap();
    store.remove(text("b")).unwrap();
    store.set(text(""), text("empty key")).unwrap();
    store.set(text("ключ"), text("значение")).unwrap();
    store.set(text("c"), text("")).unwrap();
    let before: Vec<Option<String>> =
        keys.iter().map(|key| store.get(text(key)).unwrap()).collect();
    let store = reopen(store);
    let after: Vec<Option<String>> =
        keys.iter().map(|key| store.get(text(key)).unwrap()).collect();
    assert_eq!(before, after);
    assert_eq!(after[0], Some(text("3")));
    assert_eq!(after[1], None);
    assert_eq!(after[2], Some(text("")));
    assert_eq!(after[4], Some(text("значение")));
    assert_eq!(after[5], None);
}

#[test]
fn truncated_tail_is_ignored() {
    let mut store = fresh();
    store.set(text("a"), text("1")).unwrap();
    store.set(text("b"), text("2")).unwrap();
    let mut files = store.into_dir().into_files();
    let whole = files[0].data.len();
    files[0].data.truncate(whole - 3);
    let store = KvStore::open(LogDir::from_files(files).unwrap()).unwrap();
    assert_eq!(store.get(text("a")).unwrap(), Some(text("1")));
    assert_eq!(store.get(text("b")).unwrap(), None);
}

#[test]
fn bytes_after_the_last_record_are_a_corrupt_log() {
    let mut store = fresh();
    store.set(text("a"), text("1")).unwrap();
    let mut files = store.into_dir().into_files();
    files[0].data.push(9);
    let opened = KvStore::open(LogDir::from_files(files).unwrap());
    assert!(matches!(opened, Err(KvsError::CorruptLog)));
}

#[test]
fn invalid_utf8_is_a_corrupt_log() {
    let mut data = br#"{"Remove":{"key":""#.to_vec();
    data.push(0xff);
    data.extend_from_slice(br#""}}"#);
    let files = vec![LogFile { gen: 1, data }];
    let opened = KvStore::open(LogDir::from_files(files).unwrap());
    assert!(matches!(opened, Err(KvsError::CorruptLog)));
}

#[test]
fn last_generation_cannot_be_followed() {
    let files = vec![LogFile { gen: u64::MAX, data: Vec::new() }];
    let opened = KvStore::open(LogDir::from_files(files).unwrap());
    assert!(matches!(opened, Err(KvsError::Io(_))));
}

#[test]
fn logs_are_replayed_in_order_of_generation() {
    let mut first = fresh();
    first.set(text("k"), text("old")).unwrap();
    let mut second = fresh();
    second.set(text("k"), text("new")).unwrap();
    let old = first.into_dir().into_files().remove(0);
    let new = second.into_dir().into_files().remove(0);
    let files = vec![LogFile { gen: 3, data: old.data }, LogFile { gen: 7, data: new.data }];
    let store = KvStore::open(LogDir::from_files(files).unwrap()).unwrap();
    assert_eq!(store.get(text("k")).unwrap(), Some(text("new")));
    assert_eq!(store.current_gen(), 8);
}

#[test]
fn files_out_of_order_are_no_directory() {
    let files = vec![
        LogFile { gen: 2, data: Vec::new() },
        LogFile { gen: 1, data: Vec::new() },
    ];
    assert!(LogDir::from_files(files).is_none());
    let files = vec![
        LogFile { gen: 2, data: Vec::new() },
        LogFile { gen: 2, data: Vec::new() },
    ];
    assert!(LogDir::from_files(files).is_none());
}

fn apply(disk: &mut BTreeMap<u64, Vec<u8>>, ops: Vec<DiskOp>) {
    for op in ops {
        match op {
            DiskOp::Create { gen } => {
                assert!(disk.insert(gen, Vec::new()).is_none());
            }
            DiskOp::Append { gen, data } => {
                disk.get_mut(&gen).unwrap().extend_from_slice(&data);
            }
            DiskOp::Remove { gen } => {
                assert!(disk.remove(&gen).is_some());
            }
        }
    }
}

fn mirrors(disk: &BTreeMap<u64, Vec<u8>>, store: &KvStore) -> bool {
    let dir = store.dir();
    disk.len() == dir.len()
        && (0..dir.len()).all(|i| disk.get(&dir.file(i).gen) == Some(&dir.file(i).data))
}

#[test]
fn journal_replays_to_the_logs() {
    let mut disk = BTreeMap::new();
    let mut store = fresh();
    apply(&mut disk, store.take_journal());
    assert!(mirrors(&disk, &store));
    assert_eq!(disk.keys().copied().collect::<Vec<u64>>(), vec![1]);
    let value = "X".repeat(40);
    for round in 0..60 {
        store.set(format!("key{}", round % 7), value.clone()).unwrap();
        if round % 5 == 0 {
            store.remove(format!("key{}", round % 7)).unwrap();
        }
        if round % 3 == 0 {
            apply(&mut disk, store.take_journal());
            assert!(mirrors(&disk, &store));
        }
    }
    apply(&mut disk, store.take_journal());
    assert!(mirrors(&disk, &store));
    assert!(store.current_gen() > 1);
    assert!(store.take_journal().is_empty());
    // What is on the disk opens to the same store.
    let files: Vec<LogFile> =
        disk.iter().map(|(gen, data)| LogFile { gen: *gen, data: data.clone() }).collect();
    let reopened = KvStore::open(LogDir::from_files(files).unwrap()).unwrap();
    for i in 0..7 {
        let key = format!("key{}", i);
        assert_eq!(reopened.get(key.clone()).unwrap(), store.get(key).unwrap());
    }
}

#[test]
fn journal_of_one_set_is_one_append() {
    let mut store = fresh();
    store.take_journal();
    store.set(text("k"), text("v")).unwrap();
    let ops = store.take_journal();
    assert_eq!(ops.len(), 1);
    match &ops[0] {
        DiskOp::Append { gen, data } => {
            assert_eq!(*gen, 1);
            assert_eq!(data, &store.dir().file(0).data);
        }
        other => panic!("unexpected change: {:?}", other),
    }
}

#[test]
fn compaction_log_holds_the_live_records_in_key_order() {
    let mut store = fresh();
    store.set(text("b"), text("2")).unwrap();
    store.set(text("a"), text("1")).unwrap();
    store.set(text("c"), "X".repeat(600)).unwrap();
    store.set(text("c"), "Y".repeat(600)).unwrap();
    assert_eq!(store.current_gen(), 1);
    store.set(text("c"), text("3")).unwrap();
    assert_eq!(store.current_gen(), 3);
    let mut expected = Vec::new();
    expected.extend_from_slice(br#"{"Set":{"key":"a","value":"1"}}"#);
    expected.extend_from_slice(br#"{"Set":{"key":"b","value":"2"}}"#);
    expected.extend_from_slice(br#"{"Set":{"key":"c","value":"3"}}"#);
    assert_eq!(store.dir().file(0).gen, 2);
    assert_eq!(store.dir().file(0).data, expected);
}

#[test]
fn journal_of_compaction_makes_both_logs_before_it_copies() {
    let mut store = fresh();
    store.set(text("a"), text("1")).unwrap();
    store.set(text("c"), "X".repeat(600)).unwrap();
    store.set(text("c"), "Y".repeat(600)).unwrap();
    store.take_journal();
    store.set(text("c"), text("3")).unwrap();
    assert_eq!(store.current_gen(), 3);
    let shape: Vec<(u8, u64, usize)> = store
        .take_journal()
        .into_iter()
        .map(|op| match op {
            DiskOp::Create { gen } => (0, gen, 0),
            DiskOp::Append { gen, data } => (1, gen, data.len()),
            DiskOp::Remove { gen } => (2, gen, 0),
        })
        .collect();
    let record = 29 + 1 + 1;
    assert_eq!(
        shape,
        vec![(1, 1, record), (0, 2, 0), (0, 3, 0), (1, 2, record), (1, 2, record), (2, 1, 0)]
    );
}

#[test]
fn append_at_writes_the_file_it_is_told() {
    let files = vec![
        LogFile { gen: 4, data: vec![1, 2, 3] },
        LogFile { gen: 7, data: vec![9] },
    ];
    let mut dir = LogDir::from_files(files).unwrap();
    assert_eq!(dir.append_at(0, &[4, 5]), (3, 5));
    assert_eq!(dir.append_at(1, &[]), (1, 1));
    assert_eq!(dir.append(&[8]), Some((1, 2)));
    assert_eq!(dir.file(0).data, vec![1, 2, 3, 4, 5]);
    assert_eq!(dir.file(1).data, vec![9, 8]);
    assert_eq!(dir.take_journal().len(), 3);
}

#[test]
fn read_command_reads_exactly_one_record() {
    let mut store = fresh();
    store.set(text("k"), text("vw")).unwrap();
    store.remove(text("k")).unwrap();
    assert!(matches!(
        store.read_command(CommandPos { gen: 1, pos: 0, len: 32 }),
        Ok(Command::Put { ref key, ref value }) if key == "k" && value == "vw"
    ));
    assert!(matches!(
        store.read_command(CommandPos { gen: 1, pos: 32, len: 22 }),
        Ok(Command::Remove { ref key }) if key == "k"
    ));
    // Too short, too long, out of the file, no such file.
    for place in [
        CommandPos { gen: 1, pos: 0, len: 31 },
        CommandPos { gen: 1, pos: 0, len: 33 },
        CommandPos { gen: 1, pos: 40, len: 22 },
        CommandPos { gen: 1, pos: u64::MAX, len: 2 },
        CommandPos { gen: 2, pos: 0, len: 32 },
    ] {
        assert!(matches!(store.read_command(place), Err(KvsError::CorruptLog)));
    }
}

#[test]
fn load_replays_one_log_into_the_index() {
    let mut data = Vec::new();
    let put = |key: &str, value: &str| {
        kvs::codec::encode_record(&Command::set(key.to_string(), value.to_string()))
    };
    let first = put("a", "1");
    let second = put("b", "22");
    let third = put("a", "333");
    let drop = kvs::codec::encode_record(&Command::remove("b".to_string()));
    data.extend_from_slice(&first);
    data.extend_from_slice(&second);
    data.extend_from_slice(&third);
    data.extend_from_slice(&drop);
    let mut index = kvs::index::Index::new();
    let wasted = kvs::replay::load(5, &data, &mut index).unwrap();
    assert_eq!(wasted as usize, first.len() + second.len() + drop.len());
    assert_eq!(
        index.get("a"),
        Some(CommandPos {
            gen: 5,
            pos: (first.len() + second.len()) as u64,
            len: third.len() as u64
        })
    );
    assert_eq!(index.get("b"), None);

    // A record cut short ends the replay; bytes that are no record fail it.
    let mut index = kvs::index::Index::new();
    let cut = &data[..first.len() + 3];
    assert_eq!(kvs::replay::load(1, cut, &mut index).unwrap(), 0);
    assert_eq!(index.get("a"), Some(CommandPos { gen: 1, pos: 0, len: first.len() as u64 }));
    assert_eq!(index.get("b"), None);

    let mut index = kvs::index::Index::new();
    let mut bad = first.clone();
    bad.push(0);
    assert!(matches!(kvs::replay::load(1, &bad, &mut index), Err(KvsError::CorruptLog)));
    assert_eq!(index.get("a"), Some(CommandPos { gen: 1, pos: 0, len: first.len() as u64 }));
}

#[test]
fn logs_of_json_records_open_in_order_of_generation() {
    let files = vec![
        LogFile { gen: 2, data: br#"{"Set":{"key":"a","value":"old"}}"#.to_vec() },
        LogFile { gen: 10, data: br#"{"Set":{"key":"a","value":"new"}}"#.to_vec() },
    ];
    let store = KvStore::open(LogDir::from_files(files).unwrap()).unwrap();
    assert_eq!(store.get(text("a")).unwrap(), Some(text("new")));
    assert_eq!(store.current_gen(), 11);
}

#[test]
fn load_counts_the_bytes_of_dead_json_records() {
    let data =
        br#"{"Set":{"key":"a","value":"1"}}{"Set":{"key":"a","value":"2"}}{"Remove":{"key":"a"}}"#;
    assert_eq!(data.len(), 84);
    let mut index = kvs::index::Index::new();
    assert_eq!(kvs::replay::load(1, data, &mut index).unwrap(), 84);
    assert_eq!(index.entries().len(), 0);
}

#[test]
fn the_set_that_passes_the_threshold_compacts() {
    let mut store = fresh();
    let value = "X".repeat(20);
    for round in 1..=106 {
        store.set(text("k"), value.clone()).unwrap();
        if round == 22 || round == 43 || round == 64 || round == 85 || round == 106 {
            assert_eq!(store.uncompacted(), 0);
            assert_eq!(total_size(&store), 50);
        } else {
            assert!(store.uncompacted() > 0 || round == 1);
        }
    }
    assert_eq!(total_size(&store), 50);
    assert_eq!(store.get(text("k")).unwrap(), Some(value));
}

#[test]
fn bytes_between_records_are_a_corrupt_log() {
    let mut data = br#"{"Set":{"key":"a","value":"1"}}"#.to_vec();
    data.extend_from_slice(b"garbage");
    data.extend_from_slice(br#"{"Set":{"key":"b","value":"2"}}"#);
    let files = vec![LogFile { gen: 1, data }];
    let opened = KvStore::open(LogDir::from_files(files).unwrap());
    assert!(matches!(opened, Err(KvsError::CorruptLog)));
}
