use kvs::{
    frame, gen_of_file_name, load_v2, log_path, next_generation, read_len_prefix, read_value,
    sorted_gen_list,
    Command, CommandPos, Engine, KvIndex, KvsCommand, KvsError, COMPACTION_THRESHOLD,
};

/// The logs of a store, held in memory, driven as a directory of files would be.
struct MemStore {
    engine: Engine,
    logs: Vec<(u64, Vec<u8>)>,
}

impl MemStore {
    fn open(mut logs: Vec<(u64, Vec<u8>)>) -> Result<MemStore, KvsError> {
        logs.sort_by_key(|l| l.0);
        let mut engine = Engine::new();
        for (gen, data) in &logs {
            engine.replay(*gen, data)?;
        }
        let current = logs.last().map(|l| l.0).unwrap_or(0) + 1;
        engine.start(current);
        logs.push((current, Vec::new()));
        Ok(MemStore { engine, logs })
    }

    fn close(self) -> Vec<(u64, Vec<u8>)> {
        self.logs
    }

    fn log_mut(&mut self, gen: u64) -> &mut Vec<u8> {
        &mut self.logs.iter_mut().find(|l| l.0 == gen).unwrap().1
    }

    fn log(&self, gen: u64) -> &Vec<u8> {
        &self.logs.iter().find(|l| l.0 == gen).unwrap().1
    }

    fn set(&mut self, key: &str, value: &str) -> Result<(), KvsError> {
        let bytes = self.engine.prepare_set(key.to_owned(), value.to_owned())?;
        let gen = self.engine.current_gen();
        let log = self.log_mut(gen);
        let start = log.len() as u64;
        log.extend_from_slice(&bytes);
        let end = log.len() as u64;
        if self.engine.commit_set(key.to_owned(), start, end) {
            self.compact();
        }
        Ok(())
    }

    fn remove(&mut self, key: &str) -> Result<(), KvsError> {
        let bytes = self.engine.prepare_remove(key.to_owned())?;
        let gen = self.engine.current_gen();
        let log = self.log_mut(gen);
        let start = log.len() as u64;
        log.extend_from_slice(&bytes);
        let end = log.len() as u64;
        if self.engine.commit_remove(key, start, end) {
            self.compact();
        }
        Ok(())
    }

    fn get(&self, key: &str) -> Result<Option<String>, KvsError> {
        match self.engine.lookup(key) {
            None => Ok(None),
            Some(p) => {
                let log = self.log(p.gen);
                let at = p.pos as usize;
                let n = read_len_prefix(log, at) as usize;
                read_value(&log[at + 4..at + 4 + n]).map(Some)
            }
        }
    }

    fn compact(&mut self) {
        let plan = self.engine.compaction_plan().unwrap();
        let mut out = Vec::new();
        for p in &plan.copies {
            let log = self.log(p.gen);
            out.extend_from_slice(&log[p.pos as usize..(p.pos + p.len) as usize]);
        }
        let done = self.engine.compact_index().unwrap();
        assert_eq!(done.copies, plan.copies);
        self.logs.retain(|l| l.0 >= plan.compaction_gen);
        self.logs.push((plan.compaction_gen, out));
        self.logs.push((self.engine.current_gen(), Vec::new()));
    }

    fn size(&self) -> usize {
        self.logs.iter().map(|l| l.1.len()).sum()
    }
}

#[test]
fn get_stored_value() {
    let mut store = MemStore::open(Vec::new()).unwrap();
    store.set("key1", "value1").unwrap();
    store.set("key2", "value2").unwrap();
    assert_eq!(store.get("key1").unwrap(), Some("value1".to_owned()));
    assert_eq!(store.get("key2").unwrap(), Some("value2".to_owned()));

    let store = MemStore::open(store.close()).unwrap();
    assert_eq!(store.get("key1").unwrap(), Some("value1".to_owned()));
    assert_eq!(store.get("key2").unwrap(), Some("value2".to_owned()));
}

#[test]
fn overwrite_value() {
    let mut store = MemStore::open(Vec::new()).unwrap();
    store.set("key1", "value1").unwrap();
    assert_eq!(store.get("key1").unwrap(), Some("value1".to_owned()));
    store.set("key1", "value2").unwrap();
    assert_eq!(store.get("key1").unwrap(), Some("value2".to_owned()));

    let mut store = MemStore::open(store.close()).unwrap();
    assert_eq!(store.get("key1").unwrap(), Some("value2".to_owned()));
    store.set("key1", "value3").unwrap();
    assert_eq!(store.get("key1").unwrap(), Some("value3".to_owned()));
}

#[test]
fn get_non_existent_value() {
    let mut store = MemStore::open(Vec::new()).unwrap();
    store.set("key1", "value1").unwrap();
    assert_eq!(store.get("key2").unwrap(), None);

    let store = MemStore::open(store.close()).unwrap();
    assert_eq!(store.get("key2").unwrap(), None);
}

#[test]
fn remove_non_existent_key() {
    let mut store = MemStore::open(Vec::new()).unwrap();
    assert!(store.remove("key1").is_err());
}

#[test]
fn remove_key() {
    let mut store = MemStore::open(Vec::new()).unwrap();
    store.set("key1", "value1").unwrap();
    assert!(store.remove("key1").is_ok());
    assert_eq!(store.get("key1").unwrap(), None);
}

#[test]
fn compaction() {
    let mut store = MemStore::open(Vec::new()).unwrap();
    let mut current_size = store.size();
    for iter in 0..1000 {
        for key_id in 0..1000 {
            store.set(&format!("key{}", key_id), &format!("{}", iter)).unwrap();
        }
        let new_size = store.size();
        if new_size > current_size {
            current_size = new_size;
            continue;
        }
        let store = MemStore::open(store.close()).unwrap();
        for key_id in 0..1000 {
            assert_eq!(store.get(&format!("key{}", key_id)).unwrap(), Some(format!("{}", iter)));
        }
        return;
    }
    panic!("No compaction detected");
}

#[test]
fn test_large_values() {
    let mut store = MemStore::open(Vec::new()).unwrap();
    let large_value = "x".repeat(10 * 1024 * 1024);
    for i in 0..5 {
        store.set(&format!("large{}", i), &large_value).unwrap();
    }
    for i in 0..5 {
        assert_eq!(store.get(&format!("large{}", i)).unwrap().unwrap().len(), large_value.len());
    }
    let store = MemStore::open(store.close()).unwrap();
    for i in 0..5 {
        assert_eq!(store.get(&format!("large{}", i)).unwrap().unwrap().len(), 10 * 1024 * 1024);
    }
}

#[test]
fn test_checksum_verification() {
    let mut store = MemStore::open(Vec::new()).unwrap();
    store.set("key1", "value1").unwrap();
    let mut logs = store.close();
    let log = &mut logs.iter_mut().find(|l| l.0 == 1).unwrap().1;
    assert!(log.len() > 20);
    log[15] = log[15].wrapping_add(1);
    match MemStore::open(logs) {
        Err(e) => assert!(matches!(e, KvsError::CorruptedData)),
        Ok(_) => panic!("Should have detected corruption"),
    }
}

#[test]
fn changed_value_byte_fails_replay() {
    let mut store = MemStore::open(Vec::new()).unwrap();
    store.set("key1", "value1").unwrap();
    let mut logs = store.close();
    let log = &mut logs.iter_mut().find(|l| l.0 == 1).unwrap().1;
    let last = log.len() - 1;
    log[last] = log[last].wrapping_add(1);
    assert!(matches!(MemStore::open(logs), Err(KvsError::CorruptedData)));
}

#[test]
fn corrupted_record_read_back_fails() {
    let mut store = MemStore::open(Vec::new()).unwrap();
    store.set("k", "v").unwrap();
    store.set("other", "kept").unwrap();
    let p = store.engine.lookup("k").unwrap();
    let gen = p.gen;
    let at = (p.pos + p.len - 1) as usize;
    let log = store.log_mut(gen);
    log[at] = log[at].wrapping_add(1);
    assert!(matches!(store.get("k"), Err(KvsError::CorruptedData)));
    assert_eq!(store.get("other").unwrap(), Some("kept".to_owned()));
}

#[test]
fn open_empty_then_get_is_none() {
    let store = MemStore::open(Vec::new()).unwrap();
    assert_eq!(store.get("k").unwrap(), None);
}

#[test]
fn overwrite_then_reopen() {
    let mut store = MemStore::open(Vec::new()).unwrap();
    store.set("k", "v1").unwrap();
    store.set("k", "v2").unwrap();
    assert_eq!(store.get("k").unwrap(), Some("v2".to_owned()));
    let store = MemStore::open(store.close()).unwrap();
    assert_eq!(store.get("k").unwrap(), Some("v2".to_owned()));
}

#[test]
fn remove_one_of_two() {
    let mut store = MemStore::open(Vec::new()).unwrap();
    store.set("a", "1").unwrap();
    store.set("b", "2").unwrap();
    store.remove("a").unwrap();
    assert_eq!(store.get("a").unwrap(), None);
    assert_eq!(store.get("b").unwrap(), Some("2".to_owned()));
    let store = MemStore::open(store.close()).unwrap();
    assert_eq!(store.get("a").unwrap(), None);
    assert_eq!(store.get("b").unwrap(), Some("2".to_owned()));
}

#[test]
fn remove_absent_is_key_not_found_and_get_none() {
    let mut store = MemStore::open(Vec::new()).unwrap();
    store.set("a", "1").unwrap();
    let seq = store.engine.current_sequence();
    assert!(matches!(store.remove("b"), Err(KvsError::KeyNotFound)));
    assert_eq!(store.engine.current_sequence(), seq);
    assert_eq!(store.get("b").unwrap(), None);
}

#[test]
fn sequence_numbers_increase_in_log() {
    let mut store = MemStore::open(Vec::new()).unwrap();
    store.set("a", "1").unwrap();
    store.set("b", "2").unwrap();
    store.remove("a").unwrap();
    store.set("b", "3").unwrap();
    let logs = store.close();
    let log = &logs.iter().find(|l| l.0 == 1).unwrap().1;
    let mut at = 0;
    let mut seqs = Vec::new();
    while at < log.len() {
        let n = read_len_prefix(log, at) as usize;
        let c = KvsCommand::decode(&log[at + 4..at + 4 + n]).unwrap();
        seqs.push(c.sequence_number);
        at += 4 + n;
    }
    assert_eq!(seqs, vec![1, 2, 3, 4]);
    let mut store = MemStore::open(logs).unwrap();
    store.set("c", "4").unwrap();
    assert_eq!(store.engine.current_sequence(), 5);
}

#[test]
fn staleness_counts_replaced_and_removed_records() {
    let mut store = MemStore::open(Vec::new()).unwrap();
    store.set("a", "1").unwrap();
    let first = store.engine.lookup("a").unwrap();
    store.set("a", "2").unwrap();
    assert_eq!(store.engine.uncompacted(), first.len);
    let second = store.engine.lookup("a").unwrap();
    let before = store.log(1).len() as u64;
    store.remove("a").unwrap();
    let removal = store.log(1).len() as u64 - before;
    assert_eq!(store.engine.uncompacted(), first.len + second.len + removal);
    let store = MemStore::open(store.close()).unwrap();
    assert_eq!(store.engine.uncompacted(), first.len + second.len + removal);
}

#[test]
fn compaction_moves_live_records_to_next_generation() {
    let mut store = MemStore::open(Vec::new()).unwrap();
    store.set("a", "1").unwrap();
    store.set("b", "2").unwrap();
    store.set("a", "3").unwrap();
    store.compact();
    assert_eq!(store.engine.current_gen(), 3);
    assert_eq!(store.engine.uncompacted(), 0);
    let a = store.engine.lookup("a").unwrap();
    let b = store.engine.lookup("b").unwrap();
    assert_eq!(a.gen, 2);
    assert_eq!(b.gen, 2);
    assert_eq!(a.pos, 0);
    assert_eq!(b.pos, a.len);
    assert_eq!(store.get("a").unwrap(), Some("3".to_owned()));
    let store = MemStore::open(store.close()).unwrap();
    assert_eq!(store.engine.current_gen(), 4);
    assert_eq!(store.get("a").unwrap(), Some("3".to_owned()));
    assert_eq!(store.get("b").unwrap(), Some("2".to_owned()));
}

#[test]
fn compaction_threshold_is_one_mebibyte() {
    assert_eq!(COMPACTION_THRESHOLD, 1024 * 1024);
}

#[test]
fn record_round_trip() {
    let c = KvsCommand::set("key".to_owned(), "value".to_owned(), 7);
    let body = c.encode_to_vec();
    let d = KvsCommand::decode(&body).unwrap();
    assert_eq!(d.sequence_number, 7);
    assert_eq!(d.version, 1);
    assert_eq!(d.timestamp, c.timestamp);
    assert_eq!(d.checksum, c.checksum);
    assert!(d.verify_checksum());
    match d.command {
        Some(Command::SetValue { key, value }) => {
            assert_eq!(key, "key");
            assert_eq!(value, "value");
        }
        _ => panic!("not a set"),
    }
    let r = KvsCommand::remove("key".to_owned(), 8);
    let d = KvsCommand::decode(&r.encode_to_vec()).unwrap();
    assert!(matches!(d.command, Some(Command::Remove { .. })));
    assert_eq!(d.sequence_number, 8);
}

#[test]
fn record_body_layout() {
    let c = KvsCommand {
        timestamp: 300,
        sequence_number: 1,
        checksum: 2,
        version: 1,
        command: Some(Command::remove("k".to_owned())),
    };
    assert_eq!(
        c.encode_to_vec(),
        vec![8, 0xac, 0x02, 16, 1, 24, 2, 32, 1, 50, 3, 10, 1, b'k']
    );
}

#[test]
fn checksum_is_crc32_of_key_and_value() {
    // CRC-32 (IEEE) of "123456789" is 0xCBF43926.
    let c = Command::set("1234".to_owned(), "56789".to_owned());
    assert_eq!(c.get_fields_for_checksum(), b"123456789".to_vec());
    assert_eq!(c.calculate_checksum(), 0xCBF43926);
    let r = Command::remove("123456789".to_owned());
    assert_eq!(r.calculate_checksum(), 0xCBF43926);
    let k = KvsCommand::set("1234".to_owned(), "56789".to_owned(), 1);
    assert_eq!(k.checksum, 0xCBF43926);
}

#[test]
fn verify_checksum_rejects_mismatch_and_missing_command() {
    let mut c = KvsCommand::set("a".to_owned(), "b".to_owned(), 1);
    assert!(c.verify_checksum());
    c.checksum ^= 1;
    assert!(!c.verify_checksum());
    let none = KvsCommand { timestamp: 0, sequence_number: 1, checksum: 0, version: 1, command: None };
    assert!(!none.verify_checksum());
}

#[test]
fn decode_rejects_malformed_bodies() {
    // an empty body is a record with every field at its default and no command
    assert!(KvsCommand::decode(&[]).unwrap().command.is_none());
    assert!(matches!(read_value(&[]), Err(KvsError::CorruptedData)));
    assert!(matches!(KvsCommand::decode(&[8, 0x80]), Err(KvsError::Deserialize)));
    // non-canonical varint for the timestamp
    assert!(matches!(
        KvsCommand::decode(&[8, 0x80, 0x00, 16, 1, 24, 2, 32, 1]),
        Err(KvsError::Deserialize)
    ));
    // a key that is not UTF-8
    assert!(matches!(
        KvsCommand::decode(&[16, 1, 32, 1, 50, 3, 10, 1, 0xff]),
        Err(KvsError::Deserialize)
    ));
    // a zero written out is not the shortest form
    assert!(matches!(
        KvsCommand::decode(&[8, 0, 16, 1, 32, 1, 50, 3, 10, 1, b'k']),
        Err(KvsError::Deserialize)
    ));
    assert!(KvsCommand::decode(&[16, 1, 32, 1, 50, 3, 10, 1, b'k']).is_ok());
    let mut body = KvsCommand::set("a".to_owned(), "b".to_owned(), 1).encode_to_vec();
    body.push(0);
    assert!(matches!(KvsCommand::decode(&body), Err(KvsError::Deserialize)));
}

#[test]
fn read_value_errors() {
    assert!(matches!(read_value(&[1, 2, 3]), Err(KvsError::Deserialize)));
    let r = KvsCommand::remove("a".to_owned(), 1).encode_to_vec();
    assert!(matches!(read_value(&r), Err(KvsError::UnexpectedCommandType)));
    let mut s = KvsCommand::set("a".to_owned(), "b".to_owned(), 1);
    s.checksum ^= 1;
    assert!(matches!(read_value(&s.encode_to_vec()), Err(KvsError::CorruptedData)));
    let ok = KvsCommand::set("a".to_owned(), "b".to_owned(), 1).encode_to_vec();
    assert_eq!(read_value(&ok).unwrap(), "b");
}

#[test]
fn replay_stops_at_short_tail_and_fails_on_short_body() {
    let body = KvsCommand::set("a".to_owned(), "b".to_owned(), 3).encode_to_vec();
    let mut log = frame(&body);
    log.extend_from_slice(&[1, 2]);
    let mut index = KvIndex::new();
    assert_eq!(load_v2(1, &log, &mut index).unwrap(), (0, 3));
    assert_eq!(index.len(), 1);
    assert_eq!(index.get("a"), Some(CommandPos { gen: 1, pos: 0, len: 4 + body.len() as u64 }));

    let mut short = frame(&body);
    short.pop();
    let mut index = KvIndex::new();
    assert!(matches!(load_v2(1, &short, &mut index), Err(KvsError::IoError(_))));
}

#[test]
fn frame_prefix_is_little_endian() {
    let body = vec![7u8; 300];
    let f = frame(&body);
    assert_eq!(&f[..4], &[44, 1, 0, 0]);
    assert_eq!(read_len_prefix(&f, 0), 300);
}

#[test]
fn log_file_names() {
    assert_eq!(gen_of_file_name("12.log"), Some(12));
    assert_eq!(gen_of_file_name("007.log"), Some(7));
    assert_eq!(gen_of_file_name(".log"), None);
    assert_eq!(gen_of_file_name("a1.log"), None);
    assert_eq!(gen_of_file_name("1.txt"), None);
    assert_eq!(gen_of_file_name("18446744073709551615.log"), Some(u64::MAX));
    assert_eq!(gen_of_file_name("18446744073709551616.log"), None);
    let names = vec!["3.log".to_owned(), "x".to_owned(), "1.log".to_owned(), "2.log".to_owned()];
    assert_eq!(sorted_gen_list(&names), vec![1, 2, 3]);
    assert_eq!(log_path("/tmp/db", 42), "/tmp/db/42.log");
}

#[test]
fn index_insert_get_remove() {
    let mut index = KvIndex::new();
    let p = CommandPos::from_range(1, 10, 30);
    assert_eq!(p, CommandPos { gen: 1, pos: 10, len: 20 });
    assert_eq!(index.insert("k".to_owned(), p), None);
    let q = CommandPos { gen: 2, pos: 0, len: 5 };
    assert_eq!(index.insert("k".to_owned(), q), Some(p));
    assert_eq!(index.get("k"), Some(q));
    assert!(index.contains_key("k"));
    assert_eq!(index.remove("k"), Some(q));
    assert_eq!(index.remove("k"), None);
    assert_eq!(index.len(), 0);
}

#[test]
fn test_read_write_latency() {
    let mut store = MemStore::open(Vec::new()).unwrap();
    for i in 0..1000 {
        store.set(&format!("key{}", i), &format!("value{}", i)).unwrap();
    }
    for i in 0..1000 {
        assert_eq!(store.get(&format!("key{}", i)).unwrap(), Some(format!("value{}", i)));
    }
}

#[test]
fn test_high_throughput_writes() {
    let mut store = MemStore::open(Vec::new()).unwrap();
    for i in 0..10_000 {
        store.set(&format!("key{}", i), &format!("value{}", i)).unwrap();
    }
    assert_eq!(store.get("key9999").unwrap(), Some("value9999".to_owned()));
}

#[test]
fn log_path_in_empty_dir_is_file_name() {
    assert_eq!(log_path("", 7), "7.log");
    assert_eq!(log_path("d", 0), "d/0.log");
}

#[test]
fn next_generation_follows_highest() {
    assert_eq!(next_generation(&vec![]), Some(1));
    assert_eq!(next_generation(&vec![1, 4]), Some(5));
    assert_eq!(next_generation(&vec![u64::MAX]), None);
}

#[test]
fn replay_error_names_the_fault() {
    // a body that is no record body
    let mut bad = vec![3, 0, 0, 0, 1, 2, 3];
    let mut index = KvIndex::new();
    assert!(matches!(load_v2(1, &bad, &mut index), Err(KvsError::Deserialize)));
    // a record whose checksum fails, after a good one
    let good = frame(&KvsCommand::set("a".to_owned(), "1".to_owned(), 1).encode_to_vec());
    let mut wrong = KvsCommand::set("b".to_owned(), "2".to_owned(), 2);
    wrong.checksum ^= 1;
    bad = good.clone();
    bad.extend_from_slice(&frame(&wrong.encode_to_vec()));
    let mut index = KvIndex::new();
    assert!(matches!(load_v2(1, &bad, &mut index), Err(KvsError::CorruptedData)));
    // a record without a command
    let none = KvsCommand { timestamp: 1, sequence_number: 1, checksum: 0, version: 1, command: None };
    let mut index = KvIndex::new();
    assert!(matches!(
        load_v2(1, &frame(&none.encode_to_vec()), &mut index),
        Err(KvsError::CorruptedData)
    ));
}

#[test]
fn compaction_copies_in_ascending_key_order() {
    let mut store = MemStore::open(Vec::new()).unwrap();
    store.set("c", "3").unwrap();
    store.set("a", "1").unwrap();
    store.set("b", "2").unwrap();
    let pa = store.engine.lookup("a").unwrap();
    let pb = store.engine.lookup("b").unwrap();
    let pc = store.engine.lookup("c").unwrap();
    let plan = store.engine.compaction_plan().unwrap();
    assert_eq!(plan.compaction_gen, 2);
    assert_eq!(plan.copies, vec![pa, pb, pc]);
    store.compact();
    assert_eq!(store.engine.lookup("a").unwrap(), CommandPos { gen: 2, pos: 0, len: pa.len });
    assert_eq!(store.engine.lookup("b").unwrap(), CommandPos { gen: 2, pos: pa.len, len: pb.len });
    assert_eq!(
        store.engine.lookup("c").unwrap(),
        CommandPos { gen: 2, pos: pa.len + pb.len, len: pc.len }
    );
    assert_eq!(store.log(2).len() as u64, pa.len + pb.len + pc.len);
    assert_eq!(store.get("c").unwrap(), Some("3".to_owned()));
}

#[test]
fn default_fields_are_left_out() {
    let c = KvsCommand {
        timestamp: 0,
        sequence_number: 5,
        checksum: 0,
        version: 1,
        command: Some(Command::set("k".to_owned(), String::new())),
    };
    let body = c.encode_to_vec();
    assert_eq!(body, vec![16, 5, 32, 1, 42, 3, 10, 1, b'k']);
    let d = KvsCommand::decode(&body).unwrap();
    assert_eq!(d.timestamp, 0);
    assert_eq!(d.checksum, 0);
    match d.command {
        Some(Command::SetValue { key, value }) => {
            assert_eq!(key, "k");
            assert_eq!(value, "");
        }
        _ => panic!("not a set"),
    }
    let mut store = MemStore::open(Vec::new()).unwrap();
    store.set("e", "").unwrap();
    store.set("", "v").unwrap();
    let store = MemStore::open(store.close()).unwrap();
    assert_eq!(store.get("e").unwrap(), Some(String::new()));
    assert_eq!(store.get("").unwrap(), Some("v".to_owned()));
}
