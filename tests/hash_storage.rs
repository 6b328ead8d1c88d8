use silly_rusty_kv::bucket::Bucket;
use silly_rusty_kv::command::{Command, CommandOutput, DeleteCommand, GetCommand, PutCommand, StorageCommand};
use silly_rusty_kv::directory::{addr_count_to_global_level, decode_directory_bytes, encode_directory};
use silly_rusty_kv::execute::{execute_command, ExecError};
use silly_rusty_kv::hash_storage::{HashStorage, LoadError, StoreError};
use silly_rusty_kv::record::Record;
use silly_rusty_kv::wal::Wal;

fn record_from_size(hash: u64, key: u8, byte: u8, size: usize) -> Record {
    let value_len = size - 1 - 8 - 2 - 2 - 1;
    Record(hash, vec![key], vec![byte; value_len])
}

fn bucket(index: usize, level: u8, records: Vec<Record>) -> Bucket {
    let mut b = Bucket { bucket_index: index, level, remaining_byte_space: 0, records };
    b.update_remaining_byte_count();
    b
}

fn store_from(global_level: u8, lookup: &[usize], buckets: Vec<Bucket>) -> HashStorage {
    let dir = encode_directory(global_level, &lookup.to_vec());
    let mut file = (buckets.len() as u32).to_le_bytes().to_vec();
    for b in &buckets {
        file.extend(b.to_page());
    }
    HashStorage::load(&dir, &file).unwrap()
}

fn page_of(engine: &HashStorage, i: usize) -> Bucket {
    Bucket::from_bytes(&engine.page(i), i).unwrap()
}

fn run(engine: &mut HashStorage, wal: &mut Wal, cmd: Command, tid: Option<&str>) -> Result<CommandOutput, ExecError> {
    execute_command(engine, wal, cmd, tid)
}

#[test]
fn into_and_from_bytes() {
    let r = Record(0b_1110, vec![24, 21, 56, 0], vec![25, 236, 36, 46]);
    let bytes = r.clone().into_bytes();
    let (r_, next) = Record::from_bytes(&bytes, 0).unwrap();
    assert_eq!(r_, r);
    assert_eq!(bytes.len() - next, 0);
}

#[test]
fn record_layout_is_exact() {
    let r = Record(0x0102030405060708, vec![b'k'], vec![b'v', b'w']);
    assert_eq!(r.byte_len(), 16);
    let bytes = r.into_bytes();
    assert_eq!(
        bytes,
        vec![1, 8, 7, 6, 5, 4, 3, 2, 1, 1, 0, b'k', 2, 0, b'v', b'w']
    );
}

#[test]
fn record_cut_short_is_refused() {
    let bytes = Record(7, vec![1, 2], vec![3]).into_bytes();
    assert!(Record::from_bytes(&bytes[..bytes.len() - 1], 0).is_err());
    assert!(Record::from_bytes(&[0u8; 20], 0).is_err());
}

#[test]
fn to_and_from_file() {
    let b = bucket(
        0,
        1,
        vec![
            Record(0b_1110, vec![1], vec![25, 236, 36, 46]),
            Record(0b_0010, vec![2], vec![26, 236, 36, 46]),
            Record(0b_0110, vec![3], vec![27, 236, 36, 46]),
        ],
    );
    let page = b.to_page();
    assert_eq!(page.len(), 4096);
    assert_eq!(page[0], 1);
    let b_ = Bucket::from_bytes(&page, 0).unwrap();
    assert_eq!(b_, b);
    assert_eq!(b_.remaining_byte_space, 4095 - 3 * 18);
}

#[test]
fn page_skips_zero_bytes_and_refuses_other_markers() {
    let mut page = vec![0u8; 4096];
    page[0] = 2;
    let rec = Record(5, vec![9], vec![8]).into_bytes();
    page[10..10 + rec.len()].copy_from_slice(&rec);
    let b = Bucket::from_bytes(&page, 3).unwrap();
    assert_eq!(b.level, 2);
    assert_eq!(b.bucket_index, 3);
    assert_eq!(b.records, vec![Record(5, vec![9], vec![8])]);
    page[5] = 7;
    assert!(Bucket::from_bytes(&page, 3).is_err());
    assert!(Bucket::from_bytes(&page[..100], 3).is_err());
}

#[test]
fn smoke() {
    let mut engine = HashStorage::new();
    let cmd = PutCommand("MY_KEY".into(), "MY_VALUE".into());
    let get_cmd = GetCommand("MY_KEY".into());

    engine.handle_cmd(StorageCommand::Put(cmd.clone())).unwrap();
    let retrieved = engine.handle_cmd(StorageCommand::Get(get_cmd.clone())).unwrap();
    assert_eq!(retrieved, CommandOutput::Found("MY_VALUE".into()));

    let cmd = PutCommand("MY_KEY".into(), "MY_VALUE2".into());
    engine.handle_cmd(StorageCommand::Put(cmd.clone())).unwrap();
    let retrieved = engine.handle_cmd(StorageCommand::Get(get_cmd.clone())).unwrap();
    assert_eq!(retrieved, CommandOutput::Found("MY_VALUE2".into()));

    engine
        .handle_cmd(StorageCommand::Delete(DeleteCommand("MY_KEY".into())))
        .unwrap();
    let retrieved = engine.handle_cmd(StorageCommand::Get(get_cmd.clone())).unwrap();
    assert_eq!(retrieved, CommandOutput::NotFound("MY_KEY".into()));
}

#[test]
fn local_split() {
    let old_record = record_from_size(0b_1010, 1, 1, 4000);
    let new_record = record_from_size(0b_1110, 2, 2, 4000);
    let buckets = vec![
        bucket(0, 1, vec![old_record]),
        bucket(1, 3, vec![]),
        bucket(2, 3, vec![]),
        bucket(3, 3, vec![]),
        bucket(4, 3, vec![]),
    ];
    let mut engine = store_from(3, &[0, 1, 0, 2, 0, 3, 0, 4], buckets);

    engine.put(new_record).unwrap();

    assert_eq!(engine.global_level(), 3);
    assert_eq!(engine.bucket_count(), 7);
    assert_eq!(engine.bucket_lookup(), vec![0, 1, 5, 2, 0, 3, 6, 4]);

    let old_record_bucket = page_of(&engine, 5);
    old_record_bucket.records.iter().find(|x| x.0 == 0b_1010).unwrap();
    assert_eq!(old_record_bucket.level, 3);

    let new_record_bucket = page_of(&engine, 6);
    new_record_bucket.records.iter().find(|x| x.0 == 0b_1110).unwrap();
    assert_eq!(new_record_bucket.level, 3);
}

#[test]
fn global_split() {
    let old_record = record_from_size(0b_1010, 1, 1, 4000);
    let new_record = record_from_size(0b_1110, 2, 2, 4000);
    let buckets = vec![bucket(0, 1, vec![old_record]), bucket(1, 1, vec![])];
    let mut engine = store_from(1, &[0, 1], buckets);

    engine.put(new_record).unwrap();

    assert_eq!(engine.global_level(), 3);
    assert_eq!(engine.bucket_count(), 4);
    assert_eq!(engine.bucket_lookup(), vec![0, 1, 2, 1, 0, 1, 3, 1]);

    let old_record_bucket = page_of(&engine, 2);
    old_record_bucket.records.iter().find(|x| x.0 == 0b_1010).unwrap();
    assert_eq!(old_record_bucket.level, 3);

    let new_record_bucket = page_of(&engine, 3);
    new_record_bucket.records.iter().find(|x| x.0 == 0b_1110).unwrap();
    assert_eq!(new_record_bucket.level, 3);

    assert_eq!(engine.get(0b_1010, &[1]), Some(vec![1; 3986]));
    assert_eq!(engine.get(0b_1110, &[2]), Some(vec![2; 3986]));
}

#[test]
fn exit_save_load() {
    let lookup: Vec<usize> = vec![1, 5, 6, 7, 2, 4, 7, 8];
    let bytes = encode_directory(3, &lookup);
    assert_eq!(bytes.len(), 1 + 8 * 8);
    let (level, entries) = decode_directory_bytes(&bytes).unwrap();
    assert_eq!(level, 3);
    assert_eq!(entries, vec![1, 5, 6, 7, 2, 4, 7, 8]);
    // A buckets file that counts eight pages but holds none is cut short.
    let buckets: Vec<u8> = 8u32.to_le_bytes().to_vec();
    assert_eq!(HashStorage::load(&bytes, &buckets).err(), Some(LoadError::CorruptPage));
}

#[test]
fn save_and_reload_keep_directory_level_and_count() {
    let mut engine = HashStorage::new();
    for i in 0..40u32 {
        let key = format!("key{}", i);
        let value = "x".repeat(300);
        engine.put_text(&key, &value).unwrap();
    }
    assert!(engine.bucket_count() > 1);
    let dir = engine.directory_bytes();
    let data = engine.buckets_bytes();
    assert_eq!(data.len(), 4 + 4096 * engine.bucket_count());
    let reloaded = HashStorage::load(&dir, &data).unwrap();
    assert_eq!(reloaded.bucket_lookup(), engine.bucket_lookup());
    assert_eq!(reloaded.global_level(), engine.global_level());
    assert_eq!(reloaded.bucket_count(), engine.bucket_count());
    for i in 0..40u32 {
        let key = format!("key{}", i);
        assert_eq!(reloaded.get_text(&key), Ok(Some("x".repeat(300))));
    }
}

#[test]
fn persistence_scenario() {
    let mut engine = HashStorage::new();
    let mut wal = Wal::new();
    let out = run(&mut engine, &mut wal, Command::Put(PutCommand("MY_KEY".into(), "MY_VALUE".into())), None);
    assert_eq!(out, Ok(CommandOutput::Put));
    let out = run(&mut engine, &mut wal, Command::Get(GetCommand("MY_KEY".into())), None);
    assert_eq!(out, Ok(CommandOutput::Found("MY_VALUE".into())));
    assert_eq!(run(&mut engine, &mut wal, Command::Exit, None), Ok(CommandOutput::Exit));
    let mut reopened = HashStorage::load(&engine.directory_bytes(), &engine.buckets_bytes()).unwrap();
    let out = run(&mut reopened, &mut wal, Command::Get(GetCommand("MY_KEY".into())), None);
    assert_eq!(out, Ok(CommandOutput::Found("MY_VALUE".into())));
}

#[test]
fn empty_files_load_as_a_fresh_store() {
    let engine = HashStorage::load(&[], &[]).unwrap();
    assert_eq!(engine.global_level(), 0);
    assert_eq!(engine.bucket_count(), 1);
    assert_eq!(engine.bucket_lookup(), vec![0]);
    assert_eq!(engine.buckets_bytes().len(), 4 + 4096);
    assert_eq!(&engine.buckets_bytes()[..4], &[1, 0, 0, 0]);
    assert_eq!(engine.directory_bytes(), vec![0, 0, 0, 0, 0, 0, 0, 0, 0]);
}

#[test]
fn inconsistent_directory_is_refused() {
    // Bucket 0 has level 0, so it must answer for both entries.
    let dir = encode_directory(1, &vec![0, 1]);
    let mut data = 2u32.to_le_bytes().to_vec();
    data.extend(bucket(0, 0, vec![]).to_page());
    data.extend(bucket(1, 1, vec![]).to_page());
    assert_eq!(HashStorage::load(&dir, &data).err(), Some(LoadError::CorruptDirectory));
    let bad_dir = vec![1u8, 0, 0];
    assert_eq!(HashStorage::load(&bad_dir, &data).err(), Some(LoadError::CorruptDirectory));
}

#[test]
fn oversized_record_is_refused_without_change() {
    let mut engine = HashStorage::new();
    engine.put_text("a", "1").unwrap();
    let big = "v".repeat(4082);
    assert_eq!(engine.put_text("k", &big), Err(StoreError::OversizedRecord));
    assert_eq!(engine.get_text("k"), Ok(None));
    assert_eq!(engine.get_text("a"), Ok(Some("1".to_string())));
    assert_eq!(engine.bucket_count(), 1);
    // The largest record that fits an empty page is accepted.
    let fits = "v".repeat(4081);
    assert_eq!(engine.put_text("k", &fits), Ok(()));
    assert_eq!(engine.get_text("k"), Ok(Some(fits)));
}

#[test]
fn colliding_hashes_stop_at_the_level_cap() {
    let mut engine = HashStorage::new();
    engine.put(record_from_size(42, 1, 1, 3000)).unwrap();
    engine.take_dirty_pages();
    assert_eq!(engine.put(record_from_size(42, 2, 2, 3000)), Err(StoreError::OversizedRecord));
    assert_eq!(engine.bucket_count(), 1);
    assert_eq!(engine.global_level(), 0);
    assert_eq!(engine.bucket_lookup(), vec![0]);
    assert_eq!(engine.take_dirty_pages(), Vec::<usize>::new());
    assert_eq!(engine.get(42, &[1]), Some(vec![1; 2986]));
    assert_eq!(engine.get(42, &[2]), None);
}

#[test]
fn put_is_idempotent_and_overwrites() {
    let mut engine = HashStorage::new();
    engine.put_text("k", "v").unwrap();
    engine.put_text("k", "v").unwrap();
    assert_eq!(engine.get_text("k"), Ok(Some("v".to_string())));
    engine.put_text("k", "a longer value").unwrap();
    assert_eq!(engine.get_text("k"), Ok(Some("a longer value".to_string())));
    engine.put_text("k", "s").unwrap();
    assert_eq!(engine.get_text("k"), Ok(Some("s".to_string())));
    engine.delete_text("k");
    assert_eq!(engine.get_text("k"), Ok(None));
    engine.put_text("k", "again").unwrap();
    engine.delete(DeleteCommand("k".into()));
    assert_eq!(engine.get_text("k"), Ok(None));
}

#[test]
fn many_keys_round_trip_through_splits() {
    let mut engine = HashStorage::new();
    for i in 0..500u32 {
        engine.put_text(&format!("k{}", i), &format!("value-{}", i * 7)).unwrap();
    }
    assert!(engine.global_level() >= 1);
    for i in 0..500u32 {
        assert_eq!(engine.get_text(&format!("k{}", i)), Ok(Some(format!("value-{}", i * 7))));
    }
    for i in (0..500u32).step_by(2) {
        engine.delete_text(&format!("k{}", i));
    }
    for i in 0..500u32 {
        let expect = if i % 2 == 0 { None } else { Some(format!("value-{}", i * 7)) };
        assert_eq!(engine.get_text(&format!("k{}", i)), Ok(expect));
    }
    let lookup = engine.bucket_lookup();
    assert_eq!(lookup.len(), 1usize << engine.global_level());
}

#[test]
fn delete_keeps_other_keys_of_the_same_hash() {
    let mut engine = HashStorage::new();
    engine.put(Record(9, vec![1], vec![10])).unwrap();
    engine.put(Record(9, vec![2], vec![20])).unwrap();
    engine.put(Record(8, vec![1], vec![30])).unwrap();
    engine.delete_record(9, &[1]);
    assert_eq!(engine.get(9, &[1]), None);
    assert_eq!(engine.get(9, &[2]), Some(vec![20]));
    assert_eq!(engine.get(8, &[1]), Some(vec![30]));
}

#[test]
fn corrupt_value_is_reported() {
    let mut engine = HashStorage::new();
    engine.put_text("k", "v").unwrap();
    assert_eq!(engine.get_text("k"), Ok(Some("v".to_string())));
    let mut data = engine.buckets_bytes();
    let dir = engine.directory_bytes();
    // The value byte is the last byte of the only record.
    let page_start = 4;
    let value_at = page_start + 1 + 13 + 1;
    assert_eq!(data[value_at], b'v');
    data[value_at] = 0xff;
    let damaged = HashStorage::load(&dir, &data).unwrap();
    assert_eq!(damaged.get_text("k"), Err(StoreError::CorruptPage));
}

#[test]
fn global_level_of_a_directory_length() {
    assert_eq!(addr_count_to_global_level(0), 0);
    assert_eq!(addr_count_to_global_level(1), 0);
    assert_eq!(addr_count_to_global_level(2), 1);
    assert_eq!(addr_count_to_global_level(8), 3);
    assert_eq!(addr_count_to_global_level(9), 3);
    assert_eq!(addr_count_to_global_level(1 << 20), 20);
}

#[test]
fn changed_pages_are_listed_once_taken() {
    let mut engine = HashStorage::new();
    assert_eq!(engine.take_dirty_pages(), vec![0]);
    assert_eq!(engine.take_dirty_pages(), Vec::<usize>::new());
    engine.put_text("k", "v").unwrap();
    assert_eq!(engine.take_dirty_pages(), vec![0]);
    let big = "v".repeat(3000);
    engine.put_text("a", &big).unwrap();
    engine.put_text("b", &big).unwrap();
    let dirty = engine.take_dirty_pages();
    assert!(dirty.len() >= 3);
    for i in 0..engine.bucket_count() {
        let page = engine.page(i);
        let b = Bucket::from_bytes(&page, i).unwrap();
        assert_eq!(b.bucket_index, i);
    }
    let reloaded = HashStorage::load(&engine.directory_bytes(), &engine.buckets_bytes()).unwrap();
    assert_eq!(reloaded.get_text("b"), Ok(Some(big)));
}

fn levels_of(engine: &HashStorage) -> Vec<u8> {
    (0..engine.bucket_count()).map(|i| page_of(engine, i).level).collect()
}

#[test]
fn directory_entries_of_a_bucket_share_its_low_bits() {
    let mut engine = HashStorage::new();
    for i in 0..300u32 {
        engine.put_text(&format!("key{}", i), &"z".repeat(200)).unwrap();
    }
    let lookup = engine.bucket_lookup();
    let levels = levels_of(&engine);
    let g = engine.global_level();
    assert_eq!(lookup.len(), 1usize << g);
    for j in 0..lookup.len() {
        let l = levels[lookup[j]];
        assert!(l <= g);
        let mask = (1usize << l) - 1;
        for k in 0..lookup.len() {
            assert_eq!(lookup[j] == lookup[k], (j & mask) == (k & mask));
        }
    }
}

#[test]
fn no_record_is_lost_across_splits() {
    let mut engine = HashStorage::new();
    for i in 0..400u32 {
        engine.put_text(&format!("k{}", i), &"w".repeat(100)).unwrap();
    }
    for i in 0..100u32 {
        engine.delete_text(&format!("k{}", i));
    }
    let mut total = 0;
    for i in 0..engine.bucket_count() {
        total += page_of(&engine, i).records.len();
    }
    assert_eq!(total, 300);
    let lookup = engine.bucket_lookup();
    let g = engine.global_level();
    for i in 0..engine.bucket_count() {
        for r in page_of(&engine, i).records {
            let slot = (r.0 & ((1u64 << g) - 1)) as usize;
            assert_eq!(lookup[slot], i);
        }
    }
}

#[test]
fn page_with_a_repeated_key_is_refused() {
    let dup = bucket(0, 0, vec![Record(1, vec![5], vec![1]), Record(1, vec![5], vec![2])]);
    let dir = encode_directory(0, &vec![0]);
    let mut data = 1u32.to_le_bytes().to_vec();
    data.extend(dup.to_page());
    assert_eq!(HashStorage::load(&dir, &data).err(), Some(LoadError::CorruptPage));
    let misplaced = bucket(1, 1, vec![Record(2, vec![5], vec![1])]);
    let dir = encode_directory(1, &vec![0, 1]);
    let mut data = 2u32.to_le_bytes().to_vec();
    data.extend(bucket(0, 1, vec![]).to_page());
    data.extend(misplaced.to_page());
    assert_eq!(HashStorage::load(&dir, &data).err(), Some(LoadError::CorruptDirectory));
}

#[test]
fn an_empty_buckets_file_gets_its_first_page_written() {
    let mut engine = HashStorage::load(&[], &[]).unwrap();
    assert_eq!(engine.take_dirty_pages(), vec![0]);
    let (offset, page) = engine.page_at(0);
    assert_eq!(offset, 4);
    assert_eq!(page.len(), 4096);
    assert_eq!(engine.buckets_header(), vec![1, 0, 0, 0]);
    let mut reloaded = HashStorage::load(&engine.directory_bytes(), &engine.buckets_bytes()).unwrap();
    assert_eq!(reloaded.take_dirty_pages(), Vec::<usize>::new());
}

#[test]
fn a_put_that_fits_leaves_the_shape_alone() {
    let mut engine = HashStorage::new();
    for i in 0..30u32 {
        engine.put_text(&format!("s{}", i), &"q".repeat(200)).unwrap();
    }
    let lookup = engine.bucket_lookup();
    let count = engine.bucket_count();
    engine.take_dirty_pages();
    engine.put_text("s3", "tiny").unwrap();
    assert_eq!(engine.bucket_lookup(), lookup);
    assert_eq!(engine.bucket_count(), count);
    assert_eq!(engine.take_dirty_pages().len(), 1);
}
