use position_db::hash_value::HashValue;
use position_db::position_db::{
    open_shards, shard_directory_name, OpenStep, PositionDb, SeekReply, StateKey, WriteAction,
    NUM_NATIVE_VALUE_SHARDS, POSITION_DB_COLUMN_FAMILIES,
};
use std::cmp::Reverse;
use std::collections::BTreeMap;

type Rows = BTreeMap<([u8; 32], Reverse<u64>), Option<u32>>;

fn hash(first: u8, last: u8) -> HashValue {
    let mut bytes = [0u8; 32];
    bytes[0] = first;
    bytes[31] = last;
    HashValue { bytes }
}

fn handles() -> PositionDb<usize> {
    PositionDb::new([0, 1, 2, 3, 4, 5, 6, 7, 8, 9, 10, 11, 12, 13, 14, 15])
}

fn empty_shards() -> Vec<Rows> {
    (0..16).map(|_| Rows::new()).collect()
}

/// Takes the actions up to the one with index `fail_at`, which fails.
fn run(shards: &mut [Rows], actions: Vec<WriteAction<u32>>, fail_at: usize) {
    let mut batches: Vec<Vec<((HashValue, u64), Option<u32>)>> = (0..16).map(|_| vec![]).collect();
    for (i, action) in actions.into_iter().enumerate() {
        if i == fail_at {
            return;
        }
        match action {
            WriteAction::Put { shard, key, value } => batches[shard].push((key, value)),
            WriteAction::Commit { shard } => {
                for ((h, version), value) in batches[shard].drain(..) {
                    shards[shard].insert((h.bytes, Reverse(version)), value);
                }
            },
        }
    }
}

fn seek(rows: &Rows, key: (HashValue, u64)) -> SeekReply<u32, String> {
    Ok(rows
        .range((key.0.bytes, Reverse(key.1))..)
        .next()
        .map(|(k, v)| Ok(((HashValue { bytes: k.0 }, k.1 .0), *v))))
}

fn read(shards: &[Rows], h: HashValue, version: u64) -> Option<u32> {
    let db = handles();
    let request = db.get_position_value_request(h, version);
    db.get_position_value(h, seek(&shards[*request.db], request.key)).unwrap()
}

fn prior(shards: &[Rows], h: HashValue, at_version: u64) -> Option<u64> {
    let db = handles();
    match db.find_prior_version_request(h, at_version) {
        None => None,
        Some(request) => db
            .find_prior_version(h, at_version, seek(&shards[*request.db], request.key))
            .unwrap(),
    }
}

#[test]
fn leading_nibble_selects_the_shard() {
    assert_eq!(NUM_NATIVE_VALUE_SHARDS, 16);
    assert_eq!(PositionDb::<()>::shard_of_hash(hash(0x00, 0xff)), 0);
    assert_eq!(PositionDb::<()>::shard_of_hash(hash(0x0f, 0)), 0);
    assert_eq!(PositionDb::<()>::shard_of_hash(hash(0x10, 0)), 1);
    assert_eq!(PositionDb::<()>::shard_of_hash(hash(0xa7, 0)), 10);
    assert_eq!(PositionDb::<()>::shard_of_hash(hash(0xff, 0)), 15);
}

#[test]
fn state_key_and_its_hash_select_the_same_shard() {
    for first in 0..=255u8 {
        let h = hash(first, 1);
        let key = StateKey { key: "position", hash: h };
        assert_eq!(
            PositionDb::<()>::shard_of_state_key(&key),
            PositionDb::<()>::shard_of_hash(h)
        );
    }
}

#[test]
fn names_and_column_families() {
    assert_eq!(PositionDb::<()>::name(), "position_db");
    assert_eq!(
        PositionDb::<()>::column_families(),
        ["default", "db_metadata", "position_value", "stale_position_value_index"]
    );
    assert_eq!(PositionDb::<()>::column_families(), POSITION_DB_COLUMN_FAMILIES);
}

#[test]
fn handles_stay_in_their_order() {
    let db = handles();
    assert_eq!(*db.shard(0), 0);
    assert_eq!(*db.shard(15), 15);
    assert_eq!(db.shards()[7], 7);
}

#[test]
fn uniform_store_repeats_one_handle() {
    let db = PositionDb::new_uniform_for_test(std::sync::Arc::new(5u8));
    assert!(db.shards().iter().all(|d| **d == 5));
    assert_eq!(std::sync::Arc::strong_count(db.shard(3)), 16);
}

#[test]
fn shard_directories() {
    assert_eq!(shard_directory_name(0), "shard_0");
    assert_eq!(shard_directory_name(9), "shard_9");
    assert_eq!(shard_directory_name(10), "shard_10");
    assert_eq!(shard_directory_name(15), "shard_15");
    assert_eq!(shard_directory_name(1207), "shard_1207");
}

/// Opens the shards with the opener, and notes what it is called with.
fn open_with<D>(
    calls: &mut Vec<(String, usize)>,
    opener: impl Fn(&str, usize) -> Result<D, String>,
) -> Result<PositionDb<D>, String> {
    let mut stage = open_shards();
    loop {
        let (directory, shard) = stage.request();
        calls.push((directory.clone(), shard));
        match stage.shard_opened(opener(&directory, shard))? {
            OpenStep::Open(next) => stage = next,
            OpenStep::Done(db) => return Ok(db),
        }
    }
}

#[test]
fn all_shards_open() {
    let mut calls = vec![];
    let db = open_with(&mut calls, |name, i| Ok(format!("{}/{}", name, i))).unwrap();
    let expected: Vec<(String, usize)> = (0..16).map(|i| (format!("shard_{}", i), i)).collect();
    assert_eq!(calls, expected);
    for i in 0..16 {
        assert_eq!(*db.shard(i), format!("shard_{}/{}", i, i));
    }
}

#[test]
fn first_shard_that_fails_to_open_is_reported() {
    for failed in 0..16 {
        let mut calls = vec![];
        let result = open_with(&mut calls, |name, i| {
            if i == failed || i == 15 {
                Err(format!("no {}", name))
            } else {
                Ok(i)
            }
        });
        assert_eq!(result.err(), Some(format!("no shard_{}", failed)));
        let expected: Vec<(String, usize)> =
            (0..=failed).map(|i| (format!("shard_{}", i), i)).collect();
        assert_eq!(calls, expected);
    }
}

#[test]
fn batch_puts_in_order_then_commits_touched_shards() {
    let db = handles();
    let writes = vec![
        (hash(0xb0, 1), Some(1)),
        (hash(0x20, 2), None),
        (hash(0xb1, 3), Some(3)),
    ];
    assert_eq!(
        db.write_position_batch(9, writes),
        vec![
            WriteAction::Put { shard: 11, key: (hash(0xb0, 1), 9), value: Some(1) },
            WriteAction::Put { shard: 2, key: (hash(0x20, 2), 9), value: None },
            WriteAction::Put { shard: 11, key: (hash(0xb1, 3), 9), value: Some(3) },
            WriteAction::Commit { shard: 2 },
            WriteAction::Commit { shard: 11 },
        ]
    );
    assert_eq!(db.write_position_batch::<u32>(9, vec![]), vec![]);
}

#[test]
fn read_gives_back_the_write() {
    let mut shards = empty_shards();
    let db = handles();
    let (a, b) = (hash(0x31, 1), hash(0x32, 2));
    run(&mut shards, db.write_position_batch(5, vec![(a, Some(1)), (b, Some(2)), (a, Some(3))]), 99);
    assert_eq!(read(&shards, a, 5), Some(3));
    assert_eq!(read(&shards, a, 1000), Some(3));
    assert_eq!(read(&shards, b, 5), Some(2));
    assert_eq!(read(&shards, a, 4), None);
    assert_eq!(read(&shards, hash(0x31, 0), 5), None);
    assert_eq!(read(&shards, hash(0x40, 0), 5), None);
}

#[test]
fn read_gives_the_latest_value_and_none_after_deletion() {
    let mut shards = empty_shards();
    let db = handles();
    let a = hash(0x77, 7);
    run(&mut shards, db.write_position_batch(3, vec![(a, Some(30))]), 99);
    run(&mut shards, db.write_position_batch(8, vec![(a, Some(80))]), 99);
    run(&mut shards, db.write_position_batch(9, vec![(a, None)]), 99);
    assert_eq!(read(&shards, a, 2), None);
    assert_eq!(read(&shards, a, 3), Some(30));
    assert_eq!(read(&shards, a, 7), Some(30));
    assert_eq!(read(&shards, a, 8), Some(80));
    assert_eq!(read(&shards, a, 9), None);
    assert_eq!(read(&shards, a, u64::MAX), None);
}

#[test]
fn batch_keeps_other_reads() {
    let mut shards = empty_shards();
    let db = handles();
    let (a, b) = (hash(0x31, 1), hash(0x31, 2));
    run(&mut shards, db.write_position_batch(1, vec![(a, Some(1)), (b, Some(2))]), 99);
    run(&mut shards, db.write_position_batch(2, vec![(a, Some(9))]), 99);
    assert_eq!(read(&shards, b, 2), Some(2));
    assert_eq!(read(&shards, a, 1), Some(1));
}

#[test]
fn rows_stand_in_the_shard_of_their_hash() {
    let mut shards = empty_shards();
    let db = handles();
    let writes = (0..=255u8).map(|first| (hash(first, 3), Some(first as u32))).collect();
    run(&mut shards, db.write_position_batch(4, writes), 999);
    for (i, rows) in shards.iter().enumerate() {
        assert_eq!(rows.len(), 16);
        assert!(rows.keys().all(|key| key.0[0] / 16 == i as u8));
    }
}

#[test]
fn prior_version_is_the_last_write_before() {
    let mut shards = empty_shards();
    let db = handles();
    let a = hash(0x77, 7);
    run(&mut shards, db.write_position_batch(0, vec![(a, Some(1))]), 99);
    run(&mut shards, db.write_position_batch(3, vec![(a, None)]), 99);
    run(&mut shards, db.write_position_batch(8, vec![(a, Some(2))]), 99);
    assert_eq!(prior(&shards, a, 0), None);
    assert_eq!(prior(&shards, a, 1), Some(0));
    assert_eq!(prior(&shards, a, 3), Some(0));
    assert_eq!(prior(&shards, a, 4), Some(3));
    assert_eq!(prior(&shards, a, 8), Some(3));
    assert_eq!(prior(&shards, a, 9), Some(8));
    assert_eq!(prior(&shards, hash(0x78, 7), 9), None);
    assert_eq!(prior(&shards, hash(0x76, 7), 9), None);
}

#[test]
fn stopped_batch_leaves_whole_shards() {
    let (a, b, c) = (hash(0x10, 1), hash(0x20, 2), hash(0x21, 3));
    let batch = || handles().write_position_batch(1, vec![(b, Some(2)), (a, Some(1)), (c, Some(3))]);
    // Three puts, then the commits of shards 1 and 2.
    for fail_at in 0..=3 {
        let mut shards = empty_shards();
        run(&mut shards, batch(), fail_at);
        assert!(shards.iter().all(|rows| rows.is_empty()));
    }
    let mut shards = empty_shards();
    run(&mut shards, batch(), 4);
    assert_eq!(read(&shards, a, 1), Some(1));
    assert_eq!(read(&shards, b, 1), None);
    assert_eq!(read(&shards, c, 1), None);
    assert!(shards.iter().enumerate().all(|(i, rows)| rows.is_empty() == (i != 1)));
    run(&mut shards, batch(), 5);
    assert_eq!(read(&shards, b, 1), Some(2));
    assert_eq!(read(&shards, c, 1), Some(3));
}

#[test]
fn failed_seek_is_handed_on() {
    let db = handles();
    let a = hash(1, 1);
    let failed: SeekReply<u32, String> = Err(String::from("io"));
    assert_eq!(db.get_position_value(a, failed), Err(String::from("io")));
    let failed: SeekReply<u32, String> = Err(String::from("io"));
    assert_eq!(db.find_prior_version(a, 1, failed), Err(String::from("io")));
    let failed: SeekReply<u32, String> = Err(String::from("io"));
    assert_eq!(db.find_prior_version(a, 0, failed), Ok(None));
}

#[test]
fn unreadable_row_counts_as_none() {
    let db = handles();
    let a = hash(1, 1);
    let unreadable: SeekReply<u32, String> = Ok(Some(Err(String::from("bad row"))));
    assert_eq!(db.get_position_value(a, unreadable), Ok(None));
    let unreadable: SeekReply<u32, String> = Ok(Some(Err(String::from("bad row"))));
    assert_eq!(db.find_prior_version(a, 9, unreadable), Ok(None));
}

#[test]
fn row_of_another_hash_counts_as_none() {
    let db = handles();
    let a = hash(1, 1);
    let other: SeekReply<u32, String> = Ok(Some(Ok(((hash(1, 2), 3), Some(4)))));
    assert_eq!(db.get_position_value(a, other), Ok(None));
    let other: SeekReply<u32, String> = Ok(Some(Ok(((hash(1, 2), 3), Some(4)))));
    assert_eq!(db.find_prior_version(a, 9, other), Ok(None));
}

#[test]
fn hashes_are_ordered_by_their_bytes() {
    assert!(hash(2, 0).is_after(&hash(1, 0xff)));
    assert!(!hash(1, 0xff).is_after(&hash(2, 0)));
    assert!(hash(1, 2).is_after(&hash(1, 1)));
    assert!(!hash(1, 1).is_after(&hash(1, 1)));
    assert!(hash(1, 1) == hash(1, 1));
    assert!(hash(1, 1) != hash(1, 2));
    assert_eq!(HashValue::zero().bytes, [0u8; 32]);
    assert_eq!(hash(0xa7, 0).get_leading_nibble(), 10);
}
