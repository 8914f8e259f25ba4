use tsdb::memtable::{sorted_entries, MemTable};

#[test]
fn single_recovery() {
    let file = {
        let mut memtable = MemTable::create().unwrap();
        memtable.record(1234, 5678).unwrap();
        assert_eq!(5678, *memtable.lookup(1234).unwrap());
        memtable.log_file().clone()
    };

    {
        let map = MemTable::replay(file).expect("MemTable::replay");
        assert_eq!(Some(&5678), map.get(&1234));
    }
}

#[test]
fn the_last_record_wins() {
    let mut memtable = MemTable::create().unwrap();
    memtable.record(5, 50).unwrap();
    memtable.record(7, 70).unwrap();
    memtable.record(5, 60).unwrap();
    assert_eq!(Some(&60), memtable.lookup(5));
    assert_eq!(Some(&70), memtable.lookup(7));
    assert_eq!(None, memtable.lookup(6));

    let map = MemTable::replay(memtable.log_file().clone()).unwrap();
    assert_eq!(2, map.len());
    assert_eq!(Some(&60), map.get(&5));
    assert_eq!(Some(&70), map.get(&7));
}

#[test]
fn the_log_holds_sixteen_bytes_a_record() {
    let mut memtable = MemTable::create().unwrap();
    assert!(memtable.log_file().is_empty());
    memtable.record(1, 2).unwrap();
    assert_eq!(
        &vec![1u8, 0, 0, 0, 0, 0, 0, 0, 2, 0, 0, 0, 0, 0, 0, 0],
        memtable.log_file()
    );
    memtable.record(u64::MAX, 0).unwrap();
    assert_eq!(32, memtable.log_file().len());
}

#[test]
fn replay_of_nothing_is_empty() {
    assert!(MemTable::replay(Vec::new()).unwrap().is_empty());
    // Less than one record.
    assert!(MemTable::replay(vec![1, 2, 3]).unwrap().is_empty());
}

#[test]
fn replay_across_blocks() {
    let mut memtable = MemTable::create().unwrap();
    for k in 0..5000u64 {
        memtable.record(k, k * 3).unwrap();
    }
    let map = MemTable::replay(memtable.log_file().clone()).unwrap();
    assert_eq!(5000, map.len());
    for k in 0..5000u64 {
        assert_eq!(Some(&(k * 3)), map.get(&k));
    }
}

#[test]
fn entries_come_by_rising_key() {
    let mut memtable = MemTable::create().unwrap();
    for k in [9u64, 3, 7, 3, 1] {
        memtable.record(k, k + 100).unwrap();
    }
    let map = MemTable::replay(memtable.log_file().clone()).unwrap();
    assert_eq!(
        vec![(1, 101), (3, 103), (7, 107), (9, 109)],
        sorted_entries(&map)
    );
}

#[test]
fn a_failed_write_leaves_the_table_alone() {
    let mut memtable = MemTable::create().unwrap();
    memtable.record(1, 10).unwrap();
    let log = memtable.log_file().clone();

    let failed: Result<(), String> = Err("disk full".to_string());
    assert_eq!(
        Err("disk full".to_string()),
        memtable.record_written(1, 11, failed)
    );
    assert_eq!(Some(&10), memtable.lookup(1));
    assert_eq!(&log, memtable.log_file());

    let written: Result<(), String> = Ok(());
    assert_eq!(Ok(()), memtable.record_written(2, 20, written));
    assert_eq!(Some(&20), memtable.lookup(2));
    assert_eq!(32, memtable.log_file().len());
}
