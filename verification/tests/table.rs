use std::collections::BTreeMap;
use std::collections::HashMap;

use tsdb::error::ErrorKind;
use tsdb::table::{TableBuilder, TableIterator, BLOCK_SIZE, RECORDS_PER_BLOCK};

fn pairs<'a, I: Iterator<Item = (&'a u64, &'a u64)>>(data: I) -> Vec<(u64, u64)> {
    data.map(|(k, v)| (*k, *v)).collect()
}

#[test]
fn write_table() {
    let mut map = BTreeMap::new();
    for i in 0..1000 {
        map.insert(i, i + 1);
    }

    let file = TableBuilder::write(&pairs(map.iter())).expect("TableWriter::write");

    let mut iter = TableIterator::new(file.clone());
    for i in 0..1000 {
        assert_eq!((i, i + 1), iter.next().expect(&format!("Val {}", i)));
    }

    assert_eq!(None, iter.next());
    assert_eq!(None, iter.next());
    assert!(iter.status().is_ok());
}

#[test]
fn unordered_records() {
    let mut map = HashMap::new();
    for i in 0..1000 {
        map.insert(i, i);
    }

    let mut disk: HashMap<&str, Vec<u8>> = HashMap::new();
    let res = TableBuilder::write(&pairs(map.iter())).map(|file| {
        disk.insert("/tmp/table-unordered", file);
    });

    assert!(res.is_err());
    assert_eq!(ErrorKind::InvalidInput, res.unwrap_err().kind());
    assert!(disk.is_empty());
}

#[test]
fn a_falling_key_is_refused() {
    let res = TableBuilder::write(&vec![(3, 30), (1, 10)]);
    assert_eq!(ErrorKind::InvalidInput, res.unwrap_err().kind());
}

#[test]
fn equal_keys_are_accepted() {
    let file = TableBuilder::write(&vec![(3, 30), (3, 31)]).unwrap();
    let mut iter = TableIterator::new(file.clone());
    assert_eq!(Some((3, 30)), iter.next());
    assert_eq!(Some((3, 31)), iter.next());
    assert_eq!(None, iter.next());
}

#[test]
fn a_falling_key_at_a_block_boundary_is_refused() {
    let mut data: Vec<(u64, u64)> = (0..RECORDS_PER_BLOCK as u64).map(|k| (k + 10, k)).collect();
    data.push((5, 5));
    let res = TableBuilder::write(&data);
    assert_eq!(ErrorKind::InvalidInput, res.unwrap_err().kind());
}

#[test]
fn block_layout() {
    let file = TableBuilder::write(&vec![(1, 2), (0x0304, 5)]).unwrap();
    assert_eq!(BLOCK_SIZE, file.len());
    assert_eq!(
        [1, 0, 0, 0, 0, 0, 0, 0, 2, 0, 0, 0, 0, 0, 0, 0],
        file[0..16]
    );
    assert_eq!(
        [4, 3, 0, 0, 0, 0, 0, 0, 5, 0, 0, 0, 0, 0, 0, 0],
        file[16..32]
    );
    assert!(file[32..32760].iter().all(|b| *b == 0));
    assert_eq!([2, 0, 0, 0, 0, 0, 0, 0], file[32760..]);
}

fn size_of_table(records: u64) -> usize {
    let data: Vec<(u64, u64)> = (0..records).map(|k| (k, k)).collect();
    TableBuilder::write(&data).unwrap().len()
}

#[test]
fn file_size_by_record_count() {
    assert_eq!(32768, size_of_table(0));
    assert_eq!(32768, size_of_table(1));
    assert_eq!(32768, size_of_table(2046));
    assert_eq!(2 * 32768, size_of_table(2048));
    assert_eq!(2 * 32768, size_of_table(2500));
    assert_eq!(3 * 32768, size_of_table(2 * 2047 + 1));
    // A full last block is followed by an empty one.
    assert_eq!(2 * 32768, size_of_table(2047));
}

#[test]
fn an_empty_table_is_one_empty_block() {
    let file = TableBuilder::write(&vec![]).unwrap();
    assert_eq!(vec![0u8; BLOCK_SIZE], file);
    let mut iter = TableIterator::new(file.clone());
    assert_eq!(None, iter.next());
    assert!(iter.status().is_ok());
}

#[test]
fn tables_of_several_blocks_read_back() {
    for records in [2047u64, 2048, 5000] {
        let data: Vec<(u64, u64)> = (0..records).map(|k| (k * 2, k * 2 + 1)).collect();
        let file = TableBuilder::write(&data).unwrap();
        let mut iter = TableIterator::new(file.clone());
        for record in data.iter() {
            assert_eq!(Some(*record), iter.next());
        }
        assert_eq!(None, iter.next());
        assert_eq!(None, iter.next());
        assert!(iter.status().is_ok());
    }
}

#[test]
fn a_file_of_nothing_is_an_empty_table() {
    let mut iter = TableIterator::new(Vec::new());
    assert_eq!(None, iter.next());
    assert!(iter.status().is_ok());
}

#[test]
fn a_short_block_is_a_format_error() {
    let mut file = TableBuilder::write(&vec![(1, 10), (2, 20)]).unwrap();
    file.extend_from_slice(&[0u8; 100]);
    let mut iter = TableIterator::new(file.clone());
    assert_eq!(Some((1, 10)), iter.next());
    assert_eq!(Some((2, 20)), iter.next());
    assert!(iter.status().is_ok());
    assert_eq!(None, iter.next());
    assert_eq!(ErrorKind::InvalidData, iter.status().unwrap_err().kind());
    assert_eq!(None, iter.next());
    assert_eq!(ErrorKind::InvalidData, iter.status().unwrap_err().kind());
}

#[test]
fn a_count_beyond_the_block_is_a_format_error() {
    let mut file = vec![0u8; BLOCK_SIZE];
    file[32760] = 0x00;
    file[32761] = 0x08; // 2048 records
    let mut iter = TableIterator::new(file.clone());
    assert_eq!(None, iter.next());
    assert_eq!(ErrorKind::InvalidData, iter.status().unwrap_err().kind());

    file[32760] = 0xff;
    file[32761] = 0x07; // 2047 records
    let mut iter = TableIterator::new(file.clone());
    for _ in 0..2047 {
        assert_eq!(Some((0, 0)), iter.next());
    }
    assert_eq!(None, iter.next());
    assert!(iter.status().is_ok());
}

#[test]
fn empty_blocks_are_passed_over() {
    let mut file = TableBuilder::write(&vec![]).unwrap();
    file.extend(TableBuilder::write(&vec![(4, 40)]).unwrap());
    file.extend(TableBuilder::write(&vec![]).unwrap());
    file.extend(TableBuilder::write(&vec![(5, 50)]).unwrap());
    let mut iter = TableIterator::new(file.clone());
    assert_eq!(Some((4, 40)), iter.next());
    assert_eq!(Some((5, 50)), iter.next());
    assert_eq!(None, iter.next());
    assert!(iter.status().is_ok());
}
