use std::collections::BTreeMap;
use std::collections::BTreeSet;

use tsdb::db::{scan_table, Db, Probe};
use tsdb::error::{Error, ErrorKind};
use tsdb::filemanager::{DirEntry, FileManager, Found};
use tsdb::format::Rec;
use tsdb::table::TableBuilder;

/// Files and directories, held in memory.
struct Disk {
    dirs: BTreeSet<String>,
    files: BTreeMap<String, Vec<u8>>,
}

impl Disk {
    fn new() -> Disk {
        Disk {
            dirs: BTreeSet::new(),
            files: BTreeMap::new(),
        }
    }

    fn find(&self, dir: &str) -> Found {
        if self.files.contains_key(dir) {
            return Found::File;
        }
        if !self.dirs.contains(dir) {
            return Found::Nothing;
        }
        let prefix = format!("{}/", dir);
        let mut entries = Vec::new();
        for path in self.files.keys() {
            if path.starts_with(&prefix) {
                entries.push(DirEntry {
                    path: path.clone(),
                    is_dir: false,
                });
            }
        }
        Found::Directory(entries)
    }

    fn open(&mut self, dir: &str) -> Result<Db, Error> {
        let fm = FileManager::open_or_create(dir, self.find(dir))?;
        if fm.must_create_dir() {
            self.dirs.insert(dir.to_string());
        }
        let log = match fm.latest_log() {
            Some(path) => self.files[&path].clone(),
            None => Vec::new(),
        };
        let (db, promotion) = Db::new(fm, log)?;
        if let Some(table) = promotion {
            self.files.insert(table.path, table.contents);
        }
        self.files.insert(db.log_path(), Vec::new());
        Ok(db)
    }

    fn record(&mut self, db: &mut Db, timestamp: u64, value: u64) -> Result<(), Error> {
        db.record(&Rec { timestamp, value })?;
        self.files.insert(db.log_path(), db.log_file().clone());
        Ok(())
    }

    fn lookup(&self, db: &Db, ts: u64) -> Result<u64, Error> {
        let paths = db.table_paths();
        let mut probe = db.lookup_start(ts);
        loop {
            match probe {
                Probe::Found(v) => return Ok(v),
                Probe::NotFound => return Err(Error::new(ErrorKind::NotFound)),
                Probe::Read { step, table } => {
                    probe = db.lookup_table(ts, step, self.files[&paths[table]].clone())?;
                }
            }
        }
    }

    fn lookup_at_once(&self, db: &Db, ts: u64) -> Result<u64, Error> {
        let files: Vec<Vec<u8>> = db
            .table_paths()
            .iter()
            .map(|path| self.files[path].clone())
            .collect();
        db.lookup(ts, &files)
    }
}

#[test]
fn db_test() {
    let mut disk = Disk::new();

    let mut db = disk.open("/tmp/db").expect("Db::new");
    disk.record(&mut db, 1234567890, 257).unwrap();
    disk.record(&mut db, 1111111111, 1).unwrap();

    assert_eq!(257, disk.lookup(&db, 1234567890).unwrap());
    assert_eq!(1, disk.lookup(&db, 1111111111).unwrap());
    assert_eq!(
        ErrorKind::NotFound,
        disk.lookup(&db, 2222222222).unwrap_err().kind()
    );
}

#[test]
fn recovery() {
    let mut disk = Disk::new();

    {
        let mut db = disk.open("/tmp/db2").expect("Db::new");
        disk.record(&mut db, 1234567890, 257).unwrap();
        disk.record(&mut db, 1111111111, 1).unwrap();

        assert_eq!(257, disk.lookup(&db, 1234567890).unwrap());
        assert_eq!(1, disk.lookup(&db, 1111111111).unwrap());
        assert_eq!(
            ErrorKind::NotFound,
            disk.lookup(&db, 2222222222).unwrap_err().kind()
        );
    }

    {
        let db = disk.open("/tmp/db2").expect("Db::new");

        assert_eq!(257, disk.lookup(&db, 1234567890).unwrap());
        assert_eq!(1, disk.lookup(&db, 1111111111).unwrap());
        assert_eq!(
            ErrorKind::NotFound,
            disk.lookup(&db, 2222222222).unwrap_err().kind()
        );
        assert_eq!(257, disk.lookup_at_once(&db, 1234567890).unwrap());
        assert_eq!(
            ErrorKind::NotFound,
            disk.lookup_at_once(&db, 2222222222).unwrap_err().kind()
        );
    }
}

#[test]
fn files_of_a_fresh_store() {
    let mut disk = Disk::new();
    let mut db = disk.open("/d1").unwrap();
    assert_eq!("/d1/log_0", db.log_path());
    assert!(db.table_paths().is_empty());
    assert_eq!(vec!["/d1/log_0"], disk.files.keys().collect::<Vec<_>>());

    disk.record(&mut db, 1, 2).unwrap();
    assert_eq!(
        vec![1u8, 0, 0, 0, 0, 0, 0, 0, 2, 0, 0, 0, 0, 0, 0, 0],
        disk.files["/d1/log_0"]
    );
}

#[test]
fn reopening_promotes_the_log() {
    let mut disk = Disk::new();
    {
        let mut db = disk.open("/d1").unwrap();
        disk.record(&mut db, 9, 90).unwrap();
        disk.record(&mut db, 3, 30).unwrap();
    }
    let db = disk.open("/d1").unwrap();
    assert_eq!("/d1/log_1", db.log_path());
    assert_eq!(vec!["/d1/table_0"], db.table_paths());
    assert!(db.log_file().is_empty());
    assert_eq!(
        TableBuilder::write(&vec![(3, 30), (9, 90)]).unwrap(),
        disk.files["/d1/table_0"]
    );
    assert_eq!(
        vec!["/d1/log_0", "/d1/log_1", "/d1/table_0"],
        disk.files.keys().collect::<Vec<_>>()
    );
}

#[test]
fn a_duplicate_key_keeps_the_last_value() {
    let mut disk = Disk::new();
    {
        let mut db = disk.open("/d2").unwrap();
        disk.record(&mut db, 5, 50).unwrap();
        disk.record(&mut db, 5, 60).unwrap();
        assert_eq!(60, disk.lookup(&db, 5).unwrap());
    }
    let db = disk.open("/d2").unwrap();
    assert_eq!(60, disk.lookup(&db, 5).unwrap());
}

#[test]
fn a_table_of_several_blocks() {
    let mut disk = Disk::new();
    {
        let mut db = disk.open("/d3").unwrap();
        for k in 1..=2500u64 {
            disk.record(&mut db, k, k * 2).unwrap();
        }
    }
    let db = disk.open("/d3").unwrap();
    assert_eq!(2 * 32768, disk.files["/d3/table_0"].len());
    assert_eq!(2, disk.lookup(&db, 1).unwrap());
    assert_eq!(2500, disk.lookup(&db, 1250).unwrap());
    assert_eq!(5000, disk.lookup(&db, 2500).unwrap());
    assert_eq!(4096, disk.lookup(&db, 2048).unwrap());
    assert_eq!(
        ErrorKind::NotFound,
        disk.lookup(&db, 2501).unwrap_err().kind()
    );
    assert_eq!(5000, disk.lookup_at_once(&db, 2500).unwrap());
}

#[test]
fn a_file_in_place_of_the_directory() {
    let mut disk = Disk::new();
    disk.files.insert("/d4".to_string(), vec![1, 2, 3]);
    assert_eq!(
        ErrorKind::InvalidInput,
        disk.open("/d4").err().unwrap().kind()
    );
}

#[test]
fn the_newest_table_answers() {
    let mut disk = Disk::new();
    for value in [10u64, 20, 30] {
        let mut db = disk.open("/d5").unwrap();
        disk.record(&mut db, 7, value).unwrap();
        disk.record(&mut db, value, value).unwrap();
    }
    let mut db = disk.open("/d5").unwrap();
    assert_eq!(
        vec!["/d5/table_0", "/d5/table_1", "/d5/table_2"],
        db.table_paths()
    );
    assert_eq!(Probe::Read { step: 0, table: 2 }, db.lookup_start(7));
    assert_eq!(30, disk.lookup(&db, 7).unwrap());
    assert_eq!(30, disk.lookup_at_once(&db, 7).unwrap());
    assert_eq!(10, disk.lookup(&db, 10).unwrap());
    assert_eq!(20, disk.lookup_at_once(&db, 20).unwrap());

    disk.record(&mut db, 7, 40).unwrap();
    assert_eq!(Probe::Found(40), db.lookup_start(7));
    assert_eq!(40, disk.lookup(&db, 7).unwrap());
    assert_eq!(40, disk.lookup_at_once(&db, 7).unwrap());
}

#[test]
fn lookup_steps() {
    let mut disk = Disk::new();
    for value in [10u64, 20] {
        let mut db = disk.open("/d6").unwrap();
        disk.record(&mut db, value, value + 1).unwrap();
    }
    let db = disk.open("/d6").unwrap();
    let newest = disk.files["/d6/table_1"].clone();
    let oldest = disk.files["/d6/table_0"].clone();

    assert_eq!(Probe::Read { step: 0, table: 1 }, db.lookup_start(10));
    assert_eq!(
        Probe::Read { step: 1, table: 0 },
        db.lookup_table(10, 0, newest.clone()).unwrap()
    );
    assert_eq!(Probe::Found(11), db.lookup_table(10, 1, oldest.clone()).unwrap());
    assert_eq!(Probe::Found(21), db.lookup_table(20, 0, newest.clone()).unwrap());
    assert_eq!(Probe::NotFound, db.lookup_table(30, 1, oldest.clone()).unwrap());
    assert_eq!(Probe::NotFound, db.lookup_table(30, 2, oldest.clone()).unwrap());
    assert_eq!(
        Probe::NotFound,
        db.lookup_table(30, usize::MAX, oldest.clone()).unwrap()
    );
}

#[test]
fn a_broken_table_is_reported() {
    let mut disk = Disk::new();
    for value in [10u64, 20] {
        let mut db = disk.open("/d7").unwrap();
        disk.record(&mut db, value, value + 1).unwrap();
    }
    let db = disk.open("/d7").unwrap();
    disk.files.get_mut("/d7/table_1").unwrap().truncate(32000);

    // The newest table is scanned first and is cut short.
    assert_eq!(
        ErrorKind::InvalidData,
        disk.lookup(&db, 10).unwrap_err().kind()
    );
    assert_eq!(
        ErrorKind::InvalidData,
        disk.lookup_at_once(&db, 10).unwrap_err().kind()
    );

    let mut grown = TableBuilder::write(&vec![(20, 21)]).unwrap();
    grown.push(0);
    disk.files.insert("/d7/table_1".to_string(), grown);
    // What stands before the break is still found.
    assert_eq!(21, disk.lookup(&db, 20).unwrap());
    assert_eq!(
        ErrorKind::InvalidData,
        disk.lookup(&db, 10).unwrap_err().kind()
    );
}

#[test]
fn lookup_wants_every_table() {
    let mut disk = Disk::new();
    {
        let mut db = disk.open("/d8").unwrap();
        disk.record(&mut db, 1, 1).unwrap();
    }
    let db = disk.open("/d8").unwrap();
    assert_eq!(
        ErrorKind::InvalidInput,
        db.lookup(1, &vec![]).unwrap_err().kind()
    );
    assert_eq!(
        ErrorKind::InvalidInput,
        db.lookup(1, &vec![vec![], vec![]]).unwrap_err().kind()
    );
}

#[test]
fn scanning_a_table() {
    let file = TableBuilder::write(&vec![(1, 10), (3, 30), (3, 31), (5, 50)]).unwrap();
    assert_eq!(Some(10), scan_table(1, file.clone()).unwrap());
    assert_eq!(Some(30), scan_table(3, file.clone()).unwrap());
    assert_eq!(Some(50), scan_table(5, file.clone()).unwrap());
    assert_eq!(None, scan_table(4, file.clone()).unwrap());
    assert_eq!(None, scan_table(0, Vec::new()).unwrap());
    assert_eq!(
        ErrorKind::InvalidData,
        scan_table(4, file[..100].to_vec()).unwrap_err().kind()
    );
}

#[test]
fn an_empty_log_is_promoted_to_an_empty_table() {
    let mut disk = Disk::new();
    disk.open("/d9").unwrap();
    let db = disk.open("/d9").unwrap();
    assert_eq!(vec!["/d9/table_0"], db.table_paths());
    assert_eq!(vec![0u8; 32768], disk.files["/d9/table_0"]);
    assert_eq!(
        ErrorKind::NotFound,
        disk.lookup(&db, 0).unwrap_err().kind()
    );
}

#[test]
fn the_log_entry_is_what_record_appends() {
    let mut disk = Disk::new();
    let mut db = disk.open("/d10").unwrap();
    for k in 0..3000u64 {
        let before = db.log_file().clone();
        let entry = db.log_entry(&Rec { timestamp: k, value: !k }).unwrap();
        assert_eq!(16, entry.len());
        db.record(&Rec { timestamp: k, value: !k }).unwrap();
        assert_eq!(&[before, entry].concat(), db.log_file());
    }
}

#[test]
fn a_failed_write_leaves_the_store_alone() {
    let mut disk = Disk::new();
    let mut db = disk.open("/d11").unwrap();
    let rec = Rec { timestamp: 4, value: 40 };

    let failed: Result<(), &str> = Err("disk full");
    assert_eq!(Err("disk full"), db.record_written(&rec, failed));
    assert_eq!(Probe::NotFound, db.lookup_start(4));
    assert!(db.log_file().is_empty());

    let written: Result<(), &str> = Ok(());
    assert_eq!(Ok(()), db.record_written(&rec, written));
    assert_eq!(Probe::Found(40), db.lookup_start(4));
    assert_eq!(16, db.log_file().len());
}
