//! The store: records go to the in-memory table and its log; lookups ask the
//! in-memory table first and then the table files, newest first.
//!
//! The store reads and writes no files. On opening it is given the bytes of
//! the newest log and hands back the table file that they are promoted to;
//! on a lookup it says which table file it wants to see next.

use crate::error::{Error, ErrorKind};
use crate::filemanager::{
    is_newest_first, log_path, named_number, newer, table_path, table_prefix, FileManager,
};
use crate::format::{rec_bytes, Rec};
use crate::log::log_records;
use crate::memtable::{
    entry_bytes, lemma_listing_is_unique, lists, replay_map, sorted_entries, MemTable,
    LOG_RECORD_SIZE,
};
use crate::table::{
    lemma_table_round_trip, table_bytes, table_records, table_valid, TableBuilder,
    TableIterator,
};
use vstd::prelude::*;

verus! {

/// The value of the first record with key `ts`, if there is one.
pub open spec fn find(records: Seq<(u64, u64)>, ts: u64) -> Option<u64>
    decreases records.len(),
{
    if records.len() == 0 {
        None
    } else if records[0].0 == ts {
        Some(records[0].1)
    } else {
        find(records.drop_first(), ts)
    }
}

/// What a scan of one table file for `ts` gives: the value of the first
/// record with that key; nothing, where the file is well formed and has no
/// such record; an error, where the file is cut short or broken before
/// such a record.
pub open spec fn scan(file: Seq<u8>, ts: u64) -> Result<Option<u64>, ErrorKind> {
    match find(table_records(file), ts) {
        Some(v) => Ok(Some(v)),
        None => if table_valid(file) {
            Ok(None)
        } else {
            Err(ErrorKind::InvalidData)
        },
    }
}

/// What the table files give for `ts` when they are scanned in the order
/// given: the answer of the first that has the key or is broken.
pub open spec fn consult(tables: Seq<Seq<u8>>, ts: u64) -> Result<u64, ErrorKind>
    decreases tables.len(),
{
    if tables.len() == 0 {
        Err(ErrorKind::NotFound)
    } else {
        match scan(tables[0], ts) {
            Ok(Some(v)) => Ok(v),
            Ok(None) => consult(tables.drop_first(), ts),
            Err(kind) => Err(kind),
        }
    }
}

/// What a lookup of `ts` gives: the value in memory, or else what the
/// tables give.
pub open spec fn answer(memory: Map<u64, u64>, tables: Seq<Seq<u8>>, ts: u64) -> Result<
    u64,
    ErrorKind,
> {
    if memory.contains_key(ts) {
        Ok(memory[ts])
    } else {
        consult(tables, ts)
    }
}

/// The files picked from `files` in the order that `order` gives.
pub open spec fn in_order(files: Seq<Vec<u8>>, order: Seq<usize>) -> Seq<Seq<u8>> {
    Seq::new(order.len(), |p: int| files[order[p] as int]@)
}

/// A result with its error reduced to the error's kind.
pub open spec fn kind_of<T>(r: Result<T, Error>) -> Result<T, ErrorKind> {
    match r {
        Ok(v) => Ok(v),
        Err(e) => Err(e.kind()),
    }
}

/// Whether `contents` is the table file of what `map` holds.
pub open spec fn promotes(map: Map<u64, u64>, contents: Seq<u8>) -> bool {
    exists|entries: Seq<(u64, u64)>| lists(map, entries) && contents == table_bytes(entries)
}

/// A map is promoted to one table file only.
pub proof fn lemma_promotion_is_unique(map: Map<u64, u64>, a: Seq<u8>, b: Seq<u8>)
    requires
        promotes(map, a),
        promotes(map, b),
    ensures
        a == b,
{
    let first = choose|entries: Seq<(u64, u64)>| lists(map, entries) && a == table_bytes(entries);
    let second = choose|entries: Seq<(u64, u64)>| lists(map, entries) && b == table_bytes(entries);
    lemma_listing_is_unique(map, first, second);
}

/// In a listing of a map, the first record with a key is the map's entry
/// for that key.
pub proof fn lemma_find_in_listing(map: Map<u64, u64>, entries: Seq<(u64, u64)>, ts: u64)
    requires
        lists(map, entries),
    ensures
        find(entries, ts) == if map.contains_key(ts) {
            Some(map[ts])
        } else {
            None
        },
    decreases entries.len(),
{
    if entries.len() > 0 {
        let rest = entries.drop_first();
        let head = entries[0];
        assert(map.contains_key(head.0) && map[head.0] == head.1);
        if head.0 != ts {
            let smaller = map.remove(head.0);
            assert(lists(smaller, rest)) by {
                assert forall|i: int, j: int| 0 <= i < j < rest.len() implies rest[i].0
                    < rest[j].0 by {
                    assert(entries[i + 1].0 < entries[j + 1].0);
                }
                assert forall|i: int| 0 <= i < rest.len() implies smaller.contains_key(
                    (#[trigger] rest[i]).0,
                ) && smaller[rest[i].0] == rest[i].1 by {
                    assert(entries[0].0 < entries[i + 1].0);
                    assert(map.contains_key(entries[i + 1].0));
                }
                assert forall|k: u64| #[trigger] smaller.contains_key(k) implies exists|i: int|
                    0 <= i < rest.len() && (#[trigger] rest[i]).0 == k by {
                    assert(map.contains_key(k));
                    let at = choose|i: int|
                        0 <= i < entries.len() && (#[trigger] entries[i]).0 == k;
                    assert(rest[at - 1].0 == k);
                }
            }
            lemma_find_in_listing(smaller, rest, ts);
        }
    } else {
        if map.contains_key(ts) {
            let at = choose|i: int| 0 <= i < entries.len() && (#[trigger] entries[i]).0 == ts;
        }
    }
}

/// A scan of the table that a map was promoted to finds what the map held,
/// and nothing else.
pub proof fn lemma_promotion_keeps_values(map: Map<u64, u64>, contents: Seq<u8>, ts: u64)
    requires
        promotes(map, contents),
    ensures
        scan(contents, ts) == Ok::<Option<u64>, ErrorKind>(
            if map.contains_key(ts) {
                Some(map[ts])
            } else {
                None
            },
        ),
{
    let entries = choose|entries: Seq<(u64, u64)>|
        lists(map, entries) && contents == table_bytes(entries);
    lemma_table_round_trip(entries);
    lemma_find_in_listing(map, entries, ts);
}

/// A store that is opened again answers as it did before: with its memory
/// promoted to the table that is scanned first, and nothing in memory, a
/// lookup gives what it gave with the memory and the older tables.
pub proof fn lemma_restart_keeps_answers(
    memory: Map<u64, u64>,
    promoted: Seq<u8>,
    older: Seq<Seq<u8>>,
    ts: u64,
)
    requires
        promotes(memory, promoted),
    ensures
        answer(Map::empty(), seq![promoted] + older, ts) == answer(memory, older, ts),
{
    let tables = seq![promoted] + older;
    lemma_promotion_keeps_values(memory, promoted, ts);
    assert(tables[0] == promoted);
    assert(tables.drop_first() =~= older);
}

/// Scans one table file for `ts`.
pub fn scan_table(ts: u64, file: Vec<u8>) -> (r: Result<Option<u64>, Error>)
    ensures
        kind_of(r) == scan(file@, ts),
{
    let mut iter = TableIterator::new(file);
    loop
        invariant
            iter.wf(),
            !iter.finished(),
            iter.file() == file@,
            find(iter.remaining(), ts) == find(table_records(file@), ts),
            iter.intact() == table_valid(file@),
        decreases iter.remaining().len(),
    {
        match iter.next() {
            Some((k, v)) => {
                if k == ts {
                    return Ok(Some(v));
                }
            },
            None => {
                return match iter.status() {
                    Ok(()) => Ok(None),
                    Err(e) => Err(e),
                };
            },
        }
    }
}

/// A table file that the caller is to write.
pub struct Promotion {
    /// The path of the file.
    pub path: String,
    /// The bytes of the file.
    pub contents: Vec<u8>,
}

/// Where a lookup stands.
#[derive(Debug, Clone, Copy, PartialEq, Eq, Structural)]
pub enum Probe {
    /// The key has this value.
    Found(u64),
    /// The key is nowhere in the store.
    NotFound,
    /// The table file at place `table` of `table_paths` is to be scanned
    /// next, as step `step` of the lookup.
    Read { step: usize, table: usize },
}

/// The store.
pub struct Db {
    filemanager: FileManager,
    memtable: MemTable,
    order: Vec<usize>,
    log_name: String,
}

impl View for Db {
    type V = Map<u64, u64>;

    /// What the store holds in memory.
    closed spec fn view(&self) -> Map<u64, u64> {
        self.memtable@
    }
}

impl Db {
    /// Whether the store is in a consistent state.
    pub closed spec fn wf(&self) -> bool {
        &&& self.filemanager.wf()
        &&& self.memtable.wf()
        &&& is_newest_first(self.filemanager.table_numbers(), self.order@)
        &&& self.filemanager.table_numbers().len() == self.filemanager.tables().len()
        &&& self.filemanager.newest_log_path() == Some(self.log_name@)
    }

    /// The known table files, in the order of `table_paths`, each with its
    /// number.
    pub closed spec fn tables(&self) -> Seq<(usize, Seq<char>)> {
        self.filemanager.tables()
    }

    /// The numbers of the known table files, in the order of `table_paths`.
    pub closed spec fn table_numbers(&self) -> Seq<usize> {
        self.filemanager.table_numbers()
    }

    /// The places in `table_paths` of the tables, in the order in which a
    /// lookup scans them.
    pub closed spec fn scan_order(&self) -> Seq<usize> {
        self.order@
    }

    /// The bytes of the current log file.
    pub closed spec fn log(&self) -> Seq<u8> {
        self.memtable.log()
    }

    /// The path of the current log file, for use in contracts.
    pub closed spec fn log_name(&self) -> Seq<char> {
        self.log_name@
    }

    /// Where a lookup stands when `step` tables have been scanned in vain.
    pub open spec fn probe_at(&self, step: int) -> Probe {
        if 0 <= step < self.scan_order().len() {
            Probe::Read { step: step as usize, table: self.scan_order()[step] }
        } else {
            Probe::NotFound
        }
    }

    /// A lookup scans the tables newest first and leaves none out. A
    /// table's number is the one that stands in the name of its file.
    pub proof fn lemma_scan_order(&self)
        requires
            self.wf(),
        ensures
            is_newest_first(self.table_numbers(), self.scan_order()),
            self.table_numbers().len() == self.tables().len(),
            forall|i: int|
                0 <= i < self.tables().len() ==> self.table_numbers()[i] == (
                #[trigger] self.tables()[i]).0,
            forall|i: int|
                0 <= i < self.tables().len() ==> named_number(
                    table_prefix(),
                    (#[trigger] self.tables()[i]).1,
                ) == Some(self.tables()[i].0),
    {
        self.filemanager.lemma_table_counter_is_new();
        self.filemanager.lemma_files_are_named();
    }

    /// What the store holds in memory is what a replay of its log gives.
    pub proof fn lemma_log_holds_memory(&self)
        requires
            self.wf(),
        ensures
            replay_map(log_records(self.log(), LOG_RECORD_SIZE as int)) == self@,
    {
        self.memtable.lemma_log_holds_table();
    }

    /// Opens the store in the directory that `filemanager` has opened.
    ///
    /// Where the directory has a newest log, `log` must hold its bytes: its
    /// records are promoted to a new table file, which is handed back for
    /// the caller to write. A new, empty log is named in any case. The store
    /// starts with nothing in memory. Where a file number has no successor,
    /// the error is `InvalidInput`.
    pub fn new(filemanager: FileManager, log: Vec<u8>) -> (r: Result<
        (Db, Option<Promotion>),
        Error,
    >)
        requires
            filemanager.wf(),
        ensures
            r is Err <==> filemanager.log_counter() == usize::MAX || (
            filemanager.newest_log_path() is Some && filemanager.table_counter() == usize::MAX),
            r matches Err(e) ==> e.kind() == ErrorKind::InvalidInput,
            r matches Ok((db, promotion)) ==> {
                &&& db.wf()
                &&& db@ == Map::<u64, u64>::empty()
                &&& db.log() == Seq::<u8>::empty()
                &&& db.log_name() == log_path(filemanager.root_dir(), filemanager.log_counter())
                &&& match promotion {
                    Some(table) => {
                        &&& filemanager.newest_log_path() is Some
                        &&& table.path@ == table_path(
                            filemanager.root_dir(),
                            filemanager.table_counter(),
                        )
                        &&& promotes(
                            replay_map(log_records(log@, LOG_RECORD_SIZE as int)),
                            table.contents@,
                        )
                        &&& db.tables() == filemanager.tables().push(
                            (filemanager.table_counter(), table.path@),
                        )
                        &&& db.scan_order().len() > 0
                        &&& db.scan_order()[0] == filemanager.tables().len()
                    },
                    None => filemanager.newest_log_path() is None && db.tables()
                        == filemanager.tables(),
                }
            },
    {
        let mut fm = filemanager;
        let mut promotion: Option<Promotion> = None;
        if fm.latest_log().is_some() {
            let data = match MemTable::replay(log) {
                Ok(data) => data,
                Err(e) => {
                    return Err(e);
                },
            };
            if fm.next_table_number() == usize::MAX {
                return Err(Error::new(ErrorKind::InvalidInput));
            }
            let entries = sorted_entries(&data);
            let contents = match TableBuilder::write(&entries) {
                Ok(contents) => contents,
                Err(e) => {
                    return Err(e);
                },
            };
            proof {
                fm.lemma_table_counter_is_new();
            }
            let path = fm.new_table_file();
            promotion = Some(Promotion { path, contents });
        }
        if fm.next_log_number() == usize::MAX {
            return Err(Error::new(ErrorKind::InvalidInput));
        }
        let log_name = fm.new_log_file();
        let memtable = match MemTable::create() {
            Ok(memtable) => memtable,
            Err(e) => {
                return Err(e);
            },
        };
        let order = fm.newest_first();
        let count = order.len();
        proof {
            if promotion is Some {
                let numbers = fm.table_numbers();
                let before = filemanager.tables();
                let number = filemanager.table_counter();
                assert(fm.tables() == before.push((number, promotion->Some_0.path@)));
                assert(count == before.len() + 1);
                let last = (count - 1) as usize;
                assert(numbers[last as int] == fm.tables()[last as int].0);
                assert(order@.contains(last));
                let at = choose|p: int| 0 <= p < order@.len() && order@[p] == last;
                if at > 0 {
                    let first = order@[0] as int;
                    assert(newer(numbers, first, order@[at] as int));
                    assert(numbers[first] == fm.tables()[first].0);
                    if first < last {
                        assert(fm.tables()[first] == before[first]);
                    }
                }
            }
        }
        Ok((Db { filemanager: fm, memtable, order, log_name }, promotion))
    }

    /// Takes a record into the store: into the log first, then into memory,
    /// where it replaces what its timestamp had before.
    pub fn record(&mut self, rec: &Rec) -> (r: Result<(), Error>)
        requires
            old(self).wf(),
        ensures
            final(self).wf(),
            r is Ok,
            final(self)@ == old(self)@.insert(rec.timestamp, rec.value),
            final(self).log() == old(self).log() + entry_bytes(
                old(self).log(),
                rec.timestamp,
                rec.value,
            ),
            log_records(final(self).log(), LOG_RECORD_SIZE as int) == log_records(
                old(self).log(),
                LOG_RECORD_SIZE as int,
            ).push(rec_bytes(*rec)),
            final(self).tables() == old(self).tables(),
            final(self).table_numbers() == old(self).table_numbers(),
            final(self).scan_order() == old(self).scan_order(),
            final(self).log_name() == old(self).log_name(),
    {
        proof {
            self.memtable.lemma_log_holds_records();
        }
        let r = self.memtable.record(rec.timestamp, rec.value);
        proof {
            self.memtable.lemma_log_holds_records();
        }
        r
    }

    /// Takes a record into the store once the caller has tried to append
    /// its log entry to the log file, given how that went. Where the write
    /// failed, the store is left as it was and the error is handed back;
    /// where it succeeded, the record is taken in as by `record`.
    pub fn record_written<E>(&mut self, rec: &Rec, written: Result<(), E>) -> (r: Result<(), E>)
        requires
            old(self).wf(),
        ensures
            final(self).wf(),
            r == written,
            written is Err ==> final(self)@ == old(self)@ && final(self).log() == old(self).log(),
            written is Ok ==> final(self)@ == old(self)@.insert(rec.timestamp, rec.value)
                && final(self).log() == old(self).log() + entry_bytes(
                old(self).log(),
                rec.timestamp,
                rec.value,
            ),
            final(self).tables() == old(self).tables(),
            final(self).table_numbers() == old(self).table_numbers(),
            final(self).scan_order() == old(self).scan_order(),
            final(self).log_name() == old(self).log_name(),
    {
        self.memtable.record_written(rec.timestamp, rec.value, written)
    }

    /// Starts a lookup of `ts`: the value in memory, or else the first
    /// table to scan.
    pub fn lookup_start(&self, ts: u64) -> (probe: Probe)
        requires
            self.wf(),
        ensures
            probe == if self@.contains_key(ts) {
                Probe::Found(self@[ts])
            } else {
                self.probe_at(0)
            },
    {
        match self.memtable.lookup(ts) {
            Some(v) => Probe::Found(*v),
            None => self.next_probe(0),
        }
    }

    /// Where a lookup stands when `step` tables have been scanned in vain.
    fn next_probe(&self, step: usize) -> (probe: Probe)
        ensures
            probe == self.probe_at(step as int),
    {
        if step < self.order.len() {
            Probe::Read { step, table: self.order[step] }
        } else {
            Probe::NotFound
        }
    }

    /// Goes on with a lookup of `ts`, given as `contents` the bytes of the
    /// table file that step `step` of the lookup asked for: the value that
    /// the table has for `ts`, or else the next table to scan, or the end
    /// of the lookup. A table that is cut short or broken is an
    /// `InvalidData` error.
    pub fn lookup_table(&self, ts: u64, step: usize, contents: Vec<u8>) -> (r: Result<Probe, Error>)
        requires
            self.wf(),
        ensures
            kind_of(r) == match scan(contents@, ts) {
                Ok(Some(v)) => Ok(Probe::Found(v)),
                Ok(None) => Ok(self.probe_at(step + 1)),
                Err(kind) => Err(kind),
            },
    {
        match scan_table(ts, contents) {
            Ok(Some(v)) => Ok(Probe::Found(v)),
            Ok(None) => {
                if step < self.order.len() {
                    Ok(self.next_probe(step + 1))
                } else {
                    Ok(Probe::NotFound)
                }
            },
            Err(e) => Err(e),
        }
    }

    /// Looks `ts` up, given the bytes of every table file: `files[i]` is
    /// the file at `table_paths()[i]`. The value in memory wins; else the
    /// tables are scanned newest first, and the first that has the key
    /// answers. A key that is nowhere is `NotFound`; a table that is cut
    /// short or broken before the key was found is `InvalidData`; a list
    /// with another number of files than there are tables is
    /// `InvalidInput`.
    pub fn lookup(&self, ts: u64, files: &Vec<Vec<u8>>) -> (r: Result<u64, Error>)
        requires
            self.wf(),
        ensures
            files@.len() == self.tables().len() ==> kind_of(r) == answer(
                self@,
                in_order(files@, self.scan_order()),
                ts,
            ),
            files@.len() != self.tables().len() ==> r is Err && r->Err_0.kind()
                == ErrorKind::InvalidInput,
    {
        if files.len() != self.order.len() {
            return Err(Error::new(ErrorKind::InvalidInput));
        }
        let ghost tables = in_order(files@, self.order@);
        let mut probe = self.lookup_start(ts);
        assert(tables.skip(0) =~= tables);
        loop
            invariant
                self.wf(),
                files@.len() == self.order@.len(),
                self.order@.len() <= usize::MAX,
                tables == in_order(files@, self.order@),
                match probe {
                    Probe::Found(v) => answer(self@, tables, ts) == Ok::<u64, ErrorKind>(v),
                    Probe::NotFound => answer(self@, tables, ts) == Err::<u64, ErrorKind>(
                        ErrorKind::NotFound,
                    ),
                    Probe::Read { step, table } => step < self.order@.len() && table
                        == self.order@[step as int] && answer(self@, tables, ts) == consult(
                        tables.skip(step as int),
                        ts,
                    ),
                },
            decreases
                    match probe {
                        Probe::Read { step, table } => self.order@.len() - step,
                        _ => 0,
                    },
        {
            match probe {
                Probe::Found(v) => {
                    return Ok(v);
                },
                Probe::NotFound => {
                    return Err(Error::new(ErrorKind::NotFound));
                },
                Probe::Read { step, table } => {
                    let ghost rest = tables.skip(step as int);
                    assert(rest[0] == files@[table as int]@);
                    assert(rest.drop_first() =~= tables.skip(step + 1));
                    assert(tables.skip(self.order@.len() as int).len() == 0);
                    assert(consult(rest, ts) == match scan(rest[0], ts) {
                        Ok(Some(v)) => Ok(v),
                        Ok(None) => consult(rest.drop_first(), ts),
                        Err(kind) => Err(kind),
                    });
                    probe = match self.lookup_table(ts, step, files[table].clone()) {
                        Ok(next) => next,
                        Err(e) => {
                            return Err(e);
                        },
                    };
                },
            }
        }
    }

    /// The path of the current log file.
    pub fn log_path(&self) -> (path: String)
        ensures
            path@ == self.log_name(),
    {
        self.log_name.clone()
    }

    /// The bytes of the current log file: what the caller's file has to
    /// hold for the records to last.
    pub fn log_file(&self) -> (file: &Vec<u8>)
        requires
            self.wf(),
        ensures
            file@ == self.log(),
    {
        self.memtable.log_file()
    }

    /// The bytes by which `record(rec)` makes the log file longer. A caller
    /// that appends them to its file before it calls `record` has every
    /// record in the file before the store has it in memory.
    pub fn log_entry(&self, rec: &Rec) -> (r: Result<Vec<u8>, Error>)
        requires
            self.wf(),
        ensures
            r is Ok,
            r matches Ok(bytes) ==> bytes@ == entry_bytes(self.log(), rec.timestamp, rec.value),
    {
        self.memtable.log_entry(rec.timestamp, rec.value)
    }

    /// The paths of the known table files.
    pub fn table_paths(&self) -> (paths: Vec<String>)
        requires
            self.wf(),
        ensures
            paths@.len() == self.tables().len(),
            forall|i: int| 0 <= i < paths@.len() ==> (#[trigger] paths@[i])@ == self.tables()[i].1,
    {
        self.filemanager.table_paths()
    }
}

} // verus!
