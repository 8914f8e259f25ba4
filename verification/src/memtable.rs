//! The in-memory table: an ordered map from timestamp to value that writes
//! every record to its log before it takes it into the map.

use crate::error::Error;
use crate::format::{lemma_load_store_rec, load_at, rec_bytes, rec_of_bytes, store_at, Rec};
use crate::log::{
    all_of_size, lemma_log_round_trip, log_bytes, log_records, padding, FileLogReader,
    FileLogWriter, LogReader, LogWriter,
};
use std::collections::BTreeMap;
use vstd::prelude::*;
use vstd::std_specs::btree::{increasing_seq, spec_btree_map_iter};
use vstd::std_specs::cmp::OrdSpec;
use vstd::std_specs::iter::IteratorSpec;

verus! {

broadcast use {vstd::std_specs::btree::group_btree_axioms, vstd::laws_cmp::group_laws_cmp};

/// Bytes of one record in the table's log.
pub const LOG_RECORD_SIZE: usize = 16;

/// The map that results from taking the records in, one after the other: a
/// later record for a key replaces an earlier one.
pub open spec fn replay_map(records: Seq<Seq<u8>>) -> Map<u64, u64>
    decreases records.len(),
{
    if records.len() == 0 {
        Map::empty()
    } else {
        let last = rec_of_bytes(records.last());
        replay_map(records.drop_last()).insert(last.timestamp, last.value)
    }
}

/// The bytes by which the record of `v` at `k` makes a log file of the
/// bytes `log` longer.
pub open spec fn entry_bytes(log: Seq<u8>, k: u64, v: u64) -> Seq<u8> {
    padding(log.len() as int, LOG_RECORD_SIZE as int) + rec_bytes(Rec { timestamp: k, value: v })
}

/// Whether `entries` lists what `map` holds, each key once, by rising key.
pub open spec fn lists(map: Map<u64, u64>, entries: Seq<(u64, u64)>) -> bool {
    &&& forall|i: int, j: int| 0 <= i < j < entries.len() ==> entries[i].0 < entries[j].0
    &&& forall|i: int|
        0 <= i < entries.len() ==> map.contains_key((#[trigger] entries[i]).0) && map[entries[i].0]
            == entries[i].1
    &&& forall|k: u64| #[trigger]
        map.contains_key(k) ==> exists|i: int|
            0 <= i < entries.len() && (#[trigger] entries[i]).0 == k
}

/// Two listings of one map agree on their first `upto` entries.
proof fn lemma_listings_agree(
    map: Map<u64, u64>,
    a: Seq<(u64, u64)>,
    b: Seq<(u64, u64)>,
    upto: int,
)
    requires
        lists(map, a),
        lists(map, b),
        0 <= upto <= a.len(),
        upto <= b.len(),
    ensures
        forall|j: int| 0 <= j < upto ==> a[j] == b[j],
    decreases upto,
{
    if upto > 0 {
        lemma_listings_agree(map, a, b, upto - 1);
        let at = upto - 1;
        assert(map.contains_key(a[at].0));
        let q = choose|q: int| 0 <= q < b.len() && (#[trigger] b[q]).0 == a[at].0;
        if q < at {
            assert(a[q].0 < a[at].0);
        }
        assert(map.contains_key(b[at].0));
        let p = choose|p: int| 0 <= p < a.len() && (#[trigger] a[p]).0 == b[at].0;
        if p < at {
            assert(b[p].0 < b[at].0);
        }
        if q > at {
            assert(b[at].0 < b[q].0);
        }
        if p > at {
            assert(a[at].0 < a[p].0);
        }
        assert(a[at].0 == b[at].0);
        assert(a[at].1 == map[a[at].0]);
        assert(b[at].1 == map[b[at].0]);
    }
}

/// One listing of a map is no longer than another.
proof fn lemma_listing_no_longer(map: Map<u64, u64>, a: Seq<(u64, u64)>, b: Seq<(u64, u64)>)
    requires
        lists(map, a),
        lists(map, b),
    ensures
        b.len() <= a.len(),
{
    if a.len() < b.len() {
        let extra = a.len() as int;
        lemma_listings_agree(map, a, b, extra);
        assert(map.contains_key(b[extra].0));
        let p = choose|p: int| 0 <= p < a.len() && (#[trigger] a[p]).0 == b[extra].0;
        assert(b[p].0 < b[extra].0);
    }
}

/// A map has one listing only.
pub proof fn lemma_listing_is_unique(map: Map<u64, u64>, a: Seq<(u64, u64)>, b: Seq<(u64, u64)>)
    requires
        lists(map, a),
        lists(map, b),
    ensures
        a == b,
{
    lemma_listing_no_longer(map, a, b);
    lemma_listing_no_longer(map, b, a);
    lemma_listings_agree(map, a, b, a.len() as int);
    assert(a =~= b);
}

/// What `data` holds, by rising key.
pub fn sorted_entries(data: &BTreeMap<u64, u64>) -> (entries: Vec<(u64, u64)>)
    ensures
        lists(data@, entries@),
{
    let mut entries: Vec<(u64, u64)> = Vec::new();
    let ghost keys = spec_btree_map_iter(data).remaining().map_values(|kv: (&u64, &u64)| *kv.0);
    for pair in it: data.iter()
        invariant
            entries@.len() == it.index(),
            it.seq() == spec_btree_map_iter(data).remaining(),
            keys == it.seq().map_values(|kv: (&u64, &u64)| *kv.0),
            increasing_seq(keys),
            forall|j: int|
                0 <= j < entries@.len() ==> (#[trigger] entries@[j]) == (
                    *it.seq()[j].0,
                    *it.seq()[j].1,
                ),
    {
        entries.push((*pair.0, *pair.1));
    }
    proof {
        let found = spec_btree_map_iter(data).remaining();
        assert(entries@.len() == found.len());
        assert forall|i: int, j: int| 0 <= i < j < entries@.len() implies entries@[i].0
            < entries@[j].0 by {
            assert(keys[i] == entries@[i].0);
            assert(keys[j] == entries@[j].0);
            assert(keys[i].cmp_spec(&keys[j]) is Less);
        }
        assert forall|k: u64| #[trigger] data@.contains_key(k) implies exists|i: int|
            0 <= i < entries@.len() && (#[trigger] entries@[i]).0 == k by {
            assert(found.contains((&k, &data@[k])));
            let i = choose|i: int| 0 <= i < found.len() && found[i] == (&k, &data@[k]);
            assert(entries@[i].0 == k);
        }
    }
    entries
}

/// The in-memory table with its log.
pub struct MemTable {
    logger: FileLogWriter,
    data: BTreeMap<u64, u64>,
}

impl View for MemTable {
    type V = Map<u64, u64>;

    closed spec fn view(&self) -> Map<u64, u64> {
        self.data@
    }
}

impl MemTable {
    /// The bytes of the table's log file.
    pub closed spec fn log(&self) -> Seq<u8> {
        self.logger.file()
    }

    /// The records of the table's log, oldest first.
    pub closed spec fn logged(&self) -> Seq<Seq<u8>> {
        self.logger.records()
    }

    /// Whether the table is in a consistent state: its log file is what a
    /// writer makes of its logged records, and its map is what replaying them
    /// gives.
    pub closed spec fn wf(&self) -> bool {
        &&& self.logger.wf()
        &&& self.logger.record_size() == LOG_RECORD_SIZE
        &&& all_of_size(self.logger.records(), LOG_RECORD_SIZE as int)
        &&& self.logger.file() == log_bytes(self.logger.records(), LOG_RECORD_SIZE as int)
        &&& self.data@ == replay_map(self.logger.records())
    }

    /// What the table holds is what a replay of its log file gives: a
    /// record that `record` has accepted is found again after a restart.
    pub proof fn lemma_log_holds_table(&self)
        requires
            self.wf(),
        ensures
            self.log() == log_bytes(self.logged(), LOG_RECORD_SIZE as int),
            replay_map(log_records(self.log(), LOG_RECORD_SIZE as int)) == self@,
    {
        lemma_log_round_trip(self.logger.records(), LOG_RECORD_SIZE as int);
    }

    /// The records that a reader finds in the table's log file are the
    /// records that were logged.
    pub proof fn lemma_log_holds_records(&self)
        requires
            self.wf(),
        ensures
            log_records(self.log(), LOG_RECORD_SIZE as int) == self.logged(),
    {
        lemma_log_round_trip(self.logger.records(), LOG_RECORD_SIZE as int);
    }

    /// Appends the record to the log, then takes it into the map, where it
    /// replaces what the key had before.
    pub fn record(&mut self, k: u64, v: u64) -> (r: Result<(), Error>)
        requires
            old(self).wf(),
        ensures
            final(self).wf(),
            r is Ok,
            final(self)@ == old(self)@.insert(k, v),
            final(self).logged() == old(self).logged().push(
                rec_bytes(Rec { timestamp: k, value: v }),
            ),
            final(self).log() == old(self).log() + entry_bytes(old(self).log(), k, v),
    {
        let buf = MemTable::encode(k, v);
        proof {
            lemma_load_store_rec(Rec { timestamp: k, value: v });
            let grown = self.logger.records().push(buf@);
            assert(grown.drop_last() =~= self.logger.records());
        }
        match self.logger.append(buf.as_slice()) {
            Ok(()) => {},
            Err(e) => {
                return Err(e);
            },
        }
        self.data.insert(k, v);
        Ok(())
    }

    /// Takes a record in once the caller has tried to append its log entry
    /// to the log file, given how that went. Where the write failed, the
    /// table and its log are left as they were and the error is handed
    /// back; where it succeeded, the record is taken in as by `record`.
    pub fn record_written<E>(&mut self, k: u64, v: u64, written: Result<(), E>) -> (r: Result<
        (),
        E,
    >)
        requires
            old(self).wf(),
        ensures
            final(self).wf(),
            r == written,
            written is Err ==> final(self)@ == old(self)@ && final(self).log() == old(self).log()
                && final(self).logged() == old(self).logged(),
            written is Ok ==> final(self)@ == old(self)@.insert(k, v) && final(self).logged()
                == old(self).logged().push(rec_bytes(Rec { timestamp: k, value: v }))
                && final(self).log() == old(self).log() + entry_bytes(old(self).log(), k, v),
    {
        if written.is_ok() {
            let logged = self.record(k, v);
            assert(logged is Ok);
        }
        written
    }

    /// The value that the table holds for `k`, if it holds one.
    pub fn lookup(&self, k: u64) -> (r: Option<&u64>)
        ensures
            match r {
                Some(v) => self@.contains_key(k) && *v == self@[k],
                None => !self@.contains_key(k),
            },
    {
        self.data.get(&k)
    }

    /// An empty table with an empty log.
    pub fn create() -> (r: Result<MemTable, Error>)
        ensures
            r is Ok,
            r matches Ok(table) ==> table.wf() && table@ == Map::<u64, u64>::empty() && table.log()
                == Seq::<u8>::empty() && table.logged() == Seq::<Seq<u8>>::empty(),
    {
        let logger = match FileLogWriter::create(LOG_RECORD_SIZE) {
            Ok(logger) => logger,
            Err(e) => {
                return Err(e);
            },
        };
        Ok(MemTable { logger, data: BTreeMap::new() })
    }

    /// The log file as written so far.
    pub fn log_file(&self) -> (file: &Vec<u8>)
        requires
            self.wf(),
        ensures
            file@ == self.log(),
    {
        self.logger.bytes()
    }

    /// The bytes by which `record(k, v)` makes the log file longer.
    pub fn log_entry(&self, k: u64, v: u64) -> (r: Result<Vec<u8>, Error>)
        requires
            self.wf(),
        ensures
            r is Ok,
            r matches Ok(bytes) ==> bytes@ == entry_bytes(self.log(), k, v),
    {
        let buf = MemTable::encode(k, v);
        proof {
            lemma_load_store_rec(Rec { timestamp: k, value: v });
        }
        self.logger.framed(buf.as_slice())
    }

    /// The sixteen bytes of the record of `v` at `k`.
    fn encode(k: u64, v: u64) -> (buf: Vec<u8>)
        ensures
            buf@ == rec_bytes(Rec { timestamp: k, value: v }),
    {
        let mut buf: Vec<u8> = vec![0u8; LOG_RECORD_SIZE];
        store_at(k, buf.as_mut_slice(), 0);
        store_at(v, buf.as_mut_slice(), 8);
        proof {
            crate::format::lemma_le_bytes_len(k as nat, 8);
            crate::format::lemma_le_bytes_len(v as nat, 8);
            assert(buf@ =~= rec_bytes(Rec { timestamp: k, value: v }));
        }
        buf
    }

    /// The map that the records of a log file give, taken in the order in
    /// which they stand in the file.
    pub fn replay(file: Vec<u8>) -> (r: Result<BTreeMap<u64, u64>, Error>)
        ensures
            r is Ok,
            r matches Ok(data) ==> data@ == replay_map(log_records(file@, LOG_RECORD_SIZE as int)),
    {
        let mut data: BTreeMap<u64, u64> = BTreeMap::new();
        let mut reader = match FileLogReader::create(file, LOG_RECORD_SIZE) {
            Ok(reader) => reader,
            Err(e) => {
                return Err(e);
            },
        };
        let mut buf: Vec<u8> = vec![0u8; LOG_RECORD_SIZE];
        let ghost all = log_records(file@, LOG_RECORD_SIZE as int);
        assert(all.subrange(0, 0) =~= Seq::<Seq<u8>>::empty());
        loop
            invariant
                reader.wf(),
                reader.record_size() == LOG_RECORD_SIZE,
                buf@.len() == LOG_RECORD_SIZE,
                0 <= reader.position() <= all.len(),
                reader.pending() == all.skip(reader.position()),
                data@ == replay_map(all.subrange(0, reader.position())),
            ensures
                data@ == replay_map(all),
            decreases all.len() - reader.position(),
        {
            let ghost at = reader.position();
            let more = match reader.next_record(buf.as_mut_slice()) {
                Ok(more) => more,
                Err(e) => {
                    return Err(e);
                },
            };
            if !more {
                assert(all.subrange(0, at) =~= all);
                break ;
            }
            let k: u64 = load_at(buf.as_slice(), 0);
            let v: u64 = load_at(buf.as_slice(), 8);
            proof {
                let grown = all.subrange(0, at + 1);
                assert(grown.drop_last() =~= all.subrange(0, at));
                assert(grown.last() == buf@);
                assert(all.skip(at).drop_first() =~= all.skip(at + 1));
            }
            data.insert(k, v);
        }
        Ok(data)
    }
}

} // verus!
