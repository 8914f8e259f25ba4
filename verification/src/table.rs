//! The sorted table file: how it is written from ascending records, and how
//! it is read back.
//!
//! A table file is a run of 32768-byte blocks. A block holds up to 2047
//! records of 16 bytes from its start on, then zeros, and in its last eight
//! bytes the number of its records.

use crate::error::{Error, ErrorKind};
use crate::format::{le_value, lemma_le_bytes_len, lemma_load_store, load_at, store_at, value_bytes};
use crate::log::zeros;
use vstd::prelude::*;

verus! {

/// Bytes in one block of a table file.
pub const BLOCK_SIZE: usize = 32768;

/// Bytes of the record count that ends each block.
pub const FOOTER_SIZE: usize = 8;

/// Bytes of one record.
pub const REC_SIZE: usize = 16;

/// The most records that one block holds.
pub const RECORDS_PER_BLOCK: usize = 2047;

/// Whether the keys never decrease from one record to the next.
pub open spec fn keys_ascend(data: Seq<(u64, u64)>) -> bool {
    forall|i: int, j: int| 0 <= i < j < data.len() ==> data[i].0 <= data[j].0
}

/// The sixteen bytes of one record: the key, then the value.
pub open spec fn pair_bytes(record: (u64, u64)) -> Seq<u8> {
    value_bytes(record.0) + value_bytes(record.1)
}

/// The records' bytes, back to back.
pub open spec fn records_bytes(records: Seq<(u64, u64)>) -> Seq<u8>
    decreases records.len(),
{
    if records.len() == 0 {
        Seq::empty()
    } else {
        records_bytes(records.drop_last()) + pair_bytes(records.last())
    }
}

/// The block that holds `records`, which are at most 2047.
pub open spec fn block_bytes(records: Seq<(u64, u64)>) -> Seq<u8> {
    records_bytes(records) + zeros(BLOCK_SIZE - FOOTER_SIZE - REC_SIZE * records.len())
        + value_bytes(records.len() as u64)
}

/// The table file of `data`: full blocks while 2047 records or more are
/// left, then one last block with the rest, which may hold no record.
pub open spec fn table_bytes(data: Seq<(u64, u64)>) -> Seq<u8>
    decreases data.len(),
{
    if data.len() < RECORDS_PER_BLOCK {
        block_bytes(data)
    } else {
        block_bytes(data.subrange(0, RECORDS_PER_BLOCK as int)) + table_bytes(
            data.subrange(RECORDS_PER_BLOCK as int, data.len() as int),
        )
    }
}

/// The record count that a block's footer gives.
pub open spec fn block_count(block: Seq<u8>) -> nat {
    le_value(block.subrange(BLOCK_SIZE - FOOTER_SIZE, BLOCK_SIZE as int))
}

/// The record in slot `slot` of a block.
pub open spec fn block_record(block: Seq<u8>, slot: int) -> (u64, u64) {
    (
        le_value(block.subrange(REC_SIZE * slot, REC_SIZE * slot + 8)) as u64,
        le_value(block.subrange(REC_SIZE * slot + 8, REC_SIZE * slot + 16)) as u64,
    )
}

/// The records of a block, as many as its footer says.
pub open spec fn block_records(block: Seq<u8>) -> Seq<(u64, u64)> {
    Seq::new(block_count(block), |slot: int| block_record(block, slot))
}

/// Whether `file` starts with a whole block whose footer gives a count that
/// a block can hold.
pub open spec fn starts_with_block(file: Seq<u8>) -> bool {
    file.len() >= BLOCK_SIZE && block_count(file.subrange(0, BLOCK_SIZE as int))
        <= RECORDS_PER_BLOCK
}

/// The records that a reader finds in a table file: those of its blocks in
/// order, up to the end of the file or to the first block that is cut short
/// or whose count is out of range.
pub open spec fn table_records(file: Seq<u8>) -> Seq<(u64, u64)>
    decreases file.len(),
{
    if starts_with_block(file) {
        block_records(file.subrange(0, BLOCK_SIZE as int)) + table_records(
            file.subrange(BLOCK_SIZE as int, file.len() as int),
        )
    } else {
        Seq::empty()
    }
}

/// Whether `file` is a run of whole blocks with counts in range.
pub open spec fn table_valid(file: Seq<u8>) -> bool
    decreases file.len(),
{
    if file.len() == 0 {
        true
    } else if starts_with_block(file) {
        table_valid(file.subrange(BLOCK_SIZE as int, file.len() as int))
    } else {
        false
    }
}

/// Records take sixteen bytes each.
pub proof fn lemma_records_bytes_len(records: Seq<(u64, u64)>)
    ensures
        records_bytes(records).len() == REC_SIZE * records.len(),
    decreases records.len(),
{
    if records.len() > 0 {
        lemma_records_bytes_len(records.drop_last());
        lemma_le_bytes_len(records.last().0 as nat, 8);
        lemma_le_bytes_len(records.last().1 as nat, 8);
    }
}

/// Each record's bytes stand at sixteen times its index.
pub proof fn lemma_records_bytes_at(records: Seq<(u64, u64)>, index: int)
    requires
        0 <= index < records.len(),
    ensures
        records_bytes(records).subrange(REC_SIZE * index, REC_SIZE * index + REC_SIZE)
            == pair_bytes(records[index]),
    decreases records.len(),
{
    let shorter = records.drop_last();
    lemma_records_bytes_len(shorter);
    lemma_records_bytes_len(records);
    lemma_le_bytes_len(records.last().0 as nat, 8);
    lemma_le_bytes_len(records.last().1 as nat, 8);
    let whole = records_bytes(records);
    if index == records.len() - 1 {
        assert(whole.subrange(REC_SIZE * index, REC_SIZE * index + REC_SIZE) =~= pair_bytes(
            records[index],
        ));
    } else {
        lemma_records_bytes_at(shorter, index);
        assert(whole.subrange(REC_SIZE * index, REC_SIZE * index + REC_SIZE)
            =~= records_bytes(shorter).subrange(REC_SIZE * index, REC_SIZE * index + REC_SIZE));
    }
}

/// A block is 32768 bytes long, and read back it gives its records.
pub proof fn lemma_block_round_trip(records: Seq<(u64, u64)>)
    requires
        records.len() <= RECORDS_PER_BLOCK,
    ensures
        block_bytes(records).len() == BLOCK_SIZE,
        block_count(block_bytes(records)) == records.len(),
        block_records(block_bytes(records)) == records,
{
    let block = block_bytes(records);
    let body = records_bytes(records);
    lemma_records_bytes_len(records);
    lemma_load_store(records.len() as u64);
    assert(block.subrange(BLOCK_SIZE - FOOTER_SIZE, BLOCK_SIZE as int) =~= value_bytes(
        records.len() as u64,
    ));
    assert forall|slot: int| 0 <= slot < records.len() implies block_record(block, slot)
        == records[slot] by {
        lemma_records_bytes_at(records, slot);
        let pair = pair_bytes(records[slot]);
        lemma_load_store(records[slot].0);
        lemma_load_store(records[slot].1);
        assert(block.subrange(REC_SIZE * slot, REC_SIZE * slot + 8) =~= body.subrange(
            REC_SIZE * slot,
            REC_SIZE * slot + REC_SIZE,
        ).subrange(0, 8));
        assert(block.subrange(REC_SIZE * slot + 8, REC_SIZE * slot + 16) =~= body.subrange(
            REC_SIZE * slot,
            REC_SIZE * slot + REC_SIZE,
        ).subrange(8, 16));
        assert(pair.subrange(0, 8) =~= value_bytes(records[slot].0));
        assert(pair.subrange(8, 16) =~= value_bytes(records[slot].1));
    }
    assert(block_records(block) =~= records);
}

/// The size of a table file: one block for every 2047 records, and one more.
pub proof fn lemma_table_bytes_len(data: Seq<(u64, u64)>)
    ensures
        table_bytes(data).len() == (data.len() / RECORDS_PER_BLOCK as nat + 1) * BLOCK_SIZE,
    decreases data.len(),
{
    if data.len() < RECORDS_PER_BLOCK {
        lemma_block_round_trip(data);
    } else {
        let head = data.subrange(0, RECORDS_PER_BLOCK as int);
        let tail = data.subrange(RECORDS_PER_BLOCK as int, data.len() as int);
        lemma_block_round_trip(head);
        lemma_table_bytes_len(tail);
    }
}

/// A table of `n` records, where `n` is no multiple of 2047, takes
/// `n / 2047` blocks, rounded up; an empty table takes one block.
pub proof fn lemma_table_size(data: Seq<(u64, u64)>)
    requires
        data.len() % RECORDS_PER_BLOCK as nat != 0 || data.len() == 0,
    ensures
        data.len() == 0 ==> table_bytes(data).len() == BLOCK_SIZE,
        data.len() > 0 ==> table_bytes(data).len() == ((data.len() + RECORDS_PER_BLOCK - 1)
            / RECORDS_PER_BLOCK as int) * BLOCK_SIZE,
{
    lemma_table_bytes_len(data);
}

/// Reading a written table gives the records back, in the same order, and
/// finds the file well formed.
pub proof fn lemma_table_round_trip(data: Seq<(u64, u64)>)
    ensures
        table_records(table_bytes(data)) == data,
        table_valid(table_bytes(data)),
    decreases data.len(),
{
    let file = table_bytes(data);
    lemma_table_bytes_len(data);
    let rest = file.subrange(BLOCK_SIZE as int, file.len() as int);
    if data.len() < RECORDS_PER_BLOCK {
        lemma_block_round_trip(data);
        assert(file.subrange(0, BLOCK_SIZE as int) =~= file);
        assert(rest =~= Seq::<u8>::empty());
        assert(table_records(rest) =~= Seq::<(u64, u64)>::empty());
        assert(table_valid(rest));
        assert(starts_with_block(file));
        assert(table_records(file) =~= data);
    } else {
        let head = data.subrange(0, RECORDS_PER_BLOCK as int);
        let tail = data.subrange(RECORDS_PER_BLOCK as int, data.len() as int);
        lemma_block_round_trip(head);
        lemma_table_round_trip(tail);
        assert(file.subrange(0, BLOCK_SIZE as int) =~= block_bytes(head));
        assert(rest =~= table_bytes(tail));
        assert(head + tail =~= data);
        assert(starts_with_block(file));
    }
}

/// Writes table files.
pub struct TableBuilder;

impl TableBuilder {
    /// The bytes of the table file that holds `data`. Keys must not
    /// decrease from one record to the next; equal keys may follow each
    /// other. Where a key is less than the one before it, nothing is
    /// produced and the error is `InvalidInput`.
    pub fn write(data: &Vec<(u64, u64)>) -> (r: Result<Vec<u8>, Error>)
        ensures
            keys_ascend(data@) <==> r is Ok,
            r matches Ok(file) ==> file@ == table_bytes(data@),
            r matches Err(e) ==> e.kind() == ErrorKind::InvalidInput,
    {
        let mut file: Vec<u8> = Vec::new();
        let mut rec_count: usize = 0;
        let mut block: Vec<u8> = vec![0u8; BLOCK_SIZE];
        let mut block_ptr: usize = 0;
        let mut prev_k: u64 = 0;
        let mut i: usize = 0;
        let len = data.len();
        assert(data@.subrange(0, len as int) =~= data@);
        assert(block@.subrange(0, 0) =~= records_bytes(data@.subrange(0, 0)));
        while i < len
            invariant
                len == data@.len(),
                i <= len,
                rec_count <= i,
                rec_count < RECORDS_PER_BLOCK,
                block_ptr == REC_SIZE * rec_count,
                block@.len() == BLOCK_SIZE,
                file@ + table_bytes(data@.subrange(i - rec_count, len as int)) == table_bytes(
                    data@,
                ),
                block@.subrange(0, block_ptr as int) == records_bytes(
                    data@.subrange(i - rec_count, i as int),
                ),
                keys_ascend(data@.subrange(0, i as int)),
                i > 0 ==> prev_k == data@[i - 1].0,
            decreases len - i,
        {
            let (k, v) = data[i];
            if i > 0 && k < prev_k {
                return Err(Error::new(ErrorKind::InvalidInput));
            }
            prev_k = k;
            let ghost start = i - rec_count;
            let ghost before = block@;
            let ghost held = data@.subrange(start, i as int);
            let ghost grown = data@.subrange(start, i + 1);
            store_at(k, block.as_mut_slice(), block_ptr);
            store_at(v, block.as_mut_slice(), block_ptr + 8);
            proof {
                lemma_le_bytes_len(k as nat, 8);
                lemma_le_bytes_len(v as nat, 8);
                assert(grown.drop_last() =~= held);
                assert(grown.last() == (k, v));
                assert(block@.subrange(0, block_ptr + 16) =~= before.subrange(0, block_ptr as int)
                    + pair_bytes((k, v)));
                assert(keys_ascend(data@.subrange(0, i + 1))) by {
                    let next = data@.subrange(0, i + 1);
                    let prior = data@.subrange(0, i as int);
                    assert forall|a: int, b: int| 0 <= a < b < next.len() implies next[a].0
                        <= next[b].0 by {
                        if b < i {
                            assert(prior[a].0 <= prior[b].0);
                        } else if a < i - 1 {
                            assert(prior[a].0 <= prior[i - 1].0);
                        }
                    }
                }
            }
            rec_count = rec_count + 1;
            block_ptr = block_ptr + REC_SIZE;
            if BLOCK_SIZE - FOOTER_SIZE - block_ptr < REC_SIZE {
                proof {
                    let left = data@.subrange(start, len as int);
                    assert(left.subrange(0, RECORDS_PER_BLOCK as int) =~= grown);
                    assert(left.subrange(RECORDS_PER_BLOCK as int, left.len() as int)
                        =~= data@.subrange(i + 1, len as int));
                }
                TableBuilder::pad_and_write(&mut block, block_ptr, rec_count, &mut file);
                block_ptr = 0;
                rec_count = 0;
                assert(block@.subrange(0, 0) =~= records_bytes(data@.subrange(i + 1, i + 1)));
            }
            i = i + 1;
        }
        assert(data@.subrange(0, len as int) =~= data@);
        TableBuilder::pad_and_write(&mut block, block_ptr, rec_count, &mut file);
        Ok(file)
    }

    /// Fills the block with zeros from `block_ptr` up to the footer, sets
    /// the footer to `rec_count`, and appends the block to `file`.
    fn pad_and_write(block: &mut Vec<u8>, block_ptr: usize, rec_count: usize, file: &mut Vec<u8>)
        requires
            old(block)@.len() == BLOCK_SIZE,
            block_ptr == REC_SIZE * rec_count,
            rec_count <= RECORDS_PER_BLOCK,
        ensures
            final(block)@.len() == BLOCK_SIZE,
            final(block)@ == old(block)@.subrange(0, block_ptr as int) + zeros(
                BLOCK_SIZE - FOOTER_SIZE - block_ptr,
            ) + value_bytes(rec_count as u64),
            final(file)@ == old(file)@ + final(block)@,
    {
        let footer_ptr = BLOCK_SIZE - FOOTER_SIZE;
        let mut at: usize = block_ptr;
        while at < footer_ptr
            invariant
                block_ptr <= at <= footer_ptr,
                footer_ptr == BLOCK_SIZE - FOOTER_SIZE,
                block@.len() == BLOCK_SIZE,
                old(block)@.len() == BLOCK_SIZE,
                block@.subrange(0, block_ptr as int) == old(block)@.subrange(0, block_ptr as int),
                block@.subrange(block_ptr as int, at as int) == zeros(at - block_ptr),
            decreases footer_ptr - at,
        {
            let ghost before = block@;
            block[at] = 0;
            at = at + 1;
            assert(block@.subrange(0, block_ptr as int) =~= before.subrange(0, block_ptr as int));
            assert forall|j: int| 0 <= j < at - block_ptr implies block@.subrange(
                block_ptr as int,
                at as int,
            )[j] == 0u8 by {
                if j < at - 1 - block_ptr {
                    assert(before.subrange(block_ptr as int, at - 1)[j] == 0u8);
                }
            }
            assert(block@.subrange(block_ptr as int, at as int) =~= zeros(at - block_ptr));
        }
        let ghost padded = block@;
        store_at(rec_count as u64, block.as_mut_slice(), footer_ptr);
        proof {
            lemma_le_bytes_len(rec_count as nat, 8);
            assert(block@ =~= old(block)@.subrange(0, block_ptr as int) + zeros(
                BLOCK_SIZE - FOOTER_SIZE - block_ptr,
            ) + value_bytes(rec_count as u64)) by {
                assert(block@.subrange(0, footer_ptr as int) =~= padded.subrange(
                    0,
                    footer_ptr as int,
                ));
                assert(padded.subrange(0, footer_ptr as int) =~= padded.subrange(
                    0,
                    block_ptr as int,
                ) + padded.subrange(block_ptr as int, footer_ptr as int));
            }
        }
        let ghost written = file@;
        file.extend_from_slice(block.as_slice());
        assert(file@ =~= written + block@);
    }
}

/// The part of `file` from `from` on, block by block.
proof fn lemma_table_suffix(file: Seq<u8>, from: int)
    requires
        0 <= from,
        from + BLOCK_SIZE <= file.len(),
    ensures
        file.skip(from).subrange(0, BLOCK_SIZE as int) == file.subrange(from, from + BLOCK_SIZE),
        file.skip(from).subrange(BLOCK_SIZE as int, file.skip(from).len() as int) == file.skip(
            from + BLOCK_SIZE,
        ),
{
    assert(file.skip(from).subrange(0, BLOCK_SIZE as int) =~= file.subrange(
        from,
        from + BLOCK_SIZE,
    ));
    assert(file.skip(from).subrange(BLOCK_SIZE as int, file.skip(from).len() as int)
        =~= file.skip(from + BLOCK_SIZE));
}

/// Walks through the records of a table file that is held in memory.
pub struct TableIterator {
    file: Vec<u8>,
    status: Result<(), Error>,
    block_start: usize,
    next_block: usize,
    block_ptr: usize,
    records_in_block: usize,
    records_read_from_block: usize,
    done: bool,
}

impl TableIterator {
    /// The bytes of the file that is read.
    pub closed spec fn file(&self) -> Seq<u8> {
        self.file@
    }

    /// The block at hand.
    spec fn block(&self) -> Seq<u8> {
        self.file@.subrange(self.block_start as int, self.block_start + BLOCK_SIZE)
    }

    /// Whether the iterator is in a consistent state.
    pub closed spec fn wf(&self) -> bool {
        &&& self.next_block <= self.file@.len()
        &&& self.records_read_from_block <= self.records_in_block <= RECORDS_PER_BLOCK
        &&& self.block_ptr == REC_SIZE * self.records_read_from_block
        &&& self.records_in_block > 0 ==> {
            &&& self.next_block == self.block_start + BLOCK_SIZE
            &&& self.records_in_block == block_count(self.block())
        }
        &&& self.status matches Err(e) ==> self.done && e.kind() == ErrorKind::InvalidData
    }

    /// The records still to come, next first.
    pub closed spec fn remaining(&self) -> Seq<(u64, u64)> {
        if self.done {
            Seq::empty()
        } else {
            Seq::new(
                (self.records_in_block - self.records_read_from_block) as nat,
                |j: int| block_record(self.block(), self.records_read_from_block + j),
            ) + table_records(self.file@.skip(self.next_block as int))
        }
    }

    /// Whether the iterator has not met, and will not meet, a block that is
    /// cut short or whose count is out of range.
    pub closed spec fn intact(&self) -> bool {
        if self.done {
            self.status is Ok
        } else {
            table_valid(self.file@.skip(self.next_block as int))
        }
    }

    /// Whether the iterator has come to its end.
    pub closed spec fn finished(&self) -> bool {
        self.done
    }

    /// How the walk has gone so far, for use in contracts.
    pub closed spec fn spec_status(&self) -> Result<(), Error> {
        self.status
    }

    /// Starts at the first record of `file`.
    pub fn new(file: Vec<u8>) -> (iter: TableIterator)
        ensures
            iter.wf(),
            iter.file() == file@,
            iter.remaining() == table_records(file@),
            iter.intact() == table_valid(file@),
            iter.spec_status() is Ok,
            !iter.finished(),
    {
        let iter = TableIterator {
            file,
            status: Ok(()),
            block_start: 0,
            next_block: 0,
            block_ptr: 0,
            records_in_block: 0,
            records_read_from_block: 0,
            done: false,
        };
        assert(iter.file@.skip(0) =~= iter.file@);
        assert(iter.remaining() =~= table_records(iter.file@));
        iter
    }

    /// How the walk has gone so far: an error once a block was found cut
    /// short or with a count out of range.
    #[verifier::when_used_as_spec(spec_status)]
    pub fn status(&self) -> (s: Result<(), Error>)
        ensures
            s == self.spec_status(),
    {
        self.status
    }

    /// Takes up the next block of the file. At the end of the file the walk
    /// is done; a block that is cut short or whose count is out of range is
    /// an `InvalidData` error.
    fn read_block(&mut self) -> (r: Result<(), Error>)
        requires
            old(self).wf(),
            !old(self).done,
            old(self).records_read_from_block >= old(self).records_in_block,
        ensures
            final(self).wf(),
            final(self).file@ == old(self).file@,
            final(self).status == old(self).status,
            r matches Err(e) ==> e.kind() == ErrorKind::InvalidData,
            r is Err ==> !old(self).intact() && old(self).remaining().len() == 0,
            r is Err ==> !final(self).done,
            r is Ok ==> final(self).remaining() == old(self).remaining(),
            r is Ok && final(self).done ==> old(self).intact(),
            r is Ok && !final(self).done ==> final(self).intact() == old(self).intact()
                && final(self).next_block > old(self).next_block
                && final(self).records_read_from_block == 0,
    {
        let ghost rest = self.file@.skip(self.next_block as int);
        let file_len = self.file.len();
        let left = file_len - self.next_block;
        if left == 0 {
            self.done = true;
            return Ok(());
        }
        if left < BLOCK_SIZE {
            return Err(Error::new(ErrorKind::InvalidData));
        }
        proof {
            lemma_table_suffix(self.file@, self.next_block as int);
        }
        let footer_ptr = self.next_block + (BLOCK_SIZE - FOOTER_SIZE);
        let count = load_at(self.file.as_slice(), footer_ptr);
        let ghost head = self.file@.subrange(self.next_block as int, self.next_block + BLOCK_SIZE);
        assert(head.subrange(BLOCK_SIZE - FOOTER_SIZE, BLOCK_SIZE as int) =~= self.file@.subrange(
            footer_ptr as int,
            footer_ptr + 8,
        ));
        assert(count == block_count(head));
        if count > RECORDS_PER_BLOCK as u64 {
            return Err(Error::new(ErrorKind::InvalidData));
        }
        assert(starts_with_block(rest));
        self.block_start = self.next_block;
        self.next_block = self.next_block + BLOCK_SIZE;
        self.records_in_block = count as usize;
        self.records_read_from_block = 0;
        self.block_ptr = 0;
        assert(self.remaining() =~= table_records(rest));
        Ok(())
    }

    /// The next record of the file, or `None` when the walk is done: at the
    /// end of the file, or at a block that is cut short or whose count is
    /// out of range, which `status` then reports.
    pub fn next(&mut self) -> (r: Option<(u64, u64)>)
        requires
            old(self).wf(),
        ensures
            final(self).wf(),
            final(self).file() == old(self).file(),
            r matches Some(record) ==> old(self).remaining().len() > 0 && record
                == old(self).remaining()[0],
            r is Some ==> final(self).remaining() == old(self).remaining().drop_first(),
            r is Some ==> final(self).spec_status() == old(self).spec_status(),
            r is Some ==> !final(self).finished(),
            r is None ==> old(self).remaining().len() == 0 && final(self).remaining().len() == 0,
            r is None ==> final(self).finished(),
            r is None ==> (final(self).spec_status() is Ok <==> old(self).intact()),
            final(self).spec_status() matches Err(e) ==> e.kind() == ErrorKind::InvalidData,
            old(self).finished() ==> final(self).spec_status() == old(self).spec_status(),
            final(self).intact() == old(self).intact(),
    {
        if self.done {
            return None;
        }
        while self.records_read_from_block >= self.records_in_block
            invariant
                self.wf(),
                !self.done,
                self.file@ == old(self).file@,
                self.remaining() == old(self).remaining(),
                self.intact() == old(self).intact(),
                self.status == old(self).status,
            decreases self.file@.len() - self.next_block,
        {
            let step = self.read_block();
            if step.is_err() {
                self.status = step;
                self.done = true;
                return None;
            }
            if self.done {
                return None;
            }
        }
        let at = self.block_start + self.block_ptr;
        let ghost block = self.block();
        let ghost slot = self.records_read_from_block as int;
        let k = load_at(self.file.as_slice(), at);
        let v = load_at(self.file.as_slice(), at + 8);
        proof {
            assert(block.subrange(REC_SIZE * slot, REC_SIZE * slot + 8) =~= self.file@.subrange(
                at as int,
                at + 8,
            ));
            assert(block.subrange(REC_SIZE * slot + 8, REC_SIZE * slot + 16)
                =~= self.file@.subrange(at + 8, at + 8 + 8));
            assert((k, v) == block_record(block, slot));
        }
        let ghost before = self.remaining();
        self.block_ptr = self.block_ptr + REC_SIZE;
        self.records_read_from_block = self.records_read_from_block + 1;
        assert(self.remaining() =~= before.drop_first());
        Some((k, v))
    }
}

} // verus!
