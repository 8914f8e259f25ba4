//! The block-framed, append-only record log.
//!
//! A log file is a run of 32768-byte blocks. A block holds as many records of
//! the log's fixed size as fit; what is left of the block is zero padding. The
//! last block of a file may be short.

use crate::error::{Error, ErrorKind};
use vstd::prelude::*;

verus! {

/// Bytes in one block of a log file.
pub const BLOCK_SIZE_BYTES: usize = 32768;

/// Whether `record_size` is a size that records of a log can have: at least
/// one byte, and no more than a block.
pub open spec fn valid_record_size(record_size: int) -> bool {
    0 < record_size <= BLOCK_SIZE_BYTES
}

/// How many records of `record_size` bytes one block holds.
pub open spec fn slots_per_block(record_size: int) -> int {
    BLOCK_SIZE_BYTES as int / record_size
}

/// The file offset at which record number `index` starts.
pub open spec fn record_offset(index: int, record_size: int) -> int {
    let slots = slots_per_block(record_size);
    (index / slots) * BLOCK_SIZE_BYTES + (index % slots) * record_size
}

/// The length of a file that holds `count` records and has not been padded
/// after the last of them.
pub open spec fn written_len(count: int, record_size: int) -> int {
    if count <= 0 {
        0
    } else {
        record_offset(count - 1, record_size) + record_size
    }
}

/// How many records a file of `len` bytes exposes: those of its full blocks,
/// and those that lie entirely within its short last block.
pub open spec fn record_count(len: int, record_size: int) -> int {
    (len / BLOCK_SIZE_BYTES as int) * slots_per_block(record_size) + (len % BLOCK_SIZE_BYTES as int)
        / record_size
}

/// The records that a reader finds in a log file.
pub open spec fn log_records(file: Seq<u8>, record_size: int) -> Seq<Seq<u8>> {
    Seq::new(
        record_count(file.len() as int, record_size) as nat,
        |i: int|
            file.subrange(
                record_offset(i, record_size),
                record_offset(i, record_size) + record_size,
            ),
    )
}

/// `count` zero bytes.
pub open spec fn zeros(count: int) -> Seq<u8> {
    Seq::new(count as nat, |i: int| 0u8)
}

/// The padding that closes the current block of a file of `len` bytes before
/// the next record is written: empty while a record still fits.
pub open spec fn padding(len: int, record_size: int) -> Seq<u8> {
    let remaining = BLOCK_SIZE_BYTES - len % BLOCK_SIZE_BYTES as int;
    if remaining < record_size {
        zeros(remaining)
    } else {
        Seq::empty()
    }
}

/// The file that a writer produces from `records`, appended in order to an
/// empty file.
pub open spec fn log_bytes(records: Seq<Seq<u8>>, record_size: int) -> Seq<u8>
    decreases records.len(),
{
    if records.len() == 0 {
        Seq::empty()
    } else {
        let before = log_bytes(records.drop_last(), record_size);
        before + padding(before.len() as int, record_size) + records.last()
    }
}

/// Whether every record in `records` has `record_size` bytes.
pub open spec fn all_of_size(records: Seq<Seq<u8>>, record_size: int) -> bool {
    forall|i: int| 0 <= i < records.len() ==> (#[trigger] records[i]).len() == record_size
}

/// A block holds at least one record, and what its records leave over is
/// less than one record.
pub proof fn lemma_slots_per_block(record_size: int)
    requires
        valid_record_size(record_size),
    ensures
        slots_per_block(record_size) >= 1,
        slots_per_block(record_size) * record_size <= BLOCK_SIZE_BYTES,
        BLOCK_SIZE_BYTES - slots_per_block(record_size) * record_size < record_size,
{
    let b = BLOCK_SIZE_BYTES as int;
    let n = b / record_size;
    vstd::arithmetic::div_mod::lemma_fundamental_div_mod(b, record_size);
    vstd::arithmetic::div_mod::lemma_mod_bound(b, record_size);
    assert(record_size * n == n * record_size) by (nonlinear_arith);
    if n < 1 {
        assert(n * record_size <= 0) by (nonlinear_arith)
            requires
                n <= 0,
                record_size > 0,
        ;
    }
}

/// A product grows with its first factor, where the second is not negative.
proof fn lemma_mul_le(a: int, b: int, c: int)
    requires
        a <= b,
        c >= 0,
    ensures
        a * c <= b * c,
{
    assert(a * c <= b * c) by (nonlinear_arith)
        requires
            a <= b,
            c >= 0,
    ;
}

/// One more of `c`.
proof fn lemma_mul_succ(a: int, c: int)
    ensures
        (a + 1) * c == a * c + c,
{
    assert((a + 1) * c == a * c + c) by (nonlinear_arith);
}

/// Quotient and remainder of `q * d + j` by `d`, for `j` below `d`.
proof fn lemma_div_mod_of_parts(q: int, j: int, d: int)
    requires
        0 <= j < d,
    ensures
        (q * d + j) / d == q,
        (q * d + j) % d == j,
{
    vstd::arithmetic::div_mod::lemma_fundamental_div_mod_converse(q * d + j, d, q, j);
}

/// Slot `slot` of block `block` holds record `block * slots + slot`, at
/// offset `block * 32768 + slot * record_size`.
pub proof fn lemma_record_offset(block: int, slot: int, record_size: int)
    requires
        valid_record_size(record_size),
        0 <= slot < slots_per_block(record_size),
    ensures
        record_offset(block * slots_per_block(record_size) + slot, record_size) == block
            * BLOCK_SIZE_BYTES + slot * record_size,
{
    lemma_div_mod_of_parts(block, slot, slots_per_block(record_size));
}

/// Block and slot of a record, written out.
proof fn lemma_index_parts(index: int, record_size: int) -> (parts: (int, int))
    requires
        valid_record_size(record_size),
        0 <= index,
    ensures
        parts.0 == index / slots_per_block(record_size),
        parts.1 == index % slots_per_block(record_size),
        0 <= parts.0,
        0 <= parts.1 < slots_per_block(record_size),
        index == parts.0 * slots_per_block(record_size) + parts.1,
        record_offset(index, record_size) == parts.0 * BLOCK_SIZE_BYTES + parts.1 * record_size,
        0 <= parts.1 * record_size,
        parts.1 * record_size + record_size <= slots_per_block(record_size) * record_size,
{
    let n = slots_per_block(record_size);
    lemma_slots_per_block(record_size);
    let q = index / n;
    let j = index % n;
    vstd::arithmetic::div_mod::lemma_fundamental_div_mod(index, n);
    vstd::arithmetic::div_mod::lemma_mod_bound(index, n);
    vstd::arithmetic::div_mod::lemma_div_pos_is_pos(index, n);
    assert(n * q == q * n) by (nonlinear_arith);
    lemma_mul_le(0, j, record_size);
    lemma_mul_le(j + 1, n, record_size);
    lemma_mul_succ(j, record_size);
    (q, j)
}

/// A file of `count` records, padded for the next record, ends where that
/// record starts.
pub proof fn lemma_written_len_padded(count: int, record_size: int)
    requires
        valid_record_size(record_size),
        0 <= count,
    ensures
        0 <= written_len(count, record_size),
        written_len(count, record_size) + padding(
            written_len(count, record_size),
            record_size,
        ).len() == record_offset(count, record_size),
{
    let b = BLOCK_SIZE_BYTES as int;
    let n = slots_per_block(record_size);
    lemma_slots_per_block(record_size);
    if count == 0 {
        lemma_record_offset(0, 0, record_size);
        assert(padding(0, record_size) =~= Seq::<u8>::empty());
    } else {
        let (q, j) = lemma_index_parts(count - 1, record_size);
        let len = written_len(count, record_size);
        let used = j * record_size + record_size;
        assert(len == q * b + used);
        if j + 1 < n {
            lemma_mul_le(j + 2, n, record_size);
            lemma_mul_succ(j + 1, record_size);
            lemma_mul_succ(j, record_size);
            assert(used + record_size <= n * record_size);
            lemma_div_mod_of_parts(q, used, b);
            assert(len % b == used);
            assert(padding(len, record_size) =~= Seq::<u8>::empty());
            lemma_record_offset(q, j + 1, record_size);
            assert(count == q * n + (j + 1));
        } else {
            lemma_mul_succ(j, record_size);
            assert(used == n * record_size);
            assert(count == q * n + n);
            lemma_mul_succ(q, n);
            assert(count == (q + 1) * n + 0);
            lemma_record_offset(q + 1, 0, record_size);
            lemma_mul_succ(q, b);
            if used == b {
                lemma_div_mod_of_parts(q + 1, 0, b);
                assert(len % b == 0);
                assert(padding(len, record_size) =~= Seq::<u8>::empty());
            } else {
                lemma_div_mod_of_parts(q, used, b);
                assert(len % b == used);
                assert(padding(len, record_size).len() == b - used);
            }
        }
    }
}

/// A file written from `count` records exposes `count` records.
pub proof fn lemma_record_count_written(count: int, record_size: int)
    requires
        valid_record_size(record_size),
        0 <= count,
    ensures
        record_count(written_len(count, record_size), record_size) == count,
{
    let b = BLOCK_SIZE_BYTES as int;
    let n = slots_per_block(record_size);
    lemma_slots_per_block(record_size);
    if count > 0 {
        let (q, j) = lemma_index_parts(count - 1, record_size);
        let len = written_len(count, record_size);
        let used = j * record_size + record_size;
        lemma_mul_succ(j, record_size);
        assert(used == (j + 1) * record_size);
        assert(len == q * b + used);
        assert(count == q * n + j + 1);
        if used == b {
            lemma_mul_succ(q, b);
            lemma_div_mod_of_parts(q + 1, 0, b);
            assert(len == (q + 1) * b + 0);
            assert(len / b == q + 1);
            assert(len % b == 0);
            assert(j + 1 == n) by {
                if j + 1 < n {
                    lemma_mul_le(j + 2, n, record_size);
                    lemma_mul_succ(j + 1, record_size);
                }
            }
            lemma_mul_succ(q, n);
            lemma_div_mod_of_parts(0, 0, record_size);
            assert(0int / record_size == 0);
            assert(record_count(len, record_size) == (q + 1) * n + 0);
        } else {
            lemma_div_mod_of_parts(q, used, b);
            assert(len / b == q);
            assert(len % b == used);
            lemma_div_mod_of_parts(j + 1, 0, record_size);
            assert(used / record_size == j + 1);
            assert(record_count(len, record_size) == q * n + (j + 1));
        }
    } else {
        lemma_div_mod_of_parts(0, 0, record_size);
        assert(0int / record_size == 0);
        assert(0 * n == 0) by (nonlinear_arith);
        assert(record_count(0, record_size) == 0);
    }
}

/// The length of a written file.
pub proof fn lemma_log_bytes_len(records: Seq<Seq<u8>>, record_size: int)
    requires
        valid_record_size(record_size),
        all_of_size(records, record_size),
    ensures
        log_bytes(records, record_size).len() == written_len(records.len() as int, record_size),
    decreases records.len(),
{
    if records.len() > 0 {
        lemma_log_bytes_len(records.drop_last(), record_size);
        lemma_written_len_padded(records.len() - 1, record_size);
    }
}

/// Each record stands in the written file at its offset.
pub proof fn lemma_log_bytes_record(records: Seq<Seq<u8>>, record_size: int, index: int)
    requires
        valid_record_size(record_size),
        all_of_size(records, record_size),
        0 <= index < records.len(),
    ensures
        0 <= record_offset(index, record_size),
        record_offset(index, record_size) + record_size <= log_bytes(records, record_size).len(),
        log_bytes(records, record_size).subrange(
            record_offset(index, record_size),
            record_offset(index, record_size) + record_size,
        ) == records[index],
    decreases records.len(),
{
    let shorter = records.drop_last();
    let before = log_bytes(shorter, record_size);
    let pad = padding(before.len() as int, record_size);
    let whole = log_bytes(records, record_size);
    let start = record_offset(index, record_size);
    lemma_log_bytes_len(shorter, record_size);
    lemma_written_len_padded(records.len() - 1, record_size);
    lemma_index_parts(index, record_size);
    assert(whole == before + pad + records.last());
    if index == records.len() - 1 {
        assert(whole.subrange(start, start + record_size) =~= records[index]);
    } else {
        lemma_log_bytes_record(shorter, record_size, index);
        assert(whole.subrange(start, start + record_size) =~= before.subrange(
            start,
            start + record_size,
        ));
    }
}

/// What stands in a written file behind the last slot of a block is zero.
pub proof fn lemma_log_bytes_padding(records: Seq<Seq<u8>>, record_size: int, at: int)
    requires
        valid_record_size(record_size),
        all_of_size(records, record_size),
        0 <= at < log_bytes(records, record_size).len(),
        at % BLOCK_SIZE_BYTES as int >= slots_per_block(record_size) * record_size,
    ensures
        log_bytes(records, record_size)[at] == 0,
    decreases records.len(),
{
    let b = BLOCK_SIZE_BYTES as int;
    if records.len() > 0 {
        let shorter = records.drop_last();
        let before = log_bytes(shorter, record_size);
        let pad = padding(before.len() as int, record_size);
        let whole = log_bytes(records, record_size);
        lemma_log_bytes_len(shorter, record_size);
        lemma_written_len_padded(records.len() - 1, record_size);
        assert(whole == before + pad + records.last());
        if at < before.len() {
            lemma_log_bytes_padding(shorter, record_size, at);
        } else if at < before.len() + pad.len() {
            assert(whole[at] == pad[at - before.len()]);
        } else {
            let (q, j) = lemma_index_parts(records.len() - 1, record_size);
            let within = at - (q * b + j * record_size);
            lemma_slots_per_block(record_size);
            lemma_div_mod_of_parts(q, j * record_size + within, b);
        }
    }
}

/// What is appended to a fresh log is what a reader of the file finds, in
/// the same order and with nothing after it, whether or not the record size
/// divides the block size.
pub proof fn lemma_log_round_trip(records: Seq<Seq<u8>>, record_size: int)
    requires
        valid_record_size(record_size),
        all_of_size(records, record_size),
    ensures
        log_records(log_bytes(records, record_size), record_size) == records,
{
    let file = log_bytes(records, record_size);
    let found = log_records(file, record_size);
    lemma_log_bytes_len(records, record_size);
    lemma_record_count_written(records.len() as int, record_size);
    assert(found.len() == records.len());
    assert forall|i: int| 0 <= i < records.len() implies found[i] == records[i] by {
        lemma_log_bytes_record(records, record_size, i);
    }
    assert(found =~= records);
}

/// A reader of the file that a writer has made finds the records that were
/// appended, in their order, and then the end.
pub proof fn lemma_reader_finds_appended(writer: &FileLogWriter, reader: &FileLogReader)
    requires
        writer.wf(),
        reader.wf(),
        reader.file() == writer.file(),
        reader.record_size() == writer.record_size(),
        reader.position() == 0,
    ensures
        reader.pending() == writer.records(),
{
    lemma_log_round_trip(writer.appended@, writer.record_size_bytes as int);
    assert(reader.pending() =~= log_records(reader.file@, reader.record_size_bytes as int));
}

/// Something that records of one fixed size can be appended to.
pub trait LogWriter {
    /// Whether the writer is in a consistent state.
    spec fn wf(&self) -> bool;

    /// The size that every record must have.
    spec fn record_size(&self) -> nat;

    /// The records appended so far, oldest first.
    spec fn records(&self) -> Seq<Seq<u8>>;

    /// Appends one record. A record of the wrong size is refused with
    /// `InvalidInput`; a refused or failed append leaves the records as they were.
    fn append(&mut self, buf: &[u8]) -> (r: Result<(), Error>)
        requires
            old(self).wf(),
        ensures
            final(self).wf(),
            final(self).record_size() == old(self).record_size(),
            buf@.len() != old(self).record_size() ==> r is Err && r->Err_0.kind()
                == ErrorKind::InvalidInput,
            r is Ok ==> final(self).records() == old(self).records().push(buf@),
            r is Err ==> final(self).records() == old(self).records(),
    ;
}

/// Something that yields the records of a log, one at a time.
pub trait LogReader {
    /// Whether the reader is in a consistent state.
    spec fn wf(&self) -> bool;

    /// The size of the records.
    spec fn record_size(&self) -> nat;

    /// The records still to come, next first.
    spec fn pending(&self) -> Seq<Seq<u8>>;

    /// Copies the next record into `result` and answers `true`, or answers
    /// `false` when none is left. A `result` of the wrong size is refused with
    /// `InvalidInput`.
    fn next_record(&mut self, result: &mut [u8]) -> (r: Result<bool, Error>)
        requires
            old(self).wf(),
        ensures
            final(self).wf(),
            final(self).record_size() == old(self).record_size(),
            final(result)@.len() == old(result)@.len(),
            old(result)@.len() != old(self).record_size() ==> r is Err && r->Err_0.kind()
                == ErrorKind::InvalidInput,
            r is Err ==> final(self).pending() == old(self).pending(),
            r is Err ==> final(result)@ == old(result)@,
            r matches Ok(more) ==> more == (old(self).pending().len() > 0),
            r == Ok::<bool, Error>(true) ==> final(result)@ == old(self).pending()[0],
            r == Ok::<bool, Error>(true) ==> final(self).pending()
                == old(self).pending().drop_first(),
            r == Ok::<bool, Error>(false) ==> final(self).pending() == old(self).pending(),
            r == Ok::<bool, Error>(false) ==> final(result)@ == old(result)@,
    ;
}

/// Writes a log file as a byte string held in memory.
pub struct FileLogWriter {
    file: Vec<u8>,
    record_size_bytes: usize,
    block_ptr: usize,
    appended: Ghost<Seq<Seq<u8>>>,
}

impl FileLogWriter {
    /// The bytes of the file as written so far.
    pub closed spec fn file(&self) -> Seq<u8> {
        self.file@
    }

    /// Starts an empty log of records of `record_size_bytes` bytes.
    /// A size of zero, or one that no block can hold, is refused.
    pub fn create(record_size_bytes: usize) -> (r: Result<FileLogWriter, Error>)
        ensures
            valid_record_size(record_size_bytes as int) <==> r is Ok,
            r matches Ok(w) ==> w.wf() && w.record_size() == record_size_bytes && w.records()
                == Seq::<Seq<u8>>::empty() && w.file() == Seq::<u8>::empty(),
            r matches Err(e) ==> e.kind() == ErrorKind::InvalidInput,
    {
        if record_size_bytes == 0 || record_size_bytes > BLOCK_SIZE_BYTES {
            return Err(Error::new(ErrorKind::InvalidInput));
        }
        Ok(
            FileLogWriter {
                file: Vec::new(),
                record_size_bytes,
                block_ptr: 0,
                appended: Ghost(Seq::empty()),
            },
        )
    }

    /// The file as written so far.
    pub fn bytes(&self) -> (b: &Vec<u8>)
        requires
            self.wf(),
        ensures
            b@ == self.file(),
            b@ == log_bytes(self.records(), self.record_size() as int),
    {
        &self.file
    }

    /// The bytes by which an append of `buf` makes the file longer: the
    /// zero padding that closes the current block if the record no longer
    /// fits in it, then the record. A record of the wrong size is refused
    /// with `InvalidInput`.
    pub fn framed(&self, buf: &[u8]) -> (r: Result<Vec<u8>, Error>)
        requires
            self.wf(),
        ensures
            buf@.len() == self.record_size() <==> r is Ok,
            r matches Ok(bytes) ==> bytes@ == padding(
                self.file().len() as int,
                self.record_size() as int,
            ) + buf@,
            r matches Err(e) ==> e.kind() == ErrorKind::InvalidInput,
    {
        if buf.len() != self.record_size_bytes {
            return Err(Error::new(ErrorKind::InvalidInput));
        }
        let bytes_remaining = BLOCK_SIZE_BYTES - self.block_ptr;
        let mut framed: Vec<u8> = Vec::new();
        if bytes_remaining < self.record_size_bytes {
            framed = vec![0u8; bytes_remaining];
        }
        let ghost pad = framed@;
        assert(pad =~= padding(self.file@.len() as int, self.record_size_bytes as int));
        framed.extend_from_slice(buf);
        assert(framed@ =~= pad + buf@);
        Ok(framed)
    }
}

impl FileLogWriter {
    /// Appends one record once the caller has tried to write its framed
    /// bytes to the file, given how that went. Where the write failed, the
    /// writer is left as it was and the error is handed back; where it
    /// succeeded, the record is appended as by `append`.
    pub fn append_written<E>(&mut self, buf: &[u8], written: Result<(), E>) -> (r: Result<(), E>)
        requires
            old(self).wf(),
            buf@.len() == old(self).record_size(),
        ensures
            final(self).wf(),
            final(self).record_size() == old(self).record_size(),
            r == written,
            written is Err ==> final(self).records() == old(self).records() && final(self).file()
                == old(self).file(),
            written is Ok ==> final(self).records() == old(self).records().push(buf@)
                && final(self).file() == old(self).file() + padding(
                old(self).file().len() as int,
                old(self).record_size() as int,
            ) + buf@,
    {
        if written.is_ok() {
            let appended = self.append(buf);
            assert(appended is Ok);
        }
        written
    }
}

impl LogWriter for FileLogWriter {
    closed spec fn wf(&self) -> bool {
        &&& valid_record_size(self.record_size_bytes as int)
        &&& all_of_size(self.appended@, self.record_size_bytes as int)
        &&& self.file@ == log_bytes(self.appended@, self.record_size_bytes as int)
        &&& self.block_ptr == self.file@.len() % BLOCK_SIZE_BYTES as nat
    }

    closed spec fn record_size(&self) -> nat {
        self.record_size_bytes as nat
    }

    closed spec fn records(&self) -> Seq<Seq<u8>> {
        self.appended@
    }

    /// Appends one record to the file, after the zero padding that closes the
    /// current block if the record no longer fits in it.
    fn append(&mut self, buf: &[u8]) -> (r: Result<(), Error>)
        ensures
            buf@.len() == old(self).record_size() <==> r is Ok,
            final(self).file() == log_bytes(
                final(self).records(),
                final(self).record_size() as int,
            ),
            all_of_size(final(self).records(), final(self).record_size() as int),
            r is Err ==> final(self).file() == old(self).file(),
            r is Ok ==> final(self).file() == old(self).file() + padding(
                old(self).file().len() as int,
                old(self).record_size() as int,
            ) + buf@,
    {
        let framed = match self.framed(buf) {
            Ok(framed) => framed,
            Err(e) => {
                return Err(e);
            },
        };
        let ghost before = self.file@;
        self.file.extend_from_slice(framed.as_slice());
        assert(self.file@ =~= before + padding(
            before.len() as int,
            self.record_size_bytes as int,
        ) + buf@);
        assert(self.file@.len() == before.len() + framed@.len());
        assert(framed@.len() <= 2 * BLOCK_SIZE_BYTES);
        self.block_ptr = (self.block_ptr + framed.len()) % BLOCK_SIZE_BYTES;
        let ghost prior = self.appended@;
        let ghost grown = prior.push(buf@);
        assert(grown.drop_last() =~= prior);
        assert(grown.last() == buf@);
        self.appended = Ghost(grown);
        Ok(())
    }
}

/// A reader that stands at slot `slot` of block `block`, with a whole record
/// before the end of what it has of that block, stands at a record of the file.
proof fn lemma_reader_has_record(len: int, record_size: int, block: int, slot: int, buf_size: int)
    requires
        valid_record_size(record_size),
        0 <= block,
        0 <= slot,
        slot * record_size + record_size <= buf_size <= BLOCK_SIZE_BYTES,
        block * BLOCK_SIZE_BYTES + buf_size <= len,
    ensures
        slot < slots_per_block(record_size),
        block * slots_per_block(record_size) + slot < record_count(len, record_size),
        record_offset(block * slots_per_block(record_size) + slot, record_size) == block
            * BLOCK_SIZE_BYTES + slot * record_size,
{
    let b = BLOCK_SIZE_BYTES as int;
    let n = slots_per_block(record_size);
    lemma_slots_per_block(record_size);
    lemma_mul_succ(slot, record_size);
    if slot >= n {
        lemma_mul_le(n + 1, slot + 1, record_size);
        lemma_mul_succ(n, record_size);
    }
    lemma_record_offset(block, slot, record_size);
    let full = len / b;
    let rest = len % b;
    vstd::arithmetic::div_mod::lemma_fundamental_div_mod(len, b);
    assert(len == full * b + rest) by {
        assert(b * full == full * b) by (nonlinear_arith);
    }
    lemma_mul_le(0, slot, record_size);
    if block < full {
        lemma_mul_le(block + 1, full, n);
        lemma_mul_succ(block, n);
        vstd::arithmetic::div_mod::lemma_div_pos_is_pos(rest, record_size);
    } else {
        if block > full {
            lemma_mul_le(full + 1, block, b);
            lemma_mul_succ(full, b);
        }
        assert(block == full);
        assert(buf_size <= rest);
        vstd::arithmetic::div_mod::lemma_div_is_ordered(
            (slot + 1) * record_size,
            rest,
            record_size,
        );
        lemma_div_mod_of_parts(slot + 1, 0, record_size);
    }
}

/// A reader that stands in the short last block, with less than a record
/// left of it, has read every record of the file.
proof fn lemma_reader_at_end(len: int, record_size: int, block: int, slot: int, buf_size: int)
    requires
        valid_record_size(record_size),
        0 <= block,
        0 <= slot,
        slot * record_size <= buf_size < BLOCK_SIZE_BYTES,
        buf_size - slot * record_size < record_size,
        block * BLOCK_SIZE_BYTES + buf_size == len,
    ensures
        block * slots_per_block(record_size) + slot == record_count(len, record_size),
{
    let b = BLOCK_SIZE_BYTES as int;
    lemma_div_mod_of_parts(block, buf_size, b);
    lemma_div_mod_of_parts(slot, buf_size - slot * record_size, record_size);
}

/// A reader at a slot of a full block with less than a record left of the
/// block has read all the block's slots.
proof fn lemma_reader_block_done(record_size: int, slot: int)
    requires
        valid_record_size(record_size),
        0 <= slot <= slots_per_block(record_size),
        BLOCK_SIZE_BYTES - slot * record_size < record_size,
    ensures
        slot == slots_per_block(record_size),
{
    let n = slots_per_block(record_size);
    lemma_slots_per_block(record_size);
    if slot < n {
        lemma_mul_le(slot + 1, n, record_size);
        lemma_mul_succ(slot, record_size);
    }
}

/// Reads the records of a log file that is held in memory as a byte string.
pub struct FileLogReader {
    file: Vec<u8>,
    record_size_bytes: usize,
    block_start: usize,
    buf_ptr: usize,
    buf_size: usize,
    read_last_block: bool,
    block: Ghost<int>,
    slot: Ghost<int>,
}

impl FileLogReader {
    /// The bytes of the file that is read.
    pub closed spec fn file(&self) -> Seq<u8> {
        self.file@
    }

    /// How many records have been produced.
    pub closed spec fn position(&self) -> int {
        self.block@ * slots_per_block(self.record_size_bytes as int) + self.slot@
    }

    /// Whether no block of the file has been taken up yet.
    spec fn fresh(&self) -> bool {
        self.buf_size == 0 && self.block_start == 0 && self.buf_ptr == 0 && !self.read_last_block
    }

    /// Starts reading `file` as a log of records of `record_size_bytes` bytes.
    /// A size of zero, or one that no block can hold, is refused.
    pub fn create(file: Vec<u8>, record_size_bytes: usize) -> (r: Result<FileLogReader, Error>)
        ensures
            valid_record_size(record_size_bytes as int) <==> r is Ok,
            r matches Ok(reader) ==> reader.wf() && reader.record_size() == record_size_bytes
                && reader.file() == file@ && reader.position() == 0 && reader.pending()
                == log_records(file@, record_size_bytes as int),
            r matches Err(e) ==> e.kind() == ErrorKind::InvalidInput,
    {
        if record_size_bytes == 0 || record_size_bytes > BLOCK_SIZE_BYTES {
            return Err(Error::new(ErrorKind::InvalidInput));
        }
        let reader = FileLogReader {
            file,
            record_size_bytes,
            block_start: 0,
            buf_ptr: 0,
            buf_size: 0,
            read_last_block: false,
            block: Ghost(0),
            slot: Ghost(0),
        };
        proof {
            let n = slots_per_block(record_size_bytes as int);
            lemma_slots_per_block(record_size_bytes as int);
            assert(0 * n == 0) by (nonlinear_arith);
            assert(0 * (BLOCK_SIZE_BYTES as int) == 0) by (nonlinear_arith);
            assert(0 * (record_size_bytes as int) == 0) by (nonlinear_arith);
            reader.lemma_position_in_range();
            assert(reader.pending() =~= log_records(file@, record_size_bytes as int));
        }
        Ok(reader)
    }

    /// No more records have been produced than the file holds.
    proof fn lemma_position_in_range(&self)
        requires
            self.wf(),
        ensures
            0 <= self.position() <= record_count(
                self.file@.len() as int,
                self.record_size_bytes as int,
            ),
    {
        let r = self.record_size_bytes as int;
        let n = slots_per_block(r);
        let len = self.file@.len() as int;
        let b = BLOCK_SIZE_BYTES as int;
        lemma_slots_per_block(r);
        lemma_mul_le(0, self.block@, n);
        if self.slot@ > 0 {
            lemma_mul_succ(self.slot@ - 1, r);
            lemma_reader_has_record(len, r, self.block@, self.slot@ - 1, self.buf_size as int);
        } else if self.fresh() {
            assert(0 * n == 0) by (nonlinear_arith);
            vstd::arithmetic::div_mod::lemma_div_pos_is_pos(len, b);
            vstd::arithmetic::div_mod::lemma_mod_bound(len, b);
            vstd::arithmetic::div_mod::lemma_div_pos_is_pos(len % b, r);
            lemma_mul_le(0, len / b, n);
        } else if self.read_last_block {
            assert(0 * r == 0) by (nonlinear_arith);
            lemma_div_mod_of_parts(self.block@, self.buf_size as int, b);
            vstd::arithmetic::div_mod::lemma_div_pos_is_pos(self.buf_size as int, r);
        } else {
            assert(0 * r == 0) by (nonlinear_arith);
            lemma_reader_has_record(len, r, self.block@, 0, self.buf_size as int);
        }
    }

    /// Whether less than one record is left of the block at hand.
    fn current_block_expired(&self) -> (expired: bool)
        requires
            self.wf(),
        ensures
            expired == (self.buf_size - self.buf_ptr < self.record_size_bytes),
    {
        self.buf_size - self.buf_ptr < self.record_size_bytes
    }

    /// Takes up the next block of the file: a full one, or what is left of
    /// the file, which is then the last block.
    fn read_next_block(&mut self)
        requires
            old(self).wf(),
            !old(self).read_last_block,
            old(self).buf_size - old(self).buf_ptr < old(self).record_size_bytes,
        ensures
            final(self).wf(),
            final(self).file@ == old(self).file@,
            final(self).record_size_bytes == old(self).record_size_bytes,
            final(self).position() == old(self).position(),
            final(self).buf_ptr == 0,
            !final(self).fresh(),
            final(self).buf_size < final(self).record_size_bytes ==> final(self).read_last_block,
    {
        proof {
            let r = self.record_size_bytes as int;
            let n = slots_per_block(r);
            lemma_slots_per_block(r);
            if self.buf_size == BLOCK_SIZE_BYTES {
                lemma_reader_block_done(r, self.slot@);
                lemma_mul_succ(self.block@, n);
                lemma_mul_succ(self.block@, BLOCK_SIZE_BYTES as int);
                self.block = Ghost(self.block@ + 1);
            } else {
                let slot = self.slot@;
                assert(slot == 0) by (nonlinear_arith)
                    requires
                        slot * r == 0,
                        r > 0,
                ;
            }
            self.slot = Ghost(0);
            assert(0 * r == 0) by (nonlinear_arith);
        }
        let file_len = self.file.len();
        self.block_start = self.block_start + self.buf_size;
        self.buf_ptr = 0;
        let left = file_len - self.block_start;
        if left < BLOCK_SIZE_BYTES {
            self.buf_size = left;
            self.read_last_block = true;
        } else {
            self.buf_size = BLOCK_SIZE_BYTES;
        }
    }
}

impl LogReader for FileLogReader {
    closed spec fn wf(&self) -> bool {
        &&& valid_record_size(self.record_size_bytes as int)
        &&& 0 <= self.block@
        &&& 0 <= self.slot@ <= slots_per_block(self.record_size_bytes as int)
        &&& self.block_start == self.block@ * BLOCK_SIZE_BYTES
        &&& self.buf_ptr == self.slot@ * self.record_size_bytes
        &&& self.buf_ptr <= self.buf_size <= BLOCK_SIZE_BYTES
        &&& self.block_start + self.buf_size <= self.file@.len()
        &&& if self.read_last_block {
            self.buf_size < BLOCK_SIZE_BYTES && self.block_start + self.buf_size == self.file@.len()
        } else {
            self.buf_size == BLOCK_SIZE_BYTES || self.fresh()
        }
    }

    closed spec fn record_size(&self) -> nat {
        self.record_size_bytes as nat
    }

    closed spec fn pending(&self) -> Seq<Seq<u8>> {
        log_records(self.file@, self.record_size_bytes as int).skip(self.position())
    }

    /// Copies the next record of the file into `result`. The records come in
    /// the order of `log_records`, and `false` comes after the last of them.
    fn next_record(&mut self, result: &mut [u8]) -> (r: Result<bool, Error>)
        ensures
            final(self).file() == old(self).file(),
            old(result)@.len() == old(self).record_size() <==> r is Ok,
            r == Ok::<bool, Error>(true) ==> final(self).position() == old(self).position() + 1,
            r != Ok::<bool, Error>(true) ==> final(self).position() == old(self).position(),
    {
        if result.len() != self.record_size_bytes {
            return Err(Error::new(ErrorKind::InvalidInput));
        }
        let ghost size = self.record_size_bytes as int;
        let ghost len = self.file@.len() as int;
        proof {
            self.lemma_position_in_range();
        }
        if self.current_block_expired() {
            if self.read_last_block {
                proof {
                    lemma_reader_at_end(len, size, self.block@, self.slot@, self.buf_size as int);
                }
                return Ok(false);
            }
            self.read_next_block();
            if self.current_block_expired() {
                proof {
                    assert(0 * size == 0) by (nonlinear_arith);
                    lemma_reader_at_end(len, size, self.block@, 0, self.buf_size as int);
                }
                return Ok(false);
            }
        }
        let file_len = self.file.len();
        let start = self.block_start + self.buf_ptr;
        proof {
            lemma_mul_succ(self.slot@, size);
            lemma_reader_has_record(len, size, self.block@, self.slot@, self.buf_size as int);
        }
        let mut i: usize = 0;
        while i < self.record_size_bytes
            invariant
                i <= self.record_size_bytes,
                result@.len() == self.record_size_bytes,
                file_len == self.file@.len(),
                start + self.record_size_bytes <= file_len,
                result@.subrange(0, i as int) == self.file@.subrange(start as int, start + i),
            decreases self.record_size_bytes - i,
        {
            result[i] = self.file[start + i];
            i = i + 1;
            assert(result@.subrange(0, i as int) =~= self.file@.subrange(start as int, start + i));
        }
        assert(result@ == result@.subrange(0, size));
        let ghost produced = log_records(self.file@, size);
        let ghost at = self.position();
        assert(result@ == produced[at]);
        assert(produced.skip(at).drop_first() =~= produced.skip(at + 1));
        self.buf_ptr = self.buf_ptr + self.record_size_bytes;
        proof {
            self.slot = Ghost(self.slot@ + 1);
        }
        Ok(true)
    }
}

} // verus!
