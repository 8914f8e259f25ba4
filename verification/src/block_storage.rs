//! Block devices: storage that is read and written in whole, aligned blocks.

use crate::error::{Error, ErrorKind};
use vstd::prelude::*;

verus! {

/// Whether a transfer of `len` bytes at `offset` covers whole blocks of
/// `block_size` bytes.
pub open spec fn aligned(offset: int, len: int, block_size: int) -> bool {
    len % block_size == 0 && offset % block_size == 0
}

/// What a device holds after `data` was written at `offset`.
pub open spec fn overwritten(contents: Seq<u8>, offset: int, data: Seq<u8>) -> Seq<u8> {
    contents.subrange(0, offset) + data + contents.subrange(
        offset + data.len(),
        contents.len() as int,
    )
}

/// How many bytes a read of `length` bytes at `offset` takes from a device
/// of `size` bytes: no more than are left.
pub open spec fn read_len(size: int, offset: int, length: int) -> int {
    if length <= size - offset {
        length
    } else {
        size - offset
    }
}

/// A device of a fixed size that transfers whole blocks at block
/// boundaries.
pub trait Device {
    /// Whether the device is in a consistent state.
    spec fn wf(&self) -> bool;

    /// The bytes that the device holds.
    spec fn contents(&self) -> Seq<u8>;

    /// The size of a block, for use in contracts.
    spec fn spec_block_size(&self) -> u64;

    /// The size of a block in bytes.
    fn block_size(&self) -> (n: u64)
        ensures
            n == self.spec_block_size(),
    ;

    /// The size of the device in bytes.
    fn size(&self) -> (n: u64)
        requires
            self.wf(),
        ensures
            n == self.contents().len(),
    ;

    /// Writes `data` at `offset`. A length or an offset that is no multiple
    /// of the block size is refused with `InvalidInput`, and then nothing is
    /// written.
    fn write(&mut self, offset: u64, data: &[u8]) -> (r: Result<(), Error>)
        requires
            old(self).wf(),
            old(self).spec_block_size() > 0,
            aligned(offset as int, data@.len() as int, old(self).spec_block_size() as int)
                ==> offset + data@.len() <= old(self).contents().len(),
        ensures
            final(self).wf(),
            final(self).spec_block_size() == old(self).spec_block_size(),
            final(self).contents().len() == old(self).contents().len(),
            !aligned(offset as int, data@.len() as int, old(self).spec_block_size() as int) ==> r
                is Err && r->Err_0.kind() == ErrorKind::InvalidInput,
            r is Ok ==> final(self).contents() == overwritten(
                old(self).contents(),
                offset as int,
                data@,
            ),
            r is Err ==> final(self).contents() == old(self).contents(),
    ;

    /// Reads up to `length` bytes from `offset` on into the start of `buf`,
    /// and answers how many were read: `length`, or as many as the device
    /// has left. A count or an offset that is no multiple of the block size
    /// is refused with `InvalidInput`, and then `buf` is left as it was.
    fn read(&mut self, offset: u64, length: u64, buf: &mut [u8]) -> (r: Result<usize, Error>)
        requires
            old(self).wf(),
            old(self).spec_block_size() > 0,
            length <= old(buf)@.len(),
            offset <= old(self).contents().len(),
        ensures
            final(self).wf(),
            final(self).spec_block_size() == old(self).spec_block_size(),
            final(self).contents() == old(self).contents(),
            final(buf)@.len() == old(buf)@.len(),
            !aligned(
                offset as int,
                read_len(old(self).contents().len() as int, offset as int, length as int),
                old(self).spec_block_size() as int,
            ) ==> r is Err && r->Err_0.kind() == ErrorKind::InvalidInput,
            r is Err ==> final(buf)@ == old(buf)@,
            r matches Ok(n) ==> n == read_len(
                old(self).contents().len() as int,
                offset as int,
                length as int,
            ),
            r matches Ok(n) ==> final(buf)@ == old(self).contents().subrange(
                offset as int,
                offset + n,
            ) + old(buf)@.subrange(n as int, old(buf)@.len() as int),
    ;
}

/// A device that keeps its bytes in memory.
pub struct InMemoryDevice {
    size: u64,
    block_size: u64,
    data: Vec<u8>,
}

impl InMemoryDevice {
    /// A device of `size` zero bytes, with blocks of `block_size` bytes.
    pub fn new(size: u64, block_size: u64) -> (device: InMemoryDevice)
        requires
            size <= usize::MAX,
        ensures
            device.wf(),
            device.spec_block_size() == block_size,
            device.contents() == Seq::new(size as nat, |i: int| 0u8),
    {
        let data = vec![0u8; size as usize];
        assert(data@ =~= Seq::new(size as nat, |i: int| 0u8));
        InMemoryDevice { size, block_size, data }
    }
}

impl Device for InMemoryDevice {
    closed spec fn wf(&self) -> bool {
        self.data@.len() == self.size
    }

    closed spec fn contents(&self) -> Seq<u8> {
        self.data@
    }

    closed spec fn spec_block_size(&self) -> u64 {
        self.block_size
    }

    /// The size of a block in bytes.
    fn block_size(&self) -> (n: u64) {
        self.block_size
    }

    /// The size of the device in bytes.
    fn size(&self) -> (n: u64) {
        self.size
    }

    /// Writes `data` at `offset`; succeeds whenever both are aligned.
    fn write(&mut self, offset: u64, data: &[u8]) -> (r: Result<(), Error>)
        ensures
            aligned(offset as int, data@.len() as int, old(self).spec_block_size() as int) <==> r
                is Ok,
    {
        if (data.len() as u64) % self.block_size != 0 {
            return Err(Error::new(ErrorKind::InvalidInput));
        }
        if offset % self.block_size != 0 {
            return Err(Error::new(ErrorKind::InvalidInput));
        }
        let len = data.len();
        let total = self.data.len();
        let start = offset as usize;
        let mut i: usize = 0;
        assert(self.data@ =~= overwritten(old(self).data@, start as int, data@.subrange(0, 0)));
        while i < len
            invariant
                i <= len,
                len == data@.len(),
                start == offset,
                start + len <= total,
                total == self.data@.len(),
                total == old(self).data@.len(),
                self.size == old(self).size,
                self.block_size == old(self).block_size,
                self.data@ == overwritten(
                    old(self).data@,
                    start as int,
                    data@.subrange(0, i as int),
                ),
            decreases len - i,
        {
            self.data[start + i] = data[i];
            i = i + 1;
            assert(self.data@ =~= overwritten(
                old(self).data@,
                start as int,
                data@.subrange(0, i as int),
            ));
        }
        assert(data@.subrange(0, len as int) =~= data@);
        Ok(())
    }

    /// Reads from `offset` on; succeeds whenever the offset and the number
    /// of bytes that are read are aligned.
    fn read(&mut self, offset: u64, length: u64, buf: &mut [u8]) -> (r: Result<usize, Error>)
        ensures
            aligned(
                offset as int,
                read_len(old(self).contents().len() as int, offset as int, length as int),
                old(self).spec_block_size() as int,
            ) <==> r is Ok,
    {
        let left = self.size - offset;
        let len = if length <= left {
            length
        } else {
            left
        };
        if len % self.block_size != 0 {
            return Err(Error::new(ErrorKind::InvalidInput));
        }
        if offset % self.block_size != 0 {
            return Err(Error::new(ErrorKind::InvalidInput));
        }
        let buf_len = buf.len();
        let total = self.data.len();
        let start = offset as usize;
        let count = len as usize;
        let mut i: usize = 0;
        assert(buf@ =~= self.data@.subrange(start as int, start as int) + old(buf)@.subrange(
            0,
            buf_len as int,
        ));
        while i < count
            invariant
                i <= count,
                count <= buf_len,
                buf_len == buf@.len(),
                buf_len == old(buf)@.len(),
                start + count <= total,
                total == self.data@.len(),
                buf@ == self.data@.subrange(start as int, start + i) + old(buf)@.subrange(
                    i as int,
                    buf_len as int,
                ),
            decreases count - i,
        {
            buf[i] = self.data[start + i];
            i = i + 1;
            assert(buf@ =~= self.data@.subrange(start as int, start + i) + old(buf)@.subrange(
                i as int,
                buf_len as int,
            ));
        }
        Ok(count)
    }
}

} // verus!
