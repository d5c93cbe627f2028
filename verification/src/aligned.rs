use vstd::prelude::*;

use crate::device::BlockDeviceError;
use crate::disk::ChaosDisk;
use crate::disk_model::{read_outcome, write_outcome};

verus! {

/// Size in bytes of one device block (and of one memory page).
pub const BLOCK_SIZE: usize = 4096;

/// Returns the memory address of the first byte of `buffer`.
///
/// Calls `<[u8]>::as_ptr` and converts the pointer to its address. The only
/// fact claimed is the one the slice documentation guarantees: a slice's
/// memory range does not wrap around the address space. Which address comes
/// back depends on the allocator and is left unsaid.
#[verifier::external_body]
pub(crate) fn slice_address(buffer: &[u8]) -> (address: usize)
    ensures
        address + buffer@.len() <= usize::MAX,
{
    buffer.as_ptr() as usize
}

/// The distance from `address` to the first page boundary at or after it.
pub open spec fn gap_to_page(address: int) -> int {
    (BLOCK_SIZE - address % (BLOCK_SIZE as int)) % (BLOCK_SIZE as int)
}

/// The distance from `base` to the first page boundary at or after it: where
/// a page-aligned window starts inside a buffer whose first byte lies at
/// `base`.
pub fn page_window(base: usize) -> (offset: usize)
    requires
        base + gap_to_page(base as int) <= usize::MAX,
    ensures
        offset == gap_to_page(base as int),
        offset < BLOCK_SIZE,
        (base + offset) % (BLOCK_SIZE as int) == 0,
{
    let rem = base % BLOCK_SIZE;
    if rem == 0 { 0 } else { BLOCK_SIZE - rem }
}

/// A 4096-byte memory block whose first byte sits on a page boundary, as
/// Direct I/O and DMA-compatible buffers must.
///
/// The block lives inside a buffer of two pages; the window starts at the
/// first page boundary of that buffer, whose address is kept in `address`.
pub struct AlignedBlock {
    storage: Vec<u8>,
    offset: usize,
    address: usize,
}

/// A block of 4096 bytes all equal to `value`.
pub open spec fn filled_block(value: u8) -> Seq<u8> {
    Seq::new(BLOCK_SIZE as nat, |i: int| value)
}

impl AlignedBlock {
    /// The window layout holds: the window fits in the buffer and starts on a
    /// page boundary.
    pub closed spec fn wf(self) -> bool {
        &&& self.storage@.len() == 2 * BLOCK_SIZE
        &&& self.offset < BLOCK_SIZE
        &&& self.address % BLOCK_SIZE == 0
    }

    /// The 4096 bytes of the block.
    pub closed spec fn view(self) -> Seq<u8> {
        self.storage@.subrange(self.offset as int, self.offset + BLOCK_SIZE)
    }

    /// The page-aligned address of the block's first byte.
    pub closed spec fn spec_address(self) -> usize {
        self.address
    }

    /// A well-formed block holds exactly one block of bytes.
    pub proof fn lemma_len(&self)
        requires
            self.wf(),
        ensures
            self@.len() == BLOCK_SIZE,
    {
    }

    /// Creates a new, zeroed-out block.
    pub fn new() -> (block: Self)
        ensures
            block.wf(),
            block@ == filled_block(0),
    {
        let storage: Vec<u8> = vec![0u8; 2 * BLOCK_SIZE];
        let base = slice_address(storage.as_slice());
        let offset = page_window(base);
        let address = base + offset;
        let block = AlignedBlock { storage, offset, address };
        assert(block@ =~= filled_block(0));
        block
    }

    /// The page-aligned address of the block's first byte.
    pub fn address(&self) -> (address: usize)
        requires
            self.wf(),
        ensures
            address == self.spec_address(),
            address % BLOCK_SIZE == 0,
    {
        self.address
    }

    /// The block's bytes.
    pub fn as_slice(&self) -> (bytes: &[u8])
        requires
            self.wf(),
        ensures
            bytes@ == self@,
    {
        vstd::slice::slice_subrange(self.storage.as_slice(), self.offset, self.offset + BLOCK_SIZE)
    }

    /// The block's bytes, for writing. A slice keeps its length, so the block
    /// afterwards holds exactly what was written through `bytes`.
    pub fn as_mut_slice(&mut self) -> (bytes: &mut [u8])
        requires
            old(self).wf(),
        ensures
            bytes@ == old(self)@,
            final(bytes)@.len() == BLOCK_SIZE ==> {
                &&& final(self).wf()
                &&& final(self)@ == final(bytes)@
                &&& final(self).spec_address() == old(self).spec_address()
            },
    {
        let offset = self.offset;
        let whole = self.storage.as_mut_slice();
        let (front, rest) = whole.split_at_mut(offset);
        let (window, back) = rest.split_at_mut(BLOCK_SIZE);
        window
    }

    /// Sets byte `index` of the block to `byte`.
    pub fn set(&mut self, index: usize, byte: u8)
        requires
            old(self).wf(),
            index < BLOCK_SIZE,
        ensures
            final(self).wf(),
            final(self)@ == old(self)@.update(index as int, byte),
            final(self).spec_address() == old(self).spec_address(),
    {
        let at = self.offset + index;
        self.storage[at] = byte;
        assert(self@ =~= old(self)@.update(index as int, byte));
    }

    /// Copies `bytes` into the block, starting at byte `start`.
    pub fn copy_in(&mut self, start: usize, bytes: &[u8])
        requires
            old(self).wf(),
            start + bytes@.len() <= BLOCK_SIZE,
        ensures
            final(self).wf(),
            final(self)@ == old(self)@.subrange(0, start as int) + bytes@
                + old(self)@.subrange(start + bytes@.len(), BLOCK_SIZE as int),
            final(self).spec_address() == old(self).spec_address(),
    {
        let mut i: usize = 0;
        while i < bytes.len()
            invariant
                self.wf(),
                old(self).wf(),
                i <= bytes@.len(),
                start + bytes@.len() <= BLOCK_SIZE,
                self.spec_address() == old(self).spec_address(),
                self@ == old(self)@.subrange(0, start as int) + bytes@.subrange(0, i as int)
                    + old(self)@.subrange(start + i, BLOCK_SIZE as int),
            decreases bytes@.len() - i,
        {
            self.set(start + i, bytes[i]);
            assert(self@ =~= old(self)@.subrange(0, start as int) + bytes@.subrange(0, i + 1)
                + old(self)@.subrange(start + i + 1, BLOCK_SIZE as int));
            i = i + 1;
        }
        assert(bytes@.subrange(0, i as int) =~= bytes@);
    }

    /// Writes this block to block `block_id` of `disk`, as the device's
    /// `write_block` does for a page-aligned buffer.
    pub fn write_to_device(&self, disk: &mut ChaosDisk, block_id: u64) -> (result: Result<(), BlockDeviceError>)
        requires
            self.wf(),
            old(disk).wf(),
            old(disk)@.write_count < u64::MAX,
        ensures
            final(disk).wf(),
            (final(disk)@, result) == write_outcome(old(disk)@, block_id, self@, true),
    {
        disk.write_block_at(block_id, self.as_slice(), self.address)
    }

    /// Reads block `block_id` of `disk` into this block, as the device's
    /// `read_block` does for a page-aligned buffer.
    pub fn read_from_device(&mut self, disk: &mut ChaosDisk, block_id: u64) -> (result: Result<(), BlockDeviceError>)
        requires
            old(self).wf(),
            old(disk).wf(),
        ensures
            final(self).wf(),
            final(disk).wf(),
            final(disk)@ == old(disk)@,
            final(self).spec_address() == old(self).spec_address(),
            (final(self)@, result) == read_outcome(old(disk)@, block_id, old(self)@, true),
    {
        let address = self.address;
        let offset = self.offset;
        let whole = self.storage.as_mut_slice();
        let (front, rest) = whole.split_at_mut(offset);
        let (window, back) = rest.split_at_mut(BLOCK_SIZE);
        proof {
            disk.lemma_valid();
        }
        let result = disk.read_block_at(block_id, window, address);
        proof {
            if result is Ok {
                assert(old(disk)@.cache[block_id as int].len() == BLOCK_SIZE);
            }
            assert(window@.len() == BLOCK_SIZE);
        }
        assert(self.storage@ =~= old(self).storage@.subrange(0, offset as int) + window@
            + old(self).storage@.subrange(offset + BLOCK_SIZE, 2 * BLOCK_SIZE));
        assert(self@ =~= window@);
        result
    }
}

} // verus!
