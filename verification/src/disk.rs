use vstd::prelude::*;

use crate::aligned::{filled_block, slice_address, BLOCK_SIZE};
use crate::device::{AdminControls, BlockDevice, BlockDeviceError};
use crate::disk_model::{
    bit_flipped, crashed, first_flush_fault, flush_outcome, flush_policy_at, flush_tear,
    flushed_cache_block, flushed_stable_block, lemma_first_flush_fault, new_disk, read_outcome,
    rebooted, resized, spliced_prefix, write_outcome, DiskView,
};
use crate::fault::{triggered_policy, OpContext};

pub use crate::aligned::AlignedBlock;
pub use crate::fault::{FaultPolicy, FaultTrigger, TriggerCondition};

verus! {

/// The primary simulator for a physical disk: stable media, a volatile write
/// cache, a ledger of dirty blocks, a power switch and a fault engine.
pub struct ChaosDisk {
    /// Simulated non-volatile media, one vector per block.
    stable_storage: Vec<Vec<u8>>,
    /// Simulated volatile controller RAM, one vector per block.
    volatile_cache: Vec<Vec<u8>>,
    /// Which blocks are in the cache but not yet committed to the media.
    ledger: Vec<bool>,
    /// The power status: a frozen controller rejects I/O.
    is_frozen: bool,
    /// Fixed block geometry (always 4096 bytes).
    block_size: usize,
    /// Number of blocks of the device.
    capacity_blocks: usize,
    /// Global monotonic counter tracking every single `write_block` call.
    write_count: u64,
    /// Global monotonic counter tracking every single `flush` call.
    flush_count: u64,
    /// The armed fault plan.
    scheduled_fault: Option<FaultTrigger>,
}

/// The contents of a sequence of block vectors.
pub open spec fn block_views(blocks: Seq<Vec<u8>>) -> Seq<Seq<u8>> {
    blocks.map_values(|block: Vec<u8>| block@)
}

impl View for ChaosDisk {
    type V = DiskView;

    closed spec fn view(&self) -> DiskView {
        DiskView {
            stable: block_views(self.stable_storage@),
            cache: block_views(self.volatile_cache@),
            dirty: self.ledger@,
            frozen: self.is_frozen,
            write_count: self.write_count,
            flush_count: self.flush_count,
            fault: self.scheduled_fault,
        }
    }
}

/// A copy of `block`.
fn copy_block(block: &Vec<u8>) -> (copy: Vec<u8>)
    ensures
        copy@ == block@,
{
    vstd::slice::slice_to_vec(block.as_slice())
}

/// A block of 4096 copies of `value`.
fn filled_vec(value: u8) -> (block: Vec<u8>)
    ensures
        block@ == filled_block(value),
{
    let mut block: Vec<u8> = Vec::new();
    let mut i: usize = 0;
    while i < BLOCK_SIZE
        invariant
            i <= BLOCK_SIZE,
            block@ == Seq::new(i as nat, |j: int| value),
        decreases BLOCK_SIZE - i,
    {
        block.push(value);
        i = i + 1;
        assert(block@ =~= Seq::new(i as nat, |j: int| value));
    }
    block
}

/// The first `count` bytes of `new` followed by the rest of `old`.
fn splice_prefix(new: &[u8], old: &[u8], count: usize) -> (block: Vec<u8>)
    requires
        new@.len() == BLOCK_SIZE,
        old@.len() == BLOCK_SIZE,
        count <= BLOCK_SIZE,
    ensures
        block@ == new@.subrange(0, count as int) + old@.subrange(count as int, BLOCK_SIZE as int),
{
    let mut block: Vec<u8> = Vec::new();
    let mut i: usize = 0;
    while i < BLOCK_SIZE
        invariant
            i <= BLOCK_SIZE,
            count <= BLOCK_SIZE,
            new@.len() == BLOCK_SIZE,
            old@.len() == BLOCK_SIZE,
            block@ == (new@.subrange(0, count as int) + old@.subrange(count as int, BLOCK_SIZE as int)).subrange(0, i as int),
        decreases BLOCK_SIZE - i,
    {
        if i < count {
            block.push(new[i]);
        } else {
            block.push(old[i]);
        }
        i = i + 1;
        assert(block@ =~= (new@.subrange(0, count as int) + old@.subrange(count as int, BLOCK_SIZE as int)).subrange(0, i as int));
    }
    assert(block@ =~= new@.subrange(0, count as int) + old@.subrange(count as int, BLOCK_SIZE as int));
    block
}

/// A copy of `data` with the bits of `bit_mask` flipped at `byte_offset`,
/// when that offset lies inside the block.
fn flipped_copy(data: &[u8], byte_offset: usize, bit_mask: u8) -> (block: Vec<u8>)
    requires
        data@.len() == BLOCK_SIZE,
    ensures
        block@ == bit_flipped(data@, byte_offset, bit_mask),
{
    let mut block = vstd::slice::slice_to_vec(data);
    if byte_offset < BLOCK_SIZE {
        let byte = block[byte_offset];
        block[byte_offset] = byte ^ bit_mask;
    }
    block
}

impl ChaosDisk {
    /// The representation matches the abstract disk: one vector of 4096
    /// bytes per block on both layers, one ledger flag per block.
    pub closed spec fn wf(&self) -> bool {
        &&& self.block_size == BLOCK_SIZE
        &&& self.capacity_blocks == self.ledger@.len()
        &&& self.stable_storage@.len() == self.capacity_blocks
        &&& self.volatile_cache@.len() == self.capacity_blocks
        &&& self@.valid()
    }

    /// A well-formed disk has a valid abstract state.
    pub proof fn lemma_valid(&self)
        requires
            self.wf(),
        ensures
            self@.valid(),
    {
    }

    /// Allocates a pristine virtual drive of `capacity_blocks` zeroed blocks.
    pub fn new(capacity_blocks: usize) -> (disk: Self)
        requires
            capacity_blocks * BLOCK_SIZE <= usize::MAX,
        ensures
            disk.wf(),
            disk@ == new_disk(capacity_blocks as nat),
    {
        let mut stable_storage: Vec<Vec<u8>> = Vec::new();
        let mut volatile_cache: Vec<Vec<u8>> = Vec::new();
        let mut ledger: Vec<bool> = Vec::new();
        let mut i: usize = 0;
        while i < capacity_blocks
            invariant
                i <= capacity_blocks,
                stable_storage@.len() == i,
                volatile_cache@.len() == i,
                forall|b: int| 0 <= b < i ==> #[trigger] stable_storage@[b]@ == filled_block(0),
                forall|b: int| 0 <= b < i ==> #[trigger] volatile_cache@[b]@ == filled_block(0),
                ledger@ == Seq::new(i as nat, |b: int| false),
            decreases capacity_blocks - i,
        {
            stable_storage.push(filled_vec(0));
            volatile_cache.push(filled_vec(0));
            ledger.push(false);
            i = i + 1;
            assert(ledger@ =~= Seq::new(i as nat, |b: int| false));
        }
        let disk = ChaosDisk {
            stable_storage,
            volatile_cache,
            ledger,
            is_frozen: false,
            block_size: BLOCK_SIZE,
            capacity_blocks,
            write_count: 0,
            flush_count: 0,
            scheduled_fault: None,
        };
        assert(block_views(disk.stable_storage@) =~= Seq::new(capacity_blocks as nat, |b: int| filled_block(0)));
        assert(block_views(disk.volatile_cache@) =~= Seq::new(capacity_blocks as nat, |b: int| filled_block(0)));
        assert(disk@ =~= new_disk(capacity_blocks as nat));
        disk
    }

    /// Arms the device with a failure scenario, replacing any earlier one.
    pub fn set_fault(&mut self, fault: FaultTrigger)
        requires
            old(self).wf(),
        ensures
            final(self).wf(),
            final(self)@ == (DiskView { fault: Some(fault), ..old(self)@ }),
    {
        self.scheduled_fault = Some(fault);
    }

    /// Disarms all chaos triggers.
    pub fn clear_fault(&mut self)
        requires
            old(self).wf(),
        ensures
            final(self).wf(),
            final(self)@ == (DiskView { fault: None, ..old(self)@ }),
    {
        self.scheduled_fault = None;
    }

    /// Maps a block ID to the byte range it occupies on the device.
    pub fn calculate_offset(&self, block_id: u64) -> (range: (usize, usize))
        requires
            self.wf(),
            block_id < self@.capacity(),
        ensures
            range.0 == block_id * BLOCK_SIZE,
            range.1 == block_id * BLOCK_SIZE + BLOCK_SIZE,
            range.1 <= self@.capacity() * BLOCK_SIZE,
    {
        let offset = (block_id as usize) * self.block_size;
        (offset, offset + self.block_size)
    }

    /// Accepts a buffer whose first byte lies at `address` only if that
    /// address is page-aligned, simulating DMA constraints.
    pub fn check_address_alignment(&self, address: usize) -> (result: Result<(), BlockDeviceError>)
        requires
            self.wf(),
        ensures
            result == (if address % BLOCK_SIZE == 0 {
                Ok::<(), BlockDeviceError>(())
            } else {
                Err(BlockDeviceError::AlignmentMismatch)
            }),
    {
        if address % self.block_size != 0 {
            return Err(BlockDeviceError::AlignmentMismatch);
        }
        Ok(())
    }

    /// Ensures the provided slice is aligned to 4KB in memory. Where the slice
    /// lies is up to the allocator: the result is `Ok` or `AlignmentMismatch`
    /// accordingly (see `check_address_alignment`).
    pub fn check_alignment(&self, buffer: &[u8]) -> (result: Result<(), BlockDeviceError>)
        requires
            self.wf(),
        ensures
            result == Ok::<(), BlockDeviceError>(()) || result == Err::<(), BlockDeviceError>(BlockDeviceError::AlignmentMismatch),
    {
        let address = slice_address(buffer);
        self.check_address_alignment(address)
    }

    /// The policy of the armed fault if it trips for this operation.
    fn should_trigger_fault(&self, context: OpContext, current_op_count: u64, current_block_id: u64) -> (policy: Option<FaultPolicy>)
        ensures
            policy == triggered_policy(self@.fault, context, current_op_count, current_block_id),
    {
        let trigger = match self.scheduled_fault {
            Some(trigger) => trigger,
            None => return None,
        };
        let is_match = match trigger.condition {
            TriggerCondition::OnWriteCount(target) => {
                matches!(context, OpContext::Write) && target == current_op_count
            },
            TriggerCondition::OnFlushCount(target) => {
                matches!(context, OpContext::Flush) && target == current_op_count
            },
            TriggerCondition::OnBlockId(target) => target == current_block_id,
            TriggerCondition::OnFlushBlock { flush_count, block_id } => {
                matches!(context, OpContext::Flush) && flush_count == current_op_count
                    && block_id == current_block_id
            },
        };
        if is_match {
            Some(trigger.policy)
        } else {
            None
        }
    }

    /// Replaces media block `b`.
    fn put_stable(&mut self, b: usize, block: Vec<u8>)
        requires
            old(self).wf(),
            b < old(self)@.capacity(),
            block@.len() == BLOCK_SIZE,
        ensures
            final(self).wf(),
            final(self)@ == (DiskView { stable: old(self)@.stable.update(b as int, block@), ..old(self)@ }),
    {
        let ghost new_block = block@;
        self.stable_storage[b] = block;
        assert(block_views(self.stable_storage@) =~= old(self)@.stable.update(b as int, new_block));
        assert(self@ =~= (DiskView { stable: old(self)@.stable.update(b as int, new_block), ..old(self)@ }));
    }

    /// Replaces cache block `b`.
    fn put_cache(&mut self, b: usize, block: Vec<u8>)
        requires
            old(self).wf(),
            b < old(self)@.capacity(),
            block@.len() == BLOCK_SIZE,
        ensures
            final(self).wf(),
            final(self)@ == (DiskView { cache: old(self)@.cache.update(b as int, block@), ..old(self)@ }),
    {
        let ghost new_block = block@;
        self.volatile_cache[b] = block;
        assert(block_views(self.volatile_cache@) =~= old(self)@.cache.update(b as int, new_block));
        assert(self@ =~= (DiskView { cache: old(self)@.cache.update(b as int, new_block), ..old(self)@ }));
    }

    /// Sets the ledger flag of block `b`.
    fn put_dirty(&mut self, b: usize, dirty: bool)
        requires
            old(self).wf(),
            b < old(self)@.capacity(),
        ensures
            final(self).wf(),
            final(self)@ == (DiskView { dirty: old(self)@.dirty.update(b as int, dirty), ..old(self)@ }),
    {
        self.ledger[b] = dirty;
        assert(self@ =~= (DiskView { dirty: old(self)@.dirty.update(b as int, dirty), ..old(self)@ }));
    }

    /// Standard commit of a single block to non-volatile media.
    fn commit_block_to_stable(&mut self, block_id: usize)
        requires
            old(self).wf(),
            block_id < old(self)@.capacity(),
        ensures
            final(self).wf(),
            final(self)@ == (DiskView {
                stable: old(self)@.stable.update(block_id as int, old(self)@.cache[block_id as int]),
                dirty: old(self)@.dirty.update(block_id as int, false),
                ..old(self)@
            }),
    {
        let block = copy_block(&self.volatile_cache[block_id]);
        self.put_stable(block_id, block);
        self.put_dirty(block_id, false);
    }

    /// Reads block `block_id` from the volatile cache into `buffer`, which
    /// lies at `address` in memory.
    pub fn read_block_at(&mut self, block_id: u64, buffer: &mut [u8], address: usize) -> (result: Result<(), BlockDeviceError>)
        requires
            old(self).wf(),
        ensures
            final(self).wf(),
            final(self)@ == old(self)@,
            (final(buffer)@, result) == read_outcome(old(self)@, block_id, old(buffer)@, address % BLOCK_SIZE == 0),
    {
        if self.is_frozen {
            return Err(BlockDeviceError::FrozenDevice);
        }
        if buffer.len() != self.block_size {
            return Err(BlockDeviceError::BufferSizeError);
        }
        if block_id >= self.capacity_blocks as u64 {
            return Err(BlockDeviceError::DiskspaceExceeded);
        }
        if let Err(e) = self.check_address_alignment(address) {
            return Err(e);
        }
        let b = block_id as usize;
        let ghost source = self@.cache[b as int];
        let mut i: usize = 0;
        while i < BLOCK_SIZE
            invariant
                self.wf(),
                b < self@.capacity(),
                source == self@.cache[b as int],
                source.len() == BLOCK_SIZE,
                buffer@.len() == BLOCK_SIZE,
                i <= BLOCK_SIZE,
                forall|j: int| 0 <= j < i ==> buffer@[j] == source[j],
            decreases BLOCK_SIZE - i,
        {
            buffer[i] = self.volatile_cache[b][i];
            i = i + 1;
        }
        assert(buffer@ =~= source);
        Ok(())
    }

    /// Writes `data`, which lies at `address` in memory, into cache block
    /// `block_id`, under the armed fault plan.
    pub fn write_block_at(&mut self, block_id: u64, data: &[u8], address: usize) -> (result: Result<(), BlockDeviceError>)
        requires
            old(self).wf(),
            old(self)@.write_count < u64::MAX,
        ensures
            final(self).wf(),
            (final(self)@, result) == write_outcome(old(self)@, block_id, data@, address % BLOCK_SIZE == 0),
    {
        let ghost v = self@;
        self.write_count = self.write_count + 1;
        if self.is_frozen {
            return Err(BlockDeviceError::FrozenDevice);
        }
        if data.len() != self.block_size {
            return Err(BlockDeviceError::BufferSizeError);
        }
        if block_id >= self.capacity_blocks as u64 {
            return Err(BlockDeviceError::DiskspaceExceeded);
        }
        if let Err(e) = self.check_address_alignment(address) {
            return Err(e);
        }
        let b = block_id as usize;
        let policy = self.should_trigger_fault(OpContext::Write, self.write_count, block_id);
        match policy {
            Some(FaultPolicy::LostWrite) => {
                // Silently drop the write while reporting success.
            },
            Some(FaultPolicy::TornWrite { bytes_written }) => {
                let clamped_bytes = if bytes_written < self.block_size { bytes_written } else { self.block_size };
                let block = splice_prefix(data, self.volatile_cache[b].as_slice(), clamped_bytes);
                self.put_cache(b, block);
                self.put_dirty(b, true);
                // Sever power immediately.
                self.is_frozen = true;
                assert(self@ =~= write_outcome(v, block_id, data@, true).0);
                return Err(BlockDeviceError::InterruptedOperation);
            },
            Some(FaultPolicy::BitFlip { byte_offset, bit_mask }) => {
                let block = flipped_copy(data, byte_offset, bit_mask);
                self.put_cache(b, block);
                self.put_dirty(b, true);
            },
            Some(FaultPolicy::CorruptBlock { garbage_value }) => {
                let block = filled_vec(garbage_value);
                self.put_cache(b, block);
                self.put_dirty(b, true);
            },
            _ => {
                let block = vstd::slice::slice_to_vec(data);
                self.put_cache(b, block);
                self.put_dirty(b, true);
            },
        }
        assert(self@ =~= write_outcome(v, block_id, data@, true).0);
        Ok(())
    }
}

/// A flush torn at block `f` leaves the state that `flush_outcome` describes.
proof fn lemma_torn_flush(v: DiskView, s: DiskView, f: int, bytes_written: usize)
    requires
        v.valid(),
        !v.frozen,
        f == first_flush_fault(v, 0),
        0 <= f < v.capacity(),
        forall|b: int| 0 <= b < f ==> flush_policy_at(v, b) is None,
        flush_tear(v) == Some(bytes_written),
        s.capacity() == v.capacity(),
        s.stable.len() == v.capacity(),
        s.cache.len() == v.capacity(),
        s.frozen,
        s.write_count == v.write_count,
        s.flush_count == (v.flush_count + 1) as u64,
        s.fault == v.fault,
        forall|b: int| 0 <= b < f ==> #[trigger] s.stable[b] == flushed_stable_block(v, b),
        forall|b: int| 0 <= b < f ==> #[trigger] s.cache[b] == flushed_cache_block(v, b),
        forall|b: int| 0 <= b < f ==> !#[trigger] s.dirty[b],
        forall|b: int| f < b < v.capacity() ==> #[trigger] s.stable[b] == v.stable[b],
        forall|b: int| f <= b < v.capacity() ==> #[trigger] s.cache[b] == v.cache[b],
        forall|b: int| f <= b < v.capacity() ==> #[trigger] s.dirty[b] == v.dirty[b],
        s.stable[f] == spliced_prefix(v.cache[f], v.stable[f], bytes_written),
    ensures
        s == flush_outcome(v).0,
{
    let out = flush_outcome(v).0;
    assert forall|b: int| 0 <= b < v.capacity() implies {
        &&& #[trigger] s.stable[b] == out.stable[b]
        &&& s.cache[b] == out.cache[b]
        &&& s.dirty[b] == out.dirty[b]
    } by {
        if b < f {
            assert(flush_policy_at(v, b) is None);
        }
    }
    assert(s.stable =~= out.stable);
    assert(s.cache =~= out.cache);
    assert(s.dirty =~= out.dirty);
    assert(s =~= out);
}

/// A flush that visits every block without tearing leaves the state that
/// `flush_outcome` describes.
proof fn lemma_complete_flush(v: DiskView, s: DiskView, f: int)
    requires
        v.valid(),
        !v.frozen,
        f == first_flush_fault(v, 0),
        0 <= f <= v.capacity(),
        flush_tear(v) is Some ==> v.capacity() <= f,
        s.capacity() == v.capacity(),
        s.stable.len() == v.capacity(),
        s.cache.len() == v.capacity(),
        !s.frozen,
        s.write_count == v.write_count,
        s.flush_count == (v.flush_count + 1) as u64,
        s.fault == v.fault,
        forall|b: int| 0 <= b < v.capacity() ==> #[trigger] s.stable[b] == flushed_stable_block(v, b),
        forall|b: int| 0 <= b < v.capacity() ==> #[trigger] s.cache[b] == flushed_cache_block(v, b),
        forall|b: int| 0 <= b < v.capacity() ==> !#[trigger] s.dirty[b],
    ensures
        s == flush_outcome(v).0,
{
    let out = flush_outcome(v).0;
    assert(flush_tear(v) is None);
    assert(s.stable =~= out.stable);
    assert(s.cache =~= out.cache);
    assert(s.dirty =~= out.dirty);
    assert(s =~= out);
}

impl BlockDevice for ChaosDisk {
    open spec fn valid(&self) -> bool {
        self.wf()
    }

    open spec fn can_count_write(&self) -> bool {
        self@.write_count < u64::MAX
    }

    open spec fn can_count_flush(&self) -> bool {
        self@.flush_count < u64::MAX
    }

    /// Reads from the volatile cache, as a drive's internal RAM buffer would.
    /// Whether `buffer` is page-aligned is up to the allocator; either way the
    /// outcome is the one `read_outcome` gives for that alignment.
    fn read_block(&mut self, block_id: u64, buffer: &mut [u8]) -> (result: Result<(), BlockDeviceError>)
        ensures
            final(self)@ == old(self)@,
            (final(buffer)@, result) == read_outcome(old(self)@, block_id, old(buffer)@, true)
                || (final(buffer)@, result) == read_outcome(old(self)@, block_id, old(buffer)@, false),
    {
        let address = slice_address(buffer);
        self.read_block_at(block_id, buffer, address)
    }

    /// Writes into the volatile cache and marks the block dirty, under the
    /// armed fault plan. Whether `data` is page-aligned is up to the
    /// allocator; either way the outcome is the one `write_outcome` gives for
    /// that alignment.
    fn write_block(&mut self, block_id: u64, data: &[u8]) -> (result: Result<(), BlockDeviceError>)
        ensures
            (final(self)@, result) == write_outcome(old(self)@, block_id, data@, true)
                || (final(self)@, result) == write_outcome(old(self)@, block_id, data@, false),
    {
        let address = slice_address(data);
        self.write_block_at(block_id, data, address)
    }

    /// Commits all dirty blocks from the volatile cache to stable storage,
    /// under the armed fault plan.
    fn flush(&mut self) -> (result: Result<(), BlockDeviceError>)
        ensures
            (final(self)@, result) == flush_outcome(old(self)@),
    {
        let ghost v = self@;
        self.flush_count = self.flush_count + 1;
        if self.is_frozen {
            return Err(BlockDeviceError::FrozenDevice);
        }
        let ghost f = first_flush_fault(v, 0);
        proof {
            lemma_first_flush_fault(v, 0);
        }
        let mut block_id: usize = 0;
        while block_id < self.capacity_blocks
            invariant
                self.wf(),
                v == old(self)@,
                v.valid(),
                !v.frozen,
                block_id <= self.capacity_blocks,
                self.capacity_blocks == v.capacity(),
                self@.capacity() == v.capacity(),
                !self@.frozen,
                self@.write_count == v.write_count,
                self@.flush_count == (v.flush_count + 1) as u64,
                self@.fault == v.fault,
                f == first_flush_fault(v, 0),
                0 <= f <= v.capacity(),
                forall|b: int| 0 <= b < f ==> flush_policy_at(v, b) is None,
                f < v.capacity() ==> flush_policy_at(v, f) is Some,
                flush_tear(v) is Some ==> block_id <= f,
                forall|b: int| 0 <= b < block_id ==> #[trigger] self@.stable[b] == flushed_stable_block(v, b),
                forall|b: int| 0 <= b < block_id ==> #[trigger] self@.cache[b] == flushed_cache_block(v, b),
                forall|b: int| 0 <= b < block_id ==> !#[trigger] self@.dirty[b],
                forall|b: int| block_id <= b < v.capacity() ==> #[trigger] self@.stable[b] == v.stable[b],
                forall|b: int| block_id <= b < v.capacity() ==> #[trigger] self@.cache[b] == v.cache[b],
                forall|b: int| block_id <= b < v.capacity() ==> #[trigger] self@.dirty[b] == v.dirty[b],
            decreases self.capacity_blocks - block_id,
        {
            let ghost j = block_id as int;
            assert(self@.dirty[j] == v.dirty[j]);
            assert(self@.stable[j] == v.stable[j]);
            assert(self@.cache[j] == v.cache[j]);
            if self.ledger[block_id] {
                let policy = self.should_trigger_fault(OpContext::Flush, self.flush_count, block_id as u64);
                assert(policy == flush_policy_at(v, j));
                match policy {
                    Some(FaultPolicy::LostWrite) => {
                        // The controller discards the buffer: the cache reverts
                        // to the media's contents.
                        self.put_dirty(block_id, false);
                        let block = copy_block(&self.stable_storage[block_id]);
                        self.put_cache(block_id, block);
                    },
                    Some(FaultPolicy::TornWrite { bytes_written }) => {
                        assert(f == j);
                        assert(flush_tear(v) == Some(bytes_written));
                        let clamped_bytes = if bytes_written < self.block_size { bytes_written } else { self.block_size };
                        let block = splice_prefix(
                            self.volatile_cache[block_id].as_slice(),
                            self.stable_storage[block_id].as_slice(),
                            clamped_bytes,
                        );
                        self.put_stable(block_id, block);
                        // Crash midway through the flush.
                        self.is_frozen = true;
                        proof {
                            lemma_torn_flush(v, self@, f, bytes_written);
                            assert(flush_outcome(v).1 == Err::<(), BlockDeviceError>(BlockDeviceError::InterruptedOperation));
                        }
                        return Err(BlockDeviceError::InterruptedOperation);
                    },
                    Some(FaultPolicy::BitFlip { byte_offset, bit_mask }) => {
                        let block = flipped_copy(self.volatile_cache[block_id].as_slice(), byte_offset, bit_mask);
                        self.put_stable(block_id, block);
                        self.put_dirty(block_id, false);
                    },
                    Some(FaultPolicy::CorruptBlock { garbage_value }) => {
                        let block = filled_vec(garbage_value);
                        self.put_stable(block_id, block);
                        self.put_dirty(block_id, false);
                    },
                    _ => {
                        self.commit_block_to_stable(block_id);
                    },
                }
            }
            block_id = block_id + 1;
        }
        proof {
            lemma_complete_flush(v, self@, f);
        }
        Ok(())
    }
}

impl AdminControls for ChaosDisk {
    open spec fn admin_valid(&self) -> bool {
        self.wf()
    }

    /// Mimics a power outage: wipes the volatile cache and the ledger and
    /// freezes the controller.
    fn crash(&mut self) -> (result: Result<(), BlockDeviceError>)
        ensures
            final(self)@ == crashed(old(self)@),
            result == Ok::<(), BlockDeviceError>(()),
    {
        self.is_frozen = true;
        let mut volatile_cache: Vec<Vec<u8>> = Vec::new();
        let mut ledger: Vec<bool> = Vec::new();
        let mut i: usize = 0;
        while i < self.capacity_blocks
            invariant
                i <= self.capacity_blocks,
                volatile_cache@.len() == i,
                forall|b: int| 0 <= b < i ==> #[trigger] volatile_cache@[b]@ == filled_block(0),
                ledger@ == Seq::new(i as nat, |b: int| false),
            decreases self.capacity_blocks - i,
        {
            volatile_cache.push(filled_vec(0));
            ledger.push(false);
            i = i + 1;
            assert(ledger@ =~= Seq::new(i as nat, |b: int| false));
        }
        self.volatile_cache = volatile_cache;
        self.ledger = ledger;
        assert(block_views(self.volatile_cache@) =~= Seq::new(old(self)@.capacity(), |b: int| filled_block(0)));
        assert(self@ =~= crashed(old(self)@));
        Ok(())
    }

    /// Mimics a restart: power returns and the controller reloads the
    /// volatile cache from stable storage.
    fn reboot(&mut self) -> (result: Result<(), BlockDeviceError>)
        ensures
            final(self)@ == rebooted(old(self)@),
            result == Ok::<(), BlockDeviceError>(()),
    {
        self.is_frozen = false;
        let mut volatile_cache: Vec<Vec<u8>> = Vec::new();
        let mut i: usize = 0;
        while i < self.capacity_blocks
            invariant
                self.wf(),
                i <= self.capacity_blocks,
                self@ == (DiskView { frozen: false, ..old(self)@ }),
                volatile_cache@.len() == i,
                forall|b: int| 0 <= b < i ==> #[trigger] volatile_cache@[b]@ == self@.stable[b],
            decreases self.capacity_blocks - i,
        {
            volatile_cache.push(copy_block(&self.stable_storage[i]));
            i = i + 1;
        }
        self.volatile_cache = volatile_cache;
        assert(block_views(self.volatile_cache@) =~= old(self)@.stable);
        assert(self@ =~= rebooted(old(self)@));
        Ok(())
    }

    /// Reports whether the device is frozen.
    fn is_frozen(&self) -> (result: Result<bool, BlockDeviceError>)
        ensures
            result == Ok::<bool, BlockDeviceError>(self@.frozen),
    {
        Ok(self.is_frozen)
    }

    /// Simulates dynamic resizing of a virtual disk partition.
    fn resize(&mut self, new_size: u64) -> (result: Result<(), BlockDeviceError>)
        ensures
            final(self)@ == resized(old(self)@, new_size as nat),
            result == Ok::<(), BlockDeviceError>(()),
    {
        let new_capacity = new_size as usize;
        assert(new_capacity == new_size);
        let ghost v = self@;
        if new_capacity <= self.capacity_blocks {
            self.stable_storage.truncate(new_capacity);
            self.volatile_cache.truncate(new_capacity);
            self.ledger.truncate(new_capacity);
        } else {
            let mut i: usize = self.capacity_blocks;
            while i < new_capacity
                invariant
                    v.capacity() <= i <= new_capacity,
                    self.is_frozen == v.frozen,
                    self.block_size == BLOCK_SIZE,
                    self.write_count == v.write_count,
                    self.flush_count == v.flush_count,
                    self.scheduled_fault == v.fault,
                    self.stable_storage@.len() == i,
                    self.volatile_cache@.len() == i,
                    self.ledger@.len() == i,
                    forall|b: int| 0 <= b < v.capacity() ==> #[trigger] self.stable_storage@[b]@ == v.stable[b],
                    forall|b: int| 0 <= b < v.capacity() ==> #[trigger] self.volatile_cache@[b]@ == v.cache[b],
                    forall|b: int| 0 <= b < v.capacity() ==> #[trigger] self.ledger@[b] == v.dirty[b],
                    forall|b: int| v.capacity() <= b < i ==> #[trigger] self.stable_storage@[b]@ == filled_block(0),
                    forall|b: int| v.capacity() <= b < i ==> #[trigger] self.volatile_cache@[b]@ == filled_block(0),
                    forall|b: int| v.capacity() <= b < i ==> !#[trigger] self.ledger@[b],
                decreases new_capacity - i,
            {
                self.stable_storage.push(filled_vec(0));
                self.volatile_cache.push(filled_vec(0));
                self.ledger.push(false);
                i = i + 1;
            }
        }
        self.capacity_blocks = new_capacity;
        assert forall|b: int| 0 <= b < new_capacity implies {
            &&& #[trigger] self.stable_storage@[b]@ == resized(v, new_size as nat).stable[b]
            &&& self.volatile_cache@[b]@ == resized(v, new_size as nat).cache[b]
            &&& self.ledger@[b] == resized(v, new_size as nat).dirty[b]
        } by {
            if b < v.capacity() {
                assert(self.stable_storage@[b]@ == v.stable[b]);
            }
        }
        assert(block_views(self.stable_storage@) =~= resized(v, new_size as nat).stable);
        assert(block_views(self.volatile_cache@) =~= resized(v, new_size as nat).cache);
        assert(self.ledger@ =~= resized(v, new_size as nat).dirty);
        assert(self@ =~= resized(v, new_size as nat));
        assert forall|b: int| 0 <= b < self@.capacity() implies #[trigger] self@.stable[b].len() == BLOCK_SIZE
            && self@.cache[b].len() == BLOCK_SIZE by {
            if b < v.capacity() {
                assert(v.stable[b].len() == BLOCK_SIZE);
                assert(v.cache[b].len() == BLOCK_SIZE);
            }
        }

        Ok(())
    }
}

} // verus!
