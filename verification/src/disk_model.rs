use vstd::prelude::*;

use crate::aligned::{filled_block, BLOCK_SIZE};
use crate::device::BlockDeviceError;
use crate::fault::{triggered_policy, FaultPolicy, FaultTrigger, OpContext};

verus! {

/// The abstract state of a simulated disk, block by block.
#[verifier::ext_equal]
pub struct DiskView {
    /// Non-volatile media: what survives a crash.
    pub stable: Seq<Seq<u8>>,
    /// Volatile controller cache: what reads return.
    pub cache: Seq<Seq<u8>>,
    /// Blocks written to the cache and not yet committed to the media.
    pub dirty: Seq<bool>,
    /// The controller has lost power and rejects I/O.
    pub frozen: bool,
    /// Number of `write_block` calls made so far.
    pub write_count: u64,
    /// Number of `flush` calls made so far.
    pub flush_count: u64,
    /// The armed fault, if any.
    pub fault: Option<FaultTrigger>,
}

impl DiskView {
    /// Number of blocks of the disk.
    pub open spec fn capacity(self) -> nat {
        self.dirty.len()
    }

    /// Media and cache hold one 4096-byte block per block of capacity, and
    /// the whole disk is addressable in bytes.
    pub open spec fn valid(self) -> bool {
        &&& self.stable.len() == self.capacity()
        &&& self.cache.len() == self.capacity()
        &&& forall|b: int| 0 <= b < self.capacity() ==> #[trigger] self.stable[b].len() == BLOCK_SIZE
        &&& forall|b: int| 0 <= b < self.capacity() ==> #[trigger] self.cache[b].len() == BLOCK_SIZE
        &&& self.capacity() * BLOCK_SIZE <= usize::MAX
    }
}

/// A freshly allocated disk of `capacity` zeroed blocks, powered, unarmed.
pub open spec fn new_disk(capacity: nat) -> DiskView {
    DiskView {
        stable: Seq::new(capacity, |b: int| filled_block(0)),
        cache: Seq::new(capacity, |b: int| filled_block(0)),
        dirty: Seq::new(capacity, |b: int| false),
        frozen: false,
        write_count: 0,
        flush_count: 0,
        fault: None,
    }
}

/// The bytes a torn transfer leaves: the first `bytes_written` bytes (at most
/// a block) of `new`, then the rest of `old`.
pub open spec fn spliced_prefix(new: Seq<u8>, old: Seq<u8>, bytes_written: usize) -> Seq<u8> {
    let k: int = if bytes_written < BLOCK_SIZE { bytes_written as int } else { BLOCK_SIZE as int };
    new.subrange(0, k) + old.subrange(k, BLOCK_SIZE as int)
}

/// `block` with the bits of `bit_mask` flipped at `byte_offset`, when that
/// offset lies inside the block.
pub open spec fn bit_flipped(block: Seq<u8>, byte_offset: usize, bit_mask: u8) -> Seq<u8> {
    if byte_offset < BLOCK_SIZE {
        block.update(byte_offset as int, block[byte_offset as int] ^ bit_mask)
    } else {
        block
    }
}

/// What `read_block` does: the buffer's new contents and the result.
pub open spec fn read_outcome(v: DiskView, block_id: u64, buffer: Seq<u8>, aligned: bool) -> (Seq<u8>, Result<(), BlockDeviceError>) {
    if v.frozen {
        (buffer, Err(BlockDeviceError::FrozenDevice))
    } else if buffer.len() != BLOCK_SIZE {
        (buffer, Err(BlockDeviceError::BufferSizeError))
    } else if block_id >= v.capacity() {
        (buffer, Err(BlockDeviceError::DiskspaceExceeded))
    } else if !aligned {
        (buffer, Err(BlockDeviceError::AlignmentMismatch))
    } else {
        (v.cache[block_id as int], Ok(()))
    }
}

/// What `write_block` does: the disk afterwards and the result. Every call
/// is counted, refused ones too.
pub open spec fn write_outcome(v: DiskView, block_id: u64, data: Seq<u8>, aligned: bool) -> (DiskView, Result<(), BlockDeviceError>) {
    let count = (v.write_count + 1) as u64;
    let counted = DiskView { write_count: count, ..v };
    if v.frozen {
        (counted, Err(BlockDeviceError::FrozenDevice))
    } else if data.len() != BLOCK_SIZE {
        (counted, Err(BlockDeviceError::BufferSizeError))
    } else if block_id >= v.capacity() {
        (counted, Err(BlockDeviceError::DiskspaceExceeded))
    } else if !aligned {
        (counted, Err(BlockDeviceError::AlignmentMismatch))
    } else {
        let b = block_id as int;
        match triggered_policy(v.fault, OpContext::Write, count, block_id) {
            Some(FaultPolicy::LostWrite) => (counted, Ok(())),
            Some(FaultPolicy::TornWrite { bytes_written }) => (
                DiskView {
                    cache: v.cache.update(b, spliced_prefix(data, v.cache[b], bytes_written)),
                    dirty: v.dirty.update(b, true),
                    frozen: true,
                    ..counted
                },
                Err(BlockDeviceError::InterruptedOperation),
            ),
            Some(FaultPolicy::BitFlip { byte_offset, bit_mask }) => (
                DiskView {
                    cache: v.cache.update(b, bit_flipped(data, byte_offset, bit_mask)),
                    dirty: v.dirty.update(b, true),
                    ..counted
                },
                Ok(()),
            ),
            Some(FaultPolicy::CorruptBlock { garbage_value }) => (
                DiskView {
                    cache: v.cache.update(b, filled_block(garbage_value)),
                    dirty: v.dirty.update(b, true),
                    ..counted
                },
                Ok(()),
            ),
            _ => (
                DiskView { cache: v.cache.update(b, data), dirty: v.dirty.update(b, true), ..counted },
                Ok(()),
            ),
        }
    }
}

/// The policy that the next flush applies to block `b`: only dirty blocks
/// are offered to the fault engine.
pub open spec fn flush_policy_at(v: DiskView, b: int) -> Option<FaultPolicy> {
    if v.dirty[b] {
        triggered_policy(v.fault, OpContext::Flush, (v.flush_count + 1) as u64, b as u64)
    } else {
        None
    }
}

/// The first block at or after `from` on which the next flush trips the
/// fault; the capacity when there is none.
pub open spec fn first_flush_fault(v: DiskView, from: int) -> int
    decreases v.capacity() - from,
{
    if from < 0 || from >= v.capacity() {
        v.capacity() as int
    } else if flush_policy_at(v, from) is Some {
        from
    } else {
        first_flush_fault(v, from + 1)
    }
}

/// The prefix length of a flush torn at its first faulted block, if the
/// armed policy tears and some dirty block trips it.
pub open spec fn flush_tear(v: DiskView) -> Option<usize> {
    let f = first_flush_fault(v, 0);
    if f < v.capacity() {
        match flush_policy_at(v, f) {
            Some(FaultPolicy::TornWrite { bytes_written }) => Some(bytes_written),
            _ => None,
        }
    } else {
        None
    }
}

/// Media block `b` after a flush that runs to completion: a bit flip hits
/// every dirty block that the armed fault trips on.
pub open spec fn flushed_stable_block(v: DiskView, b: int) -> Seq<u8> {
    if !v.dirty[b] {
        v.stable[b]
    } else {
        match flush_policy_at(v, b) {
            Some(FaultPolicy::LostWrite) => v.stable[b],
            Some(FaultPolicy::BitFlip { byte_offset, bit_mask }) => bit_flipped(v.cache[b], byte_offset, bit_mask),
            Some(FaultPolicy::CorruptBlock { garbage_value }) => filled_block(garbage_value),
            _ => v.cache[b],
        }
    }
}

/// Cache block `b` after a flush that runs to completion: a lost transfer
/// reverts it to the media's contents.
pub open spec fn flushed_cache_block(v: DiskView, b: int) -> Seq<u8> {
    if flush_policy_at(v, b) == Some(FaultPolicy::LostWrite) {
        v.stable[b]
    } else {
        v.cache[b]
    }
}

/// What `flush` does: the disk afterwards and the result. Every call is
/// counted, a refused one too.
pub open spec fn flush_outcome(v: DiskView) -> (DiskView, Result<(), BlockDeviceError>) {
    let counted = DiskView { flush_count: (v.flush_count + 1) as u64, ..v };
    if v.frozen {
        (counted, Err(BlockDeviceError::FrozenDevice))
    } else {
        let f = first_flush_fault(v, 0);
        let cap = v.capacity();
        match flush_tear(v) {
            Some(bytes_written) => (
                DiskView {
                    stable: Seq::new(cap, |b: int|
                        if b < f {
                            if v.dirty[b] { v.cache[b] } else { v.stable[b] }
                        } else if b == f {
                            spliced_prefix(v.cache[b], v.stable[b], bytes_written)
                        } else {
                            v.stable[b]
                        }),
                    dirty: Seq::new(cap, |b: int| if b < f { false } else { v.dirty[b] }),
                    frozen: true,
                    ..counted
                },
                Err(BlockDeviceError::InterruptedOperation),
            ),
            None => (
                DiskView {
                    stable: Seq::new(cap, |b: int| flushed_stable_block(v, b)),
                    cache: Seq::new(cap, |b: int| flushed_cache_block(v, b)),
                    dirty: Seq::new(cap, |b: int| false),
                    ..counted
                },
                Ok(()),
            ),
        }
    }
}

/// The disk after a power outage: cache wiped, nothing dirty, frozen.
pub open spec fn crashed(v: DiskView) -> DiskView {
    DiskView {
        cache: Seq::new(v.capacity(), |b: int| filled_block(0)),
        dirty: Seq::new(v.capacity(), |b: int| false),
        frozen: true,
        ..v
    }
}

/// The disk after a restart: the cache reloaded from the media, powered.
pub open spec fn rebooted(v: DiskView) -> DiskView {
    DiskView { cache: v.stable, frozen: false, ..v }
}

/// The disk resized to `n` blocks: blocks below both sizes kept, new blocks
/// zeroed and clean.
pub open spec fn resized(v: DiskView, n: nat) -> DiskView {
    DiskView {
        stable: Seq::new(n, |b: int| if b < v.capacity() { v.stable[b] } else { filled_block(0) }),
        cache: Seq::new(n, |b: int| if b < v.capacity() { v.cache[b] } else { filled_block(0) }),
        dirty: Seq::new(n, |b: int| if b < v.capacity() { v.dirty[b] } else { false }),
        ..v
    }
}

/// The first flush fault at or after `from` is the least faulted block there.
pub proof fn lemma_first_flush_fault(v: DiskView, from: int)
    requires
        0 <= from <= v.capacity(),
    ensures
        from <= first_flush_fault(v, from) <= v.capacity(),
        forall|b: int| from <= b < first_flush_fault(v, from) ==> flush_policy_at(v, b) is None,
        first_flush_fault(v, from) < v.capacity() ==> flush_policy_at(v, first_flush_fault(v, from)) is Some,
    decreases v.capacity() - from,
{
    if from < v.capacity() && flush_policy_at(v, from) is None {
        lemma_first_flush_fault(v, from + 1);
    }
}

} // verus!
