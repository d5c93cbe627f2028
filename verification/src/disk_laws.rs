use vstd::prelude::*;

use crate::aligned::{filled_block, BLOCK_SIZE};
use crate::device::BlockDeviceError;
use crate::disk_model::{
    bit_flipped, crashed, first_flush_fault, flush_outcome, flush_policy_at, flush_tear, flushed_cache_block,
    flushed_stable_block, lemma_first_flush_fault,
    read_outcome, rebooted, resized, spliced_prefix, write_outcome, DiskView,
};
use crate::fault::{triggered_policy, FaultPolicy, FaultTrigger, OpContext, TriggerCondition};

verus! {

/// A successful flush on which no block trips the armed fault makes every
/// block written since the last flush durable: after a crash and a reboot
/// the cache holds what it held before the flush for each dirty block, and
/// the media's earlier contents for each clean one.
pub proof fn law_flush_makes_dirty_blocks_durable(v: DiskView)
    requires
        v.valid(),
        !v.frozen,
        first_flush_fault(v, 0) == v.capacity(),
    ensures
        flush_outcome(v).1 == Ok::<(), BlockDeviceError>(()),
        rebooted(crashed(flush_outcome(v).0)).cache
            == Seq::new(v.capacity(), |b: int| if v.dirty[b] { v.cache[b] } else { v.stable[b] }),
        forall|b: int| 0 <= b < v.capacity() ==> !#[trigger] flush_outcome(v).0.dirty[b],
{
    lemma_first_flush_fault(v, 0);
    let after = flush_outcome(v).0;
    assert(rebooted(crashed(after)).cache
        =~= Seq::new(v.capacity(), |b: int| if v.dirty[b] { v.cache[b] } else { v.stable[b] }));
}

/// A crash followed by a reboot loses everything that was not flushed: the
/// cache comes back as the media's contents, nothing is dirty, and the
/// device is powered again. The crash itself freezes the device.
pub proof fn law_crash_discards_unflushed_writes(v: DiskView)
    requires
        v.valid(),
    ensures
        crashed(v).frozen,
        rebooted(crashed(v)).cache == v.stable,
        rebooted(crashed(v)).stable == v.stable,
        !rebooted(crashed(v)).frozen,
        forall|b: int| 0 <= b < v.capacity() ==> !#[trigger] rebooted(crashed(v)).dirty[b],
{
}

/// A write that trips no fault lands in the cache: reading the block back
/// gives the written data, and every other block reads as before.
pub proof fn law_read_after_write(v: DiskView, block_id: u64, data: Seq<u8>, buffer: Seq<u8>, other: u64)
    requires
        v.valid(),
        !v.frozen,
        data.len() == BLOCK_SIZE,
        buffer.len() == BLOCK_SIZE,
        block_id < v.capacity(),
        other < v.capacity(),
        other != block_id,
        ({
            let policy = triggered_policy(v.fault, OpContext::Write, (v.write_count + 1) as u64, block_id);
            policy is None || policy == Some(FaultPolicy::Normal)
        }),
    ensures
        write_outcome(v, block_id, data, true).1 == Ok::<(), BlockDeviceError>(()),
        read_outcome(write_outcome(v, block_id, data, true).0, block_id, buffer, true)
            == (data, Ok::<(), BlockDeviceError>(())),
        read_outcome(write_outcome(v, block_id, data, true).0, other, buffer, true)
            == read_outcome(v, other, buffer, true),
        write_outcome(v, block_id, data, true).0.stable == v.stable,
{
}

/// Blocks are isolated: after `x` is written to block `a` and then `y` to a
/// different block `b`, neither write tripping a fault, block `a` reads back
/// `x` and block `b` reads back `y`.
pub proof fn law_blocks_are_isolated(v: DiskView, a: u64, x: Seq<u8>, b: u64, y: Seq<u8>, buffer: Seq<u8>)
    requires
        v.valid(),
        !v.frozen,
        v.write_count + 2 <= u64::MAX,
        x.len() == BLOCK_SIZE,
        y.len() == BLOCK_SIZE,
        buffer.len() == BLOCK_SIZE,
        a < v.capacity(),
        b < v.capacity(),
        a != b,
        ({
            let policy = triggered_policy(v.fault, OpContext::Write, (v.write_count + 1) as u64, a);
            policy is None || policy == Some(FaultPolicy::Normal)
        }),
        ({
            let policy = triggered_policy(v.fault, OpContext::Write, (v.write_count + 2) as u64, b);
            policy is None || policy == Some(FaultPolicy::Normal)
        }),
    ensures
        ({
            let first = write_outcome(v, a, x, true).0;
            let second = write_outcome(first, b, y, true).0;
            &&& read_outcome(second, a, buffer, true) == (x, Ok::<(), BlockDeviceError>(()))
            &&& read_outcome(second, b, buffer, true) == (y, Ok::<(), BlockDeviceError>(()))
        }),
{
    let first = write_outcome(v, a, x, true).0;
    law_read_after_write(v, a, x, buffer, b);
    law_operations_keep_disk_valid(v, a, x, true, 0);
    law_read_after_write(first, b, y, buffer, a);
}

/// The disk after a sequence of write calls, each given as its block, its
/// data and whether its buffer is page-aligned.
pub open spec fn after_writes(v: DiskView, writes: Seq<(u64, Seq<u8>, bool)>) -> DiskView
    decreases writes.len(),
{
    if writes.len() == 0 {
        v
    } else {
        let (block_id, data, aligned) = writes.last();
        write_outcome(after_writes(v, writes.drop_last()), block_id, data, aligned).0
    }
}

/// The write counter counts every write call, refused or not, and nothing
/// else moves it or the armed fault; so a fault armed on write count `n`
/// is offered to the call made when `n - 1` calls have been counted.
pub proof fn law_write_counter_counts_every_call(v: DiskView, writes: Seq<(u64, Seq<u8>, bool)>)
    requires
        v.write_count + writes.len() <= u64::MAX,
    ensures
        after_writes(v, writes).write_count == v.write_count + writes.len(),
        after_writes(v, writes).fault == v.fault,
        after_writes(v, writes).flush_count == v.flush_count,
    decreases writes.len(),
{
    if writes.len() > 0 {
        law_write_counter_counts_every_call(v, writes.drop_last());
    }
}

/// With no fault armed, a block that is written, flushed, and then survives
/// a crash and a reboot reads back as the written data.
pub proof fn law_flushed_write_survives_crash(v: DiskView, block_id: u64, data: Seq<u8>, buffer: Seq<u8>)
    requires
        v.valid(),
        !v.frozen,
        v.fault is None,
        data.len() == BLOCK_SIZE,
        buffer.len() == BLOCK_SIZE,
        block_id < v.capacity(),
    ensures
        ({
            let (written, write_result) = write_outcome(v, block_id, data, true);
            let (flushed, flush_result) = flush_outcome(written);
            &&& write_result == Ok::<(), BlockDeviceError>(())
            &&& flush_result == Ok::<(), BlockDeviceError>(())
            &&& read_outcome(rebooted(crashed(flushed)), block_id, buffer, true) == (data, Ok::<(), BlockDeviceError>(()))
        }),
{
    let written = write_outcome(v, block_id, data, true).0;
    assert(written.valid());
    assert forall|b: int| 0 <= b < written.capacity() implies flush_policy_at(written, b) is None by {}
    lemma_first_flush_fault(written, 0);
    law_flush_makes_dirty_blocks_durable(written);
}

/// A frozen device rejects every read, write and flush. The rejected write
/// or flush is still counted; nothing else changes.
pub proof fn law_frozen_device_rejects_io(v: DiskView, block_id: u64, data: Seq<u8>, buffer: Seq<u8>, aligned: bool)
    requires
        v.frozen,
    ensures
        read_outcome(v, block_id, buffer, aligned) == (buffer, Err::<(), BlockDeviceError>(BlockDeviceError::FrozenDevice)),
        write_outcome(v, block_id, data, aligned) == (
            DiskView { write_count: (v.write_count + 1) as u64, ..v },
            Err::<(), BlockDeviceError>(BlockDeviceError::FrozenDevice),
        ),
        flush_outcome(v) == (
            DiskView { flush_count: (v.flush_count + 1) as u64, ..v },
            Err::<(), BlockDeviceError>(BlockDeviceError::FrozenDevice),
        ),
{
}

/// A write is checked in a fixed order: a frozen device, then the buffer's
/// size, then the block's range, then the buffer's alignment. A write refused
/// by any of these checks changes nothing but the write counter, which
/// counts every call.
pub proof fn law_write_checks_in_order(v: DiskView, block_id: u64, data: Seq<u8>, aligned: bool)
    ensures
        ({
            let counted = DiskView { write_count: (v.write_count + 1) as u64, ..v };
            let (after, result) = write_outcome(v, block_id, data, aligned);
            &&& after.write_count == (v.write_count + 1) as u64
            &&& v.frozen ==> (after, result) == (counted, Err::<(), BlockDeviceError>(BlockDeviceError::FrozenDevice))
            &&& (!v.frozen && data.len() != BLOCK_SIZE) ==> (after, result) == (counted, Err::<(), BlockDeviceError>(BlockDeviceError::BufferSizeError))
            &&& (!v.frozen && data.len() == BLOCK_SIZE && block_id >= v.capacity()) ==> (after, result) == (counted, Err::<(), BlockDeviceError>(BlockDeviceError::DiskspaceExceeded))
            &&& (!v.frozen && data.len() == BLOCK_SIZE && block_id < v.capacity() && !aligned) ==> (after, result) == (counted, Err::<(), BlockDeviceError>(BlockDeviceError::AlignmentMismatch))
        }),
{
}

/// A flush torn at the block that the armed fault names commits every dirty
/// block before it, puts only the first bytes of that block on the media,
/// leaves the later blocks' media and dirty flags as they were, keeps the
/// cache, freezes the device and reports the interruption.
pub proof fn law_flush_torn_at_block(v: DiskView, target: u64, bytes_written: usize)
    requires
        v.valid(),
        !v.frozen,
        v.fault == Some(FaultTrigger {
            condition: TriggerCondition::OnBlockId(target),
            policy: FaultPolicy::TornWrite { bytes_written },
        }),
        target < v.capacity(),
        v.dirty[target as int],
    ensures
        ({
            let (after, result) = flush_outcome(v);
            let t = target as int;
            &&& result == Err::<(), BlockDeviceError>(BlockDeviceError::InterruptedOperation)
            &&& after.frozen
            &&& after.cache == v.cache
            &&& forall|b: int| 0 <= b < t ==> {
                &&& #[trigger] after.stable[b] == (if v.dirty[b] { v.cache[b] } else { v.stable[b] })
                &&& !after.dirty[b]
            }
            &&& after.stable[t] == spliced_prefix(v.cache[t], v.stable[t], bytes_written)
            &&& forall|b: int| t < b < v.capacity() ==> {
                &&& #[trigger] after.stable[b] == v.stable[b]
                &&& after.dirty[b] == v.dirty[b]
            }
        }),
{
    let t = target as int;
    lemma_first_flush_fault(v, 0);
    let f = first_flush_fault(v, 0);
    assert(flush_policy_at(v, t) is Some);
    assert forall|b: int| 0 <= b < v.capacity() && b != t implies flush_policy_at(v, b) is None by {}
    assert(f == t);
    assert(flush_tear(v) == Some(bytes_written));
}

/// A bit flip armed on a flush's count trips for every dirty block of that
/// flush: each one reaches the media with the same bits flipped, the cache
/// keeps the written data, and nothing stays dirty.
pub proof fn law_flush_bit_flip_hits_every_dirty_block(v: DiskView, byte_offset: usize, bit_mask: u8)
    requires
        v.valid(),
        !v.frozen,
        v.fault == Some(FaultTrigger {
            condition: TriggerCondition::OnFlushCount((v.flush_count + 1) as u64),
            policy: FaultPolicy::BitFlip { byte_offset, bit_mask },
        }),
    ensures
        ({
            let (after, result) = flush_outcome(v);
            &&& result == Ok::<(), BlockDeviceError>(())
            &&& after.cache == v.cache
            &&& forall|b: int| 0 <= b < v.capacity() ==> {
                &&& #[trigger] after.stable[b] == (if v.dirty[b] {
                    bit_flipped(v.cache[b], byte_offset, bit_mask)
                } else {
                    v.stable[b]
                })
                &&& !after.dirty[b]
            }
        }),
{
    lemma_first_flush_fault(v, 0);
    let after = flush_outcome(v).0;
    assert(flush_tear(v) is None);
    assert(after.cache =~= v.cache);
}

/// A lost write reports success but leaves the cache and the ledger as they
/// were.
pub proof fn law_lost_write_is_silent(v: DiskView, block_id: u64, data: Seq<u8>)
    requires
        !v.frozen,
        data.len() == BLOCK_SIZE,
        block_id < v.capacity(),
        triggered_policy(v.fault, OpContext::Write, (v.write_count + 1) as u64, block_id) == Some(FaultPolicy::LostWrite),
    ensures
        write_outcome(v, block_id, data, true).1 == Ok::<(), BlockDeviceError>(()),
        write_outcome(v, block_id, data, true).0.cache == v.cache,
        write_outcome(v, block_id, data, true).0.dirty == v.dirty,
        write_outcome(v, block_id, data, true).0.stable == v.stable,
{
}

/// A torn write interrupts the operation and freezes the device; the cache
/// block holds the written prefix followed by its earlier contents.
pub proof fn law_torn_write_freezes(v: DiskView, block_id: u64, data: Seq<u8>, bytes_written: usize)
    requires
        v.valid(),
        !v.frozen,
        data.len() == BLOCK_SIZE,
        block_id < v.capacity(),
        triggered_policy(v.fault, OpContext::Write, (v.write_count + 1) as u64, block_id)
            == Some(FaultPolicy::TornWrite { bytes_written }),
    ensures
        write_outcome(v, block_id, data, true).1 == Err::<(), BlockDeviceError>(BlockDeviceError::InterruptedOperation),
        write_outcome(v, block_id, data, true).0.frozen,
        write_outcome(v, block_id, data, true).0.cache[block_id as int]
            == spliced_prefix(data, v.cache[block_id as int], bytes_written),
        write_outcome(v, block_id, data, true).0.stable == v.stable,
{
}

/// A fault armed on a write count trips on at most one write: once that
/// write has been counted, the next write's count differs.
pub proof fn law_write_count_fault_trips_once(v: DiskView, block_id: u64, data: Seq<u8>, next_block: u64, target: u64)
    requires
        !v.frozen,
        data.len() == BLOCK_SIZE,
        block_id < v.capacity(),
        v.fault matches Some(t) && t.condition == TriggerCondition::OnWriteCount(target),
        triggered_policy(v.fault, OpContext::Write, (v.write_count + 1) as u64, block_id) is Some,
        v.write_count + 1 < u64::MAX,
    ensures
        ({
            let after = write_outcome(v, block_id, data, true).0;
            triggered_policy(after.fault, OpContext::Write, (after.write_count + 1) as u64, next_block) is None
        }),
{
    let after = write_outcome(v, block_id, data, true).0;
    assert(target == v.write_count + 1);
    assert(after.write_count == target);
    assert(after.fault == v.fault);
}

/// Resizing keeps every block below both sizes, adds zeroed clean blocks,
/// and puts blocks past the new size out of reach.
pub proof fn law_resize_keeps_blocks_in_range(v: DiskView, n: nat, buffer: Seq<u8>, block_id: u64)
    requires
        v.valid(),
        n * BLOCK_SIZE <= usize::MAX,
        !v.frozen,
        buffer.len() == BLOCK_SIZE,
    ensures
        resized(v, n).valid(),
        forall|b: int| 0 <= b < n && b < v.capacity() ==>
            #[trigger] resized(v, n).stable[b] == v.stable[b] && resized(v, n).cache[b] == v.cache[b],
        forall|b: int| v.capacity() <= b < n ==>
            #[trigger] resized(v, n).stable[b] == filled_block(0) && resized(v, n).cache[b] == filled_block(0),
        block_id >= n ==> read_outcome(resized(v, n), block_id, buffer, true)
            == (buffer, Err::<(), BlockDeviceError>(BlockDeviceError::DiskspaceExceeded)),
{
}

/// Every operation keeps the disk valid: one 4096-byte block per block of
/// capacity on both layers. Only resizing changes the capacity.
pub proof fn law_operations_keep_disk_valid(v: DiskView, block_id: u64, data: Seq<u8>, aligned: bool, n: nat)
    requires
        v.valid(),
        n * BLOCK_SIZE <= usize::MAX,
    ensures
        write_outcome(v, block_id, data, aligned).0.valid(),
        write_outcome(v, block_id, data, aligned).0.capacity() == v.capacity(),
        flush_outcome(v).0.valid(),
        flush_outcome(v).0.capacity() == v.capacity(),
        crashed(v).valid(),
        rebooted(v).valid(),
        resized(v, n).valid(),
        resized(v, n).capacity() == n,
{
    assert forall|b: int| 0 <= b < v.capacity() implies #[trigger] flush_outcome(v).0.stable[b].len() == BLOCK_SIZE by {
        if v.dirty[b] {
            assert(v.cache[b].len() == BLOCK_SIZE);
        }
    }
}


/// A trigger on a given flush and block trips on that block during that
/// flush and nowhere else: never on a write, never on another block, never
/// during a flush with another number.
pub proof fn law_flush_block_trigger_trips_exactly_there(
    flush_count: u64,
    block_id: u64,
    policy: FaultPolicy,
    context: OpContext,
    op_count: u64,
    b: u64,
)
    ensures
        triggered_policy(
            Some(FaultTrigger { condition: TriggerCondition::OnFlushBlock { flush_count, block_id }, policy }),
            context,
            op_count,
            b,
        ) == (if context == OpContext::Flush && op_count == flush_count && b == block_id {
            Some(policy)
        } else {
            None
        }),
{
}

/// A flush whose number is not the one a flush-and-block trigger waits for
/// does exactly what the same flush does with no fault armed; the trigger
/// stays armed.
pub proof fn law_flush_block_trigger_waits_for_its_flush(
    v: DiskView,
    target_flush: u64,
    target_block: u64,
    policy: FaultPolicy,
)
    requires
        v.fault == Some(FaultTrigger {
            condition: TriggerCondition::OnFlushBlock { flush_count: target_flush, block_id: target_block },
            policy,
        }),
        (v.flush_count + 1) as u64 != target_flush,
    ensures
        flush_outcome(v).1 == flush_outcome(DiskView { fault: None, ..v }).1,
        flush_outcome(v).0 == (DiskView { fault: v.fault, ..flush_outcome(DiskView { fault: None, ..v }).0 }),
{
    let u = DiskView { fault: None, ..v };
    assert forall|b: int| 0 <= b < v.capacity() implies flush_policy_at(v, b) is None && flush_policy_at(u, b) is None by {}
    lemma_first_flush_fault(v, 0);
    lemma_first_flush_fault(u, 0);
    assert(first_flush_fault(v, 0) == v.capacity());
    assert(first_flush_fault(u, 0) == u.capacity());
    assert(flush_tear(v) is None);
    assert(flush_tear(u) is None);
    if !v.frozen {
        let cap = v.capacity();
        assert(Seq::new(cap, |b: int| flushed_stable_block(v, b)) =~= Seq::new(cap, |b: int| flushed_stable_block(u, b)));
        assert(Seq::new(cap, |b: int| flushed_cache_block(v, b)) =~= Seq::new(cap, |b: int| flushed_cache_block(u, b)));
    }
    assert(flush_outcome(v).0 =~= (DiskView { fault: v.fault, ..flush_outcome(u).0 }));
}

/// A write never changes a block of the cache without marking it dirty,
/// never clears a dirty mark and never touches the media. A write that
/// succeeds and is not dropped by a lost-write fault leaves its block dirty,
/// whatever else the fault did to the data.
pub proof fn law_write_marks_changed_blocks_dirty(v: DiskView, block_id: u64, data: Seq<u8>, aligned: bool)
    requires
        v.valid(),
    ensures
        ({
            let (after, result) = write_outcome(v, block_id, data, aligned);
            &&& after.stable == v.stable
            &&& forall|c: int| 0 <= c < v.capacity() && after.cache[c] != v.cache[c] ==> #[trigger] after.dirty[c]
            &&& forall|c: int| 0 <= c < v.capacity() && v.dirty[c] ==> #[trigger] after.dirty[c]
            &&& (result is Ok && triggered_policy(v.fault, OpContext::Write, (v.write_count + 1) as u64, block_id)
                != Some(FaultPolicy::LostWrite)) ==> after.dirty[block_id as int]
        }),
{
}

/// What a successful write that no lost-write fault drops leaves in the
/// cache reaches the media on the next flush on which no block trips a
/// fault.
pub proof fn law_successful_write_reaches_media(v: DiskView, block_id: u64, data: Seq<u8>, aligned: bool)
    requires
        v.valid(),
        write_outcome(v, block_id, data, aligned).1 is Ok,
        triggered_policy(v.fault, OpContext::Write, (v.write_count + 1) as u64, block_id) != Some(FaultPolicy::LostWrite),
        first_flush_fault(write_outcome(v, block_id, data, aligned).0, 0) == v.capacity(),
    ensures
        ({
            let after = write_outcome(v, block_id, data, aligned).0;
            &&& flush_outcome(after).1 is Ok
            &&& flush_outcome(after).0.stable[block_id as int] == after.cache[block_id as int]
        }),
{
    let after = write_outcome(v, block_id, data, aligned).0;
    law_write_marks_changed_blocks_dirty(v, block_id, data, aligned);
    law_operations_keep_disk_valid(v, block_id, data, aligned, 0);
    law_flush_makes_dirty_blocks_durable(after);
    assert(rebooted(crashed(flush_outcome(after).0)).cache[block_id as int] == flush_outcome(after).0.stable[block_id as int]);
}

/// Resizing keeps the pending state of every block it keeps: a block below
/// both sizes stays dirty or clean as it was, added blocks are clean, and a
/// pending write to a kept block still reaches the media on the next flush
/// when no fault is armed.
pub proof fn law_resize_keeps_pending_writes(v: DiskView, n: nat)
    requires
        v.valid(),
        n * BLOCK_SIZE <= usize::MAX,
    ensures
        forall|b: int| 0 <= b < n && b < v.capacity() ==> #[trigger] resized(v, n).dirty[b] == v.dirty[b],
        forall|b: int| v.capacity() <= b < n ==> !#[trigger] resized(v, n).dirty[b],
        (!v.frozen && v.fault is None) ==> forall|b: int| 0 <= b < n && b < v.capacity() && v.dirty[b]
            ==> #[trigger] flush_outcome(resized(v, n)).0.stable[b] == v.cache[b],
{
    let r = resized(v, n);
    law_operations_keep_disk_valid(v, 0, Seq::empty(), true, n);
    if !v.frozen && v.fault is None {
        assert forall|x: int| 0 <= x < r.capacity() implies flush_policy_at(r, x) is None by {}
        lemma_first_flush_fault(r, 0);
        law_flush_makes_dirty_blocks_durable(r);
        assert forall|b: int| 0 <= b < n && b < v.capacity() && v.dirty[b] implies
            #[trigger] flush_outcome(r).0.stable[b] == v.cache[b] by {
            assert(rebooted(crashed(flush_outcome(r).0)).cache[b] == flush_outcome(r).0.stable[b]);
        }
    }
}

/// A read from a powered disk of an in-range block into a block-sized
/// buffer fails with an alignment error, leaving the buffer as it was,
/// exactly when the buffer is not page-aligned; otherwise it copies the
/// block's cache contents.
pub proof fn law_read_rejects_exactly_misaligned_buffers(v: DiskView, block_id: u64, buffer: Seq<u8>, aligned: bool)
    requires
        v.valid(),
        !v.frozen,
        block_id < v.capacity(),
        buffer.len() == BLOCK_SIZE,
    ensures
        (read_outcome(v, block_id, buffer, aligned) == (buffer, Err::<(), BlockDeviceError>(BlockDeviceError::AlignmentMismatch)))
            <==> !aligned,
        aligned ==> read_outcome(v, block_id, buffer, aligned) == (v.cache[block_id as int], Ok::<(), BlockDeviceError>(())),
{
}

} // verus!
