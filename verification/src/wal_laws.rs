use vstd::prelude::*;

use crate::aligned::{filled_block, BLOCK_SIZE};
use crate::device::BlockDeviceError;
use crate::disk_model::{
    crashed, flush_outcome, flush_policy_at, lemma_first_flush_fault,
    read_outcome, rebooted, write_outcome, DiskView,
};
use crate::frame::{
    be_u32_bytes, be_u64_bytes, crc32, frame_image, frame_magic, lemma_be_u32_roundtrip,
    lemma_be_u64_roundtrip, padded_block, serialized_frame, with_checksum_slot, zero4, MAX_PAYLOAD,
};
use crate::disk_laws::{law_flush_makes_dirty_blocks_durable, law_flushed_write_survives_crash, law_operations_keep_disk_valid};
use crate::wal_model::{
    append_outcome, checkpoint_outcome, clear_outcome, decoded_frame, in_replay_order,
    lemma_replay_order_exists, lemma_scan_entries, recover_outcome, replay_order, replay_outcome,
    lemma_scan_stops, same_entries, scan_found, scan_log, LogEntry,
    RecoveryReport, ScanState, WalCursor, WalError,
};

verus! {

/// Decoding a serialized frame gives back its sequence ID, target block and
/// payload; a serialized frame fills exactly one block.
pub proof fn law_frame_roundtrip(sequence_id: u64, target_block_id: u64, payload: Seq<u8>)
    requires
        payload.len() <= MAX_PAYLOAD,
    ensures
        serialized_frame(sequence_id, target_block_id, payload).len() == BLOCK_SIZE,
        decoded_frame(serialized_frame(sequence_id, target_block_id, payload))
            == Ok::<(u64, u64, Seq<u8>), WalError>((sequence_id, target_block_id, payload)),
{
    let image = frame_image(sequence_id, target_block_id, payload);
    let checksum = crc32(image);
    let frame = serialized_frame(sequence_id, target_block_id, payload);
    let n = payload.len();
    assert(image.len() == BLOCK_SIZE);
    assert(frame.len() == BLOCK_SIZE);
    assert(frame.subrange(0, 4) =~= frame_magic());
    assert(frame.subrange(4, 8) =~= be_u32_bytes(checksum));
    assert(image.subrange(4, 8) =~= zero4());
    assert(with_checksum_slot(frame, zero4()) =~= image);
    lemma_be_u32_roundtrip(checksum);
    assert(frame.subrange(24, 28) =~= be_u32_bytes(n as u32));
    lemma_be_u32_roundtrip(n as u32);
    assert(frame.subrange(8, 16) =~= be_u64_bytes(sequence_id));
    lemma_be_u64_roundtrip(sequence_id);
    assert(frame.subrange(16, 24) =~= be_u64_bytes(target_block_id));
    lemma_be_u64_roundtrip(target_block_id);
    assert(frame.subrange(32, 32 + n as int) =~= payload);
}

/// With no fault armed, a successful append is durable: after a crash and a
/// reboot the log block it used holds a frame that decodes to the entry's
/// sequence ID, target block and payload, and the cursor has moved one
/// position around the ring with the next sequence ID.
pub proof fn law_append_is_durable(
    v: DiskView,
    log_start_block: u64,
    max_log_blocks: u64,
    cursor: WalCursor,
    target_block_id: u64,
    payload: Seq<u8>,
)
    requires
        v.valid(),
        !v.frozen,
        v.fault is None,
        payload.len() <= MAX_PAYLOAD,
        max_log_blocks > 0,
        log_start_block + cursor.current_log_index < v.capacity(),
        cursor.next_sequence_id < u64::MAX,
    ensures
        ({
            let (after, new_cursor, result) = append_outcome(v, log_start_block, max_log_blocks, cursor, target_block_id, payload);
            let block = rebooted(crashed(after)).cache[log_start_block + cursor.current_log_index];
            &&& result == Ok::<(), WalError>(())
            &&& new_cursor.next_sequence_id == cursor.next_sequence_id + 1
            &&& new_cursor.current_log_index == (cursor.current_log_index + 1) % (max_log_blocks as int)
            &&& block == serialized_frame(cursor.next_sequence_id, target_block_id, payload)
            &&& decoded_frame(block) == Ok::<(u64, u64, Seq<u8>), WalError>((cursor.next_sequence_id, target_block_id, payload))
        }),
{
    let frame = serialized_frame(cursor.next_sequence_id, target_block_id, payload);
    law_frame_roundtrip(cursor.next_sequence_id, target_block_id, payload);
    let b = (log_start_block + cursor.current_log_index) as u64;
    law_flushed_write_survives_crash(v, b, frame, frame);
}

/// Every block of the log region is unused space (all zeros).
pub open spec fn log_region_empty(v: DiskView, log_start_block: u64, n: nat) -> bool {
    forall|i: int| 0 <= i < n ==> #[trigger] v.cache[log_start_block + i] == filled_block(0)
}

proof fn lemma_scan_empty_region(v: DiskView, log_start_block: u64, n: nat)
    requires
        v.valid(),
        !v.frozen,
        log_start_block + n <= v.capacity(),
        log_region_empty(v, log_start_block, n),
    ensures
        scan_log(v, log_start_block, n) == ScanState::Scanning(Seq::<LogEntry>::empty()),
    decreases n,
{
    if n > 0 {
        lemma_scan_empty_region(v, log_start_block, (n - 1) as nat);
        let block = v.cache[log_start_block + n - 1];
        assert(block == filled_block(0));
        assert(block.subrange(0, 4)[0] == 0u8);
        assert(frame_magic()[0] == 0x41u8);
        assert(block.subrange(0, 4) != frame_magic());
    }
}

/// Recovering a log region that holds only unused space replays nothing:
/// it reports sequence 0 without corruption, leaves the cursor as it was,
/// and only flushes the device.
pub proof fn law_recover_empty_log(v: DiskView, log_start_block: u64, max_log_blocks: u64, cursor: WalCursor)
    requires
        v.valid(),
        !v.frozen,
        log_start_block + max_log_blocks <= v.capacity(),
        log_region_empty(v, log_start_block, max_log_blocks as nat),
    ensures
        recover_outcome(v, log_start_block, max_log_blocks, cursor) == (match flush_outcome(v) {
            (flushed, Ok(_)) => (flushed, cursor, Ok::<RecoveryReport, WalError>(RecoveryReport { last_sequence: 0, corruption_detected: false })),
            (flushed, Err(e)) => (flushed, cursor, Err::<RecoveryReport, WalError>(WalError::Device(e))),
        }),
{
    lemma_scan_empty_region(v, log_start_block, max_log_blocks as nat);
    let empty = Seq::<LogEntry>::empty();
    assert(in_replay_order(empty) && same_entries(empty, empty));
    let order = replay_order(empty);
    assert(order.len() == 0);
}

/// The padded payload of the last of `entries` that targets block `b`, or
/// `default` when none does.
pub open spec fn last_write_to(entries: Seq<LogEntry>, b: int, default: Seq<u8>) -> Seq<u8>
    decreases entries.len(),
{
    if entries.len() == 0 {
        default
    } else if entries.last().target_block_id == b {
        padded_block(entries.last().payload)
    } else {
        last_write_to(entries.drop_last(), b, default)
    }
}

/// With no fault armed, replaying entries in order leaves each block holding
/// the payload of the last entry that targets it (later entries win), and
/// every other block as it was; the media is not touched before a flush.
pub proof fn law_replay_last_writer_wins(v: DiskView, entries: Seq<LogEntry>)
    requires
        v.valid(),
        !v.frozen,
        v.fault is None,
        forall|i: int| 0 <= i < entries.len() ==> (#[trigger] entries[i]).target_block_id < v.capacity(),
        forall|i: int| 0 <= i < entries.len() ==> (#[trigger] entries[i]).payload.len() <= MAX_PAYLOAD,
    ensures
        replay_outcome(v, entries).1 == Ok::<(), BlockDeviceError>(()),
        replay_outcome(v, entries).0.valid(),
        !replay_outcome(v, entries).0.frozen,
        replay_outcome(v, entries).0.fault is None,
        replay_outcome(v, entries).0.capacity() == v.capacity(),
        replay_outcome(v, entries).0.stable == v.stable,
        forall|b: int| 0 <= b < v.capacity() ==>
            #[trigger] replay_outcome(v, entries).0.cache[b] == last_write_to(entries, b, v.cache[b]),
    decreases entries.len(),
{
    if entries.len() > 0 {
        let prefix = entries.drop_last();
        assert forall|i: int| 0 <= i < prefix.len() implies (#[trigger] prefix[i]).target_block_id < v.capacity() by {
            assert(prefix[i] == entries[i]);
        }
        assert forall|i: int| 0 <= i < prefix.len() implies (#[trigger] prefix[i]).payload.len() <= MAX_PAYLOAD by {
            assert(prefix[i] == entries[i]);
        }
        law_replay_last_writer_wins(v, prefix);
        let last = entries.last();
        assert(last == entries[entries.len() - 1]);
        let before = replay_outcome(v, prefix).0;
        assert(padded_block(last.payload).len() == BLOCK_SIZE);
        let after = replay_outcome(v, entries).0;
        assert forall|b: int| 0 <= b < v.capacity() implies
            #[trigger] after.cache[b] == last_write_to(entries, b, v.cache[b]) by {
            assert(before.cache[b] == last_write_to(prefix, b, v.cache[b]));
        }
    }
}

/// With no fault armed, a replay leaves every block it did not write clean
/// and as it was in the cache.
proof fn lemma_replay_marks_written_blocks(v: DiskView, entries: Seq<LogEntry>)
    requires
        v.valid(),
        !v.frozen,
        v.fault is None,
        forall|i: int| 0 <= i < entries.len() ==> (#[trigger] entries[i]).target_block_id < v.capacity(),
        forall|i: int| 0 <= i < entries.len() ==> (#[trigger] entries[i]).payload.len() <= MAX_PAYLOAD,
    ensures
        forall|b: int| 0 <= b < v.capacity() && !#[trigger] replay_outcome(v, entries).0.dirty[b] ==> {
            &&& !v.dirty[b]
            &&& replay_outcome(v, entries).0.cache[b] == v.cache[b]
        },
    decreases entries.len(),
{
    law_replay_last_writer_wins(v, entries);
    if entries.len() > 0 {
        let prefix = entries.drop_last();
        assert forall|i: int| 0 <= i < prefix.len() implies (#[trigger] prefix[i]).target_block_id < v.capacity() by {
            assert(prefix[i] == entries[i]);
        }
        assert forall|i: int| 0 <= i < prefix.len() implies (#[trigger] prefix[i]).payload.len() <= MAX_PAYLOAD by {
            assert(prefix[i] == entries[i]);
        }
        law_replay_last_writer_wins(v, prefix);
        lemma_replay_marks_written_blocks(v, prefix);
        assert(entries.last() == entries[entries.len() - 1]);
    }
}

/// With no fault armed, replaying `order` on a freshly restarted device
/// (nothing dirty, the cache equal to the media) and flushing leaves every
/// block, in the cache and on the media, holding the payload of the last
/// entry that targets it, or its earlier contents when none does.
proof fn lemma_fresh_replay_then_flush(v: DiskView, order: Seq<LogEntry>)
    requires
        v.valid(),
        !v.frozen,
        v.fault is None,
        v.cache == v.stable,
        forall|b: int| 0 <= b < v.capacity() ==> !#[trigger] v.dirty[b],
        forall|i: int| 0 <= i < order.len() ==> (#[trigger] order[i]).target_block_id < v.capacity(),
        forall|i: int| 0 <= i < order.len() ==> (#[trigger] order[i]).payload.len() <= MAX_PAYLOAD,
    ensures
        ({
            let (replayed, replay_result) = replay_outcome(v, order);
            let (flushed, flush_result) = flush_outcome(replayed);
            &&& replay_result is Ok
            &&& flush_result is Ok
            &&& flushed.valid()
            &&& !flushed.frozen
            &&& flushed.fault is None
            &&& flushed.capacity() == v.capacity()
            &&& forall|b: int| 0 <= b < v.capacity() ==> {
                &&& #[trigger] flushed.cache[b] == last_write_to(order, b, v.stable[b])
                &&& flushed.stable[b] == last_write_to(order, b, v.stable[b])
                &&& !flushed.dirty[b]
            }
        }),
{
    law_replay_last_writer_wins(v, order);
    lemma_replay_marks_written_blocks(v, order);
    let replayed = replay_outcome(v, order).0;
    assert forall|x: int| 0 <= x < replayed.capacity() implies flush_policy_at(replayed, x) is None by {}
    lemma_first_flush_fault(replayed, 0);
    law_flush_makes_dirty_blocks_durable(replayed);
    law_operations_keep_disk_valid(replayed, 0, Seq::empty(), true, 0);
    let after = flush_outcome(replayed).0;
    assert forall|b: int| 0 <= b < v.capacity() implies {
        &&& #[trigger] after.cache[b] == last_write_to(order, b, v.stable[b])
        &&& after.stable[b] == last_write_to(order, b, v.stable[b])
        &&& !after.dirty[b]
    } by {
        assert(rebooted(crashed(after)).cache[b] == after.stable[b]);
    }
}

/// The entries a scan finds, in replay order, target blocks of the disk and
/// carry payloads that fit a frame, when every entry found targets a block
/// of the disk.
proof fn lemma_found_in_replay_order(v: DiskView, log_start_block: u64, max_log_blocks: u64)
    requires
        v.valid(),
        forall|i: int| 0 <= i < scan_found(scan_log(v, log_start_block, max_log_blocks as nat)).len()
            ==> (#[trigger] scan_found(scan_log(v, log_start_block, max_log_blocks as nat))[i]).target_block_id
                < v.capacity(),
    ensures
        ({
            let order = replay_order(scan_found(scan_log(v, log_start_block, max_log_blocks as nat)));
            &&& forall|i: int| 0 <= i < order.len() ==> (#[trigger] order[i]).target_block_id < v.capacity()
            &&& forall|i: int| 0 <= i < order.len() ==> (#[trigger] order[i]).payload.len() <= MAX_PAYLOAD
        }),
{
    let found = scan_found(scan_log(v, log_start_block, max_log_blocks as nat));
    lemma_scan_entries(v, log_start_block, max_log_blocks as nat);
    lemma_replay_order_exists(found);
    let order = replay_order(found);
    assert forall|i: int| 0 <= i < order.len() implies {
        &&& (#[trigger] order[i]).target_block_id < v.capacity()
        &&& order[i].payload.len() <= MAX_PAYLOAD
    } by {
        assert(order.contains(order[i]));
        assert(found.contains(order[i]));
        let j = choose|j: int| 0 <= j < found.len() && #[trigger] found[j] == order[i];
        assert(found[j].target_block_id < v.capacity());
    }
}

/// With no fault armed, recovering a freshly restarted device (nothing dirty,
/// the cache equal to the media) whose log region scans without a device
/// error succeeds, and leaves every block, in the cache and on the media,
/// holding the payload of the last entry in replay order that targets it,
/// or its earlier contents when no entry does.
pub proof fn law_recover_last_writer_wins(v: DiskView, log_start_block: u64, max_log_blocks: u64, cursor: WalCursor)
    requires
        v.valid(),
        !v.frozen,
        v.fault is None,
        v.cache == v.stable,
        forall|b: int| 0 <= b < v.capacity() ==> !#[trigger] v.dirty[b],
        !(scan_log(v, log_start_block, max_log_blocks as nat) is Failed),
        forall|i: int| 0 <= i < scan_found(scan_log(v, log_start_block, max_log_blocks as nat)).len()
            ==> (#[trigger] scan_found(scan_log(v, log_start_block, max_log_blocks as nat))[i]).target_block_id
                < v.capacity(),
    ensures
        ({
            let order = replay_order(scan_found(scan_log(v, log_start_block, max_log_blocks as nat)));
            let (after, next, result) = recover_outcome(v, log_start_block, max_log_blocks, cursor);
            &&& result is Ok
            &&& forall|b: int| 0 <= b < v.capacity() ==> {
                &&& #[trigger] after.cache[b] == last_write_to(order, b, v.stable[b])
                &&& after.stable[b] == last_write_to(order, b, v.stable[b])
                &&& !after.dirty[b]
            }
        }),
{
    lemma_found_in_replay_order(v, log_start_block, max_log_blocks);
    let order = replay_order(scan_found(scan_log(v, log_start_block, max_log_blocks as nat)));
    lemma_fresh_replay_then_flush(v, order);
}

/// With no fault armed, a checkpoint of a freshly restarted device (nothing
/// dirty, the cache equal to the media) whose log region holds only valid
/// frames and unused space succeeds, and leaves every block outside the log
/// region, in the cache and on the media, holding the payload of the last
/// entry in replay order that targets it, or its earlier contents when no
/// entry does.
pub proof fn law_checkpoint_last_writer_wins(v: DiskView, log_start_block: u64, max_log_blocks: u64, cursor: WalCursor)
    requires
        v.valid(),
        !v.frozen,
        v.fault is None,
        v.cache == v.stable,
        forall|b: int| 0 <= b < v.capacity() ==> !#[trigger] v.dirty[b],
        log_start_block + max_log_blocks <= v.capacity(),
        scan_log(v, log_start_block, max_log_blocks as nat) is Scanning,
        forall|i: int| 0 <= i < scan_found(scan_log(v, log_start_block, max_log_blocks as nat)).len()
            ==> (#[trigger] scan_found(scan_log(v, log_start_block, max_log_blocks as nat))[i]).target_block_id
                < v.capacity(),
    ensures
        ({
            let order = replay_order(scan_found(scan_log(v, log_start_block, max_log_blocks as nat)));
            let (after, next, result) = checkpoint_outcome(v, log_start_block, max_log_blocks, cursor);
            &&& result is Ok
            &&& forall|b: int| 0 <= b < v.capacity() && !(log_start_block <= b < log_start_block + max_log_blocks) ==> {
                &&& #[trigger] after.cache[b] == last_write_to(order, b, v.stable[b])
                &&& after.stable[b] == last_write_to(order, b, v.stable[b])
            }
        }),
{
    lemma_found_in_replay_order(v, log_start_block, max_log_blocks);
    let order = replay_order(scan_found(scan_log(v, log_start_block, max_log_blocks as nat)));
    lemma_fresh_replay_then_flush(v, order);
    let flushed = flush_outcome(replay_outcome(v, order).0).0;
    lemma_clear_writes_zeros(flushed, log_start_block, max_log_blocks as nat);
    lemma_clear_then_flush(flushed, log_start_block, max_log_blocks as nat);
    let cleared = clear_outcome(flushed, log_start_block, max_log_blocks as nat).0;
    assert forall|x: int| 0 <= x < cleared.capacity() implies flush_policy_at(cleared, x) is None by {}
    lemma_first_flush_fault(cleared, 0);
    law_flush_makes_dirty_blocks_durable(cleared);
    let done = flush_outcome(cleared).0;
    assert forall|b: int| 0 <= b < v.capacity() && !(log_start_block <= b < log_start_block + max_log_blocks) implies {
        &&& #[trigger] done.cache[b] == last_write_to(order, b, v.stable[b])
        &&& done.stable[b] == last_write_to(order, b, v.stable[b])
    } by {
        assert(cleared.cache[b] == flushed.cache[b]);
        assert(!cleared.dirty[b]);
        assert(rebooted(crashed(done)).cache[b] == done.stable[b]);
    }
}

proof fn lemma_clear_writes_zeros(v: DiskView, log_start_block: u64, n: nat)
    requires
        v.valid(),
        !v.frozen,
        v.fault is None,
        log_start_block + n <= v.capacity(),
    ensures
        clear_outcome(v, log_start_block, n).1 == Ok::<(), BlockDeviceError>(()),
        clear_outcome(v, log_start_block, n).0.valid(),
        !clear_outcome(v, log_start_block, n).0.frozen,
        clear_outcome(v, log_start_block, n).0.fault is None,
        clear_outcome(v, log_start_block, n).0.capacity() == v.capacity(),
        forall|i: int| 0 <= i < n ==> {
            &&& #[trigger] clear_outcome(v, log_start_block, n).0.cache[log_start_block + i] == filled_block(0)
            &&& clear_outcome(v, log_start_block, n).0.dirty[log_start_block + i]
        },
        clear_outcome(v, log_start_block, n).0.stable == v.stable,
        forall|b: int| 0 <= b < v.capacity() && !(log_start_block <= b < log_start_block + n)
            ==> #[trigger] clear_outcome(v, log_start_block, n).0.cache[b] == v.cache[b],
        forall|b: int| 0 <= b < v.capacity() && !(log_start_block <= b < log_start_block + n)
            ==> #[trigger] clear_outcome(v, log_start_block, n).0.dirty[b] == v.dirty[b],
    decreases n,
{
    if n > 0 {
        lemma_clear_writes_zeros(v, log_start_block, (n - 1) as nat);
        let before = clear_outcome(v, log_start_block, (n - 1) as nat).0;
        let after = clear_outcome(v, log_start_block, n).0;
        assert forall|i: int| 0 <= i < n implies {
            &&& #[trigger] after.cache[log_start_block + i] == filled_block(0)
            &&& after.dirty[log_start_block + i]
        } by {
            if i < n - 1 {
                assert(before.cache[log_start_block + i] == filled_block(0));
            }
        }
        assert forall|b: int| 0 <= b < v.capacity() && !(log_start_block <= b < log_start_block + n) implies
            #[trigger] after.cache[b] == v.cache[b] by {
            assert(before.cache[b] == v.cache[b]);
        }
        assert forall|b: int| 0 <= b < v.capacity() && !(log_start_block <= b < log_start_block + n) implies
            #[trigger] after.dirty[b] == v.dirty[b] by {
            assert(before.dirty[b] == v.dirty[b]);
        }
    }
}

/// Clearing the log region of a powered disk with no fault armed, then
/// flushing, leaves the region zeroed in the cache and on the media.
proof fn lemma_clear_then_flush(v: DiskView, log_start_block: u64, n: nat)
    requires
        v.valid(),
        !v.frozen,
        v.fault is None,
        log_start_block + n <= v.capacity(),
    ensures
        clear_outcome(v, log_start_block, n).1 == Ok::<(), BlockDeviceError>(()),
        flush_outcome(clear_outcome(v, log_start_block, n).0).1 == Ok::<(), BlockDeviceError>(()),
        forall|i: int| 0 <= i < n ==> {
            &&& #[trigger] flush_outcome(clear_outcome(v, log_start_block, n).0).0.cache[log_start_block + i] == filled_block(0)
            &&& flush_outcome(clear_outcome(v, log_start_block, n).0).0.stable[log_start_block + i] == filled_block(0)
        },
{
    lemma_clear_writes_zeros(v, log_start_block, n);
    let cleared = clear_outcome(v, log_start_block, n).0;
    assert forall|b: int| 0 <= b < cleared.capacity() implies flush_policy_at(cleared, b) is None by {}
    lemma_first_flush_fault(cleared, 0);
    law_flush_makes_dirty_blocks_durable(cleared);
    let done = flush_outcome(cleared).0;
    assert forall|i: int| 0 <= i < n implies {
        &&& #[trigger] done.cache[log_start_block + i] == filled_block(0)
        &&& done.stable[log_start_block + i] == filled_block(0)
    } by {
        let b = log_start_block + i;
        assert(cleared.cache[b] == filled_block(0));
        assert(cleared.dirty[b]);
        assert(rebooted(crashed(done)).cache[b] == cleared.cache[b]);
    }
}

/// With no fault armed, a successful checkpoint leaves every block of the
/// log region zeroed in the cache and on the media, and resets the write
/// position to the start of the region.
pub proof fn law_checkpoint_clears_log(v: DiskView, log_start_block: u64, max_log_blocks: u64, cursor: WalCursor)
    requires
        v.valid(),
        v.fault is None,
        log_start_block + max_log_blocks <= v.capacity(),
    ensures
        ({
            let (after, new_cursor, result) = checkpoint_outcome(v, log_start_block, max_log_blocks, cursor);
            result is Ok ==> {
                &&& new_cursor.current_log_index == 0
                &&& new_cursor.next_sequence_id == cursor.next_sequence_id
                &&& forall|i: int| 0 <= i < max_log_blocks ==> {
                    &&& #[trigger] after.cache[log_start_block + i] == filled_block(0)
                    &&& after.stable[log_start_block + i] == filled_block(0)
                }
            }
        }),
{
    let state = scan_log(v, log_start_block, max_log_blocks as nat);
    if let ScanState::Scanning(found) = state {
        let order = replay_order(found);
        let (replayed, replay_result) = replay_outcome(v, order);
        lemma_replay_keeps_disk(v, order);
        if replay_result is Ok {
            let (flushed, flush_result) = flush_outcome(replayed);
            if flush_result is Ok {
                assert(!replayed.frozen);
                assert(flushed.valid());
                assert(!flushed.frozen);
                assert(flushed.fault is None);
                lemma_clear_then_flush(flushed, log_start_block, max_log_blocks as nat);
                let cleared = clear_outcome(flushed, log_start_block, max_log_blocks as nat).0;
                let done = flush_outcome(cleared).0;
                assert(checkpoint_outcome(v, log_start_block, max_log_blocks, cursor)
                    == (done, WalCursor { current_log_index: 0, ..cursor }, Ok::<(), WalError>(())));
            }
        }
    }
}

/// A replay keeps the disk valid and leaves the power switch and the armed
/// fault as they were, whatever the writes do.
proof fn lemma_replay_keeps_disk(v: DiskView, entries: Seq<LogEntry>)
    requires
        v.valid(),
        v.fault is None,
    ensures
        replay_outcome(v, entries).0.valid(),
        replay_outcome(v, entries).0.fault is None,
        replay_outcome(v, entries).1 is Ok ==> !replay_outcome(v, entries).0.frozen || v.frozen,
        replay_outcome(v, entries).0.capacity() == v.capacity(),
    decreases entries.len(),
{
    if entries.len() > 0 {
        lemma_replay_keeps_disk(v, entries.drop_last());
        let before = replay_outcome(v, entries.drop_last()).0;
        let last = entries.last();
        if padded_block(last.payload).len() == BLOCK_SIZE {
            assert(write_outcome(before, last.target_block_id, padded_block(last.payload), true).0.valid());
        }
    }
}

/// After a successful recovery that replayed something, the next sequence ID
/// lies past every entry found in the log region.
pub proof fn law_recover_resumes_after_last_sequence(v: DiskView, log_start_block: u64, max_log_blocks: u64, cursor: WalCursor)
    requires
        v.valid(),
    ensures
        ({
            let (after, new_cursor, result) = recover_outcome(v, log_start_block, max_log_blocks, cursor);
            let found = scan_found(scan_log(v, log_start_block, max_log_blocks as nat));
            match result {
                Ok(report) => report.last_sequence > 0 && report.last_sequence < u64::MAX ==> {
                    &&& new_cursor.next_sequence_id == report.last_sequence + 1
                    &&& forall|i: int| 0 <= i < found.len() ==> (#[trigger] found[i]).sequence_id < new_cursor.next_sequence_id
                },
                Err(_) => true,
            }
        }),
{
    let state = scan_log(v, log_start_block, max_log_blocks as nat);
    let found = scan_found(state);
    if !(state is Failed) {
        let order = replay_order(found);
        let (after, new_cursor, result) = recover_outcome(v, log_start_block, max_log_blocks, cursor);
        lemma_scan_entries(v, log_start_block, max_log_blocks as nat);
        lemma_replay_order_exists(found);
        if result is Ok && result->Ok_0.last_sequence > 0 && result->Ok_0.last_sequence < u64::MAX {
            assert(order.len() > 0);
            assert forall|i: int| 0 <= i < found.len() implies (#[trigger] found[i]).sequence_id < new_cursor.next_sequence_id by {
                assert(found.contains(found[i]));
                assert(order.contains(found[i]));
                let k = choose|k: int| 0 <= k < order.len() && #[trigger] order[k] == found[i];
                if k < order.len() - 1 {
                    assert(crate::wal_model::replays_before(order[k], order[order.len() - 1]));
                }
            }
        }
    }
}

/// The scan of a log region that holds one valid frame at position `i` and
/// unused space everywhere else finds exactly that frame.
proof fn lemma_scan_single_frame(v: DiskView, log_start_block: u64, k: nat, i: nat, entry: LogEntry)
    requires
        v.valid(),
        !v.frozen,
        log_start_block + k <= v.capacity(),
        entry.log_index == i,
        decoded_frame(v.cache[log_start_block + i])
            == Ok::<(u64, u64, Seq<u8>), WalError>((entry.sequence_id, entry.target_block_id, entry.payload)),
        forall|j: int| 0 <= j < k && j != i ==> #[trigger] v.cache[log_start_block + j] == filled_block(0),
    ensures
        scan_log(v, log_start_block, k)
            == (if k <= i { ScanState::Scanning(Seq::<LogEntry>::empty()) } else { ScanState::Scanning(seq![entry]) }),
    decreases k,
{
    if k > 0 {
        lemma_scan_single_frame(v, log_start_block, (k - 1) as nat, i, entry);
        let j = (k - 1) as int;
        if j != i {
            let block = v.cache[log_start_block + j];
            assert(block == filled_block(0));
            assert(block.subrange(0, 4)[0] == 0u8);
            assert(frame_magic()[0] == 0x41u8);
            assert(block.subrange(0, 4) != frame_magic());
        } else {
            assert(Seq::<LogEntry>::empty().push(entry) =~= seq![entry]);
        }
    }
}

/// With no fault armed, an entry appended to an unused log region survives a
/// crash and a reboot and is replayed by recovery: the target block then
/// holds the payload, the report names the entry's sequence ID without
/// corruption, and the cursor continues after the entry.
pub proof fn law_append_then_recover_replays_entry(
    v: DiskView,
    log_start_block: u64,
    max_log_blocks: u64,
    cursor: WalCursor,
    target_block_id: u64,
    payload: Seq<u8>,
)
    requires
        v.valid(),
        !v.frozen,
        v.fault is None,
        payload.len() <= MAX_PAYLOAD,
        target_block_id < v.capacity(),
        log_start_block + max_log_blocks <= v.capacity(),
        cursor.current_log_index < max_log_blocks,
        0 < cursor.next_sequence_id < u64::MAX,
        log_region_empty(v, log_start_block, max_log_blocks as nat),
        forall|j: int| 0 <= j < max_log_blocks ==> #[trigger] v.stable[log_start_block + j] == filled_block(0),
    ensures
        ({
            let (appended, after_append, append_result) = append_outcome(v, log_start_block, max_log_blocks, cursor, target_block_id, payload);
            let restarted = rebooted(crashed(appended));
            let (recovered, after_recover, recover_result) = recover_outcome(restarted, log_start_block, max_log_blocks, after_append);
            &&& append_result == Ok::<(), WalError>(())
            &&& recover_result == Ok::<RecoveryReport, WalError>(RecoveryReport {
                    last_sequence: cursor.next_sequence_id,
                    corruption_detected: false,
                })
            &&& recovered.cache[target_block_id as int] == padded_block(payload)
            &&& after_recover.next_sequence_id == cursor.next_sequence_id + 1
            &&& after_recover.current_log_index == (cursor.current_log_index + 1) % (max_log_blocks as int)
        }),
{
    let i = cursor.current_log_index;
    let b = (log_start_block + i) as u64;
    let frame = serialized_frame(cursor.next_sequence_id, target_block_id, payload);
    law_frame_roundtrip(cursor.next_sequence_id, target_block_id, payload);
    law_append_is_durable(v, log_start_block, max_log_blocks, cursor, target_block_id, payload);
    let written = write_outcome(v, b, frame, true).0;
    assert(written.valid());
    assert forall|x: int| 0 <= x < written.capacity() implies flush_policy_at(written, x) is None by {}
    lemma_first_flush_fault(written, 0);
    law_flush_makes_dirty_blocks_durable(written);
    let (appended, after_append, append_result) = append_outcome(v, log_start_block, max_log_blocks, cursor, target_block_id, payload);
    let restarted = rebooted(crashed(appended));
    assert(appended == flush_outcome(written).0);
    assert(restarted.valid());
    assert(restarted.fault is None);
    assert forall|j: int| 0 <= j < max_log_blocks && j != i implies
        #[trigger] restarted.cache[log_start_block + j] == filled_block(0) by {
        assert(written.cache[log_start_block + j] == v.cache[log_start_block + j]);
        assert(written.dirty[log_start_block + j] == v.dirty[log_start_block + j]);
    }
    let entry = LogEntry { sequence_id: cursor.next_sequence_id, target_block_id, payload, log_index: i };
    lemma_scan_single_frame(restarted, log_start_block, max_log_blocks as nat, i as nat, entry);
    let found = seq![entry];
    assert(in_replay_order(found) && same_entries(found, found));
    let order = replay_order(found);
    assert(in_replay_order(order) && same_entries(order, found));
    assert(order.len() == 1);
    assert(order.contains(order[0]));
    assert(found.contains(order[0]));
    assert(order[0] == entry);
    assert(order =~= found);
    assert(order.drop_last() =~= Seq::<LogEntry>::empty());
    law_replay_last_writer_wins(restarted, order);
    let replayed = replay_outcome(restarted, order).0;
    assert(replayed.cache[target_block_id as int] == last_write_to(order, target_block_id as int, restarted.cache[target_block_id as int]));
    assert forall|x: int| 0 <= x < replayed.capacity() implies flush_policy_at(replayed, x) is None by {}
    lemma_first_flush_fault(replayed, 0);
}

/// Recovery stops at the first corrupt block of the log region: when the
/// scan reaches, at position `k`, a block that is neither a valid frame nor
/// unused space, the frames found before it are all that is replayed, no
/// later block is examined, and a successful recovery reports the
/// corruption.
pub proof fn law_recovery_stops_at_first_corrupt_block(
    v: DiskView,
    log_start_block: u64,
    max_log_blocks: u64,
    cursor: WalCursor,
    k: nat,
)
    requires
        v.valid(),
        !v.frozen,
        k < max_log_blocks,
        log_start_block + k < v.capacity(),
        scan_log(v, log_start_block, k) is Scanning,
        decoded_frame(v.cache[log_start_block + k]) is Err,
        v.cache[log_start_block + k] != filled_block(0),
    ensures
        scan_log(v, log_start_block, max_log_blocks as nat) == ScanState::Corrupted(
            scan_found(scan_log(v, log_start_block, k)),
            decoded_frame(v.cache[log_start_block + k])->Err_0,
        ),
        recover_outcome(v, log_start_block, max_log_blocks, cursor).2 matches Ok(report) ==> report.corruption_detected,
{
    lemma_scan_stops(v, log_start_block, k + 1, max_log_blocks as nat);
}


/// A scan of the first `n` positions of a log region whose blocks are all
/// valid frames or unused space never stops.
proof fn lemma_clean_region_scans_through(v: DiskView, log_start_block: u64, n: nat)
    requires
        v.valid(),
        !v.frozen,
        log_start_block + n <= v.capacity(),
        forall|j: int| 0 <= j < n ==> {
            ||| decoded_frame(#[trigger] v.cache[log_start_block + j]) is Ok
            ||| v.cache[log_start_block + j] == filled_block(0)
        },
    ensures
        scan_log(v, log_start_block, n) is Scanning,
    decreases n,
{
    if n > 0 {
        let j = (n - 1) as int;
        lemma_clean_region_scans_through(v, log_start_block, (n - 1) as nat);
        let block_id = (log_start_block + j) as u64;
        assert(block_id == log_start_block + j);
        let block = v.cache[log_start_block + j];
        assert(read_outcome(v, block_id, filled_block(0), true) == (block, Ok::<(), BlockDeviceError>(())));
        if decoded_frame(block) is Err {
            assert(block == filled_block(0));
            assert(block.subrange(0, 4)[0] == 0u8);
            assert(frame_magic()[0] == 0x41u8);
            assert(decoded_frame(block) == Err::<(u64, u64, Seq<u8>), WalError>(WalError::InvalidMagic));
        }
    }
}

/// Recovery reports corruption only when it meets a block of the log region
/// that is neither a valid frame nor unused space: on a powered disk whose
/// log region holds only valid frames and all-zero blocks, in any number and
/// in any sequence order, a successful recovery reports no corruption, and a
/// failed one fails with a device error.
pub proof fn law_clean_log_reports_no_corruption(
    v: DiskView,
    log_start_block: u64,
    max_log_blocks: u64,
    cursor: WalCursor,
)
    requires
        v.valid(),
        !v.frozen,
        log_start_block + max_log_blocks <= v.capacity(),
        forall|j: int| 0 <= j < max_log_blocks ==> {
            ||| decoded_frame(#[trigger] v.cache[log_start_block + j]) is Ok
            ||| v.cache[log_start_block + j] == filled_block(0)
        },
    ensures
        match recover_outcome(v, log_start_block, max_log_blocks, cursor).2 {
            Ok(report) => !report.corruption_detected,
            Err(e) => e is Device,
        },
{
    lemma_clean_region_scans_through(v, log_start_block, max_log_blocks as nat);
}

} // verus!
