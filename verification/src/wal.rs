use vstd::prelude::*;

use crate::aligned::{filled_block, AlignedBlock, BLOCK_SIZE};
use crate::device::{BlockDevice, BlockDeviceError};
use crate::disk::ChaosDisk;
use crate::disk_model::read_outcome;
use crate::frame::{
    all_zero, be_u32_bytes, crc32, crc_shift_n, crc_update, frame_image, frame_magic, padded_block,
    serialized_frame, u32_from_be, u32_to_be, u64_from_be, u64_to_be, with_checksum_slot, zero4,
    CRC32_POLYNOMIAL, HEADER_SIZE, MAX_PAYLOAD,
};
use crate::wal_model::{
    append_outcome, checkpoint_outcome, clear_outcome, decoded_frame, in_replay_order,
    lemma_clear_stops, lemma_replay_order_exists, lemma_replay_order_unique, lemma_replay_stops, lemma_scan_entries, lemma_scan_in_range,
    lemma_scan_stops, recover_outcome, recovery_overflows, replay_order, replay_outcome,
    replays_before, same_entries, scan_found, scan_log, scan_step, LogEntry, ScanState, WalCursor,
};

pub use crate::wal_model::{RecoveryReport, WalError};

verus! {

/// The header at the start of every log frame, stored big-endian:
/// bytes 0..4 magic "A016", 4..8 checksum, 8..16 sequence ID, 16..24 target
/// block, 24..28 payload size, 28..32 reserved.
pub struct LogHeader {
    /// The frame signature "A016".
    pub magic: [u8; 4],
    /// CRC-32 of the whole block, computed with this field zeroed.
    pub checksum: u32,
    /// Monotonic ID for log ordering.
    pub sequence_id: u64,
    /// The block this log entry updates.
    pub target_block_id: u64,
    /// Length of the payload following the header.
    pub payload_size: u32,
    /// Padding that completes the 32-byte header.
    pub _reserved: u32,
}

/// A valid frame found in the log region.
struct WalRecord {
    sequence_id: u64,
    target_block_id: u64,
    payload: Vec<u8>,
    log_index: u64,
}

impl WalRecord {
    spec fn entry(&self) -> LogEntry {
        LogEntry {
            sequence_id: self.sequence_id,
            target_block_id: self.target_block_id,
            payload: self.payload@,
            log_index: self.log_index,
        }
    }
}

/// The entries that `records` hold.
spec fn entries_of(records: Seq<WalRecord>) -> Seq<LogEntry> {
    records.map_values(|r: WalRecord| r.entry())
}

/// Whether `a` is replayed before `b`.
fn record_before(a: &WalRecord, b: &WalRecord) -> (before: bool)
    ensures
        before == replays_before(a.entry(), b.entry()),
{
    a.sequence_id < b.sequence_id || (a.sequence_id == b.sequence_id && a.log_index < b.log_index)
}

/// Inserting `e` at `pos`, after the entries replayed before it and ahead
/// of the rest, keeps a sequence in replay order.
proof fn lemma_insert_in_order(o: Seq<LogEntry>, e: LogEntry, pos: int)
    requires
        in_replay_order(o),
        0 <= pos <= o.len(),
        forall|k: int| 0 <= k < pos ==> replays_before(#[trigger] o[k], e),
        pos < o.len() ==> replays_before(e, o[pos]),
    ensures
        in_replay_order(o.insert(pos, e)),
{
    let o2 = o.insert(pos, e);
    assert forall|i: int, j: int| 0 <= i < j < o2.len() implies replays_before(#[trigger] o2[i], #[trigger] o2[j]) by {
        if j < pos {
            assert(o2[i] == o[i] && o2[j] == o[j]);
        } else if j == pos {
            assert(o2[i] == o[i]);
        } else if i < pos {
            assert(o2[i] == o[i] && o2[j] == o[j - 1]);
            assert(replays_before(o[i], e));
            assert(replays_before(e, o[pos]));
            if j - 1 > pos {
                assert(replays_before(o[pos], o[j - 1]));
            }
        } else if i == pos {
            assert(o2[j] == o[j - 1]);
            if j - 1 > pos {
                assert(replays_before(o[pos], o[j - 1]));
            }
        } else {
            assert(o2[i] == o[i - 1] && o2[j] == o[j - 1]);
        }
    }
}

/// A circular write-ahead log kept in a region of a simulated disk.
pub struct WalManager {
    pub device: ChaosDisk,
    /// The sequence ID the next appended entry receives.
    pub next_sequence_id: u64,
    /// The first block of the log region.
    pub log_start_block: u64,
    /// The position within the log region the next entry is written to.
    pub current_log_index: u64,
    /// The number of blocks of the log region.
    pub max_log_blocks: u64,
}

impl WalManager {
    /// Creates a manager for the log region of `max_log_blocks` blocks that
    /// starts at block `log_start_block` of `device`.
    pub fn new(device: ChaosDisk, log_start_block: u64, max_log_blocks: u64) -> (wal: Self)
        ensures
            wal.device == device,
            wal.next_sequence_id == 1,
            wal.log_start_block == log_start_block,
            wal.current_log_index == 0,
            wal.max_log_blocks == max_log_blocks,
    {
        WalManager { device, next_sequence_id: 1, log_start_block, current_log_index: 0, max_log_blocks }
    }

    /// Computes the standard CRC-32 of `data`, which validates a frame.
    fn compute_block_checksum(&self, data: &[u8]) -> (crc: u32)
        ensures
            crc == crc32(data@),
    {
        let mut crc: u32 = 0xFFFF_FFFF;
        let mut i: usize = 0;
        while i < data.len()
            invariant
                i <= data@.len(),
                crc == crc_update(0xFFFF_FFFF, data@.subrange(0, i as int)),
            decreases data@.len() - i,
        {
            let byte = data[i];
            let ghost start = crc ^ (byte as u32);
            crc = crc ^ (byte as u32);
            let mut k: usize = 0;
            while k < 8
                invariant
                    k <= 8,
                    crc == crc_shift_n(start, k as nat),
                decreases 8 - k,
            {
                if crc & 1 != 0 {
                    crc = (crc >> 1) ^ CRC32_POLYNOMIAL;
                } else {
                    crc = crc >> 1;
                }
                k = k + 1;
            }
            proof {
                let prefix = data@.subrange(0, i + 1);
                assert(prefix.drop_last() =~= data@.subrange(0, i as int));
                assert(prefix.last() == byte);
            }
            i = i + 1;
        }
        assert(data@.subrange(0, i as int) =~= data@);
        !crc
    }

    /// Builds the frame that logs `payload` for block `target_block_id`
    /// under `sequence_id`: header, payload, zero padding, and the CRC-32 of
    /// the block stored in the checksum field.
    pub fn serialize_frame(&self, sequence_id: u64, target_block_id: u64, payload: &[u8]) -> (result: Result<AlignedBlock, WalError>)
        ensures
            match result {
                Ok(frame) => {
                    &&& payload@.len() <= MAX_PAYLOAD
                    &&& frame.wf()
                    &&& frame@ == serialized_frame(sequence_id, target_block_id, payload@)
                },
                Err(e) => payload@.len() > MAX_PAYLOAD && e == WalError::InvalidPayloadSize,
            },
    {
        if payload.len() > BLOCK_SIZE - HEADER_SIZE {
            return Err(WalError::InvalidPayloadSize);
        }
        let mut frame = AlignedBlock::new();
        let header = LogHeader {
            magic: [0x41u8, 0x30u8, 0x31u8, 0x36u8],
            checksum: 0,
            sequence_id,
            target_block_id,
            payload_size: payload.len() as u32,
            _reserved: 0,
        };
        frame.copy_in(0, header.magic.as_slice());
        frame.copy_in(4, u32_to_be(header.checksum).as_slice());
        frame.copy_in(8, u64_to_be(header.sequence_id).as_slice());
        frame.copy_in(16, u64_to_be(header.target_block_id).as_slice());
        frame.copy_in(24, u32_to_be(header.payload_size).as_slice());
        // The payload starts right after the 32-byte header.
        frame.copy_in(HEADER_SIZE, payload);
        let ghost image = frame_image(sequence_id, target_block_id, payload@);
        assert(header.magic@ =~= frame_magic());
        assert(be_u32_bytes(0) =~= zero4()) by {
            assert(((0u32 >> 24u32) as u8) == 0u8 && ((0u32 >> 16u32) as u8) == 0u8 && ((0u32 >> 8u32) as u8) == 0u8) by (bit_vector);
        }
        assert(frame@ =~= image);
        // The checksum covers the whole block while its own field is zero.
        let checksum = self.compute_block_checksum(frame.as_slice());
        frame.copy_in(4, u32_to_be(checksum).as_slice());
        assert(frame@ =~= serialized_frame(sequence_id, target_block_id, payload@));
        Ok(frame)
    }

    /// Validates and unpacks a log frame: its sequence ID, target block and
    /// payload.
    fn decode_frame(&self, data: &[u8]) -> (result: Result<(u64, u64, Vec<u8>), WalError>)
        requires
            data@.len() == BLOCK_SIZE,
        ensures
            match result {
                Ok((sequence_id, target_block_id, payload)) =>
                    decoded_frame(data@) == Ok::<(u64, u64, Seq<u8>), WalError>((sequence_id, target_block_id, payload@)),
                Err(e) => decoded_frame(data@) == Err::<(u64, u64, Seq<u8>), WalError>(e),
            },
    {
        if data[0] != 0x41u8 || data[1] != 0x30u8 || data[2] != 0x31u8 || data[3] != 0x36u8 {
            assert(data@.subrange(0, 4) != frame_magic()) by {
                if data@.subrange(0, 4) == frame_magic() {
                    assert(data@.subrange(0, 4)[0] == data@[0]);
                    assert(data@.subrange(0, 4)[1] == data@[1]);
                    assert(data@.subrange(0, 4)[2] == data@[2]);
                    assert(data@.subrange(0, 4)[3] == data@[3]);
                }
            }
            return Err(WalError::InvalidMagic);
        }
        assert(data@.subrange(0, 4) =~= frame_magic());
        let stored_checksum = u32_from_be(data, 4);
        let mut validation_buffer = vstd::slice::slice_to_vec(data);
        validation_buffer[4] = 0;
        validation_buffer[5] = 0;
        validation_buffer[6] = 0;
        validation_buffer[7] = 0;
        assert(validation_buffer@ =~= with_checksum_slot(data@, zero4()));
        if stored_checksum != self.compute_block_checksum(validation_buffer.as_slice()) {
            return Err(WalError::ChecksumMismatch);
        }
        let sequence_id = u64_from_be(data, 8);
        let target_block_id = u64_from_be(data, 16);
        let payload_size = u32_from_be(data, 24) as usize;
        if payload_size > BLOCK_SIZE - HEADER_SIZE {
            return Err(WalError::InvalidPayloadSize);
        }
        let payload = vstd::slice::slice_to_vec(vstd::slice::slice_subrange(data, HEADER_SIZE, HEADER_SIZE + payload_size));
        Ok((sequence_id, target_block_id, payload))
    }

    /// The log cursor: next sequence ID and next log position.
    pub open spec fn cursor(&self) -> WalCursor {
        WalCursor { next_sequence_id: self.next_sequence_id, current_log_index: self.current_log_index }
    }

    /// Appends a frame for `payload`, targeting block `target_block_id`, at
    /// the current log position, makes it durable with a flush, and advances
    /// the cursor around the ring.
    pub fn append_log_entry(&mut self, target_block_id: u64, payload: &[u8]) -> (result: Result<(), WalError>)
        requires
            old(self).device.wf(),
            old(self).device@.write_count < u64::MAX,
            old(self).device@.flush_count < u64::MAX,
            old(self).log_start_block + old(self).current_log_index <= u64::MAX,
            append_outcome(
                old(self).device@,
                old(self).log_start_block,
                old(self).max_log_blocks,
                old(self).cursor(),
                target_block_id,
                payload@,
            ).2 is Ok ==> {
                &&& old(self).next_sequence_id < u64::MAX
                &&& old(self).max_log_blocks > 0
                &&& old(self).current_log_index < u64::MAX
            },
        ensures
            final(self).device.wf(),
            final(self).log_start_block == old(self).log_start_block,
            final(self).max_log_blocks == old(self).max_log_blocks,
            (final(self).device@, final(self).cursor(), result) == append_outcome(
                old(self).device@,
                old(self).log_start_block,
                old(self).max_log_blocks,
                old(self).cursor(),
                target_block_id,
                payload@,
            ),
    {
        let physical_block_id = self.log_start_block + self.current_log_index;
        let frame = match self.serialize_frame(self.next_sequence_id, target_block_id, payload) {
            Ok(frame) => frame,
            Err(e) => return Err(e),
        };
        // The frame is page-aligned by construction: it is written from the
        // address recorded when its buffer was laid out.
        if let Err(e) = self.device.write_block_at(physical_block_id, frame.as_slice(), frame.address()) {
            return Err(WalError::from(e));
        }
        // Flush the log to stable storage so the entry survives a crash.
        if let Err(e) = self.device.flush() {
            return Err(WalError::from(e));
        }
        self.next_sequence_id = self.next_sequence_id + 1;
        self.current_log_index = (self.current_log_index + 1) % self.max_log_blocks;
        Ok(())
    }

    /// Scans the log region in order: collects the valid frames, skips
    /// unused (all-zero) blocks, and stops at the first corrupt block, whose
    /// decoding error it returns beside the frames found before it.
    fn scan_log_region(&mut self) -> (result: Result<(Vec<WalRecord>, Option<WalError>), BlockDeviceError>)
        requires
            old(self).device.wf(),
        ensures
            final(self).device.wf(),
            final(self).device@ == old(self).device@,
            final(self).next_sequence_id == old(self).next_sequence_id,
            final(self).log_start_block == old(self).log_start_block,
            final(self).current_log_index == old(self).current_log_index,
            final(self).max_log_blocks == old(self).max_log_blocks,
            match result {
                Err(e) => scan_log(old(self).device@, old(self).log_start_block, old(self).max_log_blocks as nat)
                    == ScanState::Failed(e),
                Ok((records, None)) => scan_log(old(self).device@, old(self).log_start_block, old(self).max_log_blocks as nat)
                    == ScanState::Scanning(entries_of(records@)),
                Ok((records, Some(e))) => scan_log(old(self).device@, old(self).log_start_block, old(self).max_log_blocks as nat)
                    == ScanState::Corrupted(entries_of(records@), e),
            },
    {
        let ghost v = self.device@;
        let mut records: Vec<WalRecord> = Vec::new();
        let mut scratch_pad = AlignedBlock::new();
        let mut relative_idx: u64 = 0;
        assert(entries_of(records@) =~= Seq::<LogEntry>::empty());
        while relative_idx < self.max_log_blocks
            invariant
                self.device.wf(),
                self.device@ == v,
                v == old(self).device@,
                self.next_sequence_id == old(self).next_sequence_id,
                self.log_start_block == old(self).log_start_block,
                self.current_log_index == old(self).current_log_index,
                self.max_log_blocks == old(self).max_log_blocks,
                scratch_pad.wf(),
                relative_idx <= self.max_log_blocks,
                scan_log(v, self.log_start_block, relative_idx as nat) == ScanState::Scanning(entries_of(records@)),
            decreases self.max_log_blocks - relative_idx,
        {
            proof {
                self.device.lemma_valid();
                scratch_pad.lemma_len();
                if relative_idx > 0 {
                    lemma_scan_in_range(v, self.log_start_block, relative_idx as nat);
                }
            }
            let physical_block_id = self.log_start_block + relative_idx;
            let ghost found = entries_of(records@);
            let read = scratch_pad.read_from_device(&mut self.device, physical_block_id);
            let ghost step = scan_step(v, self.log_start_block, relative_idx as nat, found);
            assert(read_outcome(v, physical_block_id, filled_block(0), true).1 == read);
            if let Err(e) = read {
                proof {
                    assert(step == ScanState::Failed(e));
                    lemma_scan_stops(v, self.log_start_block, (relative_idx + 1) as nat, self.max_log_blocks as nat);
                }
                return Err(e);
            }
            assert(scratch_pad@ == read_outcome(v, physical_block_id, filled_block(0), true).0);
            match self.decode_frame(scratch_pad.as_slice()) {
                Ok((sequence_id, target_block_id, payload)) => {
                    records.push(WalRecord { sequence_id, target_block_id, payload, log_index: relative_idx });
                    assert(entries_of(records@) =~= found.push(LogEntry {
                        sequence_id,
                        target_block_id,
                        payload: payload@,
                        log_index: relative_idx,
                    }));
                },
                Err(e) => {
                    let unused = match e {
                        WalError::InvalidMagic => all_zero(scratch_pad.as_slice()),
                        _ => false,
                    };
                    proof {
                        if unused {
                            assert(scratch_pad@ =~= filled_block(0));
                        } else if e == WalError::InvalidMagic {
                            assert(scratch_pad@ != filled_block(0)) by {
                                if scratch_pad@ == filled_block(0) {
                                    assert(forall|i: int| 0 <= i < scratch_pad@.len() ==> scratch_pad@[i] == 0);
                                }
                            }
                        }
                    }
                    if !unused {
                        // Recovery boundary reached (torn write or bit rot).
                        proof {
                            assert(step == ScanState::Corrupted(found, e));
                            lemma_scan_stops(v, self.log_start_block, (relative_idx + 1) as nat, self.max_log_blocks as nat);
                        }
                        return Ok((records, Some(e)));
                    }
                },
            }
            relative_idx = relative_idx + 1;
        }
        Ok((records, None))
    }

    /// Arranges the scanned frames in replay order: by sequence ID, and in
    /// scan order among equal sequence IDs (a stable sort by sequence ID).
    fn order_for_replay(records: Vec<WalRecord>) -> (ordered: Vec<WalRecord>)
        requires
            forall|i: int, j: int| 0 <= i < j < records@.len() ==> records@[i].log_index < records@[j].log_index,
        ensures
            in_replay_order(entries_of(ordered@)),
            same_entries(entries_of(ordered@), entries_of(records@)),
    {
        let ghost all = entries_of(records@);
        let ghost n = all.len();
        let mut remaining = records;
        let mut ordered: Vec<WalRecord> = Vec::new();
        assert(all.subrange(0, n as int) =~= all);
        assert(entries_of(ordered@) =~= Seq::<LogEntry>::empty());
        while remaining.len() > 0
            invariant
                n == all.len(),
                forall|i: int, j: int| 0 <= i < j < n ==> (#[trigger] all[i]).log_index < (#[trigger] all[j]).log_index,
                remaining@.len() <= n,
                entries_of(remaining@) == all.subrange(0, remaining@.len() as int),
                ordered@.len() + remaining@.len() == n,
                in_replay_order(entries_of(ordered@)),
                forall|e: LogEntry| entries_of(ordered@).contains(e)
                    <==> all.subrange(remaining@.len() as int, n as int).contains(e),
            decreases remaining@.len(),
        {
            let ghost o = entries_of(ordered@);
            let ghost r = (remaining@.len() - 1) as int;
            let ghost before = remaining@;
            let record = remaining.pop().unwrap();
            let ghost e = record.entry();
            assert(record == before[r]);
            assert(entries_of(before)[r] == before[r].entry());
            assert(all.subrange(0, r + 1)[r] == all[r]);
            assert(e == all[r]);
            assert(entries_of(remaining@) =~= all.subrange(0, r));
            assert forall|k: int| 0 <= k < o.len() implies (#[trigger] o[k]).log_index != e.log_index by {
                assert(o.contains(o[k]));
                assert(all.subrange(r + 1, n as int).contains(o[k]));
                let m = choose|m: int| 0 <= m < n - r - 1 && #[trigger] all.subrange(r + 1, n as int)[m] == o[k];
                assert(all[r + 1 + m] == o[k]);
            }
            let mut pos: usize = 0;
            while pos < ordered.len() && !record_before(&record, &ordered[pos])
                invariant
                    o == entries_of(ordered@),
                    e == record.entry(),
                    pos <= ordered@.len(),
                    forall|k: int| 0 <= k < pos ==> !replays_before(e, #[trigger] o[k]),
                decreases ordered@.len() - pos,
            {
                pos = pos + 1;
            }
            proof {
                assert forall|k: int| 0 <= k < pos implies replays_before(#[trigger] o[k], e) by {
                    assert(!replays_before(e, o[k]));
                    assert(o[k].log_index != e.log_index);
                }
                lemma_insert_in_order(o, e, pos as int);
            }
            ordered.insert(pos, record);
            assert(entries_of(ordered@) =~= o.insert(pos as int, e));
            assert forall|x: LogEntry| entries_of(ordered@).contains(x)
                <==> all.subrange(r, n as int).contains(x) by {
                let o2 = o.insert(pos as int, e);
                if o2.contains(x) {
                    let k = choose|k: int| 0 <= k < o2.len() && #[trigger] o2[k] == x;
                    if k != pos {
                        let kk = if k < pos { k } else { k - 1 };
                        assert(o[kk] == x);
                        assert(o.contains(x));
                        assert(all.subrange(r + 1, n as int).contains(x));
                        let m = choose|m: int| 0 <= m < n - r - 1 && #[trigger] all.subrange(r + 1, n as int)[m] == x;
                        assert(all.subrange(r, n as int)[m + 1] == x);
                    } else {
                        assert(all.subrange(r, n as int)[0] == x);
                    }
                }
                if all.subrange(r, n as int).contains(x) {
                    let m = choose|m: int| 0 <= m < n - r && #[trigger] all.subrange(r, n as int)[m] == x;
                    if m == 0 {
                        assert(o2[pos as int] == x);
                    } else {
                        assert(all.subrange(r + 1, n as int)[m - 1] == x);
                        assert(all.subrange(r + 1, n as int).contains(x));
                        assert(o.contains(x));
                        let k = choose|k: int| 0 <= k < o.len() && #[trigger] o[k] == x;
                        if k < pos {
                            assert(o2[k] == x);
                        } else {
                            assert(o2[k + 1] == x);
                        }
                    }
                }
            }
        }
        assert(all.subrange(0, n as int) =~= all);
        ordered
    }

    /// Writes each record's payload, zero-padded to a block, to its target
    /// block, in order; stops at the first device error.
    fn replay(&mut self, ordered: &Vec<WalRecord>) -> (result: Result<(), BlockDeviceError>)
        requires
            old(self).device.wf(),
            old(self).device@.write_count + ordered@.len() <= u64::MAX,
            forall|i: int| 0 <= i < ordered@.len() ==> (#[trigger] ordered@[i]).payload@.len() <= MAX_PAYLOAD,
        ensures
            final(self).device.wf(),
            final(self).next_sequence_id == old(self).next_sequence_id,
            final(self).log_start_block == old(self).log_start_block,
            final(self).current_log_index == old(self).current_log_index,
            final(self).max_log_blocks == old(self).max_log_blocks,
            final(self).device@.flush_count == old(self).device@.flush_count,
            final(self).device@.write_count <= old(self).device@.write_count + ordered@.len(),
            (final(self).device@, result) == replay_outcome(old(self).device@, entries_of(ordered@)),
    {
        let ghost v = self.device@;
        let ghost all = entries_of(ordered@);
        let mut i: usize = 0;
        assert(all.subrange(0, 0) =~= Seq::<LogEntry>::empty());
        while i < ordered.len()
            invariant
                self.device.wf(),
                v == old(self).device@,
                all == entries_of(ordered@),
                self.next_sequence_id == old(self).next_sequence_id,
                self.log_start_block == old(self).log_start_block,
                self.current_log_index == old(self).current_log_index,
                self.max_log_blocks == old(self).max_log_blocks,
                v.write_count + ordered@.len() <= u64::MAX,
                forall|k: int| 0 <= k < ordered@.len() ==> (#[trigger] ordered@[k]).payload@.len() <= MAX_PAYLOAD,
                i <= ordered@.len(),
                self.device@.write_count <= v.write_count + i,
                self.device@.flush_count == v.flush_count,
                (self.device@, Ok::<(), BlockDeviceError>(())) == replay_outcome(v, all.subrange(0, i as int)),
            decreases ordered@.len() - i,
        {
            let record = &ordered[i];
            let mut db_write_buffer = AlignedBlock::new();
            db_write_buffer.copy_in(0, record.payload.as_slice());
            assert(db_write_buffer@ =~= padded_block(record.payload@));
            let written = self.device.write_block_at(
                record.target_block_id,
                db_write_buffer.as_slice(),
                db_write_buffer.address(),
            );
            proof {
                let prefix = all.subrange(0, i + 1);
                assert(prefix.drop_last() =~= all.subrange(0, i as int));
                assert(prefix.last() == record.entry());
            }
            if let Err(e) = written {
                proof {
                    lemma_replay_stops(v, all, i + 1);
                }
                return Err(e);
            }
            i = i + 1;
        }
        assert(all.subrange(0, i as int) =~= all);
        Ok(())
    }

    /// Scans the log region, validates every frame, and replays the valid
    /// entries in sequence order to their target blocks; stops scanning at
    /// the first corrupt frame (a torn write or bit rot). Then makes the
    /// replay durable and moves the cursor past the last replayed entry.
    pub fn recover(&mut self) -> (result: Result<RecoveryReport, WalError>)
        requires
            old(self).device.wf(),
            old(self).device@.write_count + old(self).max_log_blocks <= u64::MAX,
            old(self).device@.flush_count < u64::MAX,
            !recovery_overflows(old(self).device@, old(self).log_start_block, old(self).max_log_blocks),
        ensures
            final(self).device.wf(),
            final(self).log_start_block == old(self).log_start_block,
            final(self).max_log_blocks == old(self).max_log_blocks,
            (final(self).device@, final(self).cursor(), result) == recover_outcome(
                old(self).device@,
                old(self).log_start_block,
                old(self).max_log_blocks,
                old(self).cursor(),
            ),
    {
        let ghost v = self.device@;
        let ghost scan = scan_log(v, self.log_start_block, self.max_log_blocks as nat);
        proof {
            self.device.lemma_valid();
            lemma_scan_entries(v, self.log_start_block, self.max_log_blocks as nat);
        }
        // 1. Linear scan across the log region.
        let (records, corruption_detected) = match self.scan_log_region() {
            Err(e) => return Err(WalError::from(e)),
            Ok((records, None)) => (records, false),
            Ok((records, Some(_))) => (records, true),
        };
        let ghost found = entries_of(records@);
        assert(found == scan_found(scan));
        assert forall|i: int, j: int| 0 <= i < j < records@.len() implies
            records@[i].log_index < records@[j].log_index by {
            assert(found[i] == records@[i].entry());
            assert(found[j] == records@[j].entry());
        }
        // 2. Arrange the entries in sequence order.
        let ordered = Self::order_for_replay(records);
        let ghost order = entries_of(ordered@);
        proof {
            assert(in_replay_order(order) && same_entries(order, found));
            let chosen = replay_order(found);
            assert(in_replay_order(chosen) && same_entries(chosen, found));
            lemma_replay_order_unique(order, chosen);
            assert forall|i: int| 0 <= i < ordered@.len() implies
                (#[trigger] ordered@[i]).payload@.len() <= MAX_PAYLOAD && ordered@[i].log_index < self.max_log_blocks by {
                assert(order[i] == ordered@[i].entry());
                assert(order.contains(order[i]));
                assert(found.contains(order[i]));
                let j = choose|j: int| 0 <= j < found.len() && #[trigger] found[j] == order[i];
                assert(found[j].payload.len() <= MAX_PAYLOAD);
            }
        }
        // 3. Replay the updates in order.
        if let Err(e) = self.replay(&ordered) {
            return Err(WalError::from(e));
        }
        // 4. Make the replay durable.
        if let Err(e) = self.device.flush() {
            return Err(WalError::from(e));
        }
        // 5. Resynchronize the cursor past the last replayed entry.
        let mut highest_valid_seq: u64 = 0;
        let mut last_physical_idx: u64 = 0;
        if ordered.len() > 0 {
            let last = &ordered[ordered.len() - 1];
            highest_valid_seq = last.sequence_id;
            last_physical_idx = last.log_index;
            assert(order.last() == last.entry());
        }
        if highest_valid_seq > 0 {
            self.next_sequence_id = highest_valid_seq + 1;
            self.current_log_index = (last_physical_idx + 1) % self.max_log_blocks;
        }
        Ok(RecoveryReport { last_sequence: highest_valid_seq, corruption_detected })
    }

    /// Whether recovery can resume numbering after every entry now in the
    /// log region: no entry that a scan finds carries the largest sequence
    /// ID. When it can, `recover` may be called. Only reads the device.
    pub fn can_resume_sequence(&mut self) -> (fits: bool)
        requires
            old(self).device.wf(),
        ensures
            final(self).device.wf(),
            final(self).device@ == old(self).device@,
            final(self).next_sequence_id == old(self).next_sequence_id,
            final(self).log_start_block == old(self).log_start_block,
            final(self).current_log_index == old(self).current_log_index,
            final(self).max_log_blocks == old(self).max_log_blocks,
            fits == (forall|i: int|
                0 <= i < scan_found(scan_log(old(self).device@, old(self).log_start_block, old(self).max_log_blocks as nat)).len()
                    ==> (#[trigger] scan_found(scan_log(old(self).device@, old(self).log_start_block, old(self).max_log_blocks as nat))[i]).sequence_id
                        < u64::MAX),
            fits ==> !recovery_overflows(old(self).device@, old(self).log_start_block, old(self).max_log_blocks),
    {
        let ghost v = self.device@;
        let ghost found = scan_found(scan_log(v, self.log_start_block, self.max_log_blocks as nat));
        proof {
            self.device.lemma_valid();
            lemma_scan_entries(v, self.log_start_block, self.max_log_blocks as nat);
            lemma_replay_order_exists(found);
        }
        let records = match self.scan_log_region() {
            Err(_) => {
                assert(found.len() == 0);
                return true;
            },
            Ok((records, _)) => records,
        };
        assert(entries_of(records@) == found);
        let mut i: usize = 0;
        while i < records.len()
            invariant
                self.device.wf(),
                self.device@ == v,
                v == old(self).device@,
                self.next_sequence_id == old(self).next_sequence_id,
                self.log_start_block == old(self).log_start_block,
                self.current_log_index == old(self).current_log_index,
                self.max_log_blocks == old(self).max_log_blocks,
                i <= records@.len(),
                found == scan_found(scan_log(v, self.log_start_block, self.max_log_blocks as nat)),
                entries_of(records@) == found,
                forall|k: int| 0 <= k < i ==> (#[trigger] found[k]).sequence_id < u64::MAX,
            decreases records@.len() - i,
        {
            assert(found[i as int] == records@[i as int].entry());
            if records[i].sequence_id == u64::MAX {
                assert(found.len() == records@.len());
                assert(scan_found(scan_log(v, self.log_start_block, self.max_log_blocks as nat))[i as int].sequence_id
                    == u64::MAX);
                return false;
            }
            i = i + 1;
        }
        proof {
            let order = replay_order(found);
            if order.len() > 0 {
                assert(order.contains(order.last()));
                assert(found.contains(order.last()));
            }
        }
        true
    }

    /// Replays every valid log entry to its target block in sequence order,
    /// makes the result durable, then wipes the log region and resets the
    /// write position, so that later recoveries do not replay stale data.
    /// A corrupt frame in the log region aborts the checkpoint with its
    /// decoding error.
    pub fn checkpoint(&mut self) -> (result: Result<(), WalError>)
        requires
            old(self).device.wf(),
            old(self).device@.write_count + 2 * old(self).max_log_blocks <= u64::MAX,
            old(self).device@.flush_count + 2 <= u64::MAX,
        ensures
            final(self).device.wf(),
            final(self).log_start_block == old(self).log_start_block,
            final(self).max_log_blocks == old(self).max_log_blocks,
            (final(self).device@, final(self).cursor(), result) == checkpoint_outcome(
                old(self).device@,
                old(self).log_start_block,
                old(self).max_log_blocks,
                old(self).cursor(),
            ),
    {
        let ghost v = self.device@;
        let ghost scan = scan_log(v, self.log_start_block, self.max_log_blocks as nat);
        proof {
            self.device.lemma_valid();
            lemma_scan_entries(v, self.log_start_block, self.max_log_blocks as nat);
        }
        // 1. Collect every pending update of the log region.
        let records = match self.scan_log_region() {
            Err(e) => return Err(WalError::from(e)),
            Ok((_, Some(e))) => return Err(e),
            Ok((records, None)) => records,
        };
        let ghost found = entries_of(records@);
        assert(found == scan_found(scan));
        assert forall|i: int, j: int| 0 <= i < j < records@.len() implies
            records@[i].log_index < records@[j].log_index by {
            assert(found[i] == records@[i].entry());
            assert(found[j] == records@[j].entry());
        }
        // 2. Arrange them in sequence order.
        let ordered = Self::order_for_replay(records);
        let ghost order = entries_of(ordered@);
        proof {
            assert(in_replay_order(order) && same_entries(order, found));
            let chosen = replay_order(found);
            assert(in_replay_order(chosen) && same_entries(chosen, found));
            lemma_replay_order_unique(order, chosen);
            assert forall|i: int| 0 <= i < ordered@.len() implies
                (#[trigger] ordered@[i]).payload@.len() <= MAX_PAYLOAD by {
                assert(order[i] == ordered@[i].entry());
                assert(order.contains(order[i]));
                assert(found.contains(order[i]));
                let j = choose|j: int| 0 <= j < found.len() && #[trigger] found[j] == order[i];
                assert(found[j].payload.len() <= MAX_PAYLOAD);
            }
        }
        // 3. Replay them to their home blocks and make that durable.
        if let Err(e) = self.replay(&ordered) {
            return Err(WalError::from(e));
        }
        if let Err(e) = self.device.flush() {
            return Err(WalError::from(e));
        }
        // 4. Clear the log so that future recoveries do not replay stale data.
        proof {
            if self.max_log_blocks > 0 {
                lemma_scan_in_range(v, self.log_start_block, self.max_log_blocks as nat);
            }
        }
        let ghost flushed = self.device@;
        let empty = AlignedBlock::new();
        let mut i: u64 = 0;
        #[verifier::loop_isolation(false)]
        while i < self.max_log_blocks
            invariant
                self.device.wf(),
                empty.wf(),
                empty@ == filled_block(0),
                self.log_start_block == old(self).log_start_block,
                self.max_log_blocks == old(self).max_log_blocks,
                self.next_sequence_id == old(self).next_sequence_id,
                self.current_log_index == old(self).current_log_index,
                self.log_start_block + self.max_log_blocks <= u64::MAX + 1,
                flushed.write_count + self.max_log_blocks <= u64::MAX,
                i <= self.max_log_blocks,
                self.device@.write_count <= flushed.write_count + i,
                self.device@.flush_count == flushed.flush_count,
                (self.device@, Ok::<(), BlockDeviceError>(())) == clear_outcome(flushed, self.log_start_block, i as nat),
            decreases self.max_log_blocks - i,
        {
            let written = self.device.write_block_at(self.log_start_block + i, empty.as_slice(), empty.address());
            if let Err(e) = written {
                proof {
                    lemma_clear_stops(flushed, self.log_start_block, (i + 1) as nat, self.max_log_blocks as nat);
                }
                return Err(WalError::from(e));
            }
            i = i + 1;
        }
        if let Err(e) = self.device.flush() {
            return Err(WalError::from(e));
        }
        // 5. Reset the write position to the start of the region.
        self.current_log_index = 0;
        Ok(())
    }
}

} // verus!
