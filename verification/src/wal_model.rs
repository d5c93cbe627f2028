use vstd::prelude::*;

use crate::aligned::{filled_block, BLOCK_SIZE};
use crate::device::{device_error_message, BlockDeviceError};
use crate::disk_model::{flush_outcome, read_outcome, write_outcome, DiskView};
use crate::frame::{
    be_u32_value, be_u64_value, crc32, frame_magic, padded_block, serialized_frame,
    with_checksum_slot, zero4, MAX_PAYLOAD,
};

verus! {

/// Errors of the write-ahead log.
#[derive(Debug, Clone, Copy, PartialEq, Eq, Structural)]
pub enum WalError {
    CorruptFrame,
    InvalidMagic,
    ChecksumMismatch,
    InvalidPayloadSize,
    Device(BlockDeviceError),
}

impl From<BlockDeviceError> for WalError {
    fn from(err: BlockDeviceError) -> (wal_err: WalError) {
        WalError::Device(err)
    }
}

impl vstd::std_specs::convert::FromSpecImpl<BlockDeviceError> for WalError {
    open spec fn obeys_from_spec() -> bool {
        true
    }

    open spec fn from_spec(err: BlockDeviceError) -> WalError {
        WalError::Device(err)
    }
}

/// The human-readable description of a write-ahead-log error.
pub open spec fn wal_error_message(e: WalError) -> Seq<char> {
    match e {
        WalError::CorruptFrame => "WAL Error: Corrupt frame"@,
        WalError::InvalidMagic => "WAL Error: Invalid magic signature"@,
        WalError::ChecksumMismatch => "WAL Error: Checksum mismatch"@,
        WalError::InvalidPayloadSize => "WAL Error: Invalid payload size"@,
        WalError::Device(d) => "WAL Error: Device failure: "@ + device_error_message(d),
    }
}

impl WalError {
    /// Provides the human-readable description of this log error.
    pub fn message(&self) -> (text: String)
        ensures
            text@ == wal_error_message(*self),
    {
        match self {
            WalError::CorruptFrame => "WAL Error: Corrupt frame".to_owned(),
            WalError::InvalidMagic => "WAL Error: Invalid magic signature".to_owned(),
            WalError::ChecksumMismatch => "WAL Error: Checksum mismatch".to_owned(),
            WalError::InvalidPayloadSize => "WAL Error: Invalid payload size".to_owned(),
            WalError::Device(d) => "WAL Error: Device failure: ".to_owned().concat(d.message()),
        }
    }
}

/// The outcome of a recovery: the highest replayed sequence ID (0 when
/// nothing was replayed) and whether the scan stopped at a corrupt frame.
#[derive(Debug, Clone, Copy, PartialEq, Eq, Structural)]
pub struct RecoveryReport {
    pub last_sequence: u64,
    pub corruption_detected: bool,
}

/// A decoded log frame found at position `log_index` of the log region.
pub struct LogEntry {
    pub sequence_id: u64,
    pub target_block_id: u64,
    pub payload: Seq<u8>,
    pub log_index: u64,
}

/// What a block of the log region holds, read as a frame: the sequence ID,
/// the target block and the payload, or why it is not a valid frame.
pub open spec fn decoded_frame(data: Seq<u8>) -> Result<(u64, u64, Seq<u8>), WalError> {
    if data.subrange(0, 4) != frame_magic() {
        Err(WalError::InvalidMagic)
    } else if be_u32_value(data.subrange(4, 8)) != crc32(with_checksum_slot(data, zero4())) {
        Err(WalError::ChecksumMismatch)
    } else {
        let size = be_u32_value(data.subrange(24, 28));
        if size > MAX_PAYLOAD {
            Err(WalError::InvalidPayloadSize)
        } else {
            Ok((
                be_u64_value(data.subrange(8, 16)),
                be_u64_value(data.subrange(16, 24)),
                data.subrange(32, 32 + size),
            ))
        }
    }
}

/// The state of a scan of the log region.
pub enum ScanState {
    /// Still scanning; the valid frames found so far.
    Scanning(Seq<LogEntry>),
    /// Stopped at a block that is neither a valid frame nor unused space.
    Corrupted(Seq<LogEntry>, WalError),
    /// The device refused a read.
    Failed(BlockDeviceError),
}

/// Scanning position `i` of the log region that starts at block `start`:
/// the block is read (into a zeroed page-aligned buffer) and decoded; an
/// all-zero block is unused space and is skipped.
pub open spec fn scan_step(v: DiskView, start: u64, i: nat, found: Seq<LogEntry>) -> ScanState {
    let (block, read) = read_outcome(v, (start + i) as u64, filled_block(0), true);
    match read {
        Err(e) => ScanState::Failed(e),
        Ok(_) => match decoded_frame(block) {
            Ok((sequence_id, target_block_id, payload)) => ScanState::Scanning(
                found.push(LogEntry { sequence_id, target_block_id, payload, log_index: i as u64 }),
            ),
            Err(e) => if e == WalError::InvalidMagic && block == filled_block(0) {
                ScanState::Scanning(found)
            } else {
                ScanState::Corrupted(found, e)
            },
        },
    }
}

/// The scan of the first `n` positions of the log region, in order,
/// stopping at the first corrupt block or device error.
pub open spec fn scan_log(v: DiskView, start: u64, n: nat) -> ScanState
    decreases n,
{
    if n == 0 {
        ScanState::Scanning(Seq::empty())
    } else {
        match scan_log(v, start, (n - 1) as nat) {
            ScanState::Scanning(found) => scan_step(v, start, (n - 1) as nat, found),
            other => other,
        }
    }
}

/// Replay order: by sequence ID, and among equal sequence IDs by position
/// in the log region (the order of the scan).
pub open spec fn replays_before(a: LogEntry, b: LogEntry) -> bool {
    a.sequence_id < b.sequence_id || (a.sequence_id == b.sequence_id && a.log_index < b.log_index)
}

/// `s` is strictly increasing in replay order.
pub open spec fn in_replay_order(s: Seq<LogEntry>) -> bool {
    forall|i: int, j: int| 0 <= i < j < s.len() ==> replays_before(#[trigger] s[i], #[trigger] s[j])
}

/// `s` holds the same entries as `entries`.
pub open spec fn same_entries(s: Seq<LogEntry>, entries: Seq<LogEntry>) -> bool {
    &&& s.len() == entries.len()
    &&& forall|e: LogEntry| s.contains(e) <==> entries.contains(e)
}

/// The entries found by a scan, arranged in replay order.
pub open spec fn replay_order(entries: Seq<LogEntry>) -> Seq<LogEntry> {
    choose|s: Seq<LogEntry>| in_replay_order(s) && same_entries(s, entries)
}

/// Writing each entry's payload (zero-padded to a block) to its target block,
/// in order, stopping at the first device error.
pub open spec fn replay_outcome(v: DiskView, entries: Seq<LogEntry>) -> (DiskView, Result<(), BlockDeviceError>)
    decreases entries.len(),
{
    if entries.len() == 0 {
        (v, Ok(()))
    } else {
        let (before, result) = replay_outcome(v, entries.drop_last());
        match result {
            Err(e) => (before, Err(e)),
            Ok(_) => write_outcome(
                before,
                entries.last().target_block_id,
                padded_block(entries.last().payload),
                true,
            ),
        }
    }
}

/// Writing a zero block to the first `n` blocks of the log region, in
/// order, stopping at the first device error.
pub open spec fn clear_outcome(v: DiskView, start: u64, n: nat) -> (DiskView, Result<(), BlockDeviceError>)
    decreases n,
{
    if n == 0 {
        (v, Ok(()))
    } else {
        let (before, result) = clear_outcome(v, start, (n - 1) as nat);
        match result {
            Err(e) => (before, Err(e)),
            Ok(_) => write_outcome(before, (start + n - 1) as u64, filled_block(0), true),
        }
    }
}

/// The manager's log state: the next sequence ID and the next log position.
pub struct WalCursor {
    pub next_sequence_id: u64,
    pub current_log_index: u64,
}

/// What `append_log_entry` does: the device, the cursor and the result.
pub open spec fn append_outcome(
    v: DiskView,
    log_start_block: u64,
    max_log_blocks: u64,
    cursor: WalCursor,
    target_block_id: u64,
    payload: Seq<u8>,
) -> (DiskView, WalCursor, Result<(), WalError>) {
    if payload.len() > MAX_PAYLOAD {
        (v, cursor, Err(WalError::InvalidPayloadSize))
    } else {
        let frame = serialized_frame(cursor.next_sequence_id, target_block_id, payload);
        let physical_block_id = (log_start_block + cursor.current_log_index) as u64;
        let (written, write_result) = write_outcome(v, physical_block_id, frame, true);
        match write_result {
            Err(e) => (written, cursor, Err(WalError::Device(e))),
            Ok(_) => {
                let (flushed, flush_result) = flush_outcome(written);
                match flush_result {
                    Err(e) => (flushed, cursor, Err(WalError::Device(e))),
                    Ok(_) => (
                        flushed,
                        WalCursor {
                            next_sequence_id: (cursor.next_sequence_id + 1) as u64,
                            current_log_index: ((cursor.current_log_index + 1) % (max_log_blocks as int)) as u64,
                        },
                        Ok(()),
                    ),
                }
            },
        }
    }
}

/// Replaying `found` (in replay order) and making it durable, then
/// resynchronizing the cursor past the last replayed entry.
pub open spec fn finish_recovery(
    v: DiskView,
    max_log_blocks: u64,
    cursor: WalCursor,
    found: Seq<LogEntry>,
    corruption_detected: bool,
) -> (DiskView, WalCursor, Result<RecoveryReport, WalError>) {
    let order = replay_order(found);
    let (replayed, replay_result) = replay_outcome(v, order);
    match replay_result {
        Err(e) => (replayed, cursor, Err(WalError::Device(e))),
        Ok(_) => {
            let (flushed, flush_result) = flush_outcome(replayed);
            match flush_result {
                Err(e) => (flushed, cursor, Err(WalError::Device(e))),
                Ok(_) => {
                    let last_sequence: u64 = if order.len() > 0 { order.last().sequence_id } else { 0 };
                    let new_cursor = if last_sequence > 0 {
                        WalCursor {
                            next_sequence_id: (last_sequence + 1) as u64,
                            current_log_index: ((order.last().log_index + 1) % (max_log_blocks as int)) as u64,
                        }
                    } else {
                        cursor
                    };
                    (flushed, new_cursor, Ok(RecoveryReport { last_sequence, corruption_detected }))
                },
            }
        },
    }
}

/// Recovery would replay and flush successfully and then find that the last
/// replayed entry carries the largest sequence ID, past which no next
/// sequence ID can be counted.
pub open spec fn recovery_overflows(v: DiskView, log_start_block: u64, max_log_blocks: u64) -> bool {
    match scan_log(v, log_start_block, max_log_blocks as nat) {
        ScanState::Failed(_) => false,
        state => {
            let order = replay_order(scan_found(state));
            let (replayed, replay_result) = replay_outcome(v, order);
            &&& replay_result is Ok
            &&& flush_outcome(replayed).1 is Ok
            &&& order.len() > 0
            &&& order.last().sequence_id == u64::MAX
        },
    }
}

/// What `recover` does: the device, the cursor and the result.
pub open spec fn recover_outcome(
    v: DiskView,
    log_start_block: u64,
    max_log_blocks: u64,
    cursor: WalCursor,
) -> (DiskView, WalCursor, Result<RecoveryReport, WalError>) {
    match scan_log(v, log_start_block, max_log_blocks as nat) {
        ScanState::Failed(e) => (v, cursor, Err(WalError::Device(e))),
        ScanState::Scanning(found) => finish_recovery(v, max_log_blocks, cursor, found, false),
        ScanState::Corrupted(found, _) => finish_recovery(v, max_log_blocks, cursor, found, true),
    }
}

/// What `checkpoint` does: the device, the cursor and the result.
pub open spec fn checkpoint_outcome(
    v: DiskView,
    log_start_block: u64,
    max_log_blocks: u64,
    cursor: WalCursor,
) -> (DiskView, WalCursor, Result<(), WalError>) {
    match scan_log(v, log_start_block, max_log_blocks as nat) {
        ScanState::Failed(e) => (v, cursor, Err(WalError::Device(e))),
        ScanState::Corrupted(_, e) => (v, cursor, Err(e)),
        ScanState::Scanning(found) => {
            let (replayed, replay_result) = replay_outcome(v, replay_order(found));
            match replay_result {
                Err(e) => (replayed, cursor, Err(WalError::Device(e))),
                Ok(_) => {
                    let (flushed, flush_result) = flush_outcome(replayed);
                    match flush_result {
                        Err(e) => (flushed, cursor, Err(WalError::Device(e))),
                        Ok(_) => {
                            let (cleared, clear_result) = clear_outcome(flushed, log_start_block, max_log_blocks as nat);
                            match clear_result {
                                Err(e) => (cleared, cursor, Err(WalError::Device(e))),
                                Ok(_) => {
                                    let (done, done_result) = flush_outcome(cleared);
                                    match done_result {
                                        Err(e) => (done, cursor, Err(WalError::Device(e))),
                                        Ok(_) => (done, WalCursor { current_log_index: 0, ..cursor }, Ok(())),
                                    }
                                },
                            }
                        },
                    }
                },
            }
        },
    }
}

/// The entries a scan state holds (none after a device error).
pub open spec fn scan_found(state: ScanState) -> Seq<LogEntry> {
    match state {
        ScanState::Scanning(found) => found,
        ScanState::Corrupted(found, _) => found,
        ScanState::Failed(_) => Seq::empty(),
    }
}

/// A scan that has stopped stays stopped: scanning further positions does
/// not change its state.
pub proof fn lemma_scan_stops(v: DiskView, start: u64, k: nat, n: nat)
    requires
        k <= n,
        !(scan_log(v, start, k) is Scanning),
    ensures
        scan_log(v, start, n) == scan_log(v, start, k),
    decreases n - k,
{
    if k < n {
        lemma_scan_stops(v, start, k, (n - 1) as nat);
    }
}

/// A scan still going after `n` positions has read every one of them, so
/// they all lie on the disk.
pub proof fn lemma_scan_in_range(v: DiskView, start: u64, n: nat)
    requires
        v.valid(),
        0 < n,
        scan_log(v, start, n) is Scanning,
    ensures
        start + n - 1 < v.capacity(),
    decreases n,
{
    let prev = scan_log(v, start, (n - 1) as nat);
    assert(prev is Scanning);
    if n > 1 {
        lemma_scan_in_range(v, start, (n - 1) as nat);
    }
    assert(start + n - 1 <= u64::MAX);
    let block_id = (start + n - 1) as u64;
    assert(block_id == start + n - 1);
    assert(read_outcome(v, block_id, filled_block(0), true).1 is Ok);
}

/// The entries come in increasing log position, below `n`, and carry
/// payloads that fit a frame.
pub open spec fn entries_well_placed(entries: Seq<LogEntry>, n: nat) -> bool {
    &&& entries.len() <= n
    &&& forall|i: int, j: int| 0 <= i < j < entries.len()
        ==> (#[trigger] entries[i]).log_index < (#[trigger] entries[j]).log_index
    &&& forall|i: int| 0 <= i < entries.len() ==> (#[trigger] entries[i]).log_index < n
    &&& forall|i: int| 0 <= i < entries.len() ==> (#[trigger] entries[i]).payload.len() <= MAX_PAYLOAD
}

proof fn lemma_scan_step_entries(v: DiskView, start: u64, i: nat, found: Seq<LogEntry>)
    requires
        v.valid(),
        i < u64::MAX,
        entries_well_placed(found, i),
    ensures
        entries_well_placed(scan_found(scan_step(v, start, i, found)), i + 1),
{
    let (block, read) = read_outcome(v, (start + i) as u64, filled_block(0), true);
    if read is Ok {
        assert(block.len() == BLOCK_SIZE);
        if let Ok((sequence_id, target_block_id, payload)) = decoded_frame(block) {
            let now = found.push(LogEntry { sequence_id, target_block_id, payload, log_index: i as u64 });
            assert(scan_found(scan_step(v, start, i, found)) == now);
            assert forall|a: int, b: int| 0 <= a < b < now.len() implies
                (#[trigger] now[a]).log_index < (#[trigger] now[b]).log_index by {
                assert(found[a].log_index < i);
                if b < found.len() {
                    assert(found[a].log_index < found[b].log_index);
                }
            }
            assert forall|a: int| 0 <= a < now.len() implies (#[trigger] now[a]).log_index < i + 1 by {
                if a < found.len() {
                    assert(found[a].log_index < i);
                }
            }
            assert forall|a: int| 0 <= a < now.len() implies (#[trigger] now[a]).payload.len() <= MAX_PAYLOAD by {
                if a < found.len() {
                    assert(found[a].payload.len() <= MAX_PAYLOAD);
                }
            }
        }
    }
}

/// The entries of a scan of `n` positions come in increasing log position,
/// below `n`, and carry payloads that fit a frame.
pub proof fn lemma_scan_entries(v: DiskView, start: u64, n: nat)
    requires
        v.valid(),
        n <= u64::MAX,
    ensures
        entries_well_placed(scan_found(scan_log(v, start, n)), n),
    decreases n,
{
    if n > 0 {
        lemma_scan_entries(v, start, (n - 1) as nat);
        let prev = scan_log(v, start, (n - 1) as nat);
        if let ScanState::Scanning(found) = prev {
            lemma_scan_step_entries(v, start, (n - 1) as nat, found);
        } else {
            let found = scan_found(prev);
            assert forall|a: int| 0 <= a < found.len() implies (#[trigger] found[a]).log_index < n by {
                assert(found[a].log_index < n - 1);
            }
        }
    }
}

/// Two sequences in replay order holding the same entries are equal.
pub proof fn lemma_replay_order_unique(s1: Seq<LogEntry>, s2: Seq<LogEntry>)
    requires
        in_replay_order(s1),
        in_replay_order(s2),
        forall|e: LogEntry| s1.contains(e) <==> s2.contains(e),
    ensures
        s1 == s2,
    decreases s1.len(),
{
    if s1.len() == 0 {
        if s2.len() > 0 {
            assert(s2.contains(s2[0]));
        }
        assert(s1 =~= s2);
    } else {
        assert(s1.contains(s1[0]));
        assert(s2.len() > 0);
        assert(s2.contains(s2[0]));
        let i = choose|i: int| 0 <= i < s1.len() && s1[i] == s2[0];
        let j = choose|j: int| 0 <= j < s2.len() && s2[j] == s1[0];
        if i > 0 && j > 0 {
            assert(replays_before(s1[0], s1[i]));
            assert(replays_before(s2[0], s2[j]));
        }
        if i > 0 && j == 0 {
            assert(replays_before(s1[0], s1[i]));
        }
        if i == 0 && j > 0 {
            assert(replays_before(s2[0], s2[j]));
        }
        assert(s1[0] == s2[0]);
        let t1 = s1.drop_first();
        let t2 = s2.drop_first();
        assert forall|e: LogEntry| t1.contains(e) <==> t2.contains(e) by {
            if t1.contains(e) {
                let k = choose|k: int| 0 <= k < t1.len() && t1[k] == e;
                assert(s1[k + 1] == e);
                assert(replays_before(s1[0], s1[k + 1]));
                assert(s2.contains(e));
                let m = choose|m: int| 0 <= m < s2.len() && s2[m] == e;
                assert(m != 0);
                assert(t2[m - 1] == e);
            }
            if t2.contains(e) {
                let k = choose|k: int| 0 <= k < t2.len() && t2[k] == e;
                assert(s2[k + 1] == e);
                assert(replays_before(s2[0], s2[k + 1]));
                assert(s1.contains(e));
                let m = choose|m: int| 0 <= m < s1.len() && s1[m] == e;
                assert(m != 0);
                assert(t1[m - 1] == e);
            }
        }
        assert forall|a: int, b: int| 0 <= a < b < t1.len() implies replays_before(#[trigger] t1[a], #[trigger] t1[b]) by {
            assert(t1[a] == s1[a + 1] && t1[b] == s1[b + 1]);
        }
        assert forall|a: int, b: int| 0 <= a < b < t2.len() implies replays_before(#[trigger] t2[a], #[trigger] t2[b]) by {
            assert(t2[a] == s2[a + 1] && t2[b] == s2[b + 1]);
        }
        lemma_replay_order_unique(t1, t2);
        assert(s1.len() == s2.len());
        assert forall|k: int| 0 <= k < s1.len() implies s1[k] == s2[k] by {
            if k > 0 {
                assert(s1[k] == t1[k - 1]);
                assert(s2[k] == t2[k - 1]);
            }
        }
        assert(s1 =~= s2);
    }
}

/// A replay that fails on a prefix of the entries fails the same way on all
/// of them.
pub proof fn lemma_replay_stops(v: DiskView, entries: Seq<LogEntry>, k: int)
    requires
        0 <= k <= entries.len(),
        replay_outcome(v, entries.subrange(0, k)).1 is Err,
    ensures
        replay_outcome(v, entries) == replay_outcome(v, entries.subrange(0, k)),
    decreases entries.len() - k,
{
    if k < entries.len() {
        assert(entries.drop_last().subrange(0, k) =~= entries.subrange(0, k));
        lemma_replay_stops(v, entries.drop_last(), k);
    } else {
        assert(entries.subrange(0, k) =~= entries);
    }
}

/// Clearing that fails on the first `k` log blocks fails the same way on
/// `n` of them.
pub proof fn lemma_clear_stops(v: DiskView, start: u64, k: nat, n: nat)
    requires
        k <= n,
        clear_outcome(v, start, k).1 is Err,
    ensures
        clear_outcome(v, start, n) == clear_outcome(v, start, k),
    decreases n - k,
{
    if k < n {
        lemma_clear_stops(v, start, k, (n - 1) as nat);
    }
}

/// `s` with `e` placed before the first entry it is replayed before.
pub open spec fn insert_in_order(s: Seq<LogEntry>, e: LogEntry) -> Seq<LogEntry>
    decreases s.len(),
{
    if s.len() == 0 {
        seq![e]
    } else if replays_before(e, s[0]) {
        seq![e] + s
    } else {
        seq![s[0]] + insert_in_order(s.drop_first(), e)
    }
}

/// The entries of `s` sorted into replay order by insertion.
pub open spec fn sorted_by_insertion(s: Seq<LogEntry>) -> Seq<LogEntry>
    decreases s.len(),
{
    if s.len() == 0 {
        Seq::empty()
    } else {
        insert_in_order(sorted_by_insertion(s.drop_last()), s.last())
    }
}

proof fn lemma_insert_in_order(s: Seq<LogEntry>, e: LogEntry)
    requires
        in_replay_order(s),
        forall|i: int| 0 <= i < s.len() ==> (#[trigger] s[i]).log_index != e.log_index,
    ensures
        in_replay_order(insert_in_order(s, e)),
        insert_in_order(s, e).len() == s.len() + 1,
        forall|x: LogEntry| #[trigger] insert_in_order(s, e).contains(x) <==> (s.contains(x) || x == e),
    decreases s.len(),
{
    let r = insert_in_order(s, e);
    if s.len() == 0 {
        assert(r =~= seq![e]);
        assert forall|x: LogEntry| r.contains(x) <==> (s.contains(x) || x == e) by {
            if r.contains(x) {
                assert(r[0] == x);
            }
            if x == e {
                assert(r[0] == x);
            }
        }
    } else if replays_before(e, s[0]) {
        assert forall|i: int, j: int| 0 <= i < j < r.len() implies replays_before(#[trigger] r[i], #[trigger] r[j]) by {
            if i == 0 {
                assert(r[j] == s[j - 1]);
                if j - 1 > 0 {
                    assert(replays_before(s[0], s[j - 1]));
                }
            } else {
                assert(r[i] == s[i - 1] && r[j] == s[j - 1]);
            }
        }
        assert forall|x: LogEntry| r.contains(x) <==> (s.contains(x) || x == e) by {
            if r.contains(x) {
                let k = choose|k: int| 0 <= k < r.len() && #[trigger] r[k] == x;
                if k > 0 {
                    assert(s[k - 1] == x);
                }
            }
            if s.contains(x) {
                let k = choose|k: int| 0 <= k < s.len() && #[trigger] s[k] == x;
                assert(r[k + 1] == x);
            }
            if x == e {
                assert(r[0] == x);
            }
        }
    } else {
        let t = s.drop_first();
        assert forall|i: int, j: int| 0 <= i < j < t.len() implies replays_before(#[trigger] t[i], #[trigger] t[j]) by {
            assert(t[i] == s[i + 1] && t[j] == s[j + 1]);
        }
        assert forall|i: int| 0 <= i < t.len() implies (#[trigger] t[i]).log_index != e.log_index by {
            assert(t[i] == s[i + 1]);
        }
        lemma_insert_in_order(t, e);
        let rt = insert_in_order(t, e);
        assert(s[0].log_index != e.log_index);
        assert(replays_before(s[0], e));
        assert forall|i: int, j: int| 0 <= i < j < r.len() implies replays_before(#[trigger] r[i], #[trigger] r[j]) by {
            if i == 0 {
                assert(r[j] == rt[j - 1]);
                assert(rt.contains(rt[j - 1]));
                if rt[j - 1] != e {
                    assert(t.contains(rt[j - 1]));
                    let k = choose|k: int| 0 <= k < t.len() && #[trigger] t[k] == rt[j - 1];
                    assert(s[k + 1] == t[k]);
                }
            } else {
                assert(r[i] == rt[i - 1] && r[j] == rt[j - 1]);
            }
        }
        assert forall|x: LogEntry| r.contains(x) <==> (s.contains(x) || x == e) by {
            if r.contains(x) {
                let k = choose|k: int| 0 <= k < r.len() && #[trigger] r[k] == x;
                if k == 0 {
                    assert(s[0] == x);
                } else {
                    assert(rt[k - 1] == x);
                    assert(rt.contains(x));
                    if x != e {
                        assert(t.contains(x));
                        let m = choose|m: int| 0 <= m < t.len() && #[trigger] t[m] == x;
                        assert(s[m + 1] == x);
                    }
                }
            }
            if s.contains(x) {
                let k = choose|k: int| 0 <= k < s.len() && #[trigger] s[k] == x;
                if k == 0 {
                    assert(r[0] == x);
                } else {
                    assert(t[k - 1] == x);
                    assert(t.contains(x));
                    assert(rt.contains(x));
                    let m = choose|m: int| 0 <= m < rt.len() && #[trigger] rt[m] == x;
                    assert(r[m + 1] == x);
                }
            }
            if x == e {
                assert(rt.contains(e));
                let m = choose|m: int| 0 <= m < rt.len() && #[trigger] rt[m] == e;
                assert(r[m + 1] == e);
            }
        }
    }
}

/// Entries with pairwise distinct log positions can be arranged in replay
/// order: `replay_order` then holds exactly those entries, in that order.
pub proof fn lemma_replay_order_exists(entries: Seq<LogEntry>)
    requires
        forall|i: int, j: int| 0 <= i < j < entries.len()
            ==> (#[trigger] entries[i]).log_index != (#[trigger] entries[j]).log_index,
    ensures
        in_replay_order(replay_order(entries)),
        same_entries(replay_order(entries), entries),
    decreases entries.len(),
{
    lemma_sorted_by_insertion(entries);
}

proof fn lemma_sorted_by_insertion(entries: Seq<LogEntry>)
    requires
        forall|i: int, j: int| 0 <= i < j < entries.len()
            ==> (#[trigger] entries[i]).log_index != (#[trigger] entries[j]).log_index,
    ensures
        in_replay_order(sorted_by_insertion(entries)),
        same_entries(sorted_by_insertion(entries), entries),
    decreases entries.len(),
{
    if entries.len() > 0 {
        let prefix = entries.drop_last();
        let e = entries.last();
        assert forall|i: int, j: int| 0 <= i < j < prefix.len()
            implies (#[trigger] prefix[i]).log_index != (#[trigger] prefix[j]).log_index by {
            assert(prefix[i] == entries[i] && prefix[j] == entries[j]);
        }
        lemma_sorted_by_insertion(prefix);
        let sp = sorted_by_insertion(prefix);
        assert forall|i: int| 0 <= i < sp.len() implies (#[trigger] sp[i]).log_index != e.log_index by {
            assert(sp.contains(sp[i]));
            assert(prefix.contains(sp[i]));
            let k = choose|k: int| 0 <= k < prefix.len() && #[trigger] prefix[k] == sp[i];
            assert(entries[k] == prefix[k]);
            assert(entries[entries.len() - 1] == e);
        }
        lemma_insert_in_order(sp, e);
        let r = sorted_by_insertion(entries);
        assert forall|x: LogEntry| r.contains(x) <==> entries.contains(x) by {
            if entries.contains(x) {
                let k = choose|k: int| 0 <= k < entries.len() && #[trigger] entries[k] == x;
                if k < entries.len() - 1 {
                    assert(prefix[k] == x);
                    assert(prefix.contains(x));
                }
            }
            if prefix.contains(x) {
                let k = choose|k: int| 0 <= k < prefix.len() && #[trigger] prefix[k] == x;
                assert(entries[k] == x);
            }
        }
    }
}

} // verus!
