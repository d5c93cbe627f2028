# chaos_rs

A deterministic, page-aligned virtual block device and a circular write-ahead
log (WAL) for crash-consistency and fault-injection testing, verified with
Verus.

The device keeps a volatile write cache and stable media apart, makes data
durable only on `flush`, and can crash, reboot and be resized. A scheduled
fault (torn write, lost write, bit flip, corrupt block), triggered by write
count, flush count, block, or flush and block, strikes exactly where its
trigger says. The WAL frames entries with a 32-byte header and a CRC-32,
appends them durably, and recovers by replaying the valid frames in sequence
order up to the first corrupt one; a checkpoint replays and clears the log.

## Layout

- `src/device.rs`: the error type and the `BlockDevice` / `AdminControls` traits.
- `src/fault.rs`: fault triggers and policies, and when a trigger trips.
- `src/aligned.rs`: `AlignedBlock`, a page-aligned 4096-byte buffer.
- `src/disk_model.rs`: the abstract disk (`DiskView`) and what each operation
  does to it; `src/disk.rs`: `ChaosDisk`, proved to follow that model.
- `src/frame.rs`: CRC-32, big-endian fields and the frame layout;
  `src/wal_model.rs`: frame decoding, log scanning, replay order and what
  append, recovery and checkpoint do; `src/wal.rs`: `WalManager`.
- `src/disk_laws.rs`, `src/wal_laws.rs`: properties of the library as a whole
  (durability of flushed data, loss of unflushed data, frame round trip,
  replay order, recovery after append, checkpoint clearing the log).
- `src/lib.rs`: `run_crash_test`, a workload / crash / reboot / verify harness.
- `app/lib.rs`: printable copies of the error types (`Display`, `Error`).
- `tests/`: the test suite.
