pub mod aligned;
pub mod device;
pub mod disk;
pub mod disk_laws;
pub mod disk_model;
pub mod fault;
pub mod frame;
pub mod wal;
pub mod wal_laws;
pub mod wal_model;

pub use device::{AdminControls, BlockDevice, BlockDeviceError};
pub use disk::{AlignedBlock, ChaosDisk, FaultPolicy, FaultTrigger, TriggerCondition};
pub use wal::{LogHeader, RecoveryReport, WalError, WalManager};
use disk_model::{crashed, new_disk, rebooted};

use vstd::prelude::*;

verus! {

/// A harness for crash-consistency testing: runs a workload on a fresh disk,
/// crashes and reboots the device whatever the workload returned, then runs
/// a verification closure on the rebooted disk. Returns the workload's result
/// and the result of the crash/reboot cycle.
pub fn run_crash_test<W, V>(
    capacity_blocks: usize,
    workload: W,
    verify: V,
) -> (outcome: (Result<(), BlockDeviceError>, Result<(), BlockDeviceError>))
    where
        W: FnOnce(&mut ChaosDisk) -> Result<(), BlockDeviceError>,
        V: FnOnce(&mut ChaosDisk),
    requires
        capacity_blocks * aligned::BLOCK_SIZE <= usize::MAX,
        forall|d: &mut ChaosDisk|
            d.wf() && d@ == new_disk(capacity_blocks as nat) ==> #[trigger] call_requires(workload, (d,)),
        forall|d: &mut ChaosDisk, r: Result<(), BlockDeviceError>|
            d.wf() && d@ == new_disk(capacity_blocks as nat) && #[trigger] call_ensures(workload, (d,), r)
                ==> final(d).wf(),
        forall|d: &mut ChaosDisk, r: Result<(), BlockDeviceError>, e: &mut ChaosDisk|
            d.wf() && d@ == new_disk(capacity_blocks as nat) && #[trigger] call_ensures(workload, (d,), r)
                && e.wf() && e@ == rebooted(crashed(final(d)@)) ==> #[trigger] call_requires(verify, (e,)),
    ensures
        outcome.1 == Ok::<(), BlockDeviceError>(()),
        exists|d: &mut ChaosDisk, e: &mut ChaosDisk| {
            &&& d@ == new_disk(capacity_blocks as nat)
            &&& #[trigger] call_ensures(workload, (d,), outcome.0)
            &&& e@ == rebooted(crashed(final(d)@))
            &&& #[trigger] call_ensures(verify, (e,), ())
        },
{
    let mut disk = ChaosDisk::new(capacity_blocks);
    let ghost fresh = disk@;
    // Capture the result of the workload phase.
    let workload_result = workload(&mut disk);
    let ghost worked = disk@;
    // Simulate the crash/reboot cycle regardless of workload success.
    let crash_result = match disk.crash() {
        Ok(()) => disk.reboot(),
        Err(e) => Err(e),
    };
    let ghost rebooted_disk = disk@;
    verify(&mut disk);
    let outcome = (workload_result, crash_result);
    proof {
        let d = choose|d: &mut ChaosDisk|
            #[trigger] call_ensures(workload, (d,), workload_result) && d@ == fresh && final(d)@ == worked;
        let e = choose|e: &mut ChaosDisk| #[trigger] call_ensures(verify, (e,), ()) && e@ == rebooted_disk;
        assert(call_ensures(workload, (d,), outcome.0));
        assert(call_ensures(verify, (e,), ()));
    }
    outcome
}

} // verus!
