use vstd::prelude::*;

verus! {

/// Low-level hardware error states that simulate physical disk controller failures.
#[derive(Debug, Clone, Copy, PartialEq, Eq, Structural)]
pub enum BlockDeviceError {
    /// Memory is not aligned to 4096-byte boundaries. This mimics `O_DIRECT`
    /// requirements where hardware DMA engines cannot cross page boundaries.
    AlignmentMismatch,
    /// A block index outside the physical bounds of the disk was accessed.
    DiskspaceExceeded,
    /// The device is frozen (simulated power loss); all I/O is rejected until
    /// an administrative reboot.
    FrozenDevice,
    /// An operation (a write or a flush) was cut short; a torn write may have
    /// reached the media.
    InterruptedOperation,
    /// The provided buffer does not match the device's fixed sector size.
    BufferSizeError,
}

/// The human-readable description of each hardware failure.
pub open spec fn device_error_message(e: BlockDeviceError) -> Seq<char> {
    match e {
        BlockDeviceError::AlignmentMismatch =>
            "Hardware Alignment Violation: Memory buffer address must be page-aligned to block geometry parameters."@,
        BlockDeviceError::DiskspaceExceeded =>
            "Boundary Error: Requested logical block address exceeds total physical sector capacity."@,
        BlockDeviceError::FrozenDevice =>
            "Hardware Fault: Device is unresponsive. Drive controller has lost power or experienced critical media failure."@,
        BlockDeviceError::InterruptedOperation =>
            "I/O Fault: Write operation was truncated or torn due to an ungraceful system crash."@,
        BlockDeviceError::BufferSizeError =>
            "Buffer Size Error: The provided buffer is not the correct size for the requested operation."@,
    }
}

impl BlockDeviceError {
    /// Provides the human-readable description of this hardware-level failure.
    pub fn message(&self) -> (text: &'static str)
        ensures
            text@ == device_error_message(*self),
    {
        match self {
            BlockDeviceError::AlignmentMismatch =>
                "Hardware Alignment Violation: Memory buffer address must be page-aligned to block geometry parameters.",
            BlockDeviceError::DiskspaceExceeded =>
                "Boundary Error: Requested logical block address exceeds total physical sector capacity.",
            BlockDeviceError::FrozenDevice =>
                "Hardware Fault: Device is unresponsive. Drive controller has lost power or experienced critical media failure.",
            BlockDeviceError::InterruptedOperation =>
                "I/O Fault: Write operation was truncated or torn due to an ungraceful system crash.",
            BlockDeviceError::BufferSizeError =>
                "Buffer Size Error: The provided buffer is not the correct size for the requested operation.",
        }
    }
}

/// The standard hardware interface for I/O operations.
///
/// It mimics a raw block device: fixed-size transfers and explicit
/// synchronization (flushing) to make data durable.
pub trait BlockDevice {
    /// The device's internal consistency condition, kept by every operation.
    spec fn valid(&self) -> bool;

    /// The device's write counter can still count one more write.
    spec fn can_count_write(&self) -> bool;

    /// The device's flush counter can still count one more flush.
    spec fn can_count_flush(&self) -> bool;

    /// Reads a single 4KB sector from the volatile cache into `buffer`.
    fn read_block(&mut self, block_id: u64, buffer: &mut [u8]) -> (result: Result<(), BlockDeviceError>)
        requires
            old(self).valid(),
        ensures
            final(self).valid(),
    ;

    /// Writes a 4KB sector into the device's volatile write cache. The data
    /// is not persistent until `flush()` is called.
    fn write_block(&mut self, block_id: u64, data: &[u8]) -> (result: Result<(), BlockDeviceError>)
        requires
            old(self).valid(),
            old(self).can_count_write(),
        ensures
            final(self).valid(),
    ;

    /// The synchronization barrier (equivalent to `fsync`): moves data from
    /// the volatile cache to stable storage.
    fn flush(&mut self) -> (result: Result<(), BlockDeviceError>)
        requires
            old(self).valid(),
            old(self).can_count_flush(),
        ensures
            final(self).valid(),
    ;
}

/// Management interface used by tests to simulate physical environment changes.
pub trait AdminControls {
    /// The device's internal consistency condition, kept by every operation.
    spec fn admin_valid(&self) -> bool;

    /// Mimics a power outage: wipes volatile RAM and freezes the controller.
    fn crash(&mut self) -> (result: Result<(), BlockDeviceError>)
        requires
            old(self).admin_valid(),
        ensures
            final(self).admin_valid(),
    ;

    /// Mimics a system restart: restores volatile RAM from stable storage and
    /// thaws the controller.
    fn reboot(&mut self) -> (result: Result<(), BlockDeviceError>)
        requires
            old(self).admin_valid(),
        ensures
            final(self).admin_valid(),
    ;

    /// Checks whether the device is currently frozen (unpowered).
    fn is_frozen(&self) -> (result: Result<bool, BlockDeviceError>)
        requires
            self.admin_valid(),
    ;

    /// Changes the physical capacity of the disk to `new_size` blocks.
    fn resize(&mut self, new_size: u64) -> (result: Result<(), BlockDeviceError>)
        requires
            old(self).admin_valid(),
            new_size * 4096 <= usize::MAX,
        ensures
            final(self).admin_valid(),
    ;
}

} // verus!
