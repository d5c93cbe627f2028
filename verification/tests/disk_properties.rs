use chaos_rs::aligned::page_window;
use chaos_rs::{
    run_crash_test, AdminControls, AlignedBlock, BlockDevice, BlockDeviceError, ChaosDisk,
    FaultPolicy, FaultTrigger, TriggerCondition,
};

fn block_of(value: u8) -> AlignedBlock {
    let mut block = AlignedBlock::new();
    block.as_mut_slice().fill(value);
    block
}

fn read(disk: &mut ChaosDisk, block_id: u64) -> Vec<u8> {
    let mut buffer = AlignedBlock::new();
    disk.read_block(block_id, buffer.as_mut_slice()).unwrap();
    buffer.as_slice().to_vec()
}

#[test]
fn flush_without_fault_makes_dirty_blocks_durable() {
    let mut disk = ChaosDisk::new(4);
    disk.write_block(0, block_of(0x11).as_slice()).unwrap();
    disk.write_block(2, block_of(0x22).as_slice()).unwrap();
    disk.flush().unwrap();
    disk.crash().unwrap();
    disk.reboot().unwrap();
    assert_eq!(read(&mut disk, 0), vec![0x11u8; 4096]);
    assert_eq!(read(&mut disk, 1), vec![0u8; 4096]);
    assert_eq!(read(&mut disk, 2), vec![0x22u8; 4096]);
}

#[test]
fn crash_discards_only_unflushed_writes() {
    let mut disk = ChaosDisk::new(2);
    disk.write_block(0, block_of(0xA1).as_slice()).unwrap();
    disk.flush().unwrap();
    disk.write_block(0, block_of(0xB2).as_slice()).unwrap();
    assert_eq!(read(&mut disk, 0), vec![0xB2u8; 4096]);
    disk.crash().unwrap();
    assert_eq!(disk.is_frozen(), Ok(true));
    disk.reboot().unwrap();
    assert_eq!(disk.is_frozen(), Ok(false));
    assert_eq!(read(&mut disk, 0), vec![0xA1u8; 4096]);
}

#[test]
fn write_leaves_other_blocks_untouched() {
    let mut disk = ChaosDisk::new(3);
    disk.write_block(1, block_of(0x5A).as_slice()).unwrap();
    assert_eq!(read(&mut disk, 1), vec![0x5Au8; 4096]);
    assert_eq!(read(&mut disk, 0), vec![0u8; 4096]);
    assert_eq!(read(&mut disk, 2), vec![0u8; 4096]);
}

#[test]
fn frozen_device_keeps_its_state() {
    let mut disk = ChaosDisk::new(2);
    disk.write_block(1, block_of(0x33).as_slice()).unwrap();
    disk.flush().unwrap();
    disk.crash().unwrap();
    assert_eq!(disk.write_block(1, block_of(0x44).as_slice()), Err(BlockDeviceError::FrozenDevice));
    assert_eq!(disk.flush(), Err(BlockDeviceError::FrozenDevice));
    disk.reboot().unwrap();
    assert_eq!(read(&mut disk, 1), vec![0x33u8; 4096]);
}

#[test]
fn new_disk_is_powered() {
    let disk = ChaosDisk::new(1);
    assert_eq!(disk.is_frozen(), Ok(false));
}

#[test]
fn torn_write_freezes_and_leaves_media_alone() {
    let mut disk = ChaosDisk::new(2);
    disk.write_block(0, block_of(0x10).as_slice()).unwrap();
    disk.flush().unwrap();
    disk.set_fault(FaultTrigger {
        condition: TriggerCondition::OnBlockId(0),
        policy: FaultPolicy::TornWrite { bytes_written: 9000 },
    });
    assert_eq!(disk.write_block(0, block_of(0x20).as_slice()), Err(BlockDeviceError::InterruptedOperation));
    assert_eq!(disk.is_frozen(), Ok(true));
    disk.crash().unwrap();
    disk.reboot().unwrap();
    assert_eq!(read(&mut disk, 0), vec![0x10u8; 4096]);
}

#[test]
fn torn_flush_stops_at_first_faulted_block() {
    let mut disk = ChaosDisk::new(4);
    disk.write_block(1, block_of(0xFF).as_slice()).unwrap();
    disk.write_block(2, block_of(0xEE).as_slice()).unwrap();
    disk.set_fault(FaultTrigger {
        condition: TriggerCondition::OnFlushCount(1),
        policy: FaultPolicy::TornWrite { bytes_written: 100 },
    });
    assert_eq!(disk.flush(), Err(BlockDeviceError::InterruptedOperation));
    disk.crash().unwrap();
    disk.reboot().unwrap();
    let first = read(&mut disk, 1);
    assert_eq!(&first[0..100], &[0xFFu8; 100][..]);
    assert!(first[100..].iter().all(|&b| b == 0));
    assert_eq!(read(&mut disk, 2), vec![0u8; 4096]);
}

#[test]
fn torn_flush_commits_clean_prefix_blocks() {
    let mut disk = ChaosDisk::new(4);
    disk.write_block(0, block_of(0x01).as_slice()).unwrap();
    disk.write_block(3, block_of(0x03).as_slice()).unwrap();
    disk.set_fault(FaultTrigger {
        condition: TriggerCondition::OnFlushBlock { flush_count: 1, block_id: 3 },
        policy: FaultPolicy::TornWrite { bytes_written: 0 },
    });
    assert_eq!(disk.flush(), Err(BlockDeviceError::InterruptedOperation));
    disk.crash().unwrap();
    disk.reboot().unwrap();
    assert_eq!(read(&mut disk, 0), vec![0x01u8; 4096]);
    assert_eq!(read(&mut disk, 3), vec![0u8; 4096]);
}

#[test]
fn bit_flip_on_flush_hits_every_faulted_block() {
    let mut disk = ChaosDisk::new(4);
    disk.write_block(0, block_of(0x0F).as_slice()).unwrap();
    disk.write_block(1, block_of(0x0F).as_slice()).unwrap();
    disk.set_fault(FaultTrigger {
        condition: TriggerCondition::OnFlushCount(1),
        policy: FaultPolicy::BitFlip { byte_offset: 0, bit_mask: 0xFF },
    });
    disk.flush().unwrap();
    disk.crash().unwrap();
    disk.reboot().unwrap();
    for block_id in 0..2 {
        let block = read(&mut disk, block_id);
        assert_eq!(block[0], 0xF0);
        assert_eq!(block[1], 0x0F);
    }
    assert_eq!(read(&mut disk, 2), vec![0u8; 4096]);
}

#[test]
fn bit_flip_past_block_end_changes_nothing() {
    let mut disk = ChaosDisk::new(1);
    disk.set_fault(FaultTrigger {
        condition: TriggerCondition::OnWriteCount(1),
        policy: FaultPolicy::BitFlip { byte_offset: 5000, bit_mask: 0xFF },
    });
    disk.write_block(0, block_of(0x42).as_slice()).unwrap();
    assert_eq!(read(&mut disk, 0), vec![0x42u8; 4096]);
}

#[test]
fn corrupt_flush_keeps_cache_until_reboot() {
    let mut disk = ChaosDisk::new(2);
    disk.write_block(0, block_of(0x77).as_slice()).unwrap();
    disk.set_fault(FaultTrigger {
        condition: TriggerCondition::OnFlushCount(1),
        policy: FaultPolicy::CorruptBlock { garbage_value: 0x99 },
    });
    disk.flush().unwrap();
    assert_eq!(read(&mut disk, 0), vec![0x77u8; 4096]);
    disk.crash().unwrap();
    disk.reboot().unwrap();
    assert_eq!(read(&mut disk, 0), vec![0x99u8; 4096]);
}

#[test]
fn lost_flush_reverts_cache_to_media() {
    let mut disk = ChaosDisk::new(2);
    disk.write_block(1, block_of(0x12).as_slice()).unwrap();
    disk.flush().unwrap();
    disk.write_block(1, block_of(0x34).as_slice()).unwrap();
    disk.set_fault(FaultTrigger {
        condition: TriggerCondition::OnFlushCount(2),
        policy: FaultPolicy::LostWrite,
    });
    disk.flush().unwrap();
    assert_eq!(read(&mut disk, 1), vec![0x12u8; 4096]);
}

#[test]
fn write_count_fault_trips_once() {
    let mut disk = ChaosDisk::new(2);
    disk.set_fault(FaultTrigger {
        condition: TriggerCondition::OnWriteCount(2),
        policy: FaultPolicy::CorruptBlock { garbage_value: 0xEE },
    });
    disk.write_block(0, block_of(0x01).as_slice()).unwrap();
    disk.write_block(1, block_of(0x02).as_slice()).unwrap();
    disk.write_block(1, block_of(0x03).as_slice()).unwrap();
    assert_eq!(read(&mut disk, 0), vec![0x01u8; 4096]);
    assert_eq!(read(&mut disk, 1), vec![0x03u8; 4096]);
}

#[test]
fn calculate_offset_maps_blocks_to_byte_ranges() {
    let disk = ChaosDisk::new(4);
    assert_eq!(disk.calculate_offset(0), (0, 4096));
    assert_eq!(disk.calculate_offset(3), (12288, 16384));
}

#[test]
fn aligned_block_passes_alignment_check() {
    let disk = ChaosDisk::new(1);
    let block = AlignedBlock::new();
    assert_eq!(disk.check_alignment(block.as_slice()), Ok(()));
    assert_eq!(block.address() % 4096, 0);
    assert_eq!(block.as_slice().as_ptr() as usize, block.address());
}

#[test]
fn address_alignment_check() {
    let disk = ChaosDisk::new(1);
    assert_eq!(disk.check_address_alignment(8192), Ok(()));
    assert_eq!(disk.check_address_alignment(8193), Err(BlockDeviceError::AlignmentMismatch));
}

#[test]
fn read_and_write_at_unaligned_address_are_refused() {
    let mut disk = ChaosDisk::new(1);
    let mut block = AlignedBlock::new();
    let address = block.address();
    assert_eq!(disk.write_block_at(0, block.as_slice(), address + 1), Err(BlockDeviceError::AlignmentMismatch));
    assert_eq!(disk.read_block_at(0, block.as_mut_slice(), address + 2), Err(BlockDeviceError::AlignmentMismatch));
    assert_eq!(disk.write_block_at(0, block.as_slice(), address), Ok(()));
}

#[test]
fn resize_adds_clean_zero_blocks() {
    let mut disk = ChaosDisk::new(1);
    disk.write_block(0, block_of(0x66).as_slice()).unwrap();
    disk.resize(3).unwrap();
    disk.flush().unwrap();
    disk.crash().unwrap();
    disk.reboot().unwrap();
    assert_eq!(read(&mut disk, 0), vec![0x66u8; 4096]);
    assert_eq!(read(&mut disk, 2), vec![0u8; 4096]);
    let mut buffer = AlignedBlock::new();
    assert_eq!(disk.read_block(3, buffer.as_mut_slice()), Err(BlockDeviceError::DiskspaceExceeded));
}

#[test]
fn block_device_error_messages() {
    assert_eq!(
        BlockDeviceError::AlignmentMismatch.message(),
        "Hardware Alignment Violation: Memory buffer address must be page-aligned to block geometry parameters."
    );
    assert_eq!(
        BlockDeviceError::DiskspaceExceeded.message(),
        "Boundary Error: Requested logical block address exceeds total physical sector capacity."
    );
    assert_eq!(
        BlockDeviceError::FrozenDevice.message(),
        "Hardware Fault: Device is unresponsive. Drive controller has lost power or experienced critical media failure."
    );
    assert_eq!(
        BlockDeviceError::InterruptedOperation.message(),
        "I/O Fault: Write operation was truncated or torn due to an ungraceful system crash."
    );
    assert_eq!(
        BlockDeviceError::BufferSizeError.message(),
        "Buffer Size Error: The provided buffer is not the correct size for the requested operation."
    );
}

#[test]
fn crash_test_harness_verifies_rebooted_disk() {
    let mut seen = Vec::new();
    let (workload, crash) = run_crash_test(
        2,
        |disk| {
            disk.write_block(0, block_of(0x31).as_slice())?;
            disk.flush()?;
            disk.write_block(1, block_of(0x32).as_slice())?;
            Err(BlockDeviceError::BufferSizeError)
        },
        |disk| {
            seen.push(disk.is_frozen().unwrap() as u8);
            seen.push(read(disk, 0)[0]);
            seen.push(read(disk, 1)[0]);
        },
    );
    assert_eq!(workload, Err(BlockDeviceError::BufferSizeError));
    assert_eq!(crash, Ok(()));
    assert_eq!(seen, vec![0, 0x31, 0]);
}

#[test]
fn refused_write_is_counted() {
    let mut disk = ChaosDisk::new(4);
    disk.set_fault(FaultTrigger {
        condition: TriggerCondition::OnWriteCount(2),
        policy: FaultPolicy::CorruptBlock { garbage_value: 0xEE },
    });
    let short = vec![0x11u8; 100];
    assert_eq!(disk.write_block(1, &short), Err(BlockDeviceError::BufferSizeError));
    disk.write_block(1, block_of(0x11).as_slice()).unwrap();
    assert_eq!(read(&mut disk, 1), vec![0xEEu8; 4096]);
}

#[test]
fn refused_flush_is_counted() {
    let mut disk = ChaosDisk::new(4);
    disk.crash().unwrap();
    assert_eq!(disk.flush(), Err(BlockDeviceError::FrozenDevice));
    disk.reboot().unwrap();
    disk.set_fault(FaultTrigger {
        condition: TriggerCondition::OnFlushCount(2),
        policy: FaultPolicy::CorruptBlock { garbage_value: 0x77 },
    });
    disk.write_block(3, block_of(0x11).as_slice()).unwrap();
    disk.flush().unwrap();
    disk.crash().unwrap();
    disk.reboot().unwrap();
    assert_eq!(read(&mut disk, 3), vec![0x77u8; 4096]);
}

#[test]
fn flush_torn_at_a_middle_block_commits_only_what_precedes_it() {
    let mut disk = ChaosDisk::new(4);
    disk.write_block(0, block_of(0xA0).as_slice()).unwrap();
    disk.write_block(1, block_of(0xB1).as_slice()).unwrap();
    disk.write_block(2, block_of(0xC2).as_slice()).unwrap();
    disk.set_fault(FaultTrigger {
        condition: TriggerCondition::OnBlockId(1),
        policy: FaultPolicy::TornWrite { bytes_written: 100 },
    });
    assert_eq!(disk.flush(), Err(BlockDeviceError::InterruptedOperation));
    assert_eq!(disk.is_frozen(), Ok(true));
    disk.clear_fault();
    disk.reboot().unwrap();
    assert_eq!(read(&mut disk, 0), vec![0xA0u8; 4096]);
    let mut torn = vec![0xB1u8; 100];
    torn.extend(vec![0u8; 3996]);
    assert_eq!(read(&mut disk, 1), torn);
    assert_eq!(read(&mut disk, 2), vec![0u8; 4096]);
}

#[test]
fn page_window_rounds_up_to_the_next_page() {
    assert_eq!(page_window(0), 0);
    assert_eq!(page_window(1), 4095);
    assert_eq!(page_window(4096), 0);
    assert_eq!(page_window(8191), 1);
    assert_eq!(page_window(12_289), 4095);
}

#[test]
fn aligned_block_writes_and_reads_through_the_device() {
    let mut disk = ChaosDisk::new(3);
    let block = block_of(0x6C);
    assert_eq!(block.write_to_device(&mut disk, 2), Ok(()));
    assert_eq!(block.write_to_device(&mut disk, 3), Err(BlockDeviceError::DiskspaceExceeded));
    let mut back = AlignedBlock::new();
    assert_eq!(back.read_from_device(&mut disk, 2), Ok(()));
    assert_eq!(back.as_slice(), vec![0x6Cu8; 4096].as_slice());
}
