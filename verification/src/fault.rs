use vstd::prelude::*;

verus! {

/// Defines when a scheduled fault "trips" and executes its policy.
#[derive(Debug, Clone, Copy, PartialEq, Eq, Structural)]
pub enum TriggerCondition {
    /// Trigger the fault when the write counter reaches this exact number.
    OnWriteCount(u64),
    /// Trigger the fault when the flush counter reaches this exact number.
    /// It trips for every dirty block of that flush.
    OnFlushCount(u64),
    /// Trigger the fault whenever a specific block is targeted.
    OnBlockId(u64),
    /// Trigger the fault for a specific block during a specific flush.
    OnFlushBlock { flush_count: u64, block_id: u64 },
}

/// The specific type of hardware failure to simulate.
#[derive(Debug, Clone, Copy, PartialEq, Eq, Structural)]
pub enum FaultPolicy {
    /// Act completely normal.
    Normal,
    /// Power fails during a sector commit: only a prefix of the block is stored.
    TornWrite { bytes_written: usize },
    /// The controller reports success but drops the data.
    LostWrite,
    /// Bit-rot: the bits of `bit_mask` are flipped at `byte_offset`.
    BitFlip { byte_offset: usize, bit_mask: u8 },
    /// A bad sector: the block is filled with `garbage_value`.
    CorruptBlock { garbage_value: u8 },
}

/// A complete plan for a chaos event: a condition and a failure policy.
#[derive(Debug, Clone, Copy, PartialEq, Eq, Structural)]
pub struct FaultTrigger {
    pub condition: TriggerCondition,
    pub policy: FaultPolicy,
}

/// The kind of operation a fault is checked against.
#[derive(Debug, Clone, Copy, PartialEq, Eq, Structural)]
pub enum OpContext {
    Write,
    Flush,
}

/// Whether `condition` trips for the write numbered `write_count` to `block_id`.
pub open spec fn write_trigger_matches(condition: TriggerCondition, write_count: u64, block_id: u64) -> bool {
    match condition {
        TriggerCondition::OnWriteCount(target) => target == write_count,
        TriggerCondition::OnFlushCount(_) => false,
        TriggerCondition::OnBlockId(target) => target == block_id,
        TriggerCondition::OnFlushBlock { .. } => false,
    }
}

/// Whether `condition` trips for block `block_id` during the flush numbered `flush_count`.
pub open spec fn flush_trigger_matches(condition: TriggerCondition, flush_count: u64, block_id: u64) -> bool {
    match condition {
        TriggerCondition::OnWriteCount(_) => false,
        TriggerCondition::OnFlushCount(target) => target == flush_count,
        TriggerCondition::OnBlockId(target) => target == block_id,
        TriggerCondition::OnFlushBlock { flush_count: target_flush, block_id: target_block } =>
            target_flush == flush_count && target_block == block_id,
    }
}

/// The policy that `fault` applies to an operation of kind `context`, numbered
/// `op_count`, on block `block_id`; `None` when nothing trips.
pub open spec fn triggered_policy(
    fault: Option<FaultTrigger>,
    context: OpContext,
    op_count: u64,
    block_id: u64,
) -> Option<FaultPolicy> {
    match fault {
        Some(trigger) => {
            let hit = match context {
                OpContext::Write => write_trigger_matches(trigger.condition, op_count, block_id),
                OpContext::Flush => flush_trigger_matches(trigger.condition, op_count, block_id),
            };
            if hit { Some(trigger.policy) } else { None }
        },
        None => None,
    }
}

} // verus!
