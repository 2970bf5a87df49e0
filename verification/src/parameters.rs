//! Configuration parameters of storage instances.

use vstd::prelude::*;

verus! {

/// Parameters that configure the automatic spilling of upsert state to
/// disk.
#[derive(Clone, Copy, PartialEq, Eq, Structural, Debug)]
pub struct UpsertAutoSpillConfig {
    /// Whether upsert state may spill to disk automatically.
    pub allow_spilling_to_disk: bool,
    /// The size in bytes of the upsert state beyond which the disk is used
    /// in place of memory.
    pub spill_to_disk_threshold_bytes: usize,
}

/// The form in which `UpsertAutoSpillConfig` goes over the wire.
#[derive(Clone, Copy, PartialEq, Eq, Structural, Debug)]
pub struct ProtoUpsertAutoSpillConfig {
    pub allow_spilling_to_disk: bool,
    pub spill_to_disk_threshold_bytes: u64,
}

/// A value that came over the wire does not fit this machine.
#[derive(Clone, Copy, PartialEq, Eq, Structural, Debug)]
pub struct TryFromProtoError {
    /// The value that does not fit in a `usize`.
    pub value: u64,
}

impl Default for UpsertAutoSpillConfig {
    fn default() -> (r: Self)
        ensures
            !r.allow_spilling_to_disk,
            r.spill_to_disk_threshold_bytes == 0,
    {
        UpsertAutoSpillConfig { allow_spilling_to_disk: false, spill_to_disk_threshold_bytes: 0 }
    }
}

impl UpsertAutoSpillConfig {
    /// The parameters in the form in which they go over the wire.
    pub open spec fn proto(self) -> ProtoUpsertAutoSpillConfig {
        ProtoUpsertAutoSpillConfig {
            allow_spilling_to_disk: self.allow_spilling_to_disk,
            spill_to_disk_threshold_bytes: self.spill_to_disk_threshold_bytes as u64,
        }
    }

    /// The parameters that came over the wire; an error if the threshold
    /// does not fit in a `usize` of this machine.
    pub open spec fn parsed(proto: ProtoUpsertAutoSpillConfig) -> Result<
        UpsertAutoSpillConfig,
        TryFromProtoError,
    > {
        if proto.spill_to_disk_threshold_bytes > usize::MAX {
            Err(TryFromProtoError { value: proto.spill_to_disk_threshold_bytes })
        } else {
            Ok(
                UpsertAutoSpillConfig {
                    allow_spilling_to_disk: proto.allow_spilling_to_disk,
                    spill_to_disk_threshold_bytes: proto.spill_to_disk_threshold_bytes as usize,
                },
            )
        }
    }

    /// The parameters in the form in which they go over the wire.
    pub fn into_proto(&self) -> (r: ProtoUpsertAutoSpillConfig)
        ensures
            r == self.proto(),
    {
        ProtoUpsertAutoSpillConfig {
            allow_spilling_to_disk: self.allow_spilling_to_disk,
            spill_to_disk_threshold_bytes: self.spill_to_disk_threshold_bytes as u64,
        }
    }

    /// The parameters that came over the wire; an error if the threshold
    /// does not fit in a `usize` of this machine.
    pub fn from_proto(proto: ProtoUpsertAutoSpillConfig) -> (r: Result<
        UpsertAutoSpillConfig,
        TryFromProtoError,
    >)
        ensures
            r == Self::parsed(proto),
    {
        if proto.spill_to_disk_threshold_bytes > usize::MAX as u64 {
            Err(TryFromProtoError { value: proto.spill_to_disk_threshold_bytes })
        } else {
            Ok(
                UpsertAutoSpillConfig {
                    allow_spilling_to_disk: proto.allow_spilling_to_disk,
                    spill_to_disk_threshold_bytes: proto.spill_to_disk_threshold_bytes as usize,
                },
            )
        }
    }
}

/// Parameters that went over the wire come back as they were sent.
pub proof fn lemma_proto_round_trip(config: UpsertAutoSpillConfig)
    ensures
        UpsertAutoSpillConfig::parsed(config.proto()) == Ok::<
            UpsertAutoSpillConfig,
            TryFromProtoError,
        >(config),
{
}

} // verus!
