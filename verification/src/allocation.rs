//! What is remembered of one allocation.

use crate::callstack::CallstackId;
use vstd::prelude::*;

verus! {

pub const MIB: usize = 1024 * 1024;

pub const HIGH_32BIT: u32 = 0x8000_0000;

/// A specific call to malloc() or calloc().
#[derive(Clone, Copy, Debug, PartialEq, Eq, Structural)]
pub struct Allocation {
    pub callstack_id: CallstackId,
    /// If the high bit is set, the other bits are the size in MiBs. Otherwise it is the size in
    /// bytes. Only allocations of 2 ** 31 bytes (2GB) or more are stored in MiBs, which means that
    /// the loss of resolution isn't meaningful. This compression reduces the memory that tracking
    /// an allocation takes.
    pub compressed_size: u32,
}

/// A size in whole MiBs, rounded half up.
pub open spec fn nearest_mib(size: nat) -> nat {
    (size + MIB as nat / 2) / MIB as nat
}

/// How a size is stored. A number of MiBs keeps its low 31 bits.
pub open spec fn compressed(size: nat) -> nat {
    if size < HIGH_32BIT {
        size
    } else {
        nearest_mib(size) % HIGH_32BIT as nat + HIGH_32BIT as nat
    }
}

/// The size that a stored size stands for.
pub open spec fn decompressed(compressed_size: nat) -> nat {
    if compressed_size < HIGH_32BIT {
        compressed_size
    } else {
        ((compressed_size - HIGH_32BIT) * MIB) as nat
    }
}

/// The size that is remembered of an allocation of `size` bytes.
pub open spec fn remembered_size(size: nat) -> nat {
    decompressed(compressed(size))
}

/// What is remembered of an allocation of `size` bytes.
pub open spec fn allocation_of(callstack_id: CallstackId, size: nat) -> Allocation {
    Allocation { callstack_id, compressed_size: compressed(size) as u32 }
}

impl Allocation {
    /// The remembered size.
    pub open spec fn bytes(self) -> nat {
        decompressed(self.compressed_size as nat)
    }

    /// Whether the remembered size is one that this machine can address.
    pub open spec fn wf(self) -> bool {
        self.bytes() <= usize::MAX
    }

    pub fn new(callstack_id: CallstackId, size: usize) -> (allocation: Self)
        requires
            size + MIB / 2 <= usize::MAX,
        ensures
            allocation == allocation_of(callstack_id, size as nat),
            allocation.bytes() == remembered_size(size as nat),
            allocation.wf(),
    {
        let compressed_size: u32 = if size >= HIGH_32BIT as usize {
            // Rounding division by MiB, plus the high bit:
            let mibs: usize = (size + MIB / 2) / MIB;
            let low: u32 = #[verifier::truncate] (mibs as u32);
            proof {
                lemma_low_bits(mibs);
            }
            low | HIGH_32BIT
        } else {
            size as u32
        };
        Allocation { callstack_id, compressed_size }
    }

    pub fn size(&self) -> (size: usize)
        requires
            self.wf(),
        ensures
            size == self.bytes(),
    {
        if self.compressed_size >= HIGH_32BIT {
            (self.compressed_size - HIGH_32BIT) as usize * MIB
        } else {
            self.compressed_size as usize
        }
    }
}

proof fn lemma_low_bits(mibs: usize)
    ensures
        ((mibs as u32) | HIGH_32BIT) as nat == mibs as nat % 0x8000_0000 + 0x8000_0000,
{
    assert(((mibs as u32) | 0x8000_0000u32) == (mibs as u32) % 0x8000_0000u32 + 0x8000_0000u32)
        by (bit_vector);
    assert((mibs as u32) % 0x8000_0000u32 == mibs % 0x8000_0000usize) by (bit_vector);
}

/// Allocation sizes smaller than 2 ** 31 are remembered exactly.
pub proof fn law_small_sizes_are_exact(size: nat)
    requires
        size < HIGH_32BIT,
    ensures
        remembered_size(size) == size,
{
}

/// Larger allocation sizes are remembered with an error of at most half a MiB, as long as their
/// number of MiBs fits in 31 bits.
pub proof fn law_large_sizes_are_close(size: nat)
    requires
        size >= HIGH_32BIT,
        nearest_mib(size) < HIGH_32BIT,
    ensures
        remembered_size(size) == nearest_mib(size) * MIB,
        remembered_size(size) <= size + MIB / 2,
        size <= remembered_size(size) + MIB / 2,
{
}

/// What is remembered of an allocation belongs to the callstack that made it, and tells its size:
/// exactly below 2 ** 31 bytes, and otherwise as the multiple of a MiB that is nearest, the larger
/// one of two that are equally near.
pub proof fn law_allocations_are_remembered(callstack_id: CallstackId, size: nat)
    ensures
        allocation_of(callstack_id, size).callstack_id == callstack_id,
        allocation_of(callstack_id, size).bytes() == remembered_size(size),
        size < 0x8000_0000 ==> remembered_size(size) == size,
        0x8000_0000 <= size && size + 524_288 < 0x8000_0000 * 1_048_576 ==> {
            &&& remembered_size(size) % 1_048_576 == 0
            &&& remembered_size(size) <= size + 524_288
            &&& size < remembered_size(size) + 524_288
        },
{
}

/// From 2 ** 31 MiB on the remembered size starts over: that many more bytes are not noticed.
pub proof fn law_sizes_start_over_at_the_limit(size: nat)
    requires
        size >= 0x8000_0000,
    ensures
        remembered_size(size + 0x8000_0000 * 1_048_576) == remembered_size(size),
{
    assert(nearest_mib(size + 0x8000_0000 * 1_048_576) == nearest_mib(size) + 0x8000_0000);
}

/// What a stored size stands for: itself with the high bit clear, or else as many MiBs as the other
/// bits say.
pub proof fn law_stored_sizes_stand_for_bytes(allocation: Allocation)
    ensures
        allocation.compressed_size < 0x8000_0000 ==> allocation.bytes()
            == allocation.compressed_size,
        allocation.compressed_size >= 0x8000_0000 ==> allocation.bytes() == (
        allocation.compressed_size - 0x8000_0000) * 1_048_576,
{
}

} // verus!
