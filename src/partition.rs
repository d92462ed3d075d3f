use vstd::prelude::*;
use vstd::arithmetic::div_mod::lemma_fundamental_div_mod;

verus! {

/// The number of identifiers per partition when none is given.
pub const DEFAULT_PARTITION_SIZE: i64 = 10000;

/// How a partitioned queue splits its identifiers.
///
/// Partition `k` holds the identifiers `k * size + 1 ..= (k + 1) * size`, and
/// every identifier up to `high_water` lies in a materialized partition.
#[derive(Debug, Clone, Copy, PartialEq, Eq, Structural)]
pub struct Partitioning {
    pub size: i64,
    pub high_water: i64,
}

impl Partitioning {
    pub open spec fn wf(self) -> bool {
        self.size >= 1 && self.high_water >= self.size
    }
}

/// The partition that holds `msg_id`.
pub open spec fn partition_index(msg_id: int, size: int) -> int {
    (msg_id - 1) / size
}

/// The largest identifier of the partition that holds `msg_id`.
pub open spec fn partition_last(msg_id: int, size: int) -> int {
    (partition_index(msg_id, size) + 1) * size
}

/// The partition after the one that holds `msg_id` is not materialized yet.
pub open spec fn rotation_due(msg_id: int, size: int, high_water: int) -> bool {
    partition_last(msg_id, size) + size > high_water
}

/// The high-water mark after an enqueue of `msg_id` has consulted the policy:
/// one more partition when one is due and its range is representable.
pub open spec fn rotated_high_water(msg_id: int, size: int, high_water: int) -> int {
    if rotation_due(msg_id, size, high_water) && high_water + size <= i64::MAX {
        high_water + size
    } else {
        high_water
    }
}

/// The high-water mark of a new partitioned queue: the first two ranges.
pub open spec fn initial_high_water(size: int) -> int {
    if 2 * size <= i64::MAX {
        2 * size
    } else {
        i64::MAX as int
    }
}

proof fn lemma_partition_last(msg_id: int, size: int)
    requires
        msg_id >= 1,
        size >= 1,
    ensures
        partition_last(msg_id, size) == msg_id - 1 - (msg_id - 1) % size + size,
        0 <= (msg_id - 1) % size < size,
{
    lemma_fundamental_div_mod(msg_id - 1, size);
    assert((partition_index(msg_id, size) + 1) * size == size * partition_index(msg_id, size)
        + size) by (nonlinear_arith);
}

/// The partition that holds `msg_id`, counted from zero.
pub fn partition_of(msg_id: i64, size: i64) -> (r: i64)
    requires
        msg_id >= 1,
        size >= 1,
    ensures
        r == partition_index(msg_id as int, size as int),
{
    (msg_id - 1) / size
}

/// The high-water mark once an enqueue of `msg_id` has rotated as needed.
pub fn next_high_water(msg_id: i64, p: Partitioning) -> (r: i64)
    requires
        msg_id >= 1,
        p.wf(),
    ensures
        r == rotated_high_water(msg_id as int, p.size as int, p.high_water as int),
{
    proof {
        lemma_partition_last(msg_id as int, p.size as int);
    }
    let last: i128 = (msg_id as i128) - 1 - (((msg_id - 1) % p.size) as i128) + (p.size as i128);
    if last + (p.size as i128) > (p.high_water as i128) && p.high_water <= i64::MAX - p.size {
        p.high_water + p.size
    } else {
        p.high_water
    }
}

/// The partitioning of a new queue whose partitions hold `size` identifiers.
pub fn initial_partitioning(size: i64) -> (r: Partitioning)
    requires
        size >= 1,
    ensures
        r.wf(),
        r.size == size,
        r.high_water == initial_high_water(size as int),
{
    if size <= i64::MAX / 2 {
        Partitioning { size, high_water: 2 * size }
    } else {
        Partitioning { size, high_water: i64::MAX }
    }
}

} // verus!
