//! Cutting a buffer of known length into one contiguous byte range per
//! worker, every range but the last a whole number of cipher blocks.

use crate::key::BLOCK_SIZE;
use vstd::prelude::*;

verus! {

/// One worker's share of a buffer: the bytes from `start` up to, not
/// including, `end`, as the `index`-th of `workers` ranges.
#[derive(Clone, Copy, Debug, PartialEq, Eq)]
pub struct Partition {
    pub index: usize,
    pub workers: usize,
    pub start: usize,
    pub end: usize,
}

impl Partition {
    /// Number of bytes in the range.
    pub open spec fn len(self) -> int {
        self.end - self.start
    }

    /// Whether this is the range of the last worker, the one that takes the
    /// remainder.
    pub open spec fn is_last(self) -> bool {
        self.index + 1 == self.workers
    }

    /// Whether the range gives no output at all: an empty range of a worker
    /// other than the last is passed over without a cipher call.
    pub open spec fn is_idle(self) -> bool {
        !self.is_last() && self.start == self.end
    }

    /// Whether the range lies inside a buffer of `total_len` bytes.
    pub open spec fn fits(self, total_len: int) -> bool {
        self.start <= self.end <= total_len
    }

    /// Whether the byte at `offset` belongs to the range.
    pub open spec fn contains(self, offset: int) -> bool {
        self.start <= offset < self.end
    }

    /// The bytes of `data` that the range selects.
    pub open spec fn bytes_of(self, data: Seq<u8>) -> Seq<u8> {
        data.subrange(self.start as int, self.end as int)
    }

    /// Executable form of [`Partition::is_idle`].
    pub fn idle(&self) -> (b: bool)
        ensures
            b == self.is_idle(),
    {
        let last: bool = self.workers > 0 && self.index == self.workers - 1;
        !last && self.start == self.end
    }
}

/// Bytes given to every worker but the last: the even share of `total_len`,
/// rounded down to whole blocks. With no worker there is no share.
pub open spec fn unit_len(total_len: int, workers: int) -> int {
    if workers <= 0 {
        0
    } else {
        total_len / workers / (BLOCK_SIZE as int) * (BLOCK_SIZE as int)
    }
}

/// The range of worker `index` among `workers`, over `total_len` bytes: each
/// worker but the last takes the next `unit_len` bytes, the last one takes
/// what is left.
pub open spec fn range_of(total_len: usize, workers: usize, index: usize) -> Partition {
    let unit = unit_len(total_len as int, workers as int);
    Partition {
        index,
        workers,
        start: (unit * index) as usize,
        end: if index + 1 == workers {
            total_len
        } else {
            (unit * (index + 1)) as usize
        },
    }
}

/// All the ranges, in worker order.
pub open spec fn partitions(total_len: usize, workers: usize) -> Seq<Partition> {
    Seq::new(workers as nat, |i: int| range_of(total_len, workers, i as usize))
}

/// Whether some range of `parts` holds the byte at `offset`.
pub open spec fn covered(parts: Seq<Partition>, offset: int) -> bool {
    exists|i: int| 0 <= i < parts.len() && (#[trigger] parts[i]).contains(offset)
}

/// Whether range `i` of `parts` runs forwards and starts where the range
/// before it ended, the first one at offset 0.
pub open spec fn chained_at(parts: Seq<Partition>, i: int) -> bool {
    &&& parts[i].start <= parts[i].end
    &&& parts[i].start == if i == 0 {
        0
    } else {
        parts[i - 1].end as int
    }
}

/// Whether the ranges lie end to end from offset 0, without gap or overlap.
pub open spec fn chained(parts: Seq<Partition>) -> bool {
    forall|i: int| 0 <= i < parts.len() ==> #[trigger] chained_at(parts, i)
}

/// The offset at which ranges that lie end to end stop.
pub open spec fn end_of(parts: Seq<Partition>) -> int {
    if parts.len() == 0 {
        0
    } else {
        parts.last().end as int
    }
}

/// The share is a whole number of blocks, and `count` shares fit into
/// `total_len` for every `count` up to the number of workers.
pub proof fn lemma_unit_bounds(total_len: int, workers: int, count: int)
    requires
        0 <= total_len,
        0 <= count <= workers,
    ensures
        0 <= unit_len(total_len, workers),
        unit_len(total_len, workers) % (BLOCK_SIZE as int) == 0,
        0 <= unit_len(total_len, workers) * count <= total_len,
        unit_len(total_len, workers) * (count + 1) == unit_len(total_len, workers) * count
            + unit_len(total_len, workers),
        (unit_len(total_len, workers) * count) % (BLOCK_SIZE as int) == 0,
{
    let unit = unit_len(total_len, workers);
    let blocks = unit / 8;
    assert(unit * count == 8 * (blocks * count)) by (nonlinear_arith)
        requires
            unit == 8 * blocks,
    ;
    if workers > 0 {
        let share = total_len / workers;
        assert(0 <= share && share * workers <= total_len) by (nonlinear_arith)
            requires
                share == total_len / workers,
                0 <= total_len,
                0 < workers,
        ;
        assert(0 <= unit * count <= share * workers) by (nonlinear_arith)
            requires
                0 <= unit <= share,
                0 <= count <= workers,
        ;
    }
    assert(unit * (count + 1) == unit * count + unit) by (nonlinear_arith);
}

/// Computes the range of one worker.
pub fn partition_at(total_len: usize, workers: usize, index: usize) -> (part: Partition)
    requires
        index < workers,
    ensures
        part == range_of(total_len, workers, index),
        part.fits(total_len as int),
        !part.is_last() ==> part.len() == unit_len(total_len as int, workers as int),
        !part.is_last() ==> part.len() % (BLOCK_SIZE as int) == 0,
{
    let unit: usize = total_len / workers / BLOCK_SIZE * BLOCK_SIZE;
    proof {
        lemma_unit_bounds(total_len as int, workers as int, index as int);
        lemma_unit_bounds(total_len as int, workers as int, index + 1);
    }
    let start: usize = unit * index;
    let end: usize = if index == workers - 1 {
        total_len
    } else {
        unit * (index + 1)
    };
    Partition { index, workers, start, end }
}

/// Cuts `total_len` bytes into `workers` ranges, in worker order. The ranges
/// lie end to end from offset 0 to `total_len`, and each but the last is a
/// whole number of blocks. With no worker there is no range.
pub fn partition(total_len: usize, workers: usize) -> (parts: Vec<Partition>)
    ensures
        parts@ == partitions(total_len, workers),
        forall|i: int| 0 <= i < parts@.len() ==> (#[trigger] parts@[i]).fits(total_len as int),
        workers >= 1 ==> chained(parts@) && end_of(parts@) == total_len,
        forall|i: int|
            0 <= i < parts@.len() && !(#[trigger] parts@[i]).is_last() ==> parts@[i].len() % (
            BLOCK_SIZE as int) == 0,
{
    let mut parts: Vec<Partition> = Vec::new();
    let mut i: usize = 0;
    while i < workers
        invariant
            i <= workers,
            parts@.len() == i,
            forall|j: int| 0 <= j < i ==> parts@[j] == range_of(total_len, workers, j as usize),
            forall|j: int| 0 <= j < i ==> (#[trigger] parts@[j]).fits(total_len as int),
            forall|j: int|
                0 <= j < i && !(#[trigger] parts@[j]).is_last() ==> parts@[j].len() % (
                BLOCK_SIZE as int) == 0,
        decreases workers - i,
    {
        let part = partition_at(total_len, workers, i);
        parts.push(part);
        i += 1;
    }
    assert(parts@ =~= partitions(total_len, workers));
    proof {
        if workers >= 1 {
            lemma_partitions_chained(total_len, workers);
        }
    }
    parts
}

/// The ranges are laid end to end from offset 0 to `total_len`: each starts
/// where the one before ended, none runs backwards, so no two overlap and
/// every offset of the buffer lies in exactly one of them.
pub proof fn lemma_partitions_cover(total_len: usize, workers: usize)
    requires
        workers >= 1,
    ensures
        partitions(total_len, workers).len() == workers,
        partitions(total_len, workers)[0].start == 0,
        partitions(total_len, workers)[workers - 1].end == total_len,
        forall|i: int|
            0 <= i < workers ==> (#[trigger] partitions(total_len, workers)[i]).fits(
                total_len as int,
            ),
        forall|i: int|
            0 <= i < workers - 1 ==> (#[trigger] partitions(total_len, workers)[i]).end
                == partitions(total_len, workers)[i + 1].start,
        forall|i: int, j: int|
            0 <= i < j < workers ==> (#[trigger] partitions(total_len, workers)[i]).end <= (
            #[trigger] partitions(total_len, workers)[j]).start,
        forall|offset: int|
            0 <= offset < total_len <==> #[trigger] covered(
                partitions(total_len, workers),
                offset,
            ),
{
    let parts = partitions(total_len, workers);
    let unit = unit_len(total_len as int, workers as int);
    lemma_unit_bounds(total_len as int, workers as int, 0);
    assert forall|i: int| 0 <= i < workers implies (#[trigger] parts[i]).fits(total_len as int)
        && parts[i].start == unit * i && (i < workers - 1 ==> parts[i].end == unit * (i + 1)) by {
        lemma_unit_bounds(total_len as int, workers as int, i);
        lemma_unit_bounds(total_len as int, workers as int, i + 1);
    }
    assert forall|i: int, j: int| 0 <= i < j < workers implies (#[trigger] parts[i]).end <= (
    #[trigger] parts[j]).start by {
        assert(unit * (i + 1) <= unit * j) by (nonlinear_arith)
            requires
                0 <= unit,
                i + 1 <= j,
        ;
    }
    assert forall|offset: int| 0 <= offset < total_len implies #[trigger] covered(
        parts,
        offset,
    ) by {
        let last = workers - 1;
        if parts[last].start <= offset {
            assert(parts[last].contains(offset));
        } else {
            let i = offset / unit;
            assert(0 < unit && 0 <= i < last && unit * i <= offset < unit * (i + 1))
                by (nonlinear_arith)
                requires
                    0 <= offset < unit * last,
                    0 <= unit,
                    i == offset / unit,
            ;
            assert(parts[i].contains(offset));
        }
    }
}

/// The ranges of a buffer lie end to end and stop at its length.
pub proof fn lemma_partitions_chained(total_len: usize, workers: usize)
    requires
        workers >= 1,
    ensures
        chained(partitions(total_len, workers)),
        end_of(partitions(total_len, workers)) == total_len,
{
    let parts = partitions(total_len, workers);
    lemma_partitions_cover(total_len, workers);
    assert forall|i: int| 0 <= i < parts.len() implies #[trigger] chained_at(parts, i) by {
        assert(parts[i].fits(total_len as int));
        if i > 0 {
            assert(parts[i - 1].end == parts[i].start);
        }
    }
}

/// Every range but the last is exactly one share long, so it holds a whole
/// number of blocks; the last holds one share and the remainder.
pub proof fn lemma_partitions_aligned(total_len: usize, workers: usize, index: usize)
    requires
        index < workers,
    ensures
        !range_of(total_len, workers, index).is_last() ==> range_of(
            total_len,
            workers,
            index,
        ).len() == unit_len(total_len as int, workers as int),
        !range_of(total_len, workers, index).is_last() ==> range_of(
            total_len,
            workers,
            index,
        ).len() % (BLOCK_SIZE as int) == 0,
        range_of(total_len, workers, index).is_last() ==> range_of(total_len, workers, index).len()
            == total_len - unit_len(total_len as int, workers as int) * (workers - 1),
        range_of(total_len, workers, index).is_last() ==> range_of(total_len, workers, index).len()
            >= unit_len(total_len as int, workers as int),
{
    lemma_unit_bounds(total_len as int, workers as int, index as int);
    lemma_unit_bounds(total_len as int, workers as int, index + 1);
}

} // verus!
