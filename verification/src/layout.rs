//! Where each worker's output lies in the ciphertext of a run.
//!
//! Encryption pads every range on its own, so the ciphertext of a run is
//! longer than the plaintext by up to one block per worker, and the ranges
//! that decryption must take are those of the ciphertext, not those that
//! the plaintext was cut into.

use crate::cipher::padded_len;
use crate::key::BLOCK_SIZE;
use crate::partition::{lemma_unit_bounds, unit_len, Partition};
use vstd::prelude::*;

verus! {

/// Bytes that every worker but the last adds to the ciphertext: its share
/// and one block of padding, or nothing where its range is idle.
pub open spec fn ciphertext_unit_len(plain_len: int, workers: int) -> int {
    let unit = unit_len(plain_len, workers);
    if unit == 0 {
        0
    } else {
        unit + BLOCK_SIZE
    }
}

/// Length of the ciphertext of `plain_len` bytes encrypted by `workers`
/// workers.
pub open spec fn ciphertext_len(plain_len: int, workers: int) -> int {
    if workers <= 0 {
        0
    } else {
        ciphertext_unit_len(plain_len, workers) * (workers - 1) + padded_len(
            plain_len - unit_len(plain_len, workers) * (workers - 1),
        )
    }
}

/// The range of the ciphertext that worker `index` produced.
pub open spec fn ciphertext_range_of(plain_len: usize, workers: usize, index: usize) -> Partition {
    let unit = ciphertext_unit_len(plain_len as int, workers as int);
    Partition {
        index,
        workers,
        start: (unit * index) as usize,
        end: if index + 1 == workers {
            ciphertext_len(plain_len as int, workers as int) as usize
        } else {
            (unit * (index + 1)) as usize
        },
    }
}

/// The ranges of the ciphertext, in worker order.
pub open spec fn ciphertext_partitions(plain_len: usize, workers: usize) -> Seq<Partition> {
    Seq::new(workers as nat, |i: int| ciphertext_range_of(plain_len, workers, i as usize))
}

/// Whether cutting the ciphertext by its own length gives the ranges that
/// the workers produced. It does unless the plaintext is too short to give
/// every worker a block and yet long enough that its ciphertext does.
pub open spec fn split_survives(plain_len: int, workers: int) -> bool {
    ||| workers == 1
    ||| plain_len < BLOCK_SIZE * (workers - 1)
    ||| plain_len >= BLOCK_SIZE * workers
}

/// Executable form of [`split_survives`].
pub fn keeps_split(plain_len: usize, workers: usize) -> (kept: bool)
    ensures
        kept == split_survives(plain_len as int, workers as int),
{
    workers == 0 || plain_len / BLOCK_SIZE != workers - 1 || workers == 1
}

/// The ciphertext's ranges start at multiples of the ciphertext share, and
/// `count` of them fit below the ciphertext's length for every `count`
/// short of the number of workers.
pub proof fn lemma_ciphertext_bounds(plain_len: int, workers: int, count: int)
    requires
        0 <= plain_len,
        0 <= count < workers,
    ensures
        0 <= ciphertext_unit_len(plain_len, workers) * count <= ciphertext_unit_len(
            plain_len,
            workers,
        ) * (workers - 1),
        ciphertext_unit_len(plain_len, workers) * (workers - 1) + BLOCK_SIZE <= ciphertext_len(
            plain_len,
            workers,
        ),
        ciphertext_unit_len(plain_len, workers) * (count + 1) == ciphertext_unit_len(
            plain_len,
            workers,
        ) * count + ciphertext_unit_len(plain_len, workers),
{
    let unit = ciphertext_unit_len(plain_len, workers);
    lemma_unit_bounds(plain_len, workers, workers - 1);
    assert(0 <= unit * count <= unit * (workers - 1)) by (nonlinear_arith)
        requires
            0 <= unit,
            0 <= count <= workers - 1,
    ;
    assert(unit * (count + 1) == unit * count + unit) by (nonlinear_arith);
}

/// Computes the ranges of the ciphertext that a run of `workers` workers
/// gives for `plain_len` bytes of plaintext. There is none where the
/// ciphertext would be longer than a buffer can be.
pub fn ciphertext_layout(plain_len: usize, workers: usize) -> (layout: Option<Vec<Partition>>)
    ensures
        layout is Some <==> ciphertext_len(plain_len as int, workers as int) <= usize::MAX,
        layout matches Some(parts) ==> parts@ == ciphertext_partitions(plain_len, workers),
        layout matches Some(parts) ==> forall|i: int|
            0 <= i < parts@.len() ==> (#[trigger] parts@[i]).fits(
                ciphertext_len(plain_len as int, workers as int),
            ),
{
    if workers == 0 {
        let parts: Vec<Partition> = Vec::new();
        return Some(parts);
    }
    let last: usize = workers - 1;
    let unit: usize = plain_len / workers / BLOCK_SIZE * BLOCK_SIZE;
    proof {
        lemma_unit_bounds(plain_len as int, workers as int, last as int);
        lemma_ciphertext_bounds(plain_len as int, workers as int, 0);
    }
    let last_len: usize = plain_len - unit * last;
    let ghost total = ciphertext_len(plain_len as int, workers as int);
    let ghost share = ciphertext_unit_len(plain_len as int, workers as int);
    assert(unit <= last_len && padded_len(last_len as int) >= unit + BLOCK_SIZE) by {
        lemma_unit_bounds(plain_len as int, workers as int, workers as int);
    }
    let share_len: usize = if unit == 0 {
        0
    } else {
        match unit.checked_add(BLOCK_SIZE) {
            Some(n) => n,
            None => {
                return None;
            },
        }
    };
    let before_last: usize = match share_len.checked_mul(last) {
        Some(n) => n,
        None => {
            return None;
        },
    };
    let padded: usize = match (last_len / BLOCK_SIZE + 1).checked_mul(BLOCK_SIZE) {
        Some(n) => n,
        None => {
            return None;
        },
    };
    let total_len: usize = match before_last.checked_add(padded) {
        Some(n) => n,
        None => {
            return None;
        },
    };
    let mut parts: Vec<Partition> = Vec::new();
    let mut i: usize = 0;
    while i < workers
        invariant
            i <= workers,
            last == workers - 1,
            share_len == share,
            share == ciphertext_unit_len(plain_len as int, workers as int),
            total_len == ciphertext_len(plain_len as int, workers as int),
            share_len * last <= usize::MAX,
            parts@.len() == i,
            forall|j: int|
                0 <= j < i ==> parts@[j] == ciphertext_range_of(plain_len, workers, j as usize),
            forall|j: int| 0 <= j < i ==> (#[trigger] parts@[j]).fits(total_len as int),
        decreases workers - i,
    {
        proof {
            lemma_ciphertext_bounds(plain_len as int, workers as int, i as int);
            if i < last {
                lemma_ciphertext_bounds(plain_len as int, workers as int, i + 1);
            }
        }
        let start: usize = share_len * i;
        let end: usize = if i == last {
            total_len
        } else {
            share_len * (i + 1)
        };
        parts.push(Partition { index: i, workers, start, end });
        i += 1;
    }
    Some(parts)
}

} // verus!
