//! Coercion of a key of any length to the cipher's fixed key size.

use vstd::prelude::*;

verus! {

/// Bytes in one cipher block; the cipher's key has the same size.
pub const BLOCK_SIZE: usize = 8;

/// The key the cipher actually uses: exactly [`BLOCK_SIZE`] bytes.
#[derive(Clone, Copy, Debug, PartialEq, Eq)]
pub struct NormalizedKey {
    pub bytes: [u8; BLOCK_SIZE],
}

impl View for NormalizedKey {
    type V = Seq<u8>;

    open spec fn view(&self) -> Seq<u8> {
        self.bytes@
    }
}

/// What a raw key is coerced to: its first [`BLOCK_SIZE`] bytes, with zero
/// bytes standing in for those it lacks.
pub open spec fn normalized(raw: Seq<u8>) -> Seq<u8> {
    Seq::new(
        BLOCK_SIZE as nat,
        |i: int|
            if i < raw.len() {
                raw[i]
            } else {
                0u8
            },
    )
}

/// Coerces a key of any length: a longer one is cut after [`BLOCK_SIZE`]
/// bytes, a shorter one is filled up with zero bytes, one of exactly that
/// size is taken as it is. Every input is accepted.
pub fn normalize(raw: &[u8]) -> (key: NormalizedKey)
    ensures
        key@ == normalized(raw@),
        key@.len() == BLOCK_SIZE,
{
    let mut bytes: [u8; BLOCK_SIZE] = [0u8; BLOCK_SIZE];
    let mut i: usize = 0;
    while i < BLOCK_SIZE && i < raw.len()
        invariant
            i <= BLOCK_SIZE,
            i <= raw@.len(),
            forall|j: int| 0 <= j < i ==> bytes@[j] == raw@[j],
            forall|j: int| i <= j < BLOCK_SIZE ==> bytes@[j] == 0u8,
        decreases BLOCK_SIZE - i,
    {
        bytes[i] = raw[i];
        i += 1;
    }
    NormalizedKey { bytes }
}

/// A normalized key has the cipher's key size, and normalizing it again
/// changes nothing.
pub proof fn lemma_normalize_idempotent(raw: Seq<u8>)
    ensures
        normalized(raw).len() == BLOCK_SIZE,
        normalized(normalized(raw)) == normalized(raw),
{
}

/// The three cases of normalization: a key of the right size is kept, a
/// longer one is cut to its first bytes, a shorter one is followed by zero
/// bytes.
pub proof fn lemma_normalized_cases(raw: Seq<u8>)
    ensures
        raw.len() == BLOCK_SIZE ==> normalized(raw) == raw,
        raw.len() > BLOCK_SIZE ==> normalized(raw) == raw.subrange(0, BLOCK_SIZE as int),
        raw.len() < BLOCK_SIZE ==> normalized(raw) == raw + Seq::new(
            (BLOCK_SIZE - raw.len()) as nat,
            |i: int| 0u8,
        ),
{
}

} // verus!
