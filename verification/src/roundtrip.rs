//! Why decryption over the ciphertext's own ranges undoes a run of
//! encryption, and when cutting the ciphertext by its length finds those
//! ranges again.

use crate::cipher::{observed, padded_len, CipherError, Mode};
use crate::key::BLOCK_SIZE;
use crate::layout::{
    ciphertext_len, ciphertext_partitions, ciphertext_unit_len, lemma_ciphertext_bounds,
    split_survives,
};
use crate::partition::{
    chained, chained_at, end_of, lemma_partitions_chained, lemma_unit_bounds, partitions,
    unit_len, Partition,
};
use crate::pipeline::{
    assembled, lemma_refused_range_fails, outputs_over, range_outputs, run_output,
};
use vstd::prelude::*;

verus! {

/// Results that are the consecutive ranges of one buffer join to that
/// buffer, up to where the ranges stop.
pub proof fn lemma_cut_then_join(
    whole: Seq<u8>,
    parts: Seq<Partition>,
    results: Seq<Result<Seq<u8>, CipherError>>,
)
    requires
        results.len() == parts.len(),
        chained(parts),
        end_of(parts) <= whole.len(),
        forall|i: int|
            0 <= i < parts.len() ==> #[trigger] results[i] == Ok::<Seq<u8>, CipherError>(
                parts[i].bytes_of(whole),
            ),
    ensures
        assembled(results) == Ok::<Seq<u8>, CipherError>(whole.subrange(0, end_of(parts))),
    decreases parts.len(),
{
    let n = parts.len() as int;
    if n == 0 {
        assert(whole.subrange(0, 0) =~= Seq::<u8>::empty());
    } else {
        let head = parts.drop_last();
        assert(chained_at(parts, n - 1));
        assert forall|i: int| 0 <= i < head.len() implies #[trigger] chained_at(head, i) by {
            assert(chained_at(parts, i));
        }
        let front = results.drop_last();
        assert forall|i: int| 0 <= i < head.len() implies #[trigger] front[i] == Ok::<
            Seq<u8>,
            CipherError,
        >(head[i].bytes_of(whole)) by {
            assert(front[i] == results[i]);
        }
        lemma_cut_then_join(whole, head, front);
        assert(whole.subrange(0, end_of(head)) + parts[n - 1].bytes_of(whole) =~= whole.subrange(
            0,
            end_of(parts),
        ));
    }
}

/// Where results of known lengths join to a buffer, the lengths add up to
/// the buffer's, and each result is the range of the buffer between its own
/// two bounds.
pub proof fn lemma_join_then_cut(
    whole: Seq<u8>,
    bounds: Seq<int>,
    results: Seq<Result<Seq<u8>, CipherError>>,
)
    requires
        bounds.len() == results.len() + 1,
        bounds[0] == 0,
        assembled(results) == Ok::<Seq<u8>, CipherError>(whole),
        forall|i: int|
            0 <= i < results.len() ==> (#[trigger] results[i] matches Ok(bytes) && bytes.len()
                == bounds[i + 1] - bounds[i]),
    ensures
        whole.len() == bounds[results.len() as int],
        forall|i: int|
            0 <= i < results.len() ==> {
                &&& 0 <= bounds[i] <= bounds[i + 1] <= whole.len()
                &&& #[trigger] results[i] == Ok::<Seq<u8>, CipherError>(
                    whole.subrange(bounds[i], bounds[i + 1]),
                )
            },
    decreases results.len(),
{
    let n = results.len() as int;
    if n > 0 {
        let front = results.drop_last();
        let joined = assembled(front)->Ok_0;
        let tail = results[n - 1]->Ok_0;
        assert(whole == joined + tail);
        assert forall|i: int| 0 <= i < front.len() implies (#[trigger] front[i] matches Ok(bytes)
            && bytes.len() == bounds.drop_last()[i + 1] - bounds.drop_last()[i]) by {
            assert(front[i] == results[i]);
        }
        lemma_join_then_cut(joined, bounds.drop_last(), front);
        assert forall|i: int| 0 <= i < results.len() implies {
            &&& 0 <= bounds[i] <= bounds[i + 1] <= whole.len()
            &&& #[trigger] results[i] == Ok::<Seq<u8>, CipherError>(
                whole.subrange(bounds[i], bounds[i + 1]),
            )
        } by {
            if i < n - 1 {
                assert(front[i] == Ok::<Seq<u8>, CipherError>(
                    joined.subrange(bounds.drop_last()[i], bounds.drop_last()[i + 1]),
                ));
                assert(joined.subrange(bounds[i], bounds[i + 1]) =~= whole.subrange(
                    bounds[i],
                    bounds[i + 1],
                ));
            } else {
                assert(tail =~= whole.subrange(bounds[i], bounds[i + 1]));
            }
        }
    }
}

/// The offsets at which the workers' outputs start in the ciphertext,
/// followed by the ciphertext's length.
pub open spec fn ciphertext_bounds(plain_len: int, workers: int) -> Seq<int> {
    Seq::new(
        (workers + 1) as nat,
        |i: int|
            if i < workers {
                ciphertext_unit_len(plain_len, workers) * i
            } else {
                ciphertext_len(plain_len, workers)
            },
    )
}

/// Decryption over the ciphertext's own ranges undoes a run of encryption,
/// given what the cipher calls of that run have shown: every ciphered range
/// came out at its padded length and deciphers to the range again.
pub(crate) proof fn lemma_round_trip(
    data: Seq<u8>,
    key: Seq<u8>,
    workers: usize,
    ciphertext: Seq<u8>,
)
    requires
        workers >= 1,
        data.len() <= usize::MAX,
        ciphertext.len() <= usize::MAX,
        run_output(Mode::Encrypt, data, key, workers) == Ok::<Seq<u8>, CipherError>(ciphertext),
        forall|i: int|
            0 <= i < workers && !(#[trigger] partitions(data.len() as usize, workers)[i]).is_idle()
                ==> observed(
                Mode::Encrypt,
                key,
                partitions(data.len() as usize, workers)[i].bytes_of(data),
            ),
    ensures
        ciphertext.len() == ciphertext_len(data.len() as int, workers as int),
        outputs_over(
            Mode::Decrypt,
            ciphertext,
            key,
            ciphertext_partitions(data.len() as usize, workers),
        ) == Ok::<Seq<u8>, CipherError>(data),
{
    let len = data.len() as usize;
    let count = workers as int;
    let parts = partitions(len, workers);
    let bounds = ciphertext_bounds(len as int, count);
    let sealed = range_outputs(Mode::Encrypt, data, key, parts);
    lemma_partitions_chained(len, workers);
    lemma_unit_bounds(len as int, count, count - 1);
    lemma_ciphertext_bounds(len as int, count, 0);

    assert forall|i: int| 0 <= i < count implies (#[trigger] sealed[i] matches Ok(bytes)
        && bytes.len() == bounds[i + 1] - bounds[i]) by {
        lemma_unit_bounds(len as int, count, i);
        lemma_unit_bounds(len as int, count, i + 1);
        lemma_ciphertext_bounds(len as int, count, i);
        if !parts[i].is_idle() {
            assert(observed(Mode::Encrypt, key, parts[i].bytes_of(data)));
        }
    }
    lemma_join_then_cut(ciphertext, bounds, sealed);

    let layout = ciphertext_partitions(len, workers);
    let opened = range_outputs(Mode::Decrypt, ciphertext, key, layout);
    assert forall|i: int| 0 <= i < count implies #[trigger] opened[i] == Ok::<
        Seq<u8>,
        CipherError,
    >(parts[i].bytes_of(data)) by {
        lemma_unit_bounds(len as int, count, i);
        lemma_unit_bounds(len as int, count, i + 1);
        lemma_ciphertext_bounds(len as int, count, i);
        assert(sealed[i] == Ok::<Seq<u8>, CipherError>(
            ciphertext.subrange(bounds[i], bounds[i + 1]),
        ));
        assert(layout[i].start == bounds[i] && layout[i].end == bounds[i + 1]);
        if parts[i].is_idle() {
            assert(layout[i].is_idle());
            assert(parts[i].bytes_of(data) =~= Seq::<u8>::empty());
        } else {
            assert(!layout[i].is_idle());
            assert(observed(Mode::Encrypt, key, parts[i].bytes_of(data)));
        }
    }
    lemma_cut_then_join(data, parts, opened);
    assert(data.subrange(0, len as int) =~= data);
}

/// Unless the split is lost, the share computed from the ciphertext's
/// length is the length of a worker's output.
proof fn lemma_recomputed_unit(plain_len: int, workers: int)
    requires
        0 <= plain_len,
        1 <= workers,
        plain_len < BLOCK_SIZE * (workers - 1) || plain_len >= BLOCK_SIZE * workers,
    ensures
        unit_len(ciphertext_len(plain_len, workers), workers) == ciphertext_unit_len(
            plain_len,
            workers,
        ),
{
    let unit = unit_len(plain_len, workers);
    let share = plain_len / workers;
    let last_len = plain_len - unit * (workers - 1);
    let total = ciphertext_len(plain_len, workers);
    let recomputed = total / workers;
    lemma_unit_bounds(plain_len, workers, workers);
    lemma_unit_bounds(plain_len, workers, workers - 1);
    assert(share * workers <= plain_len < (share + 1) * workers) by (nonlinear_arith)
        requires
            share == plain_len / workers,
            0 <= plain_len,
            0 < workers,
    ;
    if plain_len >= BLOCK_SIZE * workers {
        assert(share >= 8) by (nonlinear_arith)
            requires
                plain_len < (share + 1) * workers,
                plain_len >= 8 * workers,
                0 < workers,
        ;
        assert((share + 1) * workers <= (unit + 8) * workers) by (nonlinear_arith)
            requires
                share + 1 <= unit + 8,
                0 < workers,
        ;
        assert(unit + 8 <= padded_len(last_len) <= last_len + 8);
        assert((unit + 8) * workers <= total < (unit + 16) * workers) by (nonlinear_arith)
            requires
                total == (unit + 8) * (workers - 1) + padded_len(last_len),
                unit + 8 <= padded_len(last_len) <= last_len + 8,
                last_len == plain_len - unit * (workers - 1),
                plain_len < (unit + 8) * workers,
                0 < workers,
        ;
        assert(unit + 8 <= recomputed < unit + 16) by (nonlinear_arith)
            requires
                (unit + 8) * workers <= total < (unit + 16) * workers,
                recomputed == total / workers,
                0 < workers,
        ;
    } else {
        assert(share < 8) by (nonlinear_arith)
            requires
                share * workers <= plain_len,
                plain_len < 8 * (workers - 1),
                0 <= share,
                0 < workers,
        ;
        assert(unit == 0 && total == padded_len(plain_len));
        assert(recomputed < 8) by (nonlinear_arith)
            requires
                0 <= total <= 8 * (workers - 1),
                recomputed == total / workers,
                0 < workers,
        ;
    }
}

/// Cutting the ciphertext of a run by its own length gives the ranges that
/// the workers produced, for every plaintext length and worker count but
/// those where the plaintext is too short to give each worker a block and
/// its ciphertext is not.
pub proof fn lemma_split_survives(plain_len: usize, workers: usize)
    requires
        workers >= 1,
        split_survives(plain_len as int, workers as int),
        ciphertext_len(plain_len as int, workers as int) <= usize::MAX,
    ensures
        partitions(ciphertext_len(plain_len as int, workers as int) as usize, workers)
            == ciphertext_partitions(plain_len, workers),
{
    lemma_ciphertext_bounds(plain_len as int, workers as int, 0);
    let total = ciphertext_len(plain_len as int, workers as int) as usize;
    let recut = partitions(total, workers);
    let layout = ciphertext_partitions(plain_len, workers);
    if workers > 1 {
        lemma_recomputed_unit(plain_len as int, workers as int);
    }
    assert forall|i: int| 0 <= i < workers implies recut[i] == layout[i] by {
        if workers == 1 {
            assert(unit_len(total as int, 1) * 0 == 0);
            assert(ciphertext_unit_len(plain_len as int, 1) * 0 == 0);
        }
    }
    assert(recut =~= layout);
}

/// Where the split does not survive, the ciphertext is one block for every
/// worker: cut by its length it gives the first worker a block, yet that
/// worker was idle and produced none.
pub proof fn lemma_split_lost(plain_len: usize, workers: usize)
    requires
        workers >= 1,
        !split_survives(plain_len as int, workers as int),
    ensures
        ciphertext_len(plain_len as int, workers as int) == BLOCK_SIZE * workers,
        ciphertext_partitions(plain_len, workers)[0].is_idle(),
        ciphertext_len(plain_len as int, workers as int) <= usize::MAX ==> !partitions(
            ciphertext_len(plain_len as int, workers as int) as usize,
            workers,
        )[0].is_idle(),
{
    let len = plain_len as int;
    let count = workers as int;
    let share = len / count;
    let total = ciphertext_len(len, count);
    assert(share < 8) by (nonlinear_arith)
        requires
            share == len / count,
            0 <= len < 8 * count,
            0 < count,
    ;
    assert(unit_len(len, count) == 0);
    assert(unit_len(len, count) * (count - 1) == 0) by (nonlinear_arith)
        requires
            unit_len(len, count) == 0,
    ;
    assert(ciphertext_unit_len(len, count) * (count - 1) == 0) by (nonlinear_arith)
        requires
            ciphertext_unit_len(len, count) == 0,
    ;
    assert(total == padded_len(len) && total == 8 * count);
    if total <= usize::MAX {
        assert(total / count == 8) by (nonlinear_arith)
            requires
                total == 8 * count,
                0 < count,
        ;
        assert(unit_len(total, count) == 8);
    }
}

/// What the round trip gives for a run of decryption that cuts the
/// ciphertext by its length, and for an empty plaintext.
pub(crate) proof fn lemma_recut_round_trip(
    data: Seq<u8>,
    key: Seq<u8>,
    workers: usize,
    ciphertext: Seq<u8>,
)
    requires
        workers >= 1,
        data.len() <= usize::MAX,
        ciphertext.len() == ciphertext_len(data.len() as int, workers as int),
        ciphertext.len() <= usize::MAX,
        outputs_over(
            Mode::Decrypt,
            ciphertext,
            key,
            ciphertext_partitions(data.len() as usize, workers),
        ) == Ok::<Seq<u8>, CipherError>(data),
    ensures
        data.len() == 0 ==> ciphertext.len() == BLOCK_SIZE,
        split_survives(data.len() as int, workers as int) ==> run_output(
            Mode::Decrypt,
            ciphertext,
            key,
            workers,
        ) == Ok::<Seq<u8>, CipherError>(data),
{
    let count = workers as int;
    if split_survives(data.len() as int, count) {
        lemma_split_survives(data.len() as usize, workers);
    }
    if data.len() == 0 {
        assert(0int / count == 0) by (nonlinear_arith)
            requires
                count > 0,
        ;
        assert(unit_len(0, count) * (count - 1) == 0) by (nonlinear_arith)
            requires
                unit_len(0, count) == 0,
        ;
    }
}

/// A buffer that is no whole number of blocks leaves the last worker a
/// range that is none either, which the cipher was seen to refuse.
pub(crate) proof fn lemma_misaligned_fails(data: Seq<u8>, key: Seq<u8>, workers: usize)
    requires
        workers >= 1,
        data.len() <= usize::MAX,
        observed(
            Mode::Decrypt,
            key,
            partitions(data.len() as usize, workers)[workers - 1].bytes_of(data),
        ),
    ensures
        data.len() % (BLOCK_SIZE as nat) != 0 ==> run_output(Mode::Decrypt, data, key, workers)
            is Err,
{
    let len = data.len() as int;
    let count = workers as int;
    let parts = partitions(data.len() as usize, workers);
    if len % (BLOCK_SIZE as int) != 0 {
        lemma_unit_bounds(len, count, count - 1);
        assert(parts[count - 1].bytes_of(data).len() % (BLOCK_SIZE as nat) != 0);
        lemma_refused_range_fails(data, key, parts, count - 1);
    }
}

} // verus!
