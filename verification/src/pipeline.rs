//! The work of the pipeline: one cipher call per range, the outputs joined
//! in range order, the first failure reported for the whole run.

use crate::cipher::{
    apply, cipher_output, des_ecb_decrypt, observed, output_view, padded_len, CipherError, Mode,
};
use crate::key::NormalizedKey;
use crate::layout::{ciphertext_layout, ciphertext_len, ciphertext_partitions};
use crate::partition::{partition_at, partitions, range_of, Partition};
use vstd::prelude::*;
use vstd::slice::slice_subrange;

verus! {

/// What the worker of `part` contributes: nothing for an idle range, else
/// the cipher's result on the bytes of the range.
pub open spec fn range_output(
    mode: Mode,
    data: Seq<u8>,
    key: Seq<u8>,
    part: Partition,
) -> Result<Seq<u8>, CipherError> {
    if part.is_idle() {
        Ok(Seq::empty())
    } else {
        cipher_output(mode, key, part.bytes_of(data))
    }
}

/// The workers' results joined in order. A failure among them is the result
/// of the whole, the one of the lowest index if there are several.
pub open spec fn assembled(results: Seq<Result<Seq<u8>, CipherError>>) -> Result<
    Seq<u8>,
    CipherError,
>
    decreases results.len(),
{
    if results.len() == 0 {
        Ok(Seq::empty())
    } else {
        match assembled(results.drop_last()) {
            Err(e) => Err(e),
            Ok(joined) => match results.last() {
                Err(e) => Err(e),
                Ok(bytes) => Ok(joined + bytes),
            },
        }
    }
}

/// The results of the workers of `parts`, each on its own range of `data`.
pub open spec fn range_outputs(
    mode: Mode,
    data: Seq<u8>,
    key: Seq<u8>,
    parts: Seq<Partition>,
) -> Seq<Result<Seq<u8>, CipherError>> {
    Seq::new(parts.len(), |i: int| range_output(mode, data, key, parts[i]))
}

/// The output of a run over the given ranges.
pub open spec fn outputs_over(
    mode: Mode,
    data: Seq<u8>,
    key: Seq<u8>,
    parts: Seq<Partition>,
) -> Result<Seq<u8>, CipherError> {
    assembled(range_outputs(mode, data, key, parts))
}

/// The output of a run with `workers` workers: the buffer is cut by its own
/// length, whatever the direction.
pub open spec fn run_output(
    mode: Mode,
    data: Seq<u8>,
    key: Seq<u8>,
    workers: usize,
) -> Result<Seq<u8>, CipherError> {
    outputs_over(mode, data, key, partitions(data.len() as usize, workers))
}

/// The results of finished workers, each with its bytes taken as a sequence.
pub open spec fn output_views(results: Seq<Result<Vec<u8>, CipherError>>) -> Seq<
    Result<Seq<u8>, CipherError>,
> {
    results.map_values(|r: Result<Vec<u8>, CipherError>| output_view(r))
}

/// Once a prefix of the results holds a failure, every longer prefix
/// reports that same failure.
pub proof fn lemma_failure_persists(
    results: Seq<Result<Seq<u8>, CipherError>>,
    short: int,
    long: int,
)
    requires
        0 <= short <= long <= results.len(),
        assembled(results.take(short)) is Err,
    ensures
        assembled(results.take(long)) == assembled(results.take(short)),
    decreases long - short,
{
    if short < long {
        lemma_failure_persists(results, short, long - 1);
        assert(results.take(long).drop_last() =~= results.take(long - 1));
    }
}

/// The join succeeds exactly where every worker did.
pub proof fn lemma_all_ok(results: Seq<Result<Seq<u8>, CipherError>>)
    ensures
        assembled(results) is Ok <==> forall|i: int| 0 <= i < results.len() ==> results[i] is Ok,
    decreases results.len(),
{
    if results.len() > 0 {
        lemma_all_ok(results.drop_last());
        if assembled(results) is Ok {
            assert forall|i: int| 0 <= i < results.len() implies results[i] is Ok by {
                if i < results.len() - 1 {
                    assert(results.drop_last()[i] is Ok);
                }
            }
        } else if forall|i: int| 0 <= i < results.len() ==> results[i] is Ok {
            let front = results.drop_last();
            assert forall|i: int| 0 <= i < front.len() implies front[i] is Ok by {
                assert(results[i] is Ok);
            }
        }
    }
}

/// The work of one worker: the cipher on the bytes of its range, or nothing
/// at all where the range is idle.
pub fn process(mode: Mode, data: &[u8], key: &NormalizedKey, part: &Partition) -> (output: Result<
    Vec<u8>,
    CipherError,
>)
    requires
        part.fits(data@.len() as int),
    ensures
        output_view(output) == range_output(mode, data@, key@, *part),
        !part.is_idle() ==> observed(mode, key@, part.bytes_of(data@)),
        mode is Encrypt ==> output is Ok,
{
    if part.idle() {
        return Ok(Vec::new());
    }
    let range = slice_subrange(data, part.start, part.end);
    apply(mode, range, key)
}

/// Encrypts the range of worker `index` among `thread` workers. An idle
/// range gives no bytes; any other comes out padded.
pub fn encrypt(index: usize, data: &[u8], key: &NormalizedKey, thread: usize) -> (output: Vec<u8>)
    requires
        index < thread,
    ensures
        Ok::<Seq<u8>, CipherError>(output@) == range_output(
            Mode::Encrypt,
            data@,
            key@,
            range_of(data@.len() as usize, thread, index),
        ),
        !range_of(data@.len() as usize, thread, index).is_idle() ==> observed(
            Mode::Encrypt,
            key@,
            range_of(data@.len() as usize, thread, index).bytes_of(data@),
        ),
        output@.len() == if range_of(data@.len() as usize, thread, index).is_idle() {
            0
        } else {
            padded_len(range_of(data@.len() as usize, thread, index).len())
        },
{
    let part = partition_at(data.len(), thread, index);
    process(Mode::Encrypt, data, key, &part).unwrap()
}

/// Decrypts the range of worker `index` among `thread` workers. An idle
/// range gives no bytes; any other fails where the cipher refuses it.
pub fn decrypt(index: usize, data: &[u8], key: &NormalizedKey, thread: usize) -> (output: Result<
    Vec<u8>,
    CipherError,
>)
    requires
        index < thread,
    ensures
        output_view(output) == range_output(
            Mode::Decrypt,
            data@,
            key@,
            range_of(data@.len() as usize, thread, index),
        ),
        !range_of(data@.len() as usize, thread, index).is_idle() ==> observed(
            Mode::Decrypt,
            key@,
            range_of(data@.len() as usize, thread, index).bytes_of(data@),
        ),
{
    let part = partition_at(data.len(), thread, index);
    process(Mode::Decrypt, data, key, &part)
}

/// Joins the results of all workers in worker order. Where a worker failed,
/// the failure of the lowest index is returned and no bytes are.
pub fn assemble(results: &[Result<Vec<u8>, CipherError>]) -> (output: Result<Vec<u8>, CipherError>)
    ensures
        output_view(output) == assembled(output_views(results@)),
{
    let ghost views = output_views(results@);
    let mut joined: Vec<u8> = Vec::new();
    let mut i: usize = 0;
    while i < results.len()
        invariant
            i <= results@.len(),
            views == output_views(results@),
            assembled(views.take(i as int)) == Ok::<Seq<u8>, CipherError>(joined@),
        decreases results@.len() - i,
    {
        proof {
            assert(views.take(i + 1).drop_last() =~= views.take(i as int));
        }
        match &results[i] {
            Ok(bytes) => {
                let ghost before = joined@;
                joined.extend_from_slice(bytes.as_slice());
                assert(joined@ =~= before + bytes@);
            },
            Err(e) => {
                proof {
                    lemma_failure_persists(views, i + 1, views.len() as int);
                    assert(views.take(views.len() as int) =~= views);
                }
                return Err(*e);
            },
        }
        i += 1;
    }
    assert(views.take(i as int) =~= views);
    Ok(joined)
}

/// Runs the cipher over the given ranges of `data`: every range is
/// processed, then the results are joined in the order of `parts`.
pub fn run_over(mode: Mode, data: &[u8], key: &NormalizedKey, parts: &[Partition]) -> (output:
    Result<Vec<u8>, CipherError>)
    requires
        forall|i: int| 0 <= i < parts@.len() ==> (#[trigger] parts@[i]).fits(data@.len() as int),
    ensures
        output_view(output) == outputs_over(mode, data@, key@, parts@),
        forall|i: int|
            0 <= i < parts@.len() && !(#[trigger] parts@[i]).is_idle() ==> observed(
                mode,
                key@,
                parts@[i].bytes_of(data@),
            ),
        mode is Encrypt ==> output is Ok,
{
    let mut results: Vec<Result<Vec<u8>, CipherError>> = Vec::new();
    let mut i: usize = 0;
    while i < parts.len()
        invariant
            i <= parts@.len(),
            results@.len() == i,
            forall|j: int|
                0 <= j < parts@.len() ==> (#[trigger] parts@[j]).fits(data@.len() as int),
            forall|j: int|
                0 <= j < i ==> output_view(#[trigger] results@[j]) == range_output(
                    mode,
                    data@,
                    key@,
                    parts@[j],
                ),
            forall|j: int|
                0 <= j < i && !(#[trigger] parts@[j]).is_idle() ==> observed(
                    mode,
                    key@,
                    parts@[j].bytes_of(data@),
                ),
        decreases parts@.len() - i,
    {
        let result = process(mode, data, key, &parts[i]);
        results.push(result);
        i += 1;
    }
    assert(output_views(results@) =~= range_outputs(mode, data@, key@, parts@));
    let output = assemble(results.as_slice());
    proof {
        if mode is Encrypt {
            lemma_all_ok(range_outputs(mode, data@, key@, parts@));
        }
    }
    output
}

/// With a single worker a run is one cipher call on the whole buffer.
pub proof fn lemma_single_worker(mode: Mode, data: Seq<u8>, key: Seq<u8>)
    requires
        data.len() <= usize::MAX,
    ensures
        run_output(mode, data, key, 1) == cipher_output(mode, key, data),
{
    let parts = partitions(data.len() as usize, 1);
    let results = range_outputs(mode, data, key, parts);
    reveal_with_fuel(assembled, 2);
    assert(parts[0].bytes_of(data) =~= data);
    assert(results.last() == cipher_output(mode, key, data));
    assert(results.drop_last() =~= Seq::empty());
}

/// A run of decryption fails as soon as the cipher refuses one range that
/// is not idle, whatever the other ranges hold.
pub proof fn lemma_refused_range_fails(
    data: Seq<u8>,
    key: Seq<u8>,
    parts: Seq<Partition>,
    index: int,
)
    requires
        0 <= index < parts.len(),
        !parts[index].is_idle(),
        des_ecb_decrypt(key, parts[index].bytes_of(data)) is None,
    ensures
        outputs_over(Mode::Decrypt, data, key, parts) is Err,
{
    let results = range_outputs(Mode::Decrypt, data, key, parts);
    lemma_all_ok(results);
    assert(results[index] is Err);
}

/// Decrypts the ciphertext that a run of `workers` workers made of
/// `plain_len` bytes, over the ranges that those workers produced rather
/// than ranges cut from the ciphertext's own length. So it undoes every such
/// run, also where the split does not survive.
///
/// A buffer whose length is not that of such a ciphertext is refused, as is
/// one with a range that the cipher refuses.
pub fn restore(ciphertext: &[u8], key: &NormalizedKey, plain_len: usize, workers: usize) -> (output:
    Result<Vec<u8>, CipherError>)
    ensures
        ciphertext@.len() != ciphertext_len(plain_len as int, workers as int) ==> output is Err,
        ciphertext@.len() == ciphertext_len(plain_len as int, workers as int) ==> output_view(
            output,
        ) == outputs_over(
            Mode::Decrypt,
            ciphertext@,
            key@,
            ciphertext_partitions(plain_len, workers),
        ),
{
    match ciphertext_layout(plain_len, workers) {
        Some(layout) => {
            let expected: usize = if workers == 0 {
                0
            } else {
                layout[workers - 1].end
            };
            if ciphertext.len() != expected {
                return Err(CipherError);
            }
            run_over(Mode::Decrypt, ciphertext, key, layout.as_slice())
        },
        None => {
            assert(ciphertext@.len() == ciphertext.len());
            Err(CipherError)
        },
    }
}

} // verus!
