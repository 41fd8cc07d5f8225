//! A run as a state machine, for a driver that starts the workers itself
//! and hands their results back in whatever order they finish.
//!
//! The machine decides; the driver acts. Each [`Orchestrator::step`] moves
//! the run on by one transition and says what to do next: start a worker on
//! a range, hand in a result, or take the outcome. Results go into one slot
//! per worker, so the order in which workers finish leaves no trace in the
//! output, which is joined in worker order once every slot is filled.

use crate::cipher::{observed, output_view, CipherError, Mode};
use crate::key::{NormalizedKey, BLOCK_SIZE};
use crate::layout::{ciphertext_len, ciphertext_partitions, split_survives};
use crate::partition::{lemma_partitions_cover, partition, partitions, Partition};
use crate::pipeline::{
    assembled, lemma_all_ok, lemma_failure_persists, outputs_over, process, range_output,
    range_outputs, run_output,
};
use crate::roundtrip::{lemma_misaligned_fails, lemma_recut_round_trip, lemma_round_trip};
use vstd::prelude::*;

verus! {

/// Where a run stands.
#[derive(Clone, Copy, Debug, PartialEq, Eq)]
pub enum Phase {
    /// Nothing has happened yet.
    Idle,
    /// The buffer is about to be cut into ranges.
    Partitioning,
    /// Ranges are handed out, one with every step.
    Dispatching,
    /// Every range is handed out; results are awaited.
    Collecting,
    /// Every result is in; the output is about to be joined.
    Assembling,
    /// The output is ready.
    Done,
    /// A worker failed; there is no output.
    Failed,
}

/// What the driver does after a step.
#[derive(Clone, Copy, Debug, PartialEq, Eq)]
pub enum Action {
    /// Step again.
    Proceed,
    /// Start a worker on this range, then step again.
    Dispatch(Partition),
    /// Deliver the result of a worker that has finished, then step again.
    Collect,
    /// Take the outcome: the run is over.
    Finish,
}

/// The content of a result slot, its bytes taken as a sequence.
pub open spec fn slot_view(slot: Option<Result<Vec<u8>, CipherError>>) -> Option<
    Result<Seq<u8>, CipherError>,
> {
    match slot {
        Some(result) => Some(output_view(result)),
        None => None,
    }
}

/// The contents of all result slots, their bytes taken as sequences.
pub open spec fn slot_views(slots: Seq<Option<Result<Vec<u8>, CipherError>>>) -> Seq<
    Option<Result<Seq<u8>, CipherError>>,
> {
    slots.map_values(|slot: Option<Result<Vec<u8>, CipherError>>| slot_view(slot))
}

/// Whether every slot holds a result.
pub open spec fn all_delivered(slots: Seq<Option<Result<Seq<u8>, CipherError>>>) -> bool {
    forall|i: int| 0 <= i < slots.len() ==> (#[trigger] slots[i]) is Some
}

/// The results in the slots, in worker order.
pub open spec fn delivered(slots: Seq<Option<Result<Seq<u8>, CipherError>>>) -> Seq<
    Result<Seq<u8>, CipherError>,
> {
    Seq::new(slots.len(), |i: int| slots[i]->Some_0)
}

/// The state of one run: its phase, the ranges, and one result slot for
/// every worker.
pub struct Orchestrator {
    phase: Phase,
    total_len: usize,
    workers: usize,
    parts: Vec<Partition>,
    next: usize,
    slots: Vec<Option<Result<Vec<u8>, CipherError>>>,
    output: Vec<u8>,
}

impl Orchestrator {
    /// The phase that the run is in.
    pub closed spec fn phase(&self) -> Phase {
        self.phase
    }

    /// Length of the buffer that the run is about.
    pub closed spec fn total_len(&self) -> usize {
        self.total_len
    }

    /// Number of workers of the run.
    pub closed spec fn workers(&self) -> usize {
        self.workers
    }

    /// Number of ranges handed out so far.
    pub closed spec fn dispatched(&self) -> nat {
        self.next as nat
    }

    /// The result slots, one for every worker once the buffer is cut.
    pub closed spec fn slots(&self) -> Seq<Option<Result<Seq<u8>, CipherError>>> {
        slot_views(self.slots@)
    }

    /// The joined output, once the run is done.
    pub closed spec fn output(&self) -> Seq<u8> {
        self.output@
    }

    /// Whether worker `index` has been started and its slot is still empty.
    pub open spec fn awaits(&self, index: int) -> bool {
        &&& self.phase() is Dispatching || self.phase() is Collecting
        &&& 0 <= index < self.dispatched()
        &&& self.slots()[index] is None
    }

    /// What holds of the state in every phase: ranges are handed out in
    /// order, only a worker that was started has a result, and a run that is
    /// over has joined exactly what is in the slots.
    pub open spec fn consistent(&self) -> bool {
        match self.phase() {
            Phase::Idle | Phase::Partitioning => self.dispatched() == 0 && self.slots().len() == 0,
            Phase::Dispatching => {
                &&& self.slots().len() == self.workers()
                &&& self.dispatched() <= self.workers()
                &&& forall|i: int|
                    self.dispatched() <= i < self.workers() ==> (#[trigger] self.slots()[i])
                        is None
            },
            Phase::Collecting => {
                &&& self.slots().len() == self.workers()
                &&& self.dispatched() == self.workers()
            },
            Phase::Assembling => {
                &&& self.slots().len() == self.workers()
                &&& self.dispatched() == self.workers()
                &&& all_delivered(self.slots())
            },
            Phase::Done => {
                &&& self.slots().len() == self.workers()
                &&& self.dispatched() == self.workers()
                &&& all_delivered(self.slots())
                &&& assembled(delivered(self.slots())) == Ok::<Seq<u8>, CipherError>(self.output())
            },
            Phase::Failed => {
                &&& self.slots().len() == self.workers()
                &&& self.dispatched() == self.workers()
                &&& all_delivered(self.slots())
                &&& assembled(delivered(self.slots())) is Err
            },
        }
    }

    /// Whether the state is one that the machine can be in.
    pub closed spec fn wf(&self) -> bool {
        &&& self.consistent()
        &&& !(self.phase is Idle || self.phase is Partitioning) ==> self.parts@ == partitions(
            self.total_len,
            self.workers,
        )
    }

    /// What one step does to a state, and what it tells the driver.
    pub open spec fn steps_to(&self, after: &Orchestrator, action: Action) -> bool {
        &&& after.total_len() == self.total_len()
        &&& after.workers() == self.workers()
        &&& match self.phase() {
            Phase::Idle => {
                &&& after.phase() is Partitioning
                &&& after.dispatched() == 0
                &&& after.slots() == self.slots()
                &&& action is Proceed
            },
            Phase::Partitioning => {
                &&& after.phase() is Dispatching
                &&& after.dispatched() == 0
                &&& after.slots() == Seq::new(
                    self.workers() as nat,
                    |i: int| None::<Result<Seq<u8>, CipherError>>,
                )
                &&& action is Proceed
            },
            Phase::Dispatching => {
                &&& after.slots() == self.slots()
                &&& if self.dispatched() < self.workers() {
                    &&& after.phase() is Dispatching
                    &&& after.dispatched() == self.dispatched() + 1
                    &&& action == Action::Dispatch(
                        partitions(self.total_len(), self.workers())[self.dispatched() as int],
                    )
                } else {
                    &&& after.phase() is Collecting
                    &&& after.dispatched() == self.dispatched()
                    &&& action is Proceed
                }
            },
            Phase::Collecting => {
                &&& after.slots() == self.slots()
                &&& after.dispatched() == self.dispatched()
                &&& if all_delivered(self.slots()) {
                    after.phase() is Assembling && action is Proceed
                } else {
                    after.phase() is Collecting && action is Collect
                }
            },
            Phase::Assembling => {
                &&& after.slots() == self.slots()
                &&& after.dispatched() == self.dispatched()
                &&& action is Finish
                &&& match assembled(delivered(self.slots())) {
                    Ok(bytes) => after.phase() is Done && after.output() == bytes,
                    Err(_) => after.phase() is Failed,
                }
            },
            Phase::Done | Phase::Failed => {
                &&& after.phase() == self.phase()
                &&& after.slots() == self.slots()
                &&& after.dispatched() == self.dispatched()
                &&& after.output() == self.output()
                &&& action is Finish
            },
        }
    }

    /// Slot by slot, the abstract slots are the views of the stored ones.
    proof fn lemma_slots(&self)
        ensures
            self.slots().len() == self.slots@.len(),
            forall|i: int|
                0 <= i < self.slots@.len() ==> #[trigger] self.slots()[i] == slot_view(
                    self.slots@[i],
                ),
            all_delivered(self.slots()) <==> forall|i: int|
                0 <= i < self.slots@.len() ==> (#[trigger] self.slots@[i]) is Some,
    {
        if all_delivered(self.slots()) {
            assert forall|i: int| 0 <= i < self.slots@.len() implies (#[trigger] self.slots@[i])
                is Some by {
                assert(self.slots()[i] is Some);
            }
        }
    }

    /// What is known of every state of the machine.
    pub proof fn lemma_consistent(&self)
        requires
            self.wf(),
        ensures
            self.consistent(),
    {
    }

    /// A run at rest, for a buffer of `total_len` bytes and `workers`
    /// workers.
    pub fn new(total_len: usize, workers: usize) -> (machine: Orchestrator)
        ensures
            machine.wf(),
            machine.phase() is Idle,
            machine.total_len() == total_len,
            machine.workers() == workers,
    {
        let machine = Orchestrator {
            phase: Phase::Idle,
            total_len,
            workers,
            parts: Vec::new(),
            next: 0,
            slots: Vec::new(),
            output: Vec::new(),
        };
        assert(machine.slots().len() == 0);
        machine
    }

    /// The phase that the run is in.
    pub fn current_phase(&self) -> (phase: Phase)
        ensures
            phase == self.phase(),
    {
        self.phase
    }

    /// Moves the run on by one transition and says what the driver does
    /// next. A run that is over stays as it is.
    pub fn step(&mut self) -> (action: Action)
        requires
            old(self).wf(),
        ensures
            final(self).wf(),
            old(self).steps_to(final(self), action),
    {
        match self.phase {
            Phase::Idle => {
                self.phase = Phase::Partitioning;
                Action::Proceed
            },
            Phase::Partitioning => {
                self.parts = partition(self.total_len, self.workers);
                self.slots = empty_slots(self.workers);
                self.phase = Phase::Dispatching;
                assert(self.slots() =~= Seq::new(
                    self.workers as nat,
                    |i: int| None::<Result<Seq<u8>, CipherError>>,
                ));
                Action::Proceed
            },
            Phase::Dispatching => {
                if self.next < self.workers {
                    let part = self.parts[self.next];
                    self.next = self.next + 1;
                    Action::Dispatch(part)
                } else {
                    self.phase = Phase::Collecting;
                    Action::Proceed
                }
            },
            Phase::Collecting => {
                proof {
                    self.lemma_slots();
                }
                if all_filled(&self.slots) {
                    self.phase = Phase::Assembling;
                    Action::Proceed
                } else {
                    Action::Collect
                }
            },
            Phase::Assembling => {
                proof {
                    self.lemma_slots();
                }
                match join_slots(&self.slots) {
                    Ok(bytes) => {
                        self.output = bytes;
                        self.phase = Phase::Done;
                    },
                    Err(_) => {
                        self.phase = Phase::Failed;
                    },
                }
                Action::Finish
            },
            Phase::Done => Action::Finish,
            Phase::Failed => Action::Finish,
        }
    }

    /// Puts the result of worker `index` into its slot. It is accepted once:
    /// the worker must have been started, and its slot must be empty.
    /// Otherwise nothing changes.
    pub fn deliver(&mut self, index: usize, result: Result<Vec<u8>, CipherError>) -> (accepted:
        bool)
        requires
            old(self).wf(),
        ensures
            final(self).wf(),
            final(self).phase() == old(self).phase(),
            final(self).total_len() == old(self).total_len(),
            final(self).workers() == old(self).workers(),
            final(self).dispatched() == old(self).dispatched(),
            final(self).output() == old(self).output(),
            accepted == old(self).awaits(index as int),
            final(self).slots() == if accepted {
                old(self).slots().update(index as int, Some(output_view(result)))
            } else {
                old(self).slots()
            },
    {
        let open = match self.phase {
            Phase::Dispatching => true,
            Phase::Collecting => true,
            _ => false,
        };
        if open && index < self.next && self.slots[index].is_none() {
            let ghost before = self.slots();
            self.slots[index] = Some(result);
            assert(self.slots() =~= before.update(index as int, Some(output_view(result))));
            true
        } else {
            false
        }
    }

    /// The outcome of a run that is over: the output where it is done, the
    /// failure where it failed. A run that is not over has none.
    pub fn outcome(self) -> (outcome: Option<Result<Vec<u8>, CipherError>>)
        requires
            self.wf(),
        ensures
            match self.phase() {
                Phase::Done => outcome matches Some(Ok(bytes)) && bytes@ == self.output(),
                Phase::Failed => outcome == Some(Err::<Vec<u8>, CipherError>(CipherError)),
                _ => outcome is None,
            },
    {
        match self.phase {
            Phase::Done => Some(Ok(self.output)),
            Phase::Failed => Some(Err(CipherError)),
            _ => None,
        }
    }
}

/// One empty slot for every worker.
fn empty_slots(workers: usize) -> (slots: Vec<Option<Result<Vec<u8>, CipherError>>>)
    ensures
        slots@.len() == workers,
        forall|i: int| 0 <= i < workers ==> (#[trigger] slots@[i]) is None,
{
    let mut slots: Vec<Option<Result<Vec<u8>, CipherError>>> = Vec::new();
    let mut i: usize = 0;
    while i < workers
        invariant
            i <= workers,
            slots@.len() == i,
            forall|j: int| 0 <= j < i ==> (#[trigger] slots@[j]) is None,
        decreases workers - i,
    {
        slots.push(None);
        i += 1;
    }
    slots
}

/// Whether every slot holds a result.
fn all_filled(slots: &Vec<Option<Result<Vec<u8>, CipherError>>>) -> (filled: bool)
    ensures
        filled == forall|i: int| 0 <= i < slots@.len() ==> (#[trigger] slots@[i]) is Some,
{
    let mut i: usize = 0;
    while i < slots.len()
        invariant
            i <= slots@.len(),
            forall|j: int| 0 <= j < i ==> (#[trigger] slots@[j]) is Some,
        decreases slots@.len() - i,
    {
        if slots[i].is_none() {
            return false;
        }
        i += 1;
    }
    true
}

/// Joins the results in the slots, in worker order.
fn join_slots(slots: &Vec<Option<Result<Vec<u8>, CipherError>>>) -> (output: Result<
    Vec<u8>,
    CipherError,
>)
    requires
        forall|i: int| 0 <= i < slots@.len() ==> (#[trigger] slots@[i]) is Some,
    ensures
        output_view(output) == assembled(delivered(slot_views(slots@))),
{
    let ghost results = delivered(slot_views(slots@));
    let mut joined: Vec<u8> = Vec::new();
    let mut i: usize = 0;
    while i < slots.len()
        invariant
            i <= slots@.len(),
            results == delivered(slot_views(slots@)),
            forall|j: int| 0 <= j < slots@.len() ==> (#[trigger] slots@[j]) is Some,
            assembled(results.take(i as int)) == Ok::<Seq<u8>, CipherError>(joined@),
        decreases slots@.len() - i,
    {
        proof {
            assert(results.take(i + 1).drop_last() =~= results.take(i as int));
            assert(results.take(i + 1).last() == output_view(slots@[i as int]->Some_0));
        }
        match &slots[i] {
            Some(Ok(bytes)) => {
                let ghost before = joined@;
                joined.extend_from_slice(bytes.as_slice());
                assert(joined@ =~= before + bytes@);
            },
            Some(Err(e)) => {
                proof {
                    lemma_failure_persists(results, i + 1, results.len() as int);
                    assert(results.take(results.len() as int) =~= results);
                }
                return Err(*e);
            },
            None => {},
        }
        i += 1;
    }
    assert(results.take(i as int) =~= results);
    Ok(joined)
}

/// A run that the machine has brought to its end gives what the pipeline
/// gives on the whole buffer, provided every slot holds the result of its
/// worker's range.
pub proof fn lemma_orchestrated(machine: Orchestrator, mode: Mode, data: Seq<u8>, key: Seq<u8>)
    requires
        machine.wf(),
        machine.phase() is Done || machine.phase() is Failed,
        machine.total_len() == data.len(),
        forall|i: int|
            0 <= i < machine.workers() ==> #[trigger] machine.slots()[i] == Some(
                range_output(
                    mode,
                    data,
                    key,
                    partitions(machine.total_len(), machine.workers())[i],
                ),
            ),
    ensures
        machine.phase() is Done ==> run_output(mode, data, key, machine.workers()) == Ok::<
            Seq<u8>,
            CipherError,
        >(machine.output()),
        machine.phase() is Failed ==> run_output(mode, data, key, machine.workers()) is Err,
{
    machine.lemma_consistent();
    assert(delivered(machine.slots()) =~= range_outputs(
        mode,
        data,
        key,
        partitions(machine.total_len(), machine.workers()),
    ));
}

/// The whole pipeline on a buffer in memory: cut it into `workers` ranges by
/// its length, cipher every range, join the results in range order. With no
/// worker the output is empty.
///
/// The machine is driven through its phases on the calling thread, each
/// worker run as its range is handed out.
///
/// Encryption always succeeds. Its output has the length that the padding
/// of each range adds up to, a single block where the input is empty, and
/// decryption over the ciphertext's own ranges gives the input back. So
/// does a run of decryption with the same number of workers, which cuts the
/// ciphertext by its length, wherever that split survives.
///
/// Decryption fails where the buffer is no whole number of blocks.
pub fn run(mode: Mode, data: &[u8], key: &NormalizedKey, workers: usize) -> (output: Result<
    Vec<u8>,
    CipherError,
>)
    ensures
        output_view(output) == run_output(mode, data@, key@, workers),
        mode is Encrypt ==> output is Ok,
        mode is Encrypt && workers >= 1 ==> (output matches Ok(ciphertext) && {
            &&& ciphertext@.len() == ciphertext_len(data@.len() as int, workers as int)
            &&& ciphertext_len(data@.len() as int, workers as int) <= usize::MAX
            &&& data@.len() == 0 ==> ciphertext@.len() == BLOCK_SIZE && run_output(
                Mode::Decrypt,
                ciphertext@,
                key@,
                workers,
            ) == Ok::<Seq<u8>, CipherError>(data@)
            &&& outputs_over(
                Mode::Decrypt,
                ciphertext@,
                key@,
                ciphertext_partitions(data@.len() as usize, workers),
            ) == Ok::<Seq<u8>, CipherError>(data@)
            &&& split_survives(data@.len() as int, workers as int) ==> run_output(
                Mode::Decrypt,
                ciphertext@,
                key@,
                workers,
            ) == Ok::<Seq<u8>, CipherError>(data@)
        }),
        mode is Decrypt && workers >= 1 && data@.len() % (BLOCK_SIZE as nat) != 0 ==> output
            is Err,
{
    let ghost parts = partitions(data@.len() as usize, workers);
    let mut machine = Orchestrator::new(data.len(), workers);
    // Idle, Partitioning: two steps until the ranges are known.
    machine.step();
    machine.step();
    // Dispatching: one step for every range.
    let mut started: usize = 0;
    while started < workers
        invariant
            machine.wf(),
            machine.phase() is Dispatching,
            machine.total_len() == data@.len(),
            machine.workers() == workers,
            machine.dispatched() == started <= workers,
            parts == partitions(data@.len() as usize, workers),
            forall|i: int|
                0 <= i < started ==> #[trigger] machine.slots()[i] == Some(
                    range_output(mode, data@, key@, parts[i]),
                ),
            forall|i: int|
                0 <= i < started && !(#[trigger] parts[i]).is_idle() ==> observed(
                    mode,
                    key@,
                    parts[i].bytes_of(data@),
                ),
        decreases workers - started,
    {
        proof {
            machine.lemma_consistent();
            lemma_partitions_cover(data.len(), workers);
        }
        match machine.step() {
            Action::Dispatch(part) => {
                let result = process(mode, data, key, &part);
                machine.deliver(part.index, result);
            },
            _ => {},
        }
        started += 1;
    }
    proof {
        machine.lemma_consistent();
    }
    // Dispatching, Collecting, Assembling: every result is in, so three
    // steps lead to the end.
    machine.step();
    machine.step();
    machine.step();
    proof {
        machine.lemma_consistent();
        lemma_orchestrated(machine, mode, data@, key@);
        if mode is Encrypt {
            lemma_all_ok(range_outputs(mode, data@, key@, parts));
        }
    }
    let output = machine.outcome().unwrap();
    proof {
        if workers >= 1 {
            match &output {
                Ok(bytes) => {
                    if mode is Encrypt {
                        assert(bytes@.len() == bytes.len());
                        lemma_round_trip(data@, key@, workers, bytes@);
                        lemma_recut_round_trip(data@, key@, workers, bytes@);
                    }
                },
                Err(_) => {},
            }
            if mode is Decrypt {
                lemma_misaligned_fails(data@, key@, workers);
            }
        }
    }
    output
}

} // verus!
