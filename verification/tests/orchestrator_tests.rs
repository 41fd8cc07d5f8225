use parcrypt::cipher::{CipherError, Mode};
use parcrypt::key::{normalize, NormalizedKey};
use parcrypt::orchestrator::{run, Action, Orchestrator, Phase};
use parcrypt::partition::{partition, Partition};
use parcrypt::pipeline::process;

fn data(len: usize) -> Vec<u8> {
    (0..len).map(|i| (i * 17 + 5) as u8).collect()
}

fn the_key() -> NormalizedKey {
    normalize(b"orchestr")
}

/// Steps until the machine hands out no further range, and returns the
/// ranges in the order in which they came.
fn dispatch_all(machine: &mut Orchestrator) -> Vec<Partition> {
    let mut parts = Vec::new();
    loop {
        match machine.step() {
            Action::Proceed => {
                if machine.current_phase() == Phase::Collecting {
                    return parts;
                }
            }
            Action::Dispatch(part) => parts.push(part),
            other => panic!("no {:?} before every range is handed out", other),
        }
    }
}

/// Runs the machine to its end, delivering the results in the given order
/// of workers.
fn orchestrate(
    mode: Mode,
    bytes: &[u8],
    workers: usize,
    order: &[usize],
) -> Result<Vec<u8>, CipherError> {
    let mut machine = Orchestrator::new(bytes.len(), workers);
    let parts = dispatch_all(&mut machine);
    assert_eq!(parts, partition(bytes.len(), workers));
    for &index in order {
        assert!(machine.deliver(index, process(mode, bytes, &the_key(), &parts[index])));
    }
    loop {
        match machine.step() {
            Action::Proceed => {}
            Action::Finish => break,
            other => panic!("no {:?} once every result is in", other),
        }
    }
    machine.outcome().unwrap()
}

#[test]
fn machine_walks_through_its_phases() {
    let bytes = data(40);
    let mut machine = Orchestrator::new(bytes.len(), 2);
    assert_eq!(machine.current_phase(), Phase::Idle);
    assert_eq!(machine.step(), Action::Proceed);
    assert_eq!(machine.current_phase(), Phase::Partitioning);
    assert_eq!(machine.step(), Action::Proceed);
    assert_eq!(machine.current_phase(), Phase::Dispatching);
    let first = Partition { index: 0, workers: 2, start: 0, end: 16 };
    let second = Partition { index: 1, workers: 2, start: 16, end: 40 };
    assert_eq!(machine.step(), Action::Dispatch(first));
    assert_eq!(machine.current_phase(), Phase::Dispatching);
    assert_eq!(machine.step(), Action::Dispatch(second));
    assert_eq!(machine.current_phase(), Phase::Dispatching);
    assert_eq!(machine.step(), Action::Proceed);
    assert_eq!(machine.current_phase(), Phase::Collecting);
    assert_eq!(machine.step(), Action::Collect);
    assert_eq!(machine.current_phase(), Phase::Collecting);
    assert!(machine.deliver(1, process(Mode::Encrypt, &bytes, &the_key(), &second)));
    assert_eq!(machine.step(), Action::Collect);
    assert!(machine.deliver(0, process(Mode::Encrypt, &bytes, &the_key(), &first)));
    assert_eq!(machine.step(), Action::Proceed);
    assert_eq!(machine.current_phase(), Phase::Assembling);
    assert_eq!(machine.step(), Action::Finish);
    assert_eq!(machine.current_phase(), Phase::Done);
    assert_eq!(machine.step(), Action::Finish);
    assert_eq!(machine.current_phase(), Phase::Done);
    assert_eq!(machine.outcome(), Some(run(Mode::Encrypt, &bytes, &the_key(), 2)));
}

#[test]
fn machine_output_does_not_depend_on_order_of_delivery() {
    let bytes = data(100);
    let expected = run(Mode::Encrypt, &bytes, &the_key(), 4);
    let orders: [[usize; 4]; 5] =
        [[0, 1, 2, 3], [3, 2, 1, 0], [1, 3, 0, 2], [2, 0, 3, 1], [3, 0, 1, 2]];
    for order in orders {
        assert_eq!(orchestrate(Mode::Encrypt, &bytes, 4, &order), expected);
    }
}

#[test]
fn machine_agrees_with_run() {
    for len in [0usize, 5, 8, 16, 33, 64, 100] {
        for workers in 1..6usize {
            let bytes = data(len);
            let order: Vec<usize> = (0..workers).rev().collect();
            let sealed = orchestrate(Mode::Encrypt, &bytes, workers, &order);
            assert_eq!(sealed, run(Mode::Encrypt, &bytes, &the_key(), workers));
            let ciphertext = sealed.unwrap();
            assert_eq!(
                orchestrate(Mode::Decrypt, &ciphertext, workers, &order),
                run(Mode::Decrypt, &ciphertext, &the_key(), workers)
            );
        }
    }
}

#[test]
fn machine_fails_when_a_worker_failed() {
    let mut machine = Orchestrator::new(32, 2);
    let parts = dispatch_all(&mut machine);
    assert_eq!(parts.len(), 2);
    assert!(machine.deliver(1, Err(CipherError)));
    assert!(machine.deliver(0, Ok(vec![1, 2, 3])));
    assert_eq!(machine.step(), Action::Proceed);
    assert_eq!(machine.current_phase(), Phase::Assembling);
    assert_eq!(machine.step(), Action::Finish);
    assert_eq!(machine.current_phase(), Phase::Failed);
    assert_eq!(machine.step(), Action::Finish);
    assert_eq!(machine.current_phase(), Phase::Failed);
    assert_eq!(machine.outcome(), Some(Err(CipherError)));
}

#[test]
fn machine_waits_for_every_worker_before_it_fails() {
    let mut machine = Orchestrator::new(64, 3);
    dispatch_all(&mut machine);
    assert!(machine.deliver(0, Err(CipherError)));
    assert_eq!(machine.step(), Action::Collect);
    assert_eq!(machine.current_phase(), Phase::Collecting);
    assert!(machine.deliver(2, Ok(vec![])));
    assert_eq!(machine.step(), Action::Collect);
    assert!(machine.deliver(1, Ok(vec![7])));
    assert_eq!(machine.step(), Action::Proceed);
    assert_eq!(machine.step(), Action::Finish);
    assert_eq!(machine.current_phase(), Phase::Failed);
}

#[test]
fn machine_joins_results_in_worker_order() {
    let mut machine = Orchestrator::new(64, 3);
    dispatch_all(&mut machine);
    assert!(machine.deliver(2, Ok(vec![5, 6])));
    assert!(machine.deliver(0, Ok(vec![1, 2])));
    assert!(machine.deliver(1, Ok(vec![3, 4])));
    assert_eq!(machine.step(), Action::Proceed);
    assert_eq!(machine.step(), Action::Finish);
    assert_eq!(machine.outcome(), Some(Ok(vec![1, 2, 3, 4, 5, 6])));
}

#[test]
fn machine_accepts_a_result_once() {
    let mut machine = Orchestrator::new(64, 3);
    dispatch_all(&mut machine);
    assert!(machine.deliver(1, Ok(vec![1])));
    assert!(!machine.deliver(1, Ok(vec![2])));
    assert!(!machine.deliver(1, Err(CipherError)));
    assert!(!machine.deliver(3, Ok(vec![3])));
    assert!(!machine.deliver(usize::MAX, Ok(vec![3])));
    assert!(machine.deliver(0, Ok(vec![0])));
    assert!(machine.deliver(2, Ok(vec![2])));
    assert_eq!(machine.step(), Action::Proceed);
    assert_eq!(machine.current_phase(), Phase::Assembling);
    assert!(!machine.deliver(0, Ok(vec![9])));
    assert_eq!(machine.step(), Action::Finish);
    assert!(!machine.deliver(0, Ok(vec![9])));
    assert_eq!(machine.outcome(), Some(Ok(vec![0, 1, 2])));
}

#[test]
fn machine_takes_no_result_of_a_worker_not_started() {
    let mut machine = Orchestrator::new(64, 3);
    assert!(!machine.deliver(0, Ok(vec![1])));
    assert_eq!(machine.step(), Action::Proceed);
    assert!(!machine.deliver(0, Ok(vec![1])));
    assert_eq!(machine.step(), Action::Proceed);
    assert_eq!(machine.current_phase(), Phase::Dispatching);
    assert!(!machine.deliver(0, Ok(vec![1])));
    assert!(matches!(machine.step(), Action::Dispatch(_)));
    assert!(!machine.deliver(1, Ok(vec![1])));
    assert!(machine.deliver(0, Ok(vec![1])));
    assert!(matches!(machine.step(), Action::Dispatch(_)));
    assert!(!machine.deliver(2, Ok(vec![1])));
    assert!(machine.deliver(1, Ok(vec![1])));
}

#[test]
fn machine_has_no_outcome_before_its_end() {
    assert_eq!(Orchestrator::new(64, 3).outcome(), None);
    let mut machine = Orchestrator::new(64, 3);
    machine.step();
    machine.step();
    machine.step();
    assert_eq!(machine.outcome(), None);
    let mut machine = Orchestrator::new(64, 1);
    dispatch_all(&mut machine);
    assert!(machine.deliver(0, Ok(vec![1])));
    assert_eq!(machine.step(), Action::Proceed);
    assert_eq!(machine.current_phase(), Phase::Assembling);
    assert_eq!(machine.outcome(), None);
}

#[test]
fn machine_with_no_worker_is_done_with_empty_output() {
    let mut machine = Orchestrator::new(64, 0);
    assert_eq!(dispatch_all(&mut machine), vec![]);
    assert_eq!(machine.step(), Action::Proceed);
    assert_eq!(machine.current_phase(), Phase::Assembling);
    assert_eq!(machine.step(), Action::Finish);
    assert_eq!(machine.current_phase(), Phase::Done);
    assert_eq!(machine.outcome(), Some(Ok(vec![])));
}
