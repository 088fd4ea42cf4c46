use gramfuzz::fuzzer::{after_first_run, after_recheck, RunAction, has_bits, new_bits, retain_stable, sink_for, InputDedup, Sink};
use gramfuzz::queue::{ExitReason, InputState, Queue};
use gramfuzz::tree::Tree;

fn tree() -> Tree {
    Tree { rules: vec![], sizes: vec![], paren: vec![] }
}

#[test]
fn exit_status_classification() {
    assert_eq!(ExitReason::from_int(223 << 8), ExitReason::Normal(223));
    assert_eq!(ExitReason::from_int(0), ExitReason::Normal(0));
    assert_eq!(ExitReason::from_int(26), ExitReason::Timeouted);
    assert_eq!(ExitReason::from_int(11), ExitReason::Signaled(11));
    assert_eq!(ExitReason::from_int(11 | 0x80), ExitReason::Signaled(11));
    assert_eq!(ExitReason::from_int((19 << 8) | 0x7f), ExitReason::Stopped(19));
    assert!(ExitReason::Normal(223).is_crash());
    assert!(ExitReason::Signaled(6).is_crash());
    assert!(!ExitReason::Normal(1).is_crash());
    assert!(!ExitReason::Timeouted.is_crash());
}

#[test]
fn crash_sinks() {
    assert_eq!(sink_for(ExitReason::Normal(223)), Sink::Asan);
    assert_eq!(sink_for(ExitReason::Normal(0)), Sink::Queue);
    assert_eq!(sink_for(ExitReason::Timeouted), Sink::Timeout);
    assert_eq!(sink_for(ExitReason::Signaled(11)), Sink::Signaled(11));
    assert_eq!(sink_for(ExitReason::Stopped(19)), Sink::Queue);
}

#[test]
fn queue_keeps_only_new_coverage() {
    let mut q = Queue::new(b"/tmp/".to_vec());
    assert_eq!(q.add(tree(), vec![0, 1, 0, 1], ExitReason::Normal(0), 5), Some(0));
    assert_eq!(q.inputs[0].fresh_bits, vec![1, 3]);
    assert!(matches!(q.inputs[0].state, InputState::Init(0)));
    // Nothing new: dropped.
    assert_eq!(q.add(tree(), vec![0, 1, 0, 0], ExitReason::Normal(0), 5), None);
    assert_eq!(q.add(tree(), vec![1, 1], ExitReason::Normal(0), 5), Some(1));
    assert_eq!(q.inputs[1].fresh_bits, vec![0]);
    assert_eq!(q.len(), 2);
    assert_eq!(q.bit_to_inputs[1], vec![0, 1]);

    let item = q.pop().unwrap();
    assert_eq!(item.id, 1);
    assert_eq!(q.bit_to_inputs[1], vec![0]);
    assert!(q.bit_to_inputs[0].is_empty());
    // Entry 0 is covered by nobody else: the input is kept.
    assert!(q.finished(item));
    assert_eq!(q.processed.len(), 1);
    let first = q.pop().unwrap();
    assert_eq!(first.id, 0);
    assert!(q.finished(first));
    q.new_round();
    assert_eq!(q.len(), 2);
    assert!(q.processed.is_empty());
}

#[test]
fn queue_drops_dominated_input() {
    let mut q = Queue::new(Vec::new());
    q.add(tree(), vec![1, 1], ExitReason::Normal(0), 1);
    q.add(tree(), vec![0, 0, 1], ExitReason::Normal(0), 1);
    let wide = q.pop().unwrap();
    assert!(q.finished(wide));
    let narrow = q.pop().unwrap();
    assert_eq!(narrow.id, 0);
    assert!(q.finished(narrow));
    let mut q2 = Queue::new(Vec::new());
    q2.add(tree(), vec![1], ExitReason::Normal(0), 1);
    q2.add(tree(), vec![1, 1], ExitReason::Normal(0), 1);
    let a = q2.pop().unwrap();
    let b = q2.pop().unwrap();
    assert!(q2.finished(a));
    assert!(!q2.finished(b));
}

#[test]
fn fresh_edges_and_flaky_filter() {
    let mut shared = vec![0u8, 3, 0, 0];
    let run = vec![1u8, 1, 0, 7];
    let fresh = new_bits(&mut shared, &run);
    assert_eq!(fresh, vec![0, 3]);
    assert_eq!(shared, vec![1, 3, 0, 7]);
    assert!(new_bits(&mut shared, &run).is_empty());
    let mut bits = vec![0, 3, 9];
    retain_stable(&mut bits, &vec![0u8, 0, 0, 1]);
    assert_eq!(bits, vec![3]);
    assert!(has_bits(&run, &vec![0, 3]));
    assert!(!has_bits(&run, &vec![2]));
    assert!(has_bits(&run, &vec![]));
}

#[test]
fn duplicate_inputs_run_once() {
    let mut d = InputDedup::new(2);
    let mut runs = 0;
    for input in [b"x".to_vec(), b"x".to_vec(), b"y".to_vec(), b"x".to_vec(), b"z".to_vec(), b"x".to_vec()] {
        if !d.input_is_known(&input) {
            runs += 1;
        }
    }
    // x, y run; x is still remembered; z evicts x; x runs again.
    assert_eq!(runs, 4);
    assert_eq!(d.recent, vec![b"z".to_vec(), b"x".to_vec()]);
}

#[test]
fn run_triage() {
    assert_eq!(after_first_run(ExitReason::Normal(0), 0), RunAction::Nothing);
    assert_eq!(after_first_run(ExitReason::Timeouted, 3), RunAction::SinkOnly(Sink::Timeout));
    assert_eq!(after_first_run(ExitReason::Signaled(11), 1), RunAction::Recheck);
    assert_eq!(after_recheck(ExitReason::Normal(223), 2), (Sink::Asan, false));
    assert_eq!(after_recheck(ExitReason::Signaled(11), 2), (Sink::Signaled(11), true));
    assert_eq!(after_recheck(ExitReason::Normal(0), 0), (Sink::Queue, false));
}
