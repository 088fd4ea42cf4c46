//! State shared by the workers of one fuzzing session, and its settings.
use vstd::prelude::*;
use crate::queue::Queue;

verus! {

/// Settings of a fuzzing session.
#[derive(Clone)]
pub struct Config {
    pub number_of_threads: u8,
    pub thread_size: usize,
    pub save_thread_size: usize,
    pub number_of_generate_inputs: u16,
    pub number_of_deterministic_mutations: usize,
    pub max_tree_size: usize,
    pub bitmap_size: usize,
    pub path_to_bin_target: String,
    pub path_to_grammar: String,
    pub path_to_workdir: String,
    pub save_intervall: u64,
    pub save_state: bool,
    /// Only generate inputs, never mutate them.
    pub no_feedback_mode: bool,
    /// Keep a copy of every input run, cycling through a bounded number of files.
    pub dump_mode: bool,
    pub arguments: Vec<String>,
}

/// The queue, the coverage seen so far (of normal runs at index 0, of
/// crashing runs at index 1), and counters of what found new coverage.
pub struct GlobalSharedState {
    pub queue: Queue,
    pub bitmaps: Vec<Vec<u8>>,
    pub execution_count: u64,
    pub average_executions_per_sec: u32,
    pub bits_found_by_havoc: u64,
    pub bits_found_by_havoc_rec: u64,
    pub bits_found_by_min: u64,
    pub bits_found_by_min_rec: u64,
    pub bits_found_by_splice: u64,
    pub bits_found_by_det: u64,
    pub bits_found_by_det_afl: u64,
    pub bits_found_by_gen: u64,
    pub asan_found_by_havoc: u64,
    pub asan_found_by_havoc_rec: u64,
    pub asan_found_by_min: u64,
    pub asan_found_by_min_rec: u64,
    pub asan_found_by_splice: u64,
    pub asan_found_by_det: u64,
    pub asan_found_by_det_afl: u64,
    pub asan_found_by_gen: u64,
    pub last_found_asan: String,
    pub last_found_sig: String,
    pub last_timeout: String,
    pub state_saved: String,
    pub total_found_asan: u64,
    pub total_found_sig: u64,
}

impl GlobalSharedState {
    /// A fresh session: an empty queue, no coverage, all counters at zero.
    pub fn new(work_dir: Vec<u8>) -> (r: Self)
        ensures
            r.queue.inputs@.len() == 0,
            r.queue.processed@.len() == 0,
            r.queue.bit_to_inputs@.len() == 0,
            r.queue.work_dir@ == work_dir@,
            r.bitmaps@.len() == 0,
            r.execution_count == 0,
            r.average_executions_per_sec == 0,
            r.bits_found_by_havoc == 0 && r.bits_found_by_havoc_rec == 0 && r.bits_found_by_min == 0
                && r.bits_found_by_min_rec == 0 && r.bits_found_by_splice == 0 && r.bits_found_by_det == 0
                && r.bits_found_by_det_afl == 0 && r.bits_found_by_gen == 0,
            r.asan_found_by_havoc == 0 && r.asan_found_by_havoc_rec == 0 && r.asan_found_by_min == 0
                && r.asan_found_by_min_rec == 0 && r.asan_found_by_splice == 0 && r.asan_found_by_det == 0
                && r.asan_found_by_det_afl == 0 && r.asan_found_by_gen == 0,
            r.total_found_asan == 0,
            r.total_found_sig == 0,
            r.last_found_asan@ == "Not found yet."@,
            r.last_found_sig@ == "Not found yet."@,
            r.last_timeout@ == "No Timeout yet."@,
            r.state_saved@ == "State not saved yet."@,
    {
        GlobalSharedState {
            queue: Queue::new(work_dir),
            bitmaps: Vec::new(),
            execution_count: 0,
            average_executions_per_sec: 0,
            bits_found_by_havoc: 0,
            bits_found_by_havoc_rec: 0,
            bits_found_by_min: 0,
            bits_found_by_min_rec: 0,
            bits_found_by_splice: 0,
            bits_found_by_det: 0,
            bits_found_by_det_afl: 0,
            bits_found_by_gen: 0,
            asan_found_by_havoc: 0,
            asan_found_by_havoc_rec: 0,
            asan_found_by_min: 0,
            asan_found_by_min_rec: 0,
            asan_found_by_splice: 0,
            asan_found_by_det: 0,
            asan_found_by_det_afl: 0,
            asan_found_by_gen: 0,
            last_found_asan: "Not found yet.".to_owned(),
            last_found_sig: "Not found yet.".to_owned(),
            last_timeout: "No Timeout yet.".to_owned(),
            state_saved: "State not saved yet.".to_owned(),
            total_found_asan: 0,
            total_found_sig: 0,
        }
    }
}

} // verus!
