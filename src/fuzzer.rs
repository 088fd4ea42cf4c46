//! The decisions of the fuzzing loop around each target run: which inputs
//! are new, which coverage entries are new and stable, where crashes go.
use vstd::prelude::*;
use crate::context::bytes_eq;
use crate::newtypes::copy_bytes;
use crate::queue::{ExitReason, ASAN_EXIT_CODE};

verus! {

/// Size of the coverage bitmap shared with the target.
pub const BITMAP_SIZE: usize = 32768;

/// Number of recent inputs remembered to skip repeated runs.
pub const DEDUP_CAPACITY: usize = 10000;

/// Which strategy produced an input.
#[derive(Debug, Clone, Copy, PartialEq, Eq, Structural)]
pub enum ExecutionReason {
    Havoc,
    HavocRec,
    Min,
    MinRec,
    Splice,
    Det,
    DetAFL,
    Gen,
}

/// Where the bytes of an input with new coverage are also written.
#[derive(Debug, Clone, Copy, PartialEq, Eq, Structural)]
pub enum Sink {
    /// `outputs/signaled/ASAN_{id}`.
    Asan,
    /// `outputs/signaled/{sig}_{id}`.
    Signaled(i32),
    /// `outputs/timeout/{id}`.
    Timeout,
    /// Nowhere besides the queue.
    Queue,
}

/// The sink for a run that ended with `e`.
pub open spec fn sink_spec(e: ExitReason) -> Sink {
    match e {
        ExitReason::Normal(c) => if c == ASAN_EXIT_CODE { Sink::Asan } else { Sink::Queue },
        ExitReason::Timeouted => Sink::Timeout,
        ExitReason::Signaled(s) => Sink::Signaled(s),
        ExitReason::Stopped(_) => Sink::Queue,
    }
}

pub fn sink_for(e: ExitReason) -> (r: Sink)
    ensures
        r == sink_spec(e),
{
    match e {
        ExitReason::Normal(c) => if c == ASAN_EXIT_CODE { Sink::Asan } else { Sink::Queue },
        ExitReason::Timeouted => Sink::Timeout,
        ExitReason::Signaled(s) => Sink::Signaled(s),
        ExitReason::Stopped(_) => Sink::Queue,
    }
}

/// What follows a first run of an input.
#[derive(Debug, Clone, Copy, PartialEq, Eq, Structural)]
pub enum RunAction {
    /// No new coverage.
    Nothing,
    /// New coverage after a timeout: stored in the sink, not re-run.
    SinkOnly(Sink),
    /// New coverage: re-run to keep only stable entries.
    Recheck,
}

/// The step after a first run that ended with `e` and found `new_count`
/// new coverage entries.
pub fn after_first_run(e: ExitReason, new_count: usize) -> (r: RunAction)
    ensures
        new_count == 0 ==> r == RunAction::Nothing,
        new_count > 0 && e == ExitReason::Timeouted ==> r == RunAction::SinkOnly(Sink::Timeout),
        new_count > 0 && e != ExitReason::Timeouted ==> r == RunAction::Recheck,
{
    if new_count == 0 {
        RunAction::Nothing
    } else if e == ExitReason::Timeouted {
        RunAction::SinkOnly(Sink::Timeout)
    } else {
        RunAction::Recheck
    }
}

/// Where an input goes once its stable new entries are known: the sink for
/// its exit, and whether it enters the queue (AddressSanitizer catches do
/// not); nowhere when no entry survived.
pub fn after_recheck(e: ExitReason, stable_count: usize) -> (r: (Sink, bool))
    ensures
        stable_count == 0 ==> r == (Sink::Queue, false),
        stable_count > 0 ==> r == (sink_spec(e), e != ExitReason::Normal(ASAN_EXIT_CODE)),
{
    if stable_count == 0 {
        (Sink::Queue, false)
    } else {
        (sink_for(e), e != ExitReason::Normal(ASAN_EXIT_CODE))
    }
}

/// The entries from `j` on that `run` sets and `shared` does not, in order.
pub open spec fn new_bits_from(shared: Seq<u8>, run: Seq<u8>, j: int) -> Seq<usize>
    decreases run.len() - j,
{
    if j >= run.len() || j < 0 {
        Seq::empty()
    } else if run[j] != 0 && shared[j] == 0 {
        seq![j as usize] + new_bits_from(shared, run, j + 1)
    } else {
        new_bits_from(shared, run, j + 1)
    }
}

/// The entries that a run covered for the first time; they are marked in
/// `shared`, the coverage seen so far.
pub fn new_bits(shared: &mut Vec<u8>, run: &Vec<u8>) -> (res: Vec<usize>)
    requires
        old(shared)@.len() == run@.len(),
    ensures
        res@ == new_bits_from(old(shared)@, run@, 0),
        final(shared)@.len() == old(shared)@.len(),
        forall|i: int| 0 <= i < run@.len() ==> #[trigger] final(shared)@[i] ==
            if run@[i] != 0 && old(shared)@[i] == 0 { run@[i] } else { old(shared)@[i] },
{
    let ghost s0 = shared@;
    let mut res: Vec<usize> = Vec::new();
    let mut i: usize = 0;
    while i < run.len()
        invariant
            i <= run@.len(),
            shared@.len() == run@.len(),
            s0.len() == run@.len(),
            s0 == old(shared)@,
            forall|m: int| 0 <= m < run@.len() ==> #[trigger] shared@[m] ==
                if m < i && run@[m] != 0 && s0[m] == 0 { run@[m] } else { s0[m] },
            res@ + new_bits_from(s0, run@, i as int) == new_bits_from(s0, run@, 0),
        decreases run@.len() - i,
    {
        if run[i] != 0 && shared[i] == 0 {
            shared.set(i, run[i]);
            res.push(i);
            proof {
                assert(res@.drop_last() + (seq![i] + new_bits_from(s0, run@, i + 1)) =~= res@ + new_bits_from(s0, run@, i + 1));
            }
        }
        i = i + 1;
    }
    proof {
        assert(res@ =~= new_bits_from(s0, run@, 0));
    }
    res
}

/// Keeps only the entries that `run` sets: what survives a re-run of the
/// same input.
pub fn retain_stable(bits: &mut Vec<usize>, run: &Vec<u8>)
    ensures
        final(bits)@ == old(bits)@.filter(|b: usize| b < run@.len() && run@[b as int] != 0),
{
    let ghost b0 = bits@;
    let mut kept: Vec<usize> = Vec::new();
    let mut i: usize = 0;
    while i < bits.len()
        invariant
            i <= bits@.len(),
            bits@ == b0,
            kept@ == b0.subrange(0, i as int).filter(|b: usize| b < run@.len() && run@[b as int] != 0),
        decreases bits@.len() - i,
    {
        let b = bits[i];
        proof {
            assert(b0.subrange(0, i + 1).drop_last() =~= b0.subrange(0, i as int));
            reveal(Seq::filter);
        }
        if b < run.len() && run[b] != 0 {
            kept.push(b);
        }
        i = i + 1;
    }
    proof {
        assert(b0.subrange(0, i as int) =~= b0);
    }
    *bits = kept;
}

/// Whether `run` sets every entry of `bits`.
pub fn has_bits(run: &Vec<u8>, bits: &Vec<usize>) -> (r: bool)
    ensures
        r == forall|k: int| 0 <= k < bits@.len() ==> #[trigger] bits@[k] < run@.len() && run@[bits@[k] as int] != 0,
{
    let mut i: usize = 0;
    while i < bits.len()
        invariant
            i <= bits@.len(),
            forall|k: int| 0 <= k < i ==> #[trigger] bits@[k] < run@.len() && run@[bits@[k] as int] != 0,
        decreases bits@.len() - i,
    {
        let b = bits[i];
        if b >= run.len() || run[b] == 0 {
            return false;
        }
        i = i + 1;
    }
    true
}

/// The inputs tried last, oldest first, at most `capacity` of them.
pub struct InputDedup {
    pub recent: Vec<Vec<u8>>,
    pub capacity: usize,
}

/// What one submission does to the window of recent inputs `w`: whether
/// the input was seen, and the window after it.
pub open spec fn dedup_step(w: Seq<Seq<u8>>, capacity: int, x: Seq<u8>) -> (bool, Seq<Seq<u8>>) {
    if w.contains(x) {
        (true, w)
    } else if w.len() >= capacity && w.len() > 0 {
        (false, w.drop_first().push(x))
    } else {
        (false, w.push(x))
    }
}

impl InputDedup {
    pub open spec fn window(&self) -> Seq<Seq<u8>> {
        self.recent@.map_values(|v: Vec<u8>| v@)
    }

    pub fn new(capacity: usize) -> (r: Self)
        ensures
            r.window().len() == 0,
            r.capacity == capacity,
    {
        InputDedup { recent: Vec::new(), capacity }
    }

    /// Whether `code` is among the recent inputs; if not, it is remembered,
    /// forgetting the oldest input when the window is full.
    pub fn input_is_known(&mut self, code: &Vec<u8>) -> (r: bool)
        ensures
            (r, final(self).window()) == dedup_step(old(self).window(), old(self).capacity as int, code@),
            final(self).capacity == old(self).capacity,
    {
        let mut i: usize = 0;
        while i < self.recent.len()
            invariant
                i <= self.recent@.len(),
                self.recent == old(self).recent,
                self.capacity == old(self).capacity,
                forall|j: int| 0 <= j < i ==> #[trigger] self.window()[j] != code@,
            decreases self.recent@.len() - i,
        {
            if bytes_eq(&self.recent[i], code) {
                proof {
                    assert(self.window()[i as int] == code@);
                }
                return true;
            }
            i = i + 1;
        }
        let ghost w0 = self.window();
        proof {
            assert(!w0.contains(code@));
        }
        if self.recent.len() >= self.capacity && self.recent.len() > 0 {
            self.recent.remove(0);
            proof {
                assert(self.window() =~= w0.drop_first());
            }
        }
        let ghost w1 = self.window();
        self.recent.push(copy_bytes(code));
        proof {
            assert(self.window() =~= w1.push(code@));
        }
        false
    }
}

/// Submitting the same bytes twice in a row runs the target at most once:
/// the second submission is recognised, whatever the window held before.
pub proof fn lemma_repeat_is_known(w: Seq<Seq<u8>>, capacity: int, x: Seq<u8>)
    requires
        capacity >= 1,
    ensures
        dedup_step(dedup_step(w, capacity, x).1, capacity, x).0,
{
    let w1 = dedup_step(w, capacity, x).1;
    if !w.contains(x) {
        assert(w1[w1.len() - 1] == x);
    }
}

} // verus!
