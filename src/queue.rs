//! The coverage-indexed queue of inputs and the state of each input.
use vstd::prelude::*;
use crate::newtypes::NodeID;
use crate::tree::Tree;

verus! {

/// Linux's number for the virtual timer signal, sent on a target timeout.
pub const SIGVTALRM: i32 = 26;

/// Exit code with which AddressSanitizer ends a target.
pub const ASAN_EXIT_CODE: u8 = 223;

/// How a target run ended.
#[derive(Debug, Clone, Copy, PartialEq, Eq, Hash, Structural)]
pub enum ExitReason {
    Normal(u8),
    Timeouted,
    Signaled(i32),
    Stopped(i32),
}

/// The low seven bits of a wait status.
pub open spec fn low7(status: i32) -> int {
    (status as u32 % 128) as int
}

/// Bits 8 to 15 of a wait status.
pub open spec fn high8(status: i32) -> int {
    ((status as u32 / 256) % 256) as int
}

/// The reason encoded in a raw wait status, as Linux encodes it; `None` for
/// a status that reports none of exit, signal or stop.
pub open spec fn exit_reason_of(status: i32) -> Option<ExitReason> {
    if 1 <= low7(status) <= 126 {
        if low7(status) == SIGVTALRM { Some(ExitReason::Timeouted) } else { Some(ExitReason::Signaled(low7(status) as i32)) }
    } else if status as u32 % 256 == 0x7f {
        Some(ExitReason::Stopped(high8(status) as i32))
    } else if low7(status) == 0 {
        Some(ExitReason::Normal(high8(status) as u8))
    } else {
        None
    }
}

impl ExitReason {
    /// Classifies a raw wait status: killed by the timer signal is a timeout,
    /// by another signal a crash; then stopped; then a normal exit.
    pub fn from_int(status: i32) -> (r: ExitReason)
        requires
            exit_reason_of(status) is Some,
        ensures
            Some(r) == exit_reason_of(status),
    {
        let u = status as u32;
        let l7 = u % 128;
        let h8 = (u / 256) % 256;
        if 1 <= l7 && l7 <= 126 {
            if l7 as i32 == SIGVTALRM {
                return ExitReason::Timeouted;
            }
            return ExitReason::Signaled(l7 as i32);
        }
        if u % 256 == 0x7f {
            return ExitReason::Stopped(h8 as i32);
        }
        ExitReason::Normal(h8 as u8)
    }

    /// Whether the run is a crash: a signal, or an AddressSanitizer exit.
    pub fn is_crash(&self) -> (r: bool)
        ensures
            r == (*self == ExitReason::Normal(ASAN_EXIT_CODE) || *self is Signaled),
    {
        match self {
            ExitReason::Normal(c) => *c == ASAN_EXIT_CODE,
            ExitReason::Signaled(_) => true,
            _ => false,
        }
    }
}

/// Where an input stands in its processing.
#[derive(Debug, Clone, Copy)]
pub enum InputState {
    /// Minimizing, from the given node on.
    Init(usize),
    /// Deterministic rule mutation and byte mutation, with their cursors.
    Det((usize, usize)),
    DetAFL(usize),
    Random,
}

/// What one dispatch of work on an input reported.
#[derive(Debug, Clone, Copy, PartialEq, Eq, Structural)]
pub enum WorkReport {
    /// Minimization of the current window of nodes ran; `true` once the
    /// whole tree is minimized.
    Minimized(bool),
    /// Rule substitution and byte mutation of the current windows ran; each
    /// flag is `true` once its part covered the whole tree.
    Deterministic(bool, bool),
    /// Byte mutation of the current window ran; `true` once done.
    DeterministicAfl(bool),
    /// The random mutations of this round ran.
    RandomDone,
}

pub open spec fn add_window(c: usize, window: usize) -> usize {
    if c + window > usize::MAX { usize::MAX } else { (c + window) as usize }
}

/// The state of an input after a dispatch: `None` when the work of this
/// round is done and the input goes back to the queue.
pub open spec fn advance_spec(state: InputState, report: WorkReport, window: usize) -> Option<InputState> {
    match (state, report) {
        (InputState::Init(c), WorkReport::Minimized(done)) =>
            Some(if done { InputState::Det((0, 0)) } else { InputState::Init(add_window(c, window)) }),
        (InputState::Det((r, a)), WorkReport::Deterministic(rules_done, afl_done)) =>
            Some(if rules_done && afl_done {
                InputState::Random
            } else {
                InputState::Det((if rules_done { r } else { add_window(r, window) }, if afl_done { a } else { add_window(a, window) }))
            }),
        (InputState::DetAFL(c), WorkReport::DeterministicAfl(done)) =>
            Some(if done { InputState::Random } else { InputState::DetAFL(add_window(c, window)) }),
        (InputState::Random, WorkReport::RandomDone) => None,
        _ => Some(state),
    }
}

fn add_window_exec(c: usize, window: usize) -> (r: usize)
    ensures
        r == add_window(c, window),
{
    if c > usize::MAX - window { usize::MAX } else { c + window }
}

/// Moves an input through its stages: minimization, deterministic
/// mutation, random mutation; a report that does not fit the state leaves
/// it as it is.
pub fn advance(state: InputState, report: WorkReport, window: usize) -> (r: Option<InputState>)
    ensures
        r == advance_spec(state, report, window),
{
    match (state, report) {
        (InputState::Init(c), WorkReport::Minimized(done)) => {
            Some(if done { InputState::Det((0, 0)) } else { InputState::Init(add_window_exec(c, window)) })
        },
        (InputState::Det((r, a)), WorkReport::Deterministic(rules_done, afl_done)) => {
            if rules_done && afl_done {
                Some(InputState::Random)
            } else {
                let r2 = if rules_done { r } else { add_window_exec(r, window) };
                let a2 = if afl_done { a } else { add_window_exec(a, window) };
                Some(InputState::Det((r2, a2)))
            }
        },
        (InputState::DetAFL(c), WorkReport::DeterministicAfl(done)) => {
            Some(if done { InputState::Random } else { InputState::DetAFL(add_window_exec(c, window)) })
        },
        (InputState::Random, WorkReport::RandomDone) => None,
        _ => Some(state),
    }
}

/// An input of the queue.
pub struct QueueItem {
    pub id: usize,
    pub tree: Tree,
    /// The bitmap entries that this input was the first to cover.
    pub fresh_bits: Vec<usize>,
    /// The bitmap of its first run.
    pub all_bits: Vec<u8>,
    pub exitreason: ExitReason,
    pub state: InputState,
    pub recursions: Option<Vec<(NodeID, NodeID)>>,
    pub execution_time: u32,
}

impl QueueItem {
    pub fn new(
        id: usize,
        tree: Tree,
        fresh_bits: Vec<usize>,
        all_bits: Vec<u8>,
        exitreason: ExitReason,
        execution_time: u32,
    ) -> (r: Self)
        ensures
            r.id == id,
            r.tree == tree,
            r.fresh_bits@ == fresh_bits@,
            r.all_bits@ == all_bits@,
            r.exitreason == exitreason,
            r.state == InputState::Init(0),
            r.recursions is None,
            r.execution_time == execution_time,
    {
        QueueItem { id, tree, fresh_bits, all_bits, exitreason, state: InputState::Init(0), recursions: None, execution_time }
    }
}

/// Whether some queued input covers bitmap entry `i`.
pub open spec fn covered(bti: Seq<Vec<usize>>, i: int) -> bool {
    0 <= i < bti.len() && bti[i]@.len() > 0
}

/// Whether every entry set in `bits` is covered already.
pub open spec fn all_covered(bti: Seq<Vec<usize>>, bits: Seq<u8>) -> bool {
    forall|i: int| 0 <= i < bits.len() && #[trigger] bits[i] != 0 ==> covered(bti, i)
}

/// The entries set in `bits` from index `j` on, in increasing order, that
/// `bti` does not cover.
pub open spec fn fresh_from(bti: Seq<Vec<usize>>, bits: Seq<u8>, j: int) -> Seq<usize>
    decreases bits.len() - j,
{
    if j >= bits.len() || j < 0 {
        Seq::empty()
    } else if bits[j] != 0 && !covered(bti, j) {
        seq![j as usize] + fresh_from(bti, bits, j + 1)
    } else {
        fresh_from(bti, bits, j + 1)
    }
}

/// The inputs still to process, those processed in this round, and for each
/// bitmap entry the ids of the inputs that cover it.
pub struct Queue {
    pub inputs: Vec<QueueItem>,
    pub processed: Vec<QueueItem>,
    pub bit_to_inputs: Vec<Vec<usize>>,
    pub current_id: usize,
    pub work_dir: Vec<u8>,
}

impl Queue {
    pub fn new(work_dir: Vec<u8>) -> (r: Self)
        ensures
            r.inputs@.len() == 0,
            r.processed@.len() == 0,
            r.bit_to_inputs@.len() == 0,
            r.current_id == 0,
            r.work_dir@ == work_dir@,
    {
        Queue { inputs: Vec::new(), processed: Vec::new(), bit_to_inputs: Vec::new(), current_id: 0, work_dir }
    }

    fn is_covered(&self, i: usize) -> (r: bool)
        ensures
            r == covered(self.bit_to_inputs@, i as int),
    {
        i < self.bit_to_inputs.len() && self.bit_to_inputs[i].len() > 0
    }

    fn all_bits_covered(&self, bits: &Vec<u8>) -> (r: bool)
        ensures
            r == all_covered(self.bit_to_inputs@, bits@),
    {
        let mut i: usize = 0;
        while i < bits.len()
            invariant
                i <= bits@.len(),
                forall|j: int| 0 <= j < i && #[trigger] bits@[j] != 0 ==> covered(self.bit_to_inputs@, j),
            decreases bits@.len() - i,
        {
            if bits[i] != 0 && !self.is_covered(i) {
                return false;
            }
            i = i + 1;
        }
        true
    }

    /// Registers `id` under every entry set in `bits`; returns the entries
    /// that were not covered before.
    fn register(&mut self, bits: &Vec<u8>, id: usize) -> (fresh: Vec<usize>)
        ensures
            fresh@ == fresh_from(old(self).bit_to_inputs@, bits@, 0),
            final(self).bit_to_inputs@.len() >= old(self).bit_to_inputs@.len(),
            final(self).bit_to_inputs@.len() >= bits@.len(),
            forall|i: int| 0 <= i < final(self).bit_to_inputs@.len() ==> (#[trigger] final(self).bit_to_inputs@[i])@ ==
                if i < bits@.len() && bits@[i] != 0 {
                    (if i < old(self).bit_to_inputs@.len() { old(self).bit_to_inputs@[i]@ } else { Seq::empty() }).push(id)
                } else if i < old(self).bit_to_inputs@.len() {
                    old(self).bit_to_inputs@[i]@
                } else {
                    Seq::empty()
                },
            final(self).inputs == old(self).inputs,
            final(self).processed == old(self).processed,
            final(self).current_id == old(self).current_id,
            final(self).work_dir == old(self).work_dir,
    {
        let ghost b0 = self.bit_to_inputs@;
        while self.bit_to_inputs.len() < bits.len()
            invariant
                self.bit_to_inputs@.len() >= b0.len(),
                forall|m: int| 0 <= m < b0.len() ==> #[trigger] self.bit_to_inputs@[m] == b0[m],
                forall|m: int| b0.len() <= m < self.bit_to_inputs@.len() ==> (#[trigger] self.bit_to_inputs@[m])@.len() == 0,
                self.inputs == old(self).inputs,
                self.processed == old(self).processed,
                self.current_id == old(self).current_id,
                self.work_dir == old(self).work_dir,
            decreases bits@.len() - self.bit_to_inputs@.len(),
        {
            self.bit_to_inputs.push(Vec::new());
        }
        let ghost b1 = self.bit_to_inputs@;
        let mut fresh: Vec<usize> = Vec::new();
        let mut i: usize = 0;
        proof {
            assert forall|m: int| 0 <= m < b1.len() implies covered(b1, m) == covered(b0, m) by {}
            lemma_fresh_same(b0, b1, bits@, 0);
        }
        while i < bits.len()
            invariant
                i <= bits@.len(),
                bits@.len() <= b1.len(),
                self.bit_to_inputs@.len() == b1.len(),
                b1.len() >= b0.len(),
                forall|m: int| 0 <= m < b0.len() ==> #[trigger] b1[m] == b0[m],
                forall|m: int| b0.len() <= m < b1.len() ==> (#[trigger] b1[m])@.len() == 0,
                forall|m: int| 0 <= m < b1.len() ==> (#[trigger] self.bit_to_inputs@[m])@ ==
                    if m < i && bits@[m] != 0 { b1[m]@.push(id) } else { b1[m]@ },
                fresh@ + fresh_from(b1, bits@, i as int) == fresh_from(b0, bits@, 0),
                self.inputs == old(self).inputs,
                self.processed == old(self).processed,
                self.current_id == old(self).current_id,
                self.work_dir == old(self).work_dir,
                b0 == old(self).bit_to_inputs@,
            decreases bits@.len() - i,
        {
            if bits[i] != 0 {
                if self.bit_to_inputs[i].len() == 0 {
                    fresh.push(i);
                    proof {
                        assert(fresh_from(b1, bits@, i as int) == seq![i] + fresh_from(b1, bits@, i + 1));
                    }
                }
                let mut list = crate::newtypes::copy_ids(&self.bit_to_inputs[i]);
                list.push(id);
                self.bit_to_inputs.set(i, list);
            }
            i = i + 1;
        }
        proof {
            assert(fresh@ =~= fresh_from(b0, bits@, 0));
        }
        fresh
    }

    /// Adds an input unless every entry it covers is covered already; returns
    /// the id it got. The caller stores the input's bytes under that id.
    pub fn add(&mut self, tree: Tree, all_bits: Vec<u8>, exitreason: ExitReason, execution_time: u32) -> (r: Option<usize>)
        ensures
            all_covered(old(self).bit_to_inputs@, all_bits@) ==> r is None && final(self).inputs@ == old(self).inputs@
                && final(self).bit_to_inputs@ == old(self).bit_to_inputs@
                && final(self).current_id == old(self).current_id,
            !all_covered(old(self).bit_to_inputs@, all_bits@) ==> r == Some(old(self).current_id)
                && final(self).inputs@.len() == old(self).inputs@.len() + 1
                && final(self).inputs@.drop_last() == old(self).inputs@
                && final(self).inputs@.last().id == old(self).current_id
                && final(self).inputs@.last().tree == tree
                && final(self).inputs@.last().exitreason == exitreason
                && final(self).inputs@.last().execution_time == execution_time
                && final(self).inputs@.last().recursions is None
                && final(self).bit_to_inputs@.len() >= old(self).bit_to_inputs@.len()
                && final(self).bit_to_inputs@.len() >= all_bits@.len()
                && forall|i: int| 0 <= i < final(self).bit_to_inputs@.len() ==> (#[trigger] final(self).bit_to_inputs@[i])@ ==
                    if i < all_bits@.len() && all_bits@[i] != 0 {
                        (if i < old(self).bit_to_inputs@.len() { old(self).bit_to_inputs@[i]@ } else { Seq::empty() }).push(old(self).current_id)
                    } else if i < old(self).bit_to_inputs@.len() {
                        old(self).bit_to_inputs@[i]@
                    } else {
                        Seq::empty()
                    }
                && final(self).inputs@.last().fresh_bits@ == fresh_from(old(self).bit_to_inputs@, all_bits@, 0)
                && final(self).inputs@.last().all_bits@ == all_bits@
                && final(self).inputs@.last().state == InputState::Init(0)
                && final(self).current_id == (if old(self).current_id == usize::MAX { 0 } else { (old(self).current_id + 1) as usize })
                && forall|i: int| 0 <= i < all_bits@.len() && #[trigger] all_bits@[i] != 0 ==>
                    final(self).bit_to_inputs@[i]@.contains(old(self).current_id),
            final(self).processed == old(self).processed,
            final(self).work_dir == old(self).work_dir,
    {
        if self.all_bits_covered(&all_bits) {
            return None;
        }
        let id = self.current_id;
        let ghost t0 = tree;
        let fresh = self.register(&all_bits, id);
        proof {
            assert forall|i: int| 0 <= i < all_bits@.len() && #[trigger] all_bits@[i] != 0 implies
                self.bit_to_inputs@[i]@.contains(id) by {
                assert(self.bit_to_inputs@[i]@.last() == id);
            }
        }
        self.inputs.push(QueueItem::new(id, tree, fresh, all_bits, exitreason, execution_time));
        if self.current_id == usize::MAX {
            self.current_id = 0;
        } else {
            self.current_id = self.current_id + 1;
        }
        Some(id)
    }

    /// Takes the last pending input and withdraws its id from every bitmap
    /// entry, so that other inputs covering the same entries stay wanted.
    pub fn pop(&mut self) -> (r: Option<QueueItem>)
        ensures
            old(self).inputs@.len() == 0 ==> r is None && final(self).inputs@ == old(self).inputs@
                && final(self).bit_to_inputs@ == old(self).bit_to_inputs@,
            old(self).inputs@.len() > 0 ==> r == Some(old(self).inputs@.last())
                && final(self).inputs@ == old(self).inputs@.drop_last()
                && final(self).bit_to_inputs@.len() == old(self).bit_to_inputs@.len()
                && forall|k: int, x: usize| 0 <= k < final(self).bit_to_inputs@.len() ==>
                    (#[trigger] final(self).bit_to_inputs@[k]@.contains(x) <==> (old(self).bit_to_inputs@[k]@.contains(x) && x != old(self).inputs@.last().id)),
            final(self).processed == old(self).processed,
            final(self).current_id == old(self).current_id,
            final(self).work_dir == old(self).work_dir,
    {
        match self.inputs.pop() {
            None => None,
            Some(item) => {
                let id = item.id;
                let n = self.bit_to_inputs.len();
                let mut k: usize = 0;
                while k < n
                    invariant
                        k <= n,
                        n == self.bit_to_inputs@.len(),
                        n == old(self).bit_to_inputs@.len(),
                        self.inputs@ == old(self).inputs@.drop_last(),
                        self.processed == old(self).processed,
                        self.current_id == old(self).current_id,
                        self.work_dir == old(self).work_dir,
                        id == old(self).inputs@.last().id,
                        forall|m: int, x: usize| 0 <= m < k ==>
                            (#[trigger] self.bit_to_inputs@[m]@.contains(x) <==> (old(self).bit_to_inputs@[m]@.contains(x) && x != id)),
                        forall|m: int| k <= m < n ==> #[trigger] self.bit_to_inputs@[m] == old(self).bit_to_inputs@[m],
                    decreases n - k,
                {
                    let old_list = &self.bit_to_inputs[k];
                    let mut list: Vec<usize> = Vec::new();
                    let mut j: usize = 0;
                    while j < old_list.len()
                        invariant
                            j <= old_list@.len(),
                            forall|p: int| 0 <= p < list@.len() ==> #[trigger] list@[p] != id && old_list@.contains(list@[p]),
                            forall|q: int| 0 <= q < j && #[trigger] old_list@[q] != id ==> list@.contains(old_list@[q]),
                        decreases old_list@.len() - j,
                    {
                        let x = old_list[j];
                        let ghost l0 = list@;
                        if x != id {
                            list.push(x);
                            proof {
                                assert(list@[l0.len() as int] == x);
                                assert forall|q: int| 0 <= q < j + 1 && #[trigger] old_list@[q] != id implies list@.contains(old_list@[q]) by {
                                    if q < j {
                                        let p = choose|p: int| 0 <= p < l0.len() && l0[p] == old_list@[q];
                                        assert(list@[p] == old_list@[q]);
                                    }
                                }
                            }
                        }
                        j = j + 1;
                    }
                    proof {
                        assert forall|x: usize| list@.contains(x) <==> (old_list@.contains(x) && x != id) by {
                            if old_list@.contains(x) && x != id {
                                let q = choose|q: int| 0 <= q < old_list@.len() && old_list@[q] == x;
                                assert(old_list@[q] != id);
                            }
                            if list@.contains(x) {
                                let p = choose|p: int| 0 <= p < list@.len() && list@[p] == x;
                                assert(list@[p] != id);
                            }
                        }
                    }
                    self.bit_to_inputs.set(k, list);
                    k = k + 1;
                }
                Some(item)
            },
        }
    }

    /// Ends the work on `item`: it is dropped if every entry it covers is
    /// covered by other inputs (returns `false`, and the caller deletes its
    /// stored bytes); else it is kept for the next round and re-registered.
    pub fn finished(&mut self, item: QueueItem) -> (kept: bool)
        ensures
            kept == !all_covered(old(self).bit_to_inputs@, item.all_bits@),
            kept ==> final(self).processed@ == old(self).processed@.push(item)
                && final(self).bit_to_inputs@.len() >= old(self).bit_to_inputs@.len()
                && final(self).bit_to_inputs@.len() >= item.all_bits@.len()
                && forall|i: int| 0 <= i < final(self).bit_to_inputs@.len() ==> (#[trigger] final(self).bit_to_inputs@[i])@ ==
                    if i < item.all_bits@.len() && item.all_bits@[i] != 0 {
                        (if i < old(self).bit_to_inputs@.len() { old(self).bit_to_inputs@[i]@ } else { Seq::empty() }).push(item.id)
                    } else if i < old(self).bit_to_inputs@.len() {
                        old(self).bit_to_inputs@[i]@
                    } else {
                        Seq::empty()
                    },
            final(self).current_id == old(self).current_id,
            !kept ==> final(self).processed@ == old(self).processed@ && final(self).bit_to_inputs@ == old(self).bit_to_inputs@,
            final(self).inputs == old(self).inputs,
    {
        if self.all_bits_covered(&item.all_bits) {
            return false;
        }
        let _ = self.register(&item.all_bits, item.id);
        proof {
            assert forall|i: int| 0 <= i < item.all_bits@.len() && #[trigger] item.all_bits@[i] != 0 implies
                self.bit_to_inputs@[i]@.contains(item.id) by {
                assert(self.bit_to_inputs@[i]@.last() == item.id);
            }
        }
        self.processed.push(item);
        true
    }

    /// The number of pending inputs.
    pub fn len(&self) -> (r: usize)
        ensures
            r == self.inputs@.len(),
    {
        self.inputs.len()
    }

    /// Starts another pass: the processed inputs become pending again.
    pub fn new_round(&mut self)
        ensures
            final(self).inputs@ == old(self).inputs@ + old(self).processed@,
            final(self).processed@.len() == 0,
            final(self).bit_to_inputs == old(self).bit_to_inputs,
            final(self).current_id == old(self).current_id,
            final(self).work_dir == old(self).work_dir,
    {
        self.inputs.append(&mut self.processed);
    }
}

proof fn lemma_fresh_same(b0: Seq<Vec<usize>>, b1: Seq<Vec<usize>>, bits: Seq<u8>, j: int)
    requires
        forall|m: int| 0 <= m < b0.len() ==> #[trigger] b1[m] == b0[m],
        forall|m: int| b0.len() <= m < b1.len() ==> (#[trigger] b1[m])@.len() == 0,
        b1.len() >= b0.len(),
    ensures
        fresh_from(b1, bits, j) == fresh_from(b0, bits, j),
    decreases bits.len() - j,
{
    if j < bits.len() && j >= 0 {
        assert(covered(b1, j) == covered(b0, j));
        lemma_fresh_same(b0, b1, bits, j + 1);
    }
}

} // verus!
