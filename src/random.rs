//! Random draws, and the weighted choice made from them.
use rand::Rng;
use vstd::prelude::*;

verus! {

/// Relies on rand's `Rng::gen_range(low, high)` on the thread-local
/// generator: a value in `[low, high)`; it panics when `low >= high`, which
/// `requires` rules out.
#[verifier::external_body]
pub(crate) fn random_below(n: u64) -> (r: u64)
    requires
        n > 0,
    ensures
        r < n,
{
    rand::thread_rng().gen_range(0, n)
}

/// The sum of `w[0..j]`.
pub open spec fn wsum(w: Seq<u64>, j: int) -> int
    decreases j,
{
    if j <= 0 { 0 } else { wsum(w, j - 1) + w[j - 1] }
}

pub proof fn lemma_wsum_mono(w: Seq<u64>, a: int, b: int)
    requires
        0 <= a <= b <= w.len(),
    ensures
        wsum(w, a) <= wsum(w, b),
        wsum(w, a) >= 0,
    decreases b - a,
{
    if a < b {
        lemma_wsum_mono(w, a, b - 1);
    } else {
        lemma_wsum_nonneg(w, a);
    }
}

/// The sum of a prefix depends on that prefix alone.
pub proof fn lemma_wsum_prefix(a: Seq<u64>, b: Seq<u64>, j: int)
    requires
        0 <= j <= a.len(),
        j <= b.len(),
        forall|i: int| 0 <= i < j ==> a[i] == b[i],
    ensures
        wsum(a, j) == wsum(b, j),
    decreases j,
{
    if j > 0 {
        lemma_wsum_prefix(a, b, j - 1);
    }
}

proof fn lemma_wsum_nonneg(w: Seq<u64>, a: int)
    requires
        0 <= a <= w.len(),
    ensures
        wsum(w, a) >= 0,
    decreases a,
{
    if a > 0 {
        lemma_wsum_nonneg(w, a - 1);
    }
}

/// The index that a draw `x` below the total weight selects: the first whose
/// cumulative weight exceeds `x`. Each index is selected by exactly as many
/// draws as its weight, and an index of weight 0 never is.
pub fn pick_weighted(w: &Vec<u64>, x: u64) -> (i: usize)
    requires
        x < wsum(w@, w@.len() as int),
        wsum(w@, w@.len() as int) <= u64::MAX,
    ensures
        i < w@.len(),
        wsum(w@, i as int) <= x < wsum(w@, i + 1),
        w@[i as int] > 0,
{
    let mut acc: u64 = 0;
    let mut i: usize = 0;
    while i < w.len()
        invariant
            i <= w@.len(),
            acc == wsum(w@, i as int),
            acc <= x,
            x < wsum(w@, w@.len() as int),
            wsum(w@, w@.len() as int) <= u64::MAX,
        decreases w@.len() - i,
    {
        proof {
            lemma_wsum_mono(w@, i + 1, w@.len() as int);
        }
        let next = acc + w[i];
        if next > x {
            return i;
        }
        acc = next;
        i = i + 1;
    }
    i
}

/// A draw of an index with probability proportional to its weight.
pub fn sample_weighted(w: &Vec<u64>) -> (i: usize)
    requires
        wsum(w@, w@.len() as int) > 0,
        wsum(w@, w@.len() as int) <= u64::MAX,
    ensures
        i < w@.len(),
        w@[i as int] > 0,
{
    let mut total: u64 = 0;
    let mut j: usize = 0;
    while j < w.len()
        invariant
            j <= w@.len(),
            total == wsum(w@, j as int),
            wsum(w@, w@.len() as int) <= u64::MAX,
        decreases w@.len() - j,
    {
        proof {
            lemma_wsum_mono(w@, j + 1, w@.len() as int);
        }
        total = total + w[j];
        j = j + 1;
    }
    let x = random_below(total);
    pick_weighted(w, x)
}

} // verus!
