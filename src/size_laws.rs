//! How the count tables relate to the minimal sizes: nothing is counted
//! below a minimal size.
use vstd::prelude::*;
use crate::context::{min_sizes_fixpoint, size_from_mins, Context};
use crate::counts::{ntc, rhs16, rhs32, rhs_entry, rlen, rules_sum, split_sum, split_term, nt_entry, sat16, sat32};
use crate::newtypes::NTermID;
use crate::rule::Rule;

verus! {

/// The sum of the minimal sizes of the references of `nts` from the `k`-th on.
pub open spec fn tail_min(mins: Seq<usize>, nts: Seq<NTermID>, k: int) -> int
    decreases nts.len() - k,
{
    if k >= nts.len() || k < 0 { 0 } else { mins[nts[k] as int] + tail_min(mins, nts, k + 1) }
}

/// The sum of the minimal sizes of the first `m` references of `nts`.
pub open spec fn head_min(mins: Seq<usize>, nts: Seq<NTermID>, m: int) -> int
    decreases m,
{
    if m <= 0 { 0 } else { head_min(mins, nts, m - 1) + mins[nts[m - 1] as int] }
}

proof fn lemma_head_tail(mins: Seq<usize>, nts: Seq<NTermID>, m: int)
    requires
        0 <= m <= nts.len(),
    ensures
        head_min(mins, nts, m) + tail_min(mins, nts, m) == tail_min(mins, nts, 0),
    decreases m,
{
    if m > 0 {
        lemma_head_tail(mins, nts, m - 1);
    }
}

proof fn lemma_size_is_head(mins: Seq<usize>, nts: Seq<NTermID>, m: int)
    requires
        0 <= m <= nts.len(),
        size_from_mins(mins, nts.subrange(0, m)) is Some,
    ensures
        size_from_mins(mins, nts.subrange(0, m)) matches Some(v) && v == 1 + head_min(mins, nts, m),
    decreases m,
{
    let p = nts.subrange(0, m);
    if m > 0 {
        assert(p.drop_last() =~= nts.subrange(0, m - 1));
        assert(p.last() == nts[m - 1]);
        assert(size_from_mins(mins, nts.subrange(0, m - 1)) is Some);
        lemma_size_is_head(mins, nts, m - 1);
        let prev = size_from_mins(mins, nts.subrange(0, m - 1)).unwrap();
        assert(size_from_mins(mins, p) == Some((prev + mins[nts[m - 1] as int]) as usize));
    } else {
        assert(p =~= Seq::<NTermID>::empty());
    }
}

/// A rule's minimal size is one more than the minimal sizes of its references.
pub proof fn lemma_rule_min(mins: Seq<usize>, nts: Seq<NTermID>, v: usize)
    requires
        size_from_mins(mins, nts) == Some(v),
    ensures
        v == 1 + tail_min(mins, nts, 0),
{
    assert(nts.subrange(0, nts.len() as int) =~= nts);
    lemma_size_is_head(mins, nts, nts.len() as int);
    lemma_head_tail(mins, nts, nts.len() as int);
}

proof fn lemma_split_pos(rules: Seq<Rule>, nt_l: Seq<Seq<u16>>, rh_l: Seq<Seq<u32>>, r: int, k: int, n: int, s: int)
    requires
        split_sum(rules, nt_l, rh_l, r, k, n, s) > 0,
    ensures
        exists|t: int| 0 <= t < s && #[trigger] split_term(rules, nt_l, rh_l, r, k, n, t) > 0,
    decreases s,
{
    if s > 0 {
        if split_term(rules, nt_l, rh_l, r, k, n, s - 1) <= 0 {
            lemma_split_pos(rules, nt_l, rh_l, r, k, n, s - 1);
        }
    }
}

proof fn lemma_rules_pos(rules: Seq<Rule>, rh_l: Seq<Seq<u32>>, rids: Seq<usize>, j: int, n: int)
    requires
        rules_sum(rules, rh_l, rids, j, n) > 0,
    ensures
        exists|i: int| 0 <= i < j && #[trigger] rhs16(rules, rh_l, rids[i] as int, 0, n - 1) > 0,
    decreases j,
{
    if j > 0 {
        if rhs16(rules, rh_l, rids[j - 1] as int, 0, n - 1) <= 0 {
            lemma_rules_pos(rules, rh_l, rids, j - 1, n);
        }
    }
}

/// A nonterminal has no tree smaller than its minimal size.
pub proof fn lemma_nt_count_lower(c: &Context, nt: int, n: int)
    requires
        c.ready(),
        !c.dumb,
        0 <= nt < c.num_nts(),
        0 <= n < c.max_len,
        ntc(c.nt_counts(), nt, n) > 0,
    ensures
        c.nts_to_min_size@[nt] != 0,
        n >= c.nts_to_min_size@[nt],
    decreases n, 0int,
{
    let rs = c.rules@;
    let ids = c.nt_rules_view()[nt];
    assert(c.nt_counts()[n][nt] as int == nt_entry(rs, c.nt_rules_view(), c.rhs_counts(), nt, n));
    assert(rules_sum(rs, c.rhs_counts(), ids, ids.len() as int, n) > 0);
    lemma_rules_pos(rs, c.rhs_counts(), ids, ids.len() as int, n);
    let i = choose|i: int| 0 <= i < ids.len() && #[trigger] rhs16(rs, c.rhs_counts(), ids[i] as int, 0, n - 1) > 0;
    let r = ids[i] as int;
    assert(r < rs.len() && rs[r].nonterm == nt);
    lemma_rhs_count_lower(c, r, 0, n - 1);
    let v = c.rules_to_min_size@[r];
    assert(size_from_mins(c.nts_to_min_size@, rs[r].nonterms@) == Some(v));
    lemma_rule_min(c.nts_to_min_size@, rs[r].nonterms@, v);
}

/// The references of a rule from the `k`-th on need at least their
/// minimal sizes.
pub proof fn lemma_rhs_count_lower(c: &Context, r: int, k: int, n: int)
    requires
        c.ready(),
        !c.dumb,
        0 <= r < c.rules@.len(),
        0 <= k <= rlen(c.rules@, r),
        0 <= n < c.max_len,
        rhs32(c.rules@, c.rhs_counts(), r, k, n) > 0,
    ensures
        n >= tail_min(c.nts_to_min_size@, c.rules@[r].nonterms@, k),
    decreases n, 1 + rlen(c.rules@, r) - k,
{
    let rs = c.rules@;
    let nts = rs[r].nonterms@;
    assert(rhs32(rs, c.rhs_counts(), r, k, n) == rhs_entry(rs, c.nt_counts(), c.rhs_counts(), r, k, n));
    if k < rlen(rs, r) {
        assert(split_sum(rs, c.nt_counts(), c.rhs_counts(), r, k, n, n + 1) > 0);
        lemma_split_pos(rs, c.nt_counts(), c.rhs_counts(), r, k, n, n + 1);
        let t = choose|t: int| 0 <= t < n + 1 && #[trigger] split_term(rs, c.nt_counts(), c.rhs_counts(), r, k, n, t) > 0;
        let a = rhs16(rs, c.rhs_counts(), r, k + 1, t);
        let b = ntc(c.nt_counts(), nts[k] as int, n - t);
        assert(a >= 0);
        assert(b >= 0);
        assert(a > 0 && b > 0) by (nonlinear_arith) requires sat16(a * b) > 0, a >= 0, b >= 0;
        lemma_rhs_count_lower(c, r, k + 1, t);
        crate::context::lemma_refs_nonterms(rs[r], c.num_nts());
        lemma_nt_count_lower(c, nts[k] as int, n - t);
    }
}

/// When the references of a rule from the `k`-th on share exactly the sum of
/// their minimal sizes, the only split that `get_random_len` can return
/// gives the `k`-th reference its minimal size.
pub proof fn lemma_min_split(c: &Context, r: int, k: int, len: int, res: int)
    requires
        c.ready(),
        !c.dumb,
        0 <= r < c.rules@.len(),
        0 <= k < rlen(c.rules@, r),
        0 <= len < c.max_len,
        len == tail_min(c.nts_to_min_size@, c.rules@[r].nonterms@, k),
        0 <= res <= len,
        split_term(c.rules@, c.nt_counts(), c.rhs_counts(), r, k, len, len - res) > 0,
    ensures
        res == c.nts_to_min_size@[c.rules@[r].nonterms@[k] as int],
{
    let rs = c.rules@;
    let nts = rs[r].nonterms@;
    let a = rhs16(rs, c.rhs_counts(), r, k + 1, len - res);
    let b = ntc(c.nt_counts(), nts[k] as int, res);
    assert(a >= 0);
    assert(b >= 0);
    assert(a > 0 && b > 0) by (nonlinear_arith) requires sat16(a * b) > 0, a >= 0, b >= 0;
    lemma_rhs_count_lower(c, r, k + 1, len - res);
    crate::context::lemma_refs_nonterms(rs[r], c.num_nts());
    lemma_nt_count_lower(c, nts[k] as int, res);
}

proof fn lemma_split_ge_term(rules: Seq<Rule>, nt_l: Seq<Seq<u16>>, rh_l: Seq<Seq<u32>>, r: int, k: int, n: int, s: int, t: int)
    requires
        0 <= t < s,
    ensures
        split_sum(rules, nt_l, rh_l, r, k, n, s) >= split_term(rules, nt_l, rh_l, r, k, n, t),
    decreases s,
{
    crate::counts::lemma_sums_nonneg(rules, nt_l, rh_l, r, k, n, s - 1);
    let a = rhs16(rules, rh_l, r, k + 1, s - 1);
    let b = ntc(nt_l, rules[r].nonterms@[k] as int, n - (s - 1));
    assert(a * b >= 0) by (nonlinear_arith) requires a >= 0, b >= 0;
    if t < s - 1 {
        lemma_split_ge_term(rules, nt_l, rh_l, r, k, n, s - 1, t);
    }
}

proof fn lemma_rules_ge_term(rules: Seq<Rule>, rh_l: Seq<Seq<u32>>, rids: Seq<usize>, j: int, n: int, i: int)
    requires
        0 <= i < j,
    ensures
        rules_sum(rules, rh_l, rids, j, n) >= rhs16(rules, rh_l, rids[i] as int, 0, n - 1),
    decreases j,
{
    lemma_rules_nonneg(rules, rh_l, rids, j - 1, n);
    if i < j - 1 {
        lemma_rules_ge_term(rules, rh_l, rids, j - 1, n, i);
    }
}

proof fn lemma_rules_nonneg(rules: Seq<Rule>, rh_l: Seq<Seq<u32>>, rids: Seq<usize>, j: int, n: int)
    ensures
        rules_sum(rules, rh_l, rids, j, n) >= 0,
    decreases j,
{
    if j > 0 {
        lemma_rules_nonneg(rules, rh_l, rids, j - 1, n);
    }
}

/// Every nonterminal has a tree of exactly its minimal size (when that size
/// lies below the table bound).
pub proof fn lemma_count_at_min(c: &Context, nt: int)
    requires
        c.ready(),
        !c.dumb,
        0 <= nt < c.num_nts(),
        c.nts_to_min_size@[nt] != 0,
        c.nts_to_min_size@[nt] < c.max_len,
    ensures
        ntc(c.nt_counts(), nt, c.nts_to_min_size@[nt] as int) > 0,
    decreases c.nts_to_min_size@[nt], 1int, 0int,
{
    let rs = c.rules@;
    let m = c.nts_to_min_size@[nt] as int;
    let r = choose|r: int| 0 <= r < rs.len() && rs[r].nonterm == nt && c.rules_to_min_size@[r] == m;
    lemma_rule_min(c.nts_to_min_size@, rs[r].nonterms@, c.rules_to_min_size@[r]);
    lemma_rhs_at_tail(c, r, 0);
    let ids = c.nt_rules_view()[nt];
    assert(ids.contains(r as usize));
    let i = choose|i: int| 0 <= i < ids.len() && ids[i] == r as usize;
    lemma_rules_ge_term(rs, c.rhs_counts(), ids, ids.len() as int, m, i);
    assert(tail_min(c.nts_to_min_size@, rs[r].nonterms@, 0) == m - 1);
    assert(rhs32(rs, c.rhs_counts(), r, 0, m - 1) > 0);
    assert(rhs16(rs, c.rhs_counts(), ids[i] as int, 0, m - 1) > 0);
    assert(rules_sum(rs, c.rhs_counts(), ids, ids.len() as int, m) > 0);
    assert(c.nt_counts()[m][nt] as int == nt_entry(rs, c.nt_rules_view(), c.rhs_counts(), nt, m));
}

/// The references of a rule from the `k`-th on can share exactly the sum of
/// their minimal sizes (when it lies below the table bound).
pub proof fn lemma_rhs_at_tail(c: &Context, r: int, k: int)
    requires
        c.ready(),
        !c.dumb,
        0 <= r < c.rules@.len(),
        0 <= k <= rlen(c.rules@, r),
        1 + tail_min(c.nts_to_min_size@, c.rules@[r].nonterms@, 0) == c.rules_to_min_size@[r],
        tail_min(c.nts_to_min_size@, c.rules@[r].nonterms@, k) < c.max_len,
    ensures
        rhs32(c.rules@, c.rhs_counts(), r, k, tail_min(c.nts_to_min_size@, c.rules@[r].nonterms@, k)) > 0,
    decreases c.rules_to_min_size@[r], 0int, rlen(c.rules@, r) - k,
{
    let rs = c.rules@;
    let nts = rs[r].nonterms@;
    let mins = c.nts_to_min_size@;
    let n = tail_min(mins, nts, k);
    lemma_tail_nonneg(mins, nts, k);
    assert(rhs32(rs, c.rhs_counts(), r, k, n) == rhs_entry(rs, c.nt_counts(), c.rhs_counts(), r, k, n));
    if k < rlen(rs, r) {
        let head = nts[k] as int;
        let t = tail_min(mins, nts, k + 1);
        lemma_tail_nonneg(mins, nts, k + 1);
        lemma_rhs_at_tail(c, r, k + 1);
        crate::context::lemma_refs_nonterms(rs[r], c.num_nts());
        lemma_tail_ge(mins, nts, 0, k);
        assert(size_from_mins(mins, nts) is Some);
        lemma_no_unknown(mins, nts, k);
        lemma_count_at_min(c, head);
        let a = rhs16(rs, c.rhs_counts(), r, k + 1, t);
        let b = ntc(c.nt_counts(), head, n - t);
        assert(a > 0 && b > 0);
        assert(a * b > 0) by (nonlinear_arith) requires a > 0, b > 0;
        lemma_split_ge_term(rs, c.nt_counts(), c.rhs_counts(), r, k, n, n + 1, t);
    }
}

proof fn lemma_tail_nonneg(mins: Seq<usize>, nts: Seq<NTermID>, k: int)
    ensures
        tail_min(mins, nts, k) >= 0,
    decreases nts.len() - k,
{
    if 0 <= k < nts.len() {
        lemma_tail_nonneg(mins, nts, k + 1);
    }
}

/// The tail sum from `j` covers the minimal size of each reference from `j` on.
pub proof fn lemma_tail_ge(mins: Seq<usize>, nts: Seq<NTermID>, j: int, k: int)
    requires
        0 <= j <= k < nts.len(),
    ensures
        tail_min(mins, nts, j) >= tail_min(mins, nts, k),
        tail_min(mins, nts, j) >= mins[nts[k] as int],
    decreases k - j,
{
    lemma_tail_nonneg(mins, nts, k + 1);
    if j < k {
        lemma_tail_ge(mins, nts, j + 1, k);
    }
}

/// A rule whose size is known references no nonterminal of unknown size.
pub proof fn lemma_no_unknown(mins: Seq<usize>, nts: Seq<NTermID>, k: int)
    requires
        0 <= k < nts.len(),
        size_from_mins(mins, nts) is Some,
    ensures
        mins[nts[k] as int] != 0,
{
    assert(nts.subrange(0, nts.len() as int) =~= nts);
    lemma_prefix_known(mins, nts, nts.len() as int, k);
}

proof fn lemma_prefix_known(mins: Seq<usize>, nts: Seq<NTermID>, m: int, k: int)
    requires
        0 <= k < m <= nts.len(),
        size_from_mins(mins, nts.subrange(0, m)) is Some,
    ensures
        mins[nts[k] as int] != 0,
    decreases m,
{
    let p = nts.subrange(0, m);
    assert(p.drop_last() =~= nts.subrange(0, m - 1));
    assert(p.last() == nts[m - 1]);
    if k < m - 1 {
        lemma_prefix_known(mins, nts, m - 1, k);
    }
}

/// When the references of a rule from the `k`-th on share exactly the sum
/// of their minimal sizes, a split exists: `get_random_len` may be called.
pub proof fn lemma_min_split_exists(c: &Context, r: int, k: int)
    requires
        c.ready(),
        !c.dumb,
        0 <= r < c.rules@.len(),
        0 <= k < rlen(c.rules@, r),
        tail_min(c.nts_to_min_size@, c.rules@[r].nonterms@, k) < c.max_len,
    ensures
        rhs32(c.rules@, c.rhs_counts(), r, k, tail_min(c.nts_to_min_size@, c.rules@[r].nonterms@, k)) > 0,
{
    let rs = c.rules@;
    assert(size_from_mins(c.nts_to_min_size@, rs[r].nonterms@) == Some(c.rules_to_min_size@[r]));
    lemma_rule_min(c.nts_to_min_size@, rs[r].nonterms@, c.rules_to_min_size@[r]);
    lemma_rhs_at_tail(c, r, k);
}

/// The tail sums shrink by each reference's minimal size.
pub proof fn lemma_tail_bounds(mins: Seq<usize>, nts: Seq<NTermID>, k: int)
    requires
        0 <= k < nts.len(),
    ensures
        tail_min(mins, nts, k) == mins[nts[k] as int] + tail_min(mins, nts, k + 1),
        tail_min(mins, nts, k + 1) >= 0,
        tail_min(mins, nts, 0) >= tail_min(mins, nts, k),
{
    lemma_tail_nonneg(mins, nts, k + 1);
    lemma_tail_ge(mins, nts, 0, k);
}

} // verus!
